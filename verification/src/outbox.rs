//! Bytes on their way out of a connection that does not always take them.

use vstd::prelude::*;
use crate::protocol::{framed, write_frame};
use crate::ws::duplex::Written;

verus! {

/// Frames queued for a connection.
pub struct Outbox {
    out: Vec<u8>,
    out_pos: usize,
}

impl View for Outbox {
    type V = Seq<u8>;

    /// The bytes not yet written.
    closed spec fn view(&self) -> Seq<u8> {
        self.out@.skip(self.out_pos as int)
    }
}

/// What is left to do after a write.
#[derive(Clone, Copy, PartialEq, Eq, Structural)]
pub enum Flush {
    /// Nothing: all is written.
    Done,
    /// Write the rest.
    WriteMore,
    /// Wait until the connection takes more.
    Wait,
    /// Report the failed write.
    Fail,
}

impl Outbox {
    /// The cursor stands within the bytes.
    pub closed spec fn wf(self) -> bool {
        self.out_pos <= self.out@.len()
    }

    pub fn new() -> (r: Self)
        ensures
            r.wf(),
            r@ == Seq::<u8>::empty(),
    {
        let r = Outbox { out: Vec::new(), out_pos: 0 };
        assert(r@ =~= Seq::<u8>::empty());
        r
    }

    /// Queues one envelope, in its frame.
    pub fn enqueue(&mut self, envelope: &[u8])
        requires
            old(self).wf(),
        ensures
            final(self).wf(),
            final(self)@ == old(self)@ + framed(envelope@),
    {
        write_frame(&mut self.out, envelope);
        assert(self@ =~= old(self)@ + framed(envelope@));
    }

    /// The bytes not yet written.
    pub fn queued(&self) -> (r: &[u8])
        requires
            self.wf(),
        ensures
            r@ == self@,
    {
        let total: usize = self.out.len();
        let r: &[u8] = vstd::slice::slice_subrange(self.out.as_slice(), self.out_pos, total);
        assert(r@ =~= self@);
        r
    }

    /// Takes note of what a write of the queued bytes came to, and says what is left to do.
    /// A connection that takes nothing is waited for.
    pub fn flush(&mut self, written: Written) -> (r: Flush)
        requires
            old(self).wf(),
            written matches Written::Took(n) ==> n <= old(self)@.len(),
        ensures
            final(self).wf(),
            final(self)@ == (match written {
                Written::Took(n) => old(self)@.skip(n as int),
                _ => old(self)@,
            }),
            r == (match written {
                Written::Took(n) => if old(self)@.len() == n {
                    Flush::Done
                } else if n == 0 {
                    Flush::Wait
                } else {
                    Flush::WriteMore
                },
                Written::Blocked => Flush::Wait,
                Written::Failed => Flush::Fail,
            }),
    {
        match written {
            Written::Blocked => Flush::Wait,
            Written::Failed => Flush::Fail,
            Written::Took(n) => {
                let total: usize = self.out.len();
                self.out_pos = self.out_pos + n;
                if self.out_pos == total {
                    self.out.clear();
                    self.out_pos = 0;
                    assert(self@ =~= old(self)@.skip(n as int));
                    Flush::Done
                } else {
                    assert(self@ =~= old(self)@.skip(n as int));
                    if n == 0 {
                        Flush::Wait
                    } else {
                        Flush::WriteMore
                    }
                }
            },
        }
    }
}

} // verus!
