//! The buffer of a connection that is read one byte at a time.

use vstd::prelude::*;
use crate::text::copy_range;

verus! {

/// The number of bytes to ask of a connection in one read.
pub const CHUNK_SIZE: usize = 1024;

/// What a cursor answers when it is asked for the next byte.
pub enum CursorStep {
    /// The next byte.
    Byte(u8),
    /// No byte is buffered: the connection has to be read.
    NeedData,
    /// The cursor is closed and hands out nothing.
    Closed,
}

/// The buffer between a connection and a reader that takes one byte at a
/// time. The connection is read in chunks by whoever owns it; the cursor
/// keeps the bytes of a chunk that were not yet taken, and whether the
/// stream is still open.
pub struct ByteCursor {
    active: bool,
    data: Vec<u8>,
    rptr: usize,
}

impl ByteCursor {
    #[verifier::type_invariant]
    spec fn inv(self) -> bool {
        self.rptr <= self.data@.len()
    }

    /// Whether the cursor is open.
    pub closed spec fn active(self) -> bool {
        self.active
    }

    /// The buffered bytes that were not yet taken.
    pub closed spec fn pending(self) -> Seq<u8> {
        self.data@.skip(self.rptr as int)
    }

    /// An open cursor with nothing buffered.
    pub fn new() -> (c: ByteCursor)
        ensures
            c.active(),
            c.pending() == Seq::<u8>::empty(),
    {
        let c = ByteCursor { active: true, data: Vec::new(), rptr: 0 };
        assert(c.pending() =~= Seq::<u8>::empty());
        c
    }

    /// Whether the cursor is open.
    pub fn is_active(&self) -> (r: bool)
        ensures
            r == self.active(),
    {
        self.active
    }

    /// Closes the cursor: from now on it hands out nothing.
    pub fn close(&mut self)
        ensures
            !final(self).active(),
            final(self).pending() == old(self).pending(),
    {
        proof {
            use_type_invariant(&*self);
        }
        self.active = false;
    }

    /// Takes the next byte. A closed cursor answers `Closed` whatever it
    /// holds; an open one hands out the first pending byte, or asks for
    /// data where none is pending.
    pub fn poll(&mut self) -> (step: CursorStep)
        ensures
            final(self).active() == old(self).active(),
            match step {
                CursorStep::Closed => !old(self).active() && final(self).pending() == old(
                    self,
                ).pending(),
                CursorStep::Byte(b) => old(self).active() && old(self).pending().len() > 0 && b
                    == old(self).pending()[0] && final(self).pending() == old(
                    self,
                ).pending().drop_first(),
                CursorStep::NeedData => old(self).active() && old(self).pending().len() == 0
                    && final(self).pending().len() == 0,
            },
    {
        proof {
            use_type_invariant(&*self);
        }
        if !self.active {
            return CursorStep::Closed;
        }
        if self.rptr < self.data.len() {
            let byte = self.data[self.rptr];
            self.rptr = self.rptr + 1;
            assert(self.pending() =~= old(self).pending().drop_first());
            return CursorStep::Byte(byte);
        }
        CursorStep::NeedData
    }

    /// Takes in what a read of the connection gave, and hands out its
    /// first byte. An empty chunk is the end of the stream: nothing is
    /// handed out. Bytes that were still pending stay in front of the new
    /// ones.
    pub fn refill(&mut self, chunk: &[u8]) -> (r: Option<u8>)
        ensures
            final(self).active() == old(self).active(),
            ({
                let all = old(self).pending() + chunk@;
                match r {
                    Some(b) => chunk@.len() > 0 && b == all[0] && final(self).pending()
                        == all.drop_first(),
                    None => chunk@.len() == 0 && final(self).pending() == all,
                }
            }),
    {
        proof {
            use_type_invariant(&*self);
        }
        let ghost all = self.pending() + chunk@;
        if chunk.len() == 0 {
            assert(all =~= self.pending());
            return None;
        }
        let mut data = copy_range(self.data.as_slice(), self.rptr, self.data.len());
        let mut i: usize = 0;
        while i < chunk.len()
            invariant
                i <= chunk@.len(),
                data@ == old(self).pending() + chunk@.take(i as int),
            decreases chunk@.len() - i,
        {
            data.push(chunk[i]);
            i += 1;
            assert(chunk@.take(i as int) =~= chunk@.take(i - 1).push(chunk@[i - 1]));
        }
        assert(chunk@.take(i as int) =~= chunk@);
        let first = data[0];
        self.rptr = 0;
        self.data = data;
        self.rptr = 1;
        assert(self.pending() =~= all.drop_first());
        Some(first)
    }
}

} // verus!
