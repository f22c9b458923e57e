//! The buffer pipeline: reusable chunks, and the pool they travel through.
//!
//! In the pipelined topology one reader fills chunks and several workers
//! drain them, with two pools between them: empty buffers travelling back to
//! the reader and full chunks travelling to the workers. This module holds
//! the pool's state logic — the stack of items and the one-way closed flag —
//! which the embedding program wraps in its lock and condition variable; the
//! blocking itself is outside the library, so `take` may only be called once
//! there is an item to take or the pool is closed, which is exactly the
//! condition the embedding program waits for.

use vstd::prelude::*;

use crate::records::NEWLINE;
use crate::records::scanner_visible;
use crate::records::table_absorb_stream;
use crate::records::wf_stream;
use crate::scan::scan_window;
use crate::scanner::find_byte;
use crate::scanner::lemma_find_byte;
use crate::scanner::lemma_rfind_byte;
use crate::scanner::rfind_byte;
use crate::table::CustomHashMap;

verus! {

/// A reusable byte buffer, with the logical length that marks the end of the
/// last complete record within it.
pub struct Chunk {
    pub buf: Vec<u8>,
    pub len: usize,
}

impl Chunk {
    /// The bytes a worker processes: the buffer up to the logical length.
    pub open spec fn view(&self) -> Seq<u8> {
        self.buf@.take(self.len as int)
    }

    /// The logical length lies within the buffer and ends on a record
    /// boundary.
    pub open spec fn wf(&self) -> bool {
        &&& self.len <= self.buf@.len()
        &&& (self.len == 0 || self.buf@[self.len - 1] == NEWLINE)
    }
}

/// A pool of items shuttled between the reader and the workers, with the
/// reader's end-of-input signal.
pub struct Pool<T> {
    pub items: Vec<T>,
    pub closed: bool,
}

impl<T> Pool<T> {
    /// The items currently in the pool, oldest first.
    pub open spec fn view(&self) -> Seq<T> {
        self.items@
    }

    /// An empty, open pool.
    pub fn new() -> (p: Pool<T>)
        ensures
            p@ == Seq::<T>::empty(),
            !p.closed,
    {
        Pool { items: Vec::new(), closed: false }
    }

    /// Takes the most recently returned item. On an empty pool this may only
    /// be called once the pool is closed — an open empty pool means the
    /// caller has to wait — and then returns nothing: the signal that no
    /// more work will arrive.
    pub fn take(&mut self) -> (taken: Option<T>)
        requires
            old(self)@.len() > 0 || old(self).closed,
        ensures
            final(self).closed == old(self).closed,
            old(self)@.len() > 0 ==> taken == Some(old(self)@.last()) && final(self)@ == old(
                self,
            )@.drop_last(),
            old(self)@.len() == 0 ==> taken is None && final(self)@ == old(self)@,
    {
        self.items.pop()
    }

    /// Returns an item to the pool.
    pub fn put(&mut self, returned: T)
        ensures
            final(self)@ == old(self)@.push(returned),
            final(self).closed == old(self).closed,
    {
        self.items.push(returned);
    }

    /// Marks that no more items will ever arrive; pending items can still be
    /// drained.
    pub fn close(&mut self)
        ensures
            final(self).closed,
            final(self)@ == old(self)@,
    {
        self.closed = true;
    }
}

/// The position of the last record terminator among the first `filled` bytes
/// of a freshly read buffer, scanning backwards as the reader does.
pub fn last_newline_pos(buf: &[u8], filled: usize) -> (r: Option<usize>)
    requires
        filled <= buf@.len(),
    ensures
        match r {
            Some(i) => rfind_byte(buf@.take(filled as int), NEWLINE) == Some(i as int),
            None => rfind_byte(buf@.take(filled as int), NEWLINE) is None,
        },
{
    proof {
        lemma_rfind_byte(buf@.take(filled as int), NEWLINE);
    }
    let mut i: usize = filled;
    while i > 0
        invariant
            i <= filled <= buf@.len(),
            forall|j: int| i <= j < filled ==> buf@[j] != NEWLINE,
        decreases i,
    {
        i = i - 1;
        if buf[i] == NEWLINE {
            proof {
                let p = buf@.take(filled as int);
                lemma_rfind_byte(p, NEWLINE);
                assert(p[i as int] == NEWLINE);
                assert forall|j: int| i < j < p.len() implies p[j] != NEWLINE by {
                    assert(p[j] == buf@[j]);
                }
                match rfind_byte(p, NEWLINE) {
                    Some(k) => {
                        if k > i {
                            assert(p[k] == buf@[k]);
                        } else if k < i {
                            assert(p[i as int] != NEWLINE);
                        }
                    },
                    None => {
                        assert(p[i as int] != NEWLINE);
                    },
                }
            }
            return Some(i);
        }
    }
    proof {
        let p = buf@.take(filled as int);
        match rfind_byte(p, NEWLINE) {
            Some(k) => {
                assert(p[k] == buf@[k]);
            },
            None => {},
        }
    }
    None
}

/// Builds the chunk the reader publishes from a freshly filled buffer: the
/// logical length is one past the last terminator among the bytes read, and
/// the same amount is how far the read offset advances — the tail beyond it
/// is re-read with the next buffer.
pub fn make_chunk(buf: Vec<u8>, filled: usize) -> (r: (Chunk, usize))
    requires
        filled <= buf@.len(),
        rfind_byte(buf@.take(filled as int), NEWLINE) is Some,
    ensures
        r.0.wf(),
        r.0.buf@ == buf@,
        r.0.len == r.1,
        r.1 == rfind_byte(buf@.take(filled as int), NEWLINE)->Some_0 + 1,
        r.1 <= filled,
{
    proof {
        lemma_rfind_byte(buf@.take(filled as int), NEWLINE);
    }
    let pos = match last_newline_pos(buf.as_slice(), filled) {
        Some(p) => p,
        None => {
            proof {
                assert(false);
            }
            0
        },
    };
    proof {
        let p = buf@.take(filled as int);
        assert(p[pos as int] == buf@[pos as int]);
    }
    let len = pos + 1;
    (Chunk { buf, len }, len)
}

/// Processes one published chunk: every record in its logical window is
/// absorbed into the worker's table.
pub fn process_chunk(map: &mut CustomHashMap, chunk: &Chunk)
    requires
        old(map).wf(),
        chunk.wf(),
        wf_stream(chunk@),
        scanner_visible(chunk@),
        forall|i: int| 0 <= i < old(map)@.len() ==> old(map)@[i].count + chunk@.len() <= u64::MAX,
    ensures
        final(map).wf(),
        final(map)@.len() == old(map)@.len(),
        final(map)@ == table_absorb_stream(old(map)@, chunk@),
        forall|i: int|
            0 <= i < final(map)@.len() ==> final(map)@[i].count <= old(map)@[i].count
                + chunk@.len(),
{
    let window = vstd::slice::slice_subrange(chunk.buf.as_slice(), 0, chunk.len);
    proof {
        assert(window@ =~= chunk@);
    }
    let consumed = scan_window(map, window);
    proof {
        if consumed < chunk.len {
            let tail = window@.skip(consumed as int);
            assert(tail[tail.len() - 1] == window@[chunk.len - 1]);
            lemma_find_byte(tail, NEWLINE);
            assert(false);
        }
        assert(window@.take(consumed as int) =~= chunk@);
    }
}

} // verus!
