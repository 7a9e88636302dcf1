//! A byte buffer paginated in 1 GiB pages, so that very large artifacts need
//! no single contiguous allocation.  Reads and writes cross page boundaries
//! transparently.

use vstd::prelude::*;

verus! {

/// Bytes per page.
pub const PAGE_SIZE: usize = 0x40000000;

/// A paged byte buffer: `byte_length` bytes spread over fixed-size pages,
/// every page full except possibly the last.
#[derive(Debug)]
pub struct BigBuffer {
    pub byte_length: usize,
    pub buffers: Vec<Vec<u8>>,
}

impl BigBuffer {
    /// Pages partition the byte range: each page but the last holds exactly
    /// `PAGE_SIZE` bytes, and the lengths add up to `byte_length`.
    pub open spec fn wf(self) -> bool {
        &&& self.byte_length == 0 ==> self.buffers@.len() == 0
        &&& self.byte_length > 0 ==> {
            &&& (self.buffers@.len() - 1) * (PAGE_SIZE as int) < self.byte_length
            &&& self.byte_length <= self.buffers@.len() * (PAGE_SIZE as int)
            &&& forall|p: int|
                0 <= p < self.buffers@.len() - 1 ==> (#[trigger] self.buffers@[p])@.len()
                    == PAGE_SIZE
            &&& self.buffers@[self.buffers@.len() - 1]@.len() == self.byte_length - (
            self.buffers@.len() - 1) * (PAGE_SIZE as int)
        }
    }

    /// The byte at position `i`: page `i / PAGE_SIZE`, offset `i % PAGE_SIZE`.
    pub open spec fn byte_at(self, i: int) -> u8 {
        self.buffers@[i / (PAGE_SIZE as int)]@[i % (PAGE_SIZE as int)]
    }

    /// Every valid position lands inside its page.
    pub proof fn lemma_position(self, i: int)
        requires
            self.wf(),
            0 <= i < self.byte_length,
        ensures
            0 <= i / (PAGE_SIZE as int) < self.buffers@.len(),
            0 <= i % (PAGE_SIZE as int) < self.buffers@[i / (PAGE_SIZE as int)]@.len(),
    {
        let ps = PAGE_SIZE as int;
        let n = self.buffers@.len() as int;
        let p = i / ps;
        vstd::arithmetic::div_mod::lemma_fundamental_div_mod(i, ps);
        vstd::arithmetic::div_mod::lemma_mod_bound(i, ps);
        assert(p < n) by {
            if p >= n {
                assert(i >= p * ps);
                assert(p * ps >= n * ps) by (nonlinear_arith)
                    requires
                        p >= n,
                        ps > 0,
                ;
            }
        }
        assert(p >= 0) by {
            vstd::arithmetic::div_mod::lemma_div_pos_is_pos(i, ps);
        }
        if p == n - 1 {
            assert(i % ps == i - p * ps);
            assert(i < self.byte_length);
        } else {
            assert(self.buffers@[p]@.len() == PAGE_SIZE);
        }
    }

    /// Allocates a zeroed buffer of `size` bytes.
    pub fn new(size: usize) -> (r: BigBuffer)
        ensures
            r.wf(),
            r.byte_length == size,
            forall|i: int| 0 <= i < size ==> r.byte_at(i) == 0,
    {
        let mut buffers: Vec<Vec<u8>> = Vec::new();
        let mut remaining: usize = size;
        while remaining > 0
            invariant
                remaining <= size,
                remaining > 0 ==> size - remaining == buffers@.len() * (PAGE_SIZE as int),
                remaining == 0 && size > 0 ==> buffers@.len() > 0 && (buffers@.len() - 1) * (
                PAGE_SIZE as int) < size <= buffers@.len() * (PAGE_SIZE as int),
                size == 0 ==> buffers@.len() == 0,
                forall|p: int|
                    0 <= p < buffers@.len() - 1 ==> (#[trigger] buffers@[p])@.len() == PAGE_SIZE,
                buffers@.len() > 0 && remaining > 0 ==> buffers@[buffers@.len() - 1]@.len()
                    == PAGE_SIZE,
                buffers@.len() > 0 && remaining == 0 ==> buffers@[buffers@.len() - 1]@.len()
                    == size - (buffers@.len() - 1) * (PAGE_SIZE as int),
                forall|p: int, j: int| #![trigger buffers@[p]@[j]]
                    0 <= p < buffers@.len() && 0 <= j < buffers@[p]@.len() ==> buffers@[p]@[j]
                        == 0,
            decreases remaining,
        {
            let page_len = if remaining < PAGE_SIZE {
                remaining
            } else {
                PAGE_SIZE
            };
            let page = crate::field::zero_bytes(page_len);
            let ghost pre = buffers@;
            buffers.push(page);
            proof {
                assert((pre.len() + 1) * (PAGE_SIZE as int) == pre.len() * (PAGE_SIZE as int)
                    + PAGE_SIZE) by (nonlinear_arith);
            }
            remaining = remaining - page_len;
        }
        let r = BigBuffer { byte_length: size, buffers };
        proof {
            assert forall|i: int| 0 <= i < size implies r.byte_at(i) == 0 by {
                r.lemma_position(i);
            }
        }
        r
    }

    /// Copies `input` into the buffer starting at `offset`, crossing page
    /// boundaries as needed; everything outside the written range is kept.
    pub fn set(&mut self, input: &Vec<u8>, offset: usize)
        requires
            old(self).wf(),
            offset + input@.len() <= old(self).byte_length,
        ensures
            final(self).wf(),
            final(self).byte_length == old(self).byte_length,
            forall|i: int|
                offset <= i < offset + input@.len() ==> final(self).byte_at(i) == input@[i
                    - offset],
            forall|i: int|
                0 <= i < old(self).byte_length && !(offset <= i < offset + input@.len())
                    ==> final(self).byte_at(i) == old(self).byte_at(i),
    {
        let n = input.len();
        let mut done: usize = 0;
        while done < n
            invariant
                done <= n,
                n == input@.len(),
                self.wf(),
                self.byte_length == old(self).byte_length,
                offset + n <= self.byte_length,
                forall|i: int|
                    offset <= i < offset + done ==> self.byte_at(i) == input@[i - offset],
                forall|i: int|
                    0 <= i < self.byte_length && !(offset <= i < offset + done)
                        ==> self.byte_at(i) == old(self).byte_at(i),
            decreases n - done,
        {
            let pos = offset + done;
            proof {
                self.lemma_position(pos as int);
            }
            let page_idx = pos / PAGE_SIZE;
            let page_offset = pos % PAGE_SIZE;
            let page_len = self.buffers[page_idx].len();
            let room = page_len - page_offset;
            let rest = n - done;
            let chunk = if room < rest {
                room
            } else {
                rest
            };
            proof {
                vstd::arithmetic::div_mod::lemma_fundamental_div_mod(pos as int, PAGE_SIZE as int);
            }
            // rebuild the touched page: old bytes outside the chunk, input
            // bytes inside it
            let mut page: Vec<u8> = Vec::new();
            let mut j: usize = 0;
            let ghost old_page = self.buffers@[page_idx as int]@;
            while j < page_len
                invariant
                    j <= page_len,
                    page_idx < self.buffers@.len(),
                    page_len == self.buffers@[page_idx as int]@.len(),
                    old_page == self.buffers@[page_idx as int]@,
                    page_offset + chunk <= page_len,
                    chunk <= n - done && done + chunk <= n,
                    n == input@.len(),
                    page@.len() == j,
                    forall|q: int|
                        0 <= q < j && !(page_offset <= q < page_offset + chunk)
                            ==> page@[q] == old_page[q],
                    forall|q: int|
                        page_offset <= q < page_offset + chunk && q < j ==> page@[q] == input@[
                        done + (q - page_offset)],
                decreases page_len - j,
            {
                if j >= page_offset && j < page_offset + chunk {
                    page.push(input[done + (j - page_offset)]);
                } else {
                    page.push(self.buffers[page_idx][j]);
                }
                j = j + 1;
            }
            let ghost pre = *self;
            self.buffers.set(page_idx, page);
            done = done + chunk;
            proof {
                assert(self.wf());
                let ps = PAGE_SIZE as int;
                assert forall|i: int|
                    0 <= i < self.byte_length implies #[trigger] self.byte_at(i) == if pos <= i
                    < pos + chunk {
                    input@[done - chunk + (i - pos)]
                } else {
                    pre.byte_at(i)
                } by {
                    pre.lemma_position(i);
                    vstd::arithmetic::div_mod::lemma_fundamental_div_mod(i, ps);
                    if i / ps == page_idx {
                        assert(i == page_idx * ps + (i % ps));
                        assert(pos == page_idx * ps + page_offset);
                        if page_offset <= i % ps < page_offset + chunk {
                            assert(pos <= i < pos + chunk);
                        } else {
                            assert(!(pos <= i < pos + chunk));
                        }
                    } else {
                        assert(!(pos <= i < pos + chunk)) by {
                            if pos <= i < pos + chunk {
                                assert(i % ps == i - page_idx * ps);
                                vstd::arithmetic::div_mod::lemma_fundamental_div_mod_converse(
                                    i,
                                    ps,
                                    page_idx as int,
                                    i - page_idx * ps,
                                );
                            }
                        }
                    }
                }
            }
        }
    }

    /// Returns the bytes in `[from, to)` as one contiguous vector.
    pub fn slice(&self, from: usize, to: usize) -> (r: Vec<u8>)
        requires
            self.wf(),
            from <= to,
            to <= self.byte_length,
        ensures
            r@.len() == to - from,
            forall|j: int| 0 <= j < r@.len() ==> r@[j] == self.byte_at(from + j),
    {
        let mut out: Vec<u8> = Vec::new();
        let mut k: usize = from;
        while k < to
            invariant
                from <= k <= to,
                to <= self.byte_length,
                self.wf(),
                out@.len() == k - from,
                forall|j: int| 0 <= j < out@.len() ==> out@[j] == self.byte_at(from + j),
            decreases to - k,
        {
            proof {
                self.lemma_position(k as int);
            }
            let page_idx = k / PAGE_SIZE;
            let page_offset = k % PAGE_SIZE;
            out.push(self.buffers[page_idx][page_offset]);
            k = k + 1;
        }
        out
    }
}

} // verus!
