//! A borrowed cursor over a posting list: forward scan, peek, skipping to an
//! identifier, and short-circuiting internal iteration. Only the block under
//! the cursor is ever decompressed, into a scratch buffer of 128 identifiers.

use vstd::prelude::*;

use crate::codec::unpack_block;
use crate::posting::{pairs_sorted, PostingElement, PostingList};

verus! {

/// The element a position pair (id, weight) yields: `max_next_weight` is
/// advisory and equals the weight itself.
pub open spec fn elem_of(p: (u32, u32)) -> PostingElement {
    PostingElement { record_id: p.0, weight: p.1, max_next_weight: p.1 }
}

/// Outcome of one visitor step: go on, or stop with a value.
pub enum Flow<R> {
    Continue,
    Break(R),
}

/// The elements of the (id, weight) pairs of `s`, in order.
pub open spec fn elems_of(s: Seq<(u32, u32)>) -> Seq<PostingElement> {
    Seq::new(s.len(), |k: int| elem_of(s[k]))
}

/// A visitor for `try_for_each`: called once per element until it breaks.
/// The ghost sequence `seen` records every element the visitor has been
/// handed; each `visit` appends exactly its argument to it, so the contract
/// of `try_for_each` can say which elements reached the visitor. To an
/// implementation outside the verifier the sequence stays abstract (the
/// default below is never consulted for it); a verified implementation
/// overrides `seen` with its own record and proves `visit` against it.
pub trait PostingVisitor<R> {
    open spec fn seen(&self) -> Seq<PostingElement> {
        Seq::<PostingElement>::empty()
    }

    fn visit(&mut self, e: PostingElement) -> (r: Flow<R>)
        ensures
            final(self).seen() == old(self).seen().push(e),
    ;
}

/// Iterator over posting list elements offering skipping abilities to avoid
/// full decompression of untouched blocks.
pub struct PostingListIterator<'a> {
    pub(crate) list: &'a PostingList,
    /// Identifiers of the block under the cursor, once decoded.
    pub(crate) scratch: Vec<u32>,
    /// Index of the current block; equal to the block count while the
    /// remainders are scanned.
    pub(crate) chunk_idx: usize,
    /// Position within `scratch`; 128 means the block is not decoded.
    pub(crate) cursor: usize,
    /// Position within the remainder tail.
    pub(crate) rem_cursor: usize,
}

impl<'a> PostingListIterator<'a> {
    /// Structural well-formedness of the cursor against its list.
    #[verifier::type_invariant]
    pub open(crate) spec fn inv(self) -> bool {
        &&& self.list.wf()
        &&& self.scratch@.len() == 128
        &&& self.chunk_idx <= self.list.num_chunks()
        &&& self.cursor <= 128
        &&& self.cursor < 128 ==> self.chunk_idx < self.list.num_chunks() && self.scratch@
            == self.list.chunk_ids(self.chunk_idx as int)
        &&& self.rem_cursor <= self.list.spec_remainders().len()
        &&& self.rem_cursor > 0 ==> self.chunk_idx == self.list.num_chunks()
    }

    /// The list this cursor walks.
    pub open(crate) spec fn src(self) -> PostingList {
        *self.list
    }

    /// How many elements the cursor has passed.
    pub open(crate) spec fn pos(self) -> int {
        if self.chunk_idx < self.list.num_chunks() {
            128 * self.chunk_idx + (if self.cursor < 128 {
                self.cursor as int
            } else {
                0
            })
        } else {
            128 * self.list.num_chunks() + self.rem_cursor
        }
    }

    /// The elements still to be yielded, in order.
    pub open(crate) spec fn remaining(self) -> Seq<(u32, u32)> {
        self.src()@.skip(self.pos())
    }

    /// Decodes the block under the cursor when it is not yet decoded, moving
    /// nothing.
    fn ensure_decoded(&mut self)
        ensures
            final(self).src() == old(self).src(),
            final(self)@ == old(self)@,
            final(self).pos() == old(self).pos(),
            final(self).chunk_idx == old(self).chunk_idx,
            final(self).rem_cursor == old(self).rem_cursor,
            old(self).cursor < 128 ==> *final(self) == *old(self),
            old(self).chunk_idx < old(self).src().num_chunks() ==> final(self).cursor < 128,
            old(self).chunk_idx < old(self).src().num_chunks() && old(self).cursor >= 128
                ==> final(self).cursor == 0,
            old(self).chunk_idx >= old(self).src().num_chunks() ==> *final(self) == *old(self),
    {
        proof {
            use_type_invariant(&*self);
        }
        let n = self.list.chunks.len();
        if self.chunk_idx < n && self.cursor >= 128 {
            let ci = self.chunk_idx;
            proof {
                self.list.lemma_off_monotone(ci as int, ci as int + 1);
                self.list.lemma_off_monotone(ci as int + 1, n as int);
                assert(self.list.chunk_size(ci as int) % 16 == 0);
                vstd::arithmetic::div_mod::lemma_fundamental_div_mod(
                    self.list.chunk_size(ci as int),
                    16,
                );
            }
            let off_i = self.list.chunks[ci].offset as usize;
            let off_ip1 = if ci + 1 < n {
                self.list.chunks[ci + 1].offset as usize
            } else {
                self.list.id_data.len()
            };
            let seg = vstd::slice::slice_subrange(self.list.id_data.as_slice(), off_i, off_ip1);
            let bits = ((off_ip1 - off_i) / 16) as u8;
            let initial = self.list.chunks[ci].initial;
            let prev = if initial == 0 {
                Option::None
            } else {
                Option::Some(initial - 1)
            };
            let decoded = unpack_block(prev, seg, bits);
            proof {
                assert(decoded@ == self.list.chunk_ids(ci as int));
            }
            self.scratch = decoded;
            self.cursor = 0;
        }
    }

    /// The next element, without advancing past it.
    pub fn peek(&mut self) -> (r: Option<PostingElement>)
        ensures
            final(self).src() == old(self).src(),
            final(self)@ == old(self)@,
            final(self).pos() == old(self).pos(),
            old(self)@.len() > 0 ==> r == Option::Some(elem_of(old(self)@[0])),
            old(self)@.len() == 0 ==> r is None,
    {
        proof {
            use_type_invariant(&*self);
        }
        self.ensure_decoded();
        proof {
            use_type_invariant(&*self);
        }
        let n = self.list.chunks.len();
        if self.chunk_idx < n {
            let c = self.cursor;
            let id = self.scratch[c];
            let w = self.list.chunks[self.chunk_idx].weights[c];
            proof {
                self.lemma_element_here();
            }
            Option::Some(PostingElement { record_id: id, weight: w, max_next_weight: w })
        } else if self.rem_cursor < self.list.remainders.len() {
            let e = self.list.remainders[self.rem_cursor];
            proof {
                self.lemma_element_here();
            }
            Option::Some(PostingElement { record_id: e.0, weight: e.1, max_next_weight: e.1 })
        } else {
            proof {
                assert(self@.len() == 0);
            }
            Option::None
        }
    }

    /// At a position strictly inside the list, with the block decoded, the
    /// element under the cursor is the one the view puts there.
    proof fn lemma_element_here(self)
        requires
            self.inv(),
            self.chunk_idx < self.src().num_chunks() ==> self.cursor < 128,
        ensures
            self.chunk_idx < self.src().num_chunks() ==> self.pos() < self.src()@.len()
                && self.src()@[self.pos()] == (
            self.scratch@[self.cursor as int],
            self.src().spec_chunks()[self.chunk_idx as int].spec_weights()[self.cursor as int],
            ),
            self.chunk_idx >= self.src().num_chunks() && self.rem_cursor
                < self.src().spec_remainders().len() ==> self.pos() < self.src()@.len()
                && self.src()@[self.pos()] == self.src().spec_remainders()[self.rem_cursor as int],
    {
        let p = self.pos();
        if self.chunk_idx < self.src().num_chunks() {
            let ci = self.chunk_idx as int;
            let c = self.cursor as int;
            assert(p == 128 * ci + c);
            vstd::arithmetic::div_mod::lemma_fundamental_div_mod(p, 128);
            vstd::arithmetic::div_mod::lemma_mod_bound(p, 128);
            assert(p / 128 == ci);
            assert(p % 128 == c);
            assert(self.src()@[p] == self.src().elem_at(p));
        } else if self.rem_cursor < self.src().spec_remainders().len() {
            assert(self.src()@[p] == self.src().elem_at(p));
        }
    }

    /// The next element; the cursor moves past it.
    pub fn next(&mut self) -> (r: Option<PostingElement>)
        ensures
            final(self).src() == old(self).src(),
            old(self)@.len() > 0 ==> r == Option::Some(elem_of(old(self)@[0]))
                && final(self).pos() == old(self).pos() + 1
                && final(self)@ == old(self)@.skip(1),
            old(self)@.len() == 0 ==> r is None && *final(self) == *old(self),
    {
        proof {
            use_type_invariant(&*self);
        }
        self.ensure_decoded();
        proof {
            use_type_invariant(&*self);
        }
        let n = self.list.chunks.len();
        let ghost before = *self;
        if self.chunk_idx < n {
            let c = self.cursor;
            let id = self.scratch[c];
            let w = self.list.chunks[self.chunk_idx].weights[c];
            proof {
                self.lemma_element_here();
            }
            if c + 1 == 128 {
                self.cursor = 128;
                self.chunk_idx = self.chunk_idx + 1;
            } else {
                self.cursor = c + 1;
            }
            proof {
                assert(self.pos() == before.pos() + 1);
                self.lemma_view_is_skip(before, 1);
            }
            Option::Some(PostingElement { record_id: id, weight: w, max_next_weight: w })
        } else if self.rem_cursor < self.list.remainders.len() {
            let e = self.list.remainders[self.rem_cursor];
            proof {
                self.lemma_element_here();
            }
            self.rem_cursor = self.rem_cursor + 1;
            proof {
                assert(self.pos() == before.pos() + 1);
                self.lemma_view_is_skip(before, 1);
            }
            Option::Some(PostingElement { record_id: e.0, weight: e.1, max_next_weight: e.1 })
        } else {
            proof {
                assert(self@.len() == 0);
            }
            Option::None
        }
    }

    /// Advancing the position by `d` turns the remaining view into a `skip`.
    proof fn lemma_view_is_skip(self, before: Self, d: int)
        requires
            self.src() == before.src(),
            d >= 0,
            self.pos() == before.pos() + d,
            0 <= before.pos(),
            self.pos() <= self.src()@.len(),
        ensures
            self@ == before@.skip(d),
    {
        assert(self@ =~= before@.skip(d));
    }

    /// The cached last element of the list, in O(1).
    pub fn last(&self) -> (r: Option<PostingElement>)
        ensures
            self.src()@.len() == 0 ==> r is None,
            self.src()@.len() > 0 ==> r == Option::Some(
                elem_of(self.src()@[self.src()@.len() - 1]),
            ),
    {
        proof {
            use_type_invariant(&*self);
            self.list.lemma_last_matches();
        }
        match &self.list.last {
            Option::None => Option::None,
            Option::Some(p) => Option::Some(
                PostingElement { record_id: p.0, weight: p.1, max_next_weight: p.1 },
            ),
        }
    }

    /// How many elements are still to be yielded; computed from the cursor
    /// alone, nothing is decoded.
    pub fn len_to_end(&self) -> (r: usize)
        ensures
            r == self@.len(),
    {
        proof {
            use_type_invariant(&*self);
        }
        let n = self.list.chunks.len();
        let total = n * 128 + self.list.remainders.len();
        let passed = if self.chunk_idx < n {
            self.chunk_idx * 128 + (if self.cursor < 128 {
                self.cursor
            } else {
                0
            })
        } else {
            n * 128 + self.rem_cursor
        };
        total - passed
    }

    /// Moves past the next element, if any.
    pub fn advance(&mut self)
        ensures
            final(self).src() == old(self).src(),
            old(self)@.len() > 0 ==> final(self).pos() == old(self).pos() + 1 && final(self)@
                == old(self)@.skip(1),
            old(self)@.len() == 0 ==> *final(self) == *old(self),
    {
        let _unused = self.next();
    }

    /// Element `128 * c + j` of the view comes from block `c`.
    proof fn lemma_chunk_elem(l: PostingList, c: int, j: int)
        requires
            l.wf(),
            0 <= c < l.num_chunks(),
            0 <= j < 128,
        ensures
            128 * c + j < l@.len(),
            l@[128 * c + j] == (l.chunk_ids(c)[j], l.spec_chunks()[c].spec_weights()[j]),
    {
        let k = 128 * c + j;
        vstd::arithmetic::div_mod::lemma_fundamental_div_mod(k, 128);
        vstd::arithmetic::div_mod::lemma_mod_bound(k, 128);
        assert(k / 128 == c);
        assert(k % 128 == j);
        assert(l@[k] == l.elem_at(k));
    }

    /// Element `128 * num_chunks + j` of the view is remainder `j`.
    proof fn lemma_rem_elem(l: PostingList, j: int)
        requires
            l.wf(),
            0 <= j < l.spec_remainders().len(),
        ensures
            128 * l.num_chunks() + j < l@.len(),
            l@[128 * l.num_chunks() + j] == l.spec_remainders()[j],
    {
        let k = 128 * l.num_chunks() + j;
        assert(l@[k] == l.elem_at(k));
    }

    /// In an ordered list, every element of a block whose successor blocks up
    /// to `t` all start at or below `id` is itself strictly below `id`.
    proof fn lemma_chunks_below(l: PostingList, id: u32, a: int, t: int)
        requires
            l.wf(),
            l.ordered(),
            0 <= a <= 128 * t,
            t < l.num_chunks(),
            forall|c: int|
                a / 128 < c <= t ==> (#[trigger] l.spec_chunks()[c]).initial <= id,
        ensures
            forall|k: int| a <= k < 128 * t ==> (#[trigger] l@[k]).0 < id,
    {
        assert forall|k: int| a <= k < 128 * t implies (#[trigger] l@[k]).0 < id by {
            let c = k / 128;
            vstd::arithmetic::div_mod::lemma_fundamental_div_mod(k, 128);
            vstd::arithmetic::div_mod::lemma_mod_bound(k, 128);
            vstd::arithmetic::div_mod::lemma_div_is_ordered(a, k, 128);
            vstd::arithmetic::div_mod::lemma_div_is_ordered(k, 128 * t - 1, 128);
            assert((128 * t - 1) / 128 == t - 1) by {
                vstd::arithmetic::div_mod::lemma_fundamental_div_mod(128 * t - 1, 128);
                vstd::arithmetic::div_mod::lemma_mod_bound(128 * t - 1, 128);
            }
            assert(a / 128 <= c <= t - 1);
            Self::lemma_chunk_elem(l, c + 1, 0);
            assert(l.spec_chunks()[c + 1].initial == l.chunk_ids(c + 1)[0]);
            assert(l@[128 * (c + 1)].0 == l.spec_chunks()[c + 1].initial);
            assert(pairs_sorted(l@));
            assert(l@[k].0 < l@[128 * (c + 1)].0);
        }
    }

    /// From a covered scan (everything passed is below `id`, the element
    /// under the cursor if any is not), the contract of `skip_to` follows.
    proof fn lemma_skip_to_frame(orig: Self, cur: Self, id: u32)
        requires
            cur.src() == orig.src(),
            0 <= orig.pos() <= cur.pos() <= cur.src()@.len(),
            forall|k: int|
                orig.pos() <= k < cur.pos() ==> (#[trigger] cur.src()@[k]).0 < id,
        ensures
            ({
                let rem = orig@;
                let p = cur.pos() - orig.pos();
                &&& 0 <= p <= rem.len()
                &&& cur@ == rem.skip(p)
                &&& forall|j: int| 0 <= j < p ==> (#[trigger] rem[j]).0 < id
            }),
    {
        let rem = orig@;
        let p = cur.pos() - orig.pos();
        assert(cur@ =~= rem.skip(p));
        assert forall|j: int| 0 <= j < p implies (#[trigger] rem[j]).0 < id by {
            assert(rem[j] == cur.src()@[orig.pos() + j]);
        }
    }

    /// The last block at or after `start` whose first identifier is at most
    /// `id` (the block `start` itself when none is): found by binary search
    /// over the block headers.
    #[verifier::rlimit(100)]
    fn find_candidate_chunk(&self, start: usize, id: u32) -> (t: usize)
        requires
            start < self.src().num_chunks(),
        ensures
            start <= t < self.src().num_chunks(),
            self.src().ordered() ==> forall|c: int|
                start < c <= t ==> (#[trigger] self.src().spec_chunks()[c]).initial <= id,
            self.src().ordered() ==> forall|c: int|
                t < c < self.src().num_chunks() ==> (
                #[trigger] self.src().spec_chunks()[c]).initial > id,
    {
        proof {
            use_type_invariant(&*self);
        }
        let ghost ord = self.src().ordered();
        let n = self.list.chunks.len();
        let mut lo: usize = start + 1;
        let mut hi: usize = n;
        while lo < hi
            invariant
                self.src().wf(),
                ord == self.src().ordered(),
                n == self.src().num_chunks(),
                start + 1 <= lo <= hi <= n,
                ord ==> forall|c: int|
                    start < c < lo ==> (#[trigger] self.src().spec_chunks()[c]).initial <= id,
                ord ==> forall|c: int|
                    hi <= c < n ==> (#[trigger] self.src().spec_chunks()[c]).initial > id,
            decreases hi - lo,
        {
            let mid = lo + (hi - lo) / 2;
            let below = self.list.chunks[mid].initial <= id;
            proof {
                if ord {
                    if below {
                        assert forall|c: int|
                            start < c < mid + 1 implies (
                        #[trigger] self.src().spec_chunks()[c]).initial <= id by {
                            if c < mid {
                                Self::lemma_chunk_elem(self.src(), c, 0);
                                Self::lemma_chunk_elem(self.src(), mid as int, 0);
                                assert(pairs_sorted(self.src()@));
                                assert(self.src()@[128 * c].0 < self.src()@[128 * (mid as int)].0);
                            }
                        }
                    } else {
                        assert forall|c: int|
                            mid <= c < n implies (
                        #[trigger] self.src().spec_chunks()[c]).initial > id by {
                            if c > mid {
                                Self::lemma_chunk_elem(self.src(), mid as int, 0);
                                Self::lemma_chunk_elem(self.src(), c, 0);
                                assert(pairs_sorted(self.src()@));
                                assert(self.src()@[128 * (mid as int)].0 < self.src()@[128 * c].0);
                            }
                        }
                    }
                }
            }
            if below {
                lo = mid + 1;
            } else {
                hi = mid;
            }
        }
        lo - 1
    }

    /// Advances to the first remaining element whose id is at least `id`;
    /// that element is returned when its id is exactly `id`, else `None` is
    /// returned and the element (if any) is left for `peek`. The candidate
    /// block is found by binary search over the block headers' first
    /// identifiers; only that block is decoded.
    #[verifier::rlimit(100)]
    pub fn skip_to(&mut self, id: u32) -> (r: Option<PostingElement>)
        ensures
            final(self).src() == old(self).src(),
            old(self).src().ordered() ==> ({
                let rem = old(self)@;
                let p = final(self).pos() - old(self).pos();
                &&& 0 <= p <= rem.len()
                &&& final(self)@ == rem.skip(p)
                &&& forall|j: int| 0 <= j < p ==> (#[trigger] rem[j]).0 < id
                &&& (p < rem.len() ==> rem[p].0 >= id)
                &&& r == (if p < rem.len() && rem[p].0 == id {
                    Option::Some(elem_of(rem[p]))
                } else {
                    Option::<PostingElement>::None
                })
            }),
    {
        proof {
            use_type_invariant(&*self);
        }
        let ghost orig = *self;
        let ghost ord = orig.src().ordered();
        let n = self.list.chunks.len();
        if self.chunk_idx < n {
            let t = self.find_candidate_chunk(self.chunk_idx, id);
            if t > self.chunk_idx {
                self.cursor = 128;
                self.chunk_idx = t;
                proof {
                    if ord {
                        Self::lemma_chunks_below(orig.src(), id, orig.pos(), t as int);
                    }
                }
            }
            self.ensure_decoded();
            proof {
                use_type_invariant(&*self);
                assert(self.cursor < 128);
            }
            let ghost scan_base = 128 * (t as int);
            proof {
                assert(orig.pos() <= scan_base + self.cursor);
            }
            while self.cursor < 128 && self.scratch[self.cursor] < id
                invariant
                    self.list == orig.list,
                    orig.inv(),
                    orig.chunk_idx < n,
                    ord == orig.src().ordered(),
                    n == self.src().num_chunks(),
                    self.chunk_idx == t < n,
                    self.cursor <= 128,
                    self.rem_cursor == orig.rem_cursor,
                    self.scratch@.len() == 128,
                    self.scratch@ == self.src().chunk_ids(t as int),
                    scan_base == 128 * (t as int),
                    orig.pos() <= scan_base + self.cursor,
                    ord ==> forall|k: int|
                        orig.pos() <= k < scan_base + self.cursor ==> (
                        #[trigger] self.src()@[k]).0 < id,
                decreases 128 - self.cursor,
            {
                proof {
                    if ord {
                        Self::lemma_chunk_elem(self.src(), t as int, self.cursor as int);
                    }
                }
                self.cursor = self.cursor + 1;
            }
            proof {
                use_type_invariant(&*self);
            }
            if self.cursor < 128 {
                let c = self.cursor;
                let cid = self.scratch[c];
                let w = self.list.chunks[t].weights[c];
                proof {
                    self.lemma_element_here();
                    if ord {
                        Self::lemma_skip_to_frame(orig, *self, id);
                        assert(self.src()@[self.pos()] == (cid, w));
                        assert(orig@[self.pos() - orig.pos()] == self.src()@[self.pos()]);
                    }
                }
                if cid == id {
                    return Option::Some(
                        PostingElement { record_id: cid, weight: w, max_next_weight: w },
                    );
                } else {
                    return Option::None;
                }
            }
            self.chunk_idx = t + 1;
            proof {
                use_type_invariant(&*self);
            }
            if t + 1 < n {
                proof {
                    if ord {
                        assert(self.pos() == 128 * (t + 1) as int);
                        Self::lemma_skip_to_frame(orig, *self, id);
                        Self::lemma_chunk_elem(self.src(), t as int + 1, 0);
                        assert(self.src()@[self.pos()].0 == self.src().spec_chunks()[t + 1].initial);
                        assert(self.src().spec_chunks()[t + 1].initial > id);
                        assert(orig@[self.pos() - orig.pos()] == self.src()@[self.pos()]);
                    }
                }
                return Option::None;
            }
        }
        // the remainder tail
        let ghost mid_state = *self;
        let r = self.skip_in_remainders(id);
        proof {
            if ord {
                assert forall|k: int|
                    orig.pos() <= k < self.pos() implies (#[trigger] self.src()@[k]).0 < id by {
                    if k < mid_state.pos() {
                        assert(self.src()@[k].0 < id);
                    } else {
                        assert(mid_state@[k - mid_state.pos()].0 < id);
                        assert(mid_state@[k - mid_state.pos()] == self.src()@[k]);
                    }
                }
                Self::lemma_skip_to_frame(orig, *self, id);
                let p = self.pos() - orig.pos();
                let rem = orig@;
                if p < rem.len() {
                    assert(rem[p] == self.src()@[self.pos()]);
                    let p2 = self.pos() - mid_state.pos();
                    assert(mid_state@[p2] == self.src()@[self.pos()]);
                }
            }
        }
        r
    }

    /// `skip_to` within the remainder tail: the tail is sorted by the list
    /// invariant, so this holds of every list, ordered or not.
    fn skip_in_remainders(&mut self, id: u32) -> (r: Option<PostingElement>)
        requires
            old(self).chunk_idx >= old(self).src().num_chunks(),
        ensures
            final(self).src() == old(self).src(),
            ({
                let rem = old(self)@;
                let p = final(self).pos() - old(self).pos();
                &&& 0 <= p <= rem.len()
                &&& final(self)@ == rem.skip(p)
                &&& forall|j: int| 0 <= j < p ==> (#[trigger] rem[j]).0 < id
                &&& (p < rem.len() ==> rem[p].0 >= id)
                &&& r == (if p < rem.len() && rem[p].0 == id {
                    Option::Some(elem_of(rem[p]))
                } else {
                    Option::<PostingElement>::None
                })
            }),
    {
        proof {
            use_type_invariant(&*self);
        }
        let ghost orig = *self;
        let m = self.list.remainders.len();
        let ghost rem_base = 128 * self.src().num_chunks();
        while self.rem_cursor < m && self.list.remainders[self.rem_cursor].0 < id
            invariant
                self.list == orig.list,
                orig.inv(),
                self.scratch == orig.scratch,
                self.chunk_idx == orig.chunk_idx >= self.src().num_chunks(),
                self.cursor == orig.cursor,
                m == self.src().spec_remainders().len(),
                orig.rem_cursor <= self.rem_cursor <= m,
                rem_base == 128 * self.src().num_chunks(),
                forall|j: int|
                    orig.rem_cursor <= j < self.rem_cursor ==> (
                    #[trigger] self.src().spec_remainders()[j]).0 < id,
            decreases m - self.rem_cursor,
        {
            self.rem_cursor = self.rem_cursor + 1;
        }
        proof {
            use_type_invariant(&*self);
            assert(self.chunk_idx == self.src().num_chunks());
            assert forall|j: int|
                0 <= j < self.pos() - orig.pos() implies (#[trigger] orig@[j]).0 < id by {
                Self::lemma_rem_elem(self.src(), orig.rem_cursor + j);
                assert(orig@[j] == self.src()@[orig.pos() + j]);
            }
            assert(self@ =~= orig@.skip(self.pos() - orig.pos()));
        }
        if self.rem_cursor < m {
            let e = self.list.remainders[self.rem_cursor];
            proof {
                self.lemma_element_here();
                assert(orig@[self.pos() - orig.pos()] == self.src()@[self.pos()]);
            }
            if e.0 == id {
                Option::Some(PostingElement { record_id: e.0, weight: e.1, max_next_weight: e.1 })
            } else {
                Option::None
            }
        } else {
            Option::None
        }
    }

    /// Yields the remaining elements to the visitor one at a time, in order,
    /// while the visitor continues. On a break the call returns at once; the
    /// element the visitor broke on is not consumed, so a later call resumes
    /// with exactly that element. On a continue to the end, every remaining
    /// element has been handed over and the cursor stands past the last.
    pub fn try_for_each<R, V: PostingVisitor<R>>(&mut self, v: &mut V) -> (r: Flow<R>)
        ensures
            final(self).src() == old(self).src(),
            final(self).pos() >= old(self).pos(),
            final(self)@ == old(self)@.skip(final(self).pos() - old(self).pos()),
            r is Continue ==> final(self)@.len() == 0 && final(v).seen() == old(v).seen()
                + elems_of(old(self)@),
            r is Break ==> ({
                let consumed = final(self).pos() - old(self).pos();
                &&& 0 <= consumed < old(self)@.len()
                &&& final(v).seen() == old(v).seen() + elems_of(old(self)@.take(consumed)).push(
                    elem_of(old(self)@[consumed]),
                )
            }),
    {
        proof {
            use_type_invariant(&*self);
            assert(self.pos() <= self.src()@.len());
            assert(self@ =~= old(self)@.skip(0));
            assert(old(v).seen() + elems_of(old(self)@.take(0)) =~= old(v).seen());
        }
        loop
            invariant
                self.src() == old(self).src(),
                old(self).pos() <= self.pos() <= self.src()@.len(),
                self@ == old(self)@.skip(self.pos() - old(self).pos()),
                v.seen() == old(v).seen() + elems_of(
                    old(self)@.take(self.pos() - old(self).pos()),
                ),
            decreases self@.len(),
        {
            let ghost consumed = self.pos() - old(self).pos();
            let e_opt = self.peek();
            match e_opt {
                Option::None => {
                    proof {
                        assert(consumed == old(self)@.len());
                        assert(old(self)@.take(consumed) =~= old(self)@);
                    }
                    return Flow::Continue;
                },
                Option::Some(e) => {
                    proof {
                        assert(e == elem_of(old(self)@[consumed])) by {
                            assert(self@[0] == old(self)@.skip(consumed)[0]);
                        }
                    }
                    match v.visit(e) {
                        Flow::Continue => {
                            self.advance();
                            proof {
                                assert(elems_of(old(self)@.take(consumed + 1)) =~= elems_of(
                                    old(self)@.take(consumed),
                                ).push(elem_of(old(self)@[consumed])));
                            }
                        },
                        Flow::Break(val) => {
                            return Flow::Break(val);
                        },
                    }
                },
            }
        }
    }

    /// A copy of this cursor: over the same list, at the same position, with
    /// its own scratch block, so both can move on independently.
    pub fn duplicate(&self) -> (r: Self)
        ensures
            r.src() == self.src(),
            r.pos() == self.pos(),
            r@ == self@,
    {
        proof {
            use_type_invariant(&*self);
        }
        let scratch2 = self.scratch.clone();
        proof {
            assert(scratch2@ =~= self.scratch@) by {
                assert forall|k: int| 0 <= k < self.scratch@.len() implies scratch2@[k]
                    == self.scratch@[k] by {
                    assert(cloned::<u32>(self.scratch@[k], scratch2@[k]));
                }
            }
        }
        PostingListIterator {
            list: self.list,
            scratch: scratch2,
            chunk_idx: self.chunk_idx,
            cursor: self.cursor,
            rem_cursor: self.rem_cursor,
        }
    }

    /// Positions the cursor past the last element.
    pub fn skip_to_end(&mut self)
        ensures
            final(self).src() == old(self).src(),
            final(self)@.len() == 0,
            final(self).pos() == old(self).src()@.len(),
    {
        proof {
            use_type_invariant(&*self);
        }
        self.cursor = 128;
        self.chunk_idx = self.list.chunks.len();
        self.rem_cursor = self.list.remainders.len();
    }
}

impl<'a> View for PostingListIterator<'a> {
    type V = Seq<(u32, u32)>;

    /// The elements still to be yielded, in order.
    open(crate) spec fn view(&self) -> Seq<(u32, u32)> {
        self.remaining()
    }
}

impl PostingList {
    /// A fresh cursor at the first element; nothing is decoded yet.
    pub fn iter<'a>(&'a self) -> (r: PostingListIterator<'a>)
        ensures
            r.src() == *self,
            r.pos() == 0,
            r@ == self@,
    {
        proof {
            use_type_invariant(&*self);
        }
        let r = PostingListIterator {
            list: self,
            scratch: vec![0u32; 128],
            chunk_idx: 0,
            cursor: 128,
            rem_cursor: 0,
        };
        proof {
            assert(r@ =~= self@);
        }
        r
    }

    /// Every element of the list, in order, through a full scan.
    pub fn to_vec(&self) -> (r: Vec<PostingElement>)
        ensures
            r@.len() == self@.len(),
            forall|k: int| 0 <= k < r@.len() ==> #[trigger] r@[k] == elem_of(self@[k]),
    {
        let mut it = self.iter();
        let mut out: Vec<PostingElement> = Vec::new();
        loop
            invariant
                it.src() == *self,
                0 <= it.pos() <= self@.len(),
                it@ == self@.skip(it.pos()),
                out@.len() == it.pos(),
                forall|k: int| 0 <= k < out@.len() ==> #[trigger] out@[k] == elem_of(self@[k]),
            decreases self@.len() - it.pos(),
        {
            let e = it.next();
            match e {
                Option::Some(e) => {
                    proof {
                        assert(self@.skip(it.pos() - 1)[0] == self@[it.pos() - 1]);
                    }
                    out.push(e);
                }
                Option::None => {
                    return out;
                }
            }
        }
    }
}

} // verus!
