//! The posting list itself: an owning container of delta-compressed
//! identifier blocks, per-block headers with the weights, an uncompressed
//! tail of fewer than 128 entries, and a cached copy of the last element.

use vstd::prelude::*;

use crate::codec::{num_bits_block, pack_block, prev_below, strictly_increasing, unpacked_ids};

verus! {

/// Largest number of elements a posting list accepts through `upsert` or a
/// build: keeps every byte offset of the identifier buffer within `u32`, as
/// the on-disk format requires.
pub const MAX_POSTING_LEN: usize = 0x3FFF_F000;

/// One element of a posting list, as yielded to callers. The weight is an
/// opaque 32-bit value (callers store IEEE-754 bit patterns in it); the list
/// never computes with weights. `max_next_weight` is advisory and currently
/// always equals `weight`.
#[derive(Clone, Copy, Debug, PartialEq, Eq, Structural)]
pub struct PostingElement {
    pub record_id: u32,
    pub weight: u32,
    pub max_next_weight: u32,
}

/// Header of one compressed block: the first identifier of the block, the
/// byte offset of its packed identifiers, and its 128 weights.
#[derive(Debug)]
pub struct CompressedPostingChunk {
    pub(crate) initial: u32,
    pub(crate) offset: u32,
    pub(crate) weights: Vec<u32>,
}

/// Why `load` rejected its input.
#[derive(Clone, Copy, Debug, PartialEq, Eq, Structural)]
pub enum LoadError {
    /// The input holds fewer bytes than its own header announces.
    Truncated,
    /// The input is long enough but its structure is inconsistent (block
    /// offsets or sizes that no saved list can have, or an unsorted or
    /// oversized tail).
    Malformed,
}

/// A compressed posting list. See the crate root for the representation.
#[derive(Debug)]
pub struct PostingList {
    pub(crate) id_data: Vec<u8>,
    pub(crate) chunks: Vec<CompressedPostingChunk>,
    pub(crate) remainders: Vec<(u32, u32)>,
    pub(crate) last: Option<(u32, u32)>,
}

/// True when the (id, weight) pairs of `s` carry strictly increasing ids.
pub open spec fn pairs_sorted(s: Seq<(u32, u32)>) -> bool {
    forall|i: int, j: int| 0 <= i < j < s.len() ==> (#[trigger] s[i]).0 < (#[trigger] s[j]).0
}

/// True when some entry of `s` carries the identifier `id`.
pub open spec fn id_in(s: Seq<(u32, u32)>, id: u32) -> bool {
    exists|i: int| 0 <= i < s.len() && (#[trigger] s[i]).0 == id
}

/// True when no entry before position `i` of `s` carries the identifier `id`.
pub open spec fn earlier_ids_differ(s: Seq<(u32, u32)>, i: int, id: u32) -> bool {
    forall|j: int| 0 <= j < i ==> (#[trigger] s[j]).0 != id
}

/// True when `e` occurs in `s` and is the first entry of `s` with its id.
pub open spec fn first_occurrence(s: Seq<(u32, u32)>, e: (u32, u32)) -> bool {
    exists|i: int| 0 <= i < s.len() && #[trigger] s[i] == e && earlier_ids_differ(s, i, e.0)
}

/// Whether, given the cached last element, an append of `id` is accepted:
/// always on an empty list, else only strictly beyond the last id.
pub open spec fn append_accepted(last: Option<(u32, u32)>, id: u32) -> bool {
    match last {
        Option::None => true,
        Option::Some(p) => p.0 < id,
    }
}

/// True when no two entries of `s` carry the same identifier.
pub open spec fn unique_ids(s: Seq<(u32, u32)>) -> bool {
    forall|i: int, j: int| 0 <= i < j < s.len() ==> (#[trigger] s[i]).0 != (#[trigger] s[j]).0
}

/// Byte offset where block `i` of `chunks` starts within `data`; position
/// `chunks.len()` names the end of `data`.
pub(crate) open spec fn seg_off(chunks: Seq<CompressedPostingChunk>, data: Seq<u8>, i: int) -> int {
    if i == chunks.len() {
        data.len() as int
    } else {
        chunks[i].offset as int
    }
}

pub(crate) open spec fn seg_size(
    chunks: Seq<CompressedPostingChunk>,
    data: Seq<u8>,
    i: int,
) -> int {
    seg_off(chunks, data, i + 1) - seg_off(chunks, data, i)
}

pub(crate) open spec fn seg_bits(chunks: Seq<CompressedPostingChunk>, data: Seq<u8>, i: int) -> u8 {
    (seg_size(chunks, data, i) / 16) as u8
}

/// Predecessor handed to the codec for block `i`: one below the block's
/// first identifier, or absent when that identifier is zero.
pub(crate) open spec fn seg_prev(chunks: Seq<CompressedPostingChunk>, i: int) -> Option<u32> {
    if chunks[i].initial == 0 {
        Option::None
    } else {
        Option::Some((chunks[i].initial - 1) as u32)
    }
}

pub(crate) open spec fn seg_bytes(
    chunks: Seq<CompressedPostingChunk>,
    data: Seq<u8>,
    i: int,
) -> Seq<u8> {
    data.subrange(seg_off(chunks, data, i), seg_off(chunks, data, i + 1))
}

/// The identifiers of block `i`, as the codec recovers them.
pub(crate) open spec fn seg_ids(
    chunks: Seq<CompressedPostingChunk>,
    data: Seq<u8>,
    i: int,
) -> Seq<u32> {
    unpacked_ids(seg_prev(chunks, i), seg_bytes(chunks, data, i), seg_bits(chunks, data, i))
}

/// Strict order of neighbouring ids gives strict order of all id pairs.
pub(crate) proof fn lemma_pairs_sorted_from_adjacent(s: Seq<(u32, u32)>)
    requires
        forall|j: int| 0 <= j < s.len() - 1 ==> (#[trigger] s[j]).0 < s[j + 1].0,
    ensures
        pairs_sorted(s),
{
    assert forall|i: int, j: int|
        0 <= i < j < s.len() implies (#[trigger] s[i]).0 < (#[trigger] s[j]).0 by {
        lemma_id_chain(s, i, j);
    }
}

proof fn lemma_id_chain(s: Seq<(u32, u32)>, i: int, j: int)
    requires
        forall|t: int| 0 <= t < s.len() - 1 ==> (#[trigger] s[t]).0 < s[t + 1].0,
        0 <= i < j < s.len(),
    ensures
        s[i].0 < s[j].0,
    decreases j - i,
{
    if i + 1 < j {
        lemma_id_chain(s, i, j - 1);
    }
}

/// Offsets chain: with every block size non-negative, `seg_off` is monotone.
pub(crate) proof fn lemma_seg_off_chain(chunks: Seq<CompressedPostingChunk>, data: Seq<u8>, i: int, j: int)
    requires
        0 <= i <= j <= chunks.len(),
        forall|t: int| 0 <= t < chunks.len() ==> #[trigger] seg_size(chunks, data, t) >= 0,
    ensures
        seg_off(chunks, data, i) <= seg_off(chunks, data, j),
    decreases j - i,
{
    if i < j {
        assert(seg_size(chunks, data, j - 1) >= 0);
        lemma_seg_off_chain(chunks, data, i, j - 1);
    }
}

/// Pushing a block whose bytes sit at the end of the buffer leaves every
/// earlier block's offset, size, bytes and identifiers as they were.
pub(crate) proof fn lemma_segs_stable(
    chunks: Seq<CompressedPostingChunk>,
    data: Seq<u8>,
    chunks2: Seq<CompressedPostingChunk>,
    data2: Seq<u8>,
    i: int,
)
    requires
        0 <= i < chunks.len(),
        chunks2.len() == chunks.len() + 1,
        forall|t: int| 0 <= t < chunks.len() ==> chunks2[t] == chunks[t],
        chunks2[chunks.len() as int].offset == data.len(),
        data2.len() >= data.len(),
        data2.subrange(0, data.len() as int) == data,
        forall|t: int| 0 <= t < chunks.len() ==> #[trigger] seg_size(chunks, data, t) >= 0,
    ensures
        seg_off(chunks2, data2, i) == seg_off(chunks, data, i),
        seg_off(chunks2, data2, i + 1) == seg_off(chunks, data, i + 1),
        seg_size(chunks2, data2, i) == seg_size(chunks, data, i),
        seg_bits(chunks2, data2, i) == seg_bits(chunks, data, i),
        seg_bytes(chunks2, data2, i) == seg_bytes(chunks, data, i),
        seg_ids(chunks2, data2, i) == seg_ids(chunks, data, i),
{
    assert(seg_off(chunks2, data2, i) == seg_off(chunks, data, i));
    if i + 1 == chunks.len() {
        assert(seg_off(chunks2, data2, i + 1) == chunks2[i + 1].offset);
        assert(seg_off(chunks, data, i + 1) == data.len());
    }
    lemma_seg_off_chain(chunks, data, 0, i);
    lemma_seg_off_chain(chunks, data, i, i + 1);
    lemma_seg_off_chain(chunks, data, i + 1, chunks.len() as int);
    assert(seg_bytes(chunks2, data2, i) =~= seg_bytes(chunks, data, i)) by {
        let a = seg_off(chunks, data, i);
        let b = seg_off(chunks, data, i + 1);
        assert(0 <= a <= b <= data.len());
        assert(forall|t: int|
            0 <= t < data.len() ==> #[trigger] data2[t] == data.subrange(
                0,
                data.len() as int,
            )[t]);
    }
    assert(seg_prev(chunks2, i) == seg_prev(chunks, i));
}

impl CompressedPostingChunk {
    pub open(crate) spec fn spec_initial(self) -> u32 {
        self.initial
    }

    pub open(crate) spec fn spec_offset(self) -> u32 {
        self.offset
    }

    pub open(crate) spec fn spec_weights(self) -> Seq<u32> {
        self.weights@
    }
}

impl PostingList {
    pub open(crate) spec fn spec_id_data(self) -> Seq<u8> {
        self.id_data@
    }

    pub open(crate) spec fn spec_chunks(self) -> Seq<CompressedPostingChunk> {
        self.chunks@
    }

    pub open(crate) spec fn spec_remainders(self) -> Seq<(u32, u32)> {
        self.remainders@
    }

    /// The cached copy of the last element, as an (id, weight) pair.
    pub open(crate) spec fn spec_last(self) -> Option<(u32, u32)> {
        self.last
    }

    pub open(crate) spec fn num_chunks(self) -> int {
        self.chunks@.len() as int
    }

    /// Byte offset where block `i` starts; position `num_chunks()` names the
    /// end of the identifier buffer.
    pub open(crate) spec fn chunk_off(self, i: int) -> int {
        seg_off(self.chunks@, self.id_data@, i)
    }

    pub open(crate) spec fn chunk_size(self, i: int) -> int {
        seg_size(self.chunks@, self.id_data@, i)
    }

    /// Bit width of block `i`, recovered from its stored size.
    pub open(crate) spec fn chunk_bits(self, i: int) -> u8 {
        seg_bits(self.chunks@, self.id_data@, i)
    }

    /// Predecessor handed to the codec for block `i`: one below the block's
    /// first identifier, or absent when that identifier is zero.
    pub open(crate) spec fn chunk_prev(self, i: int) -> Option<u32> {
        seg_prev(self.chunks@, i)
    }

    pub open(crate) spec fn chunk_seg(self, i: int) -> Seq<u8> {
        seg_bytes(self.chunks@, self.id_data@, i)
    }

    /// The identifiers of block `i`, as the codec recovers them.
    pub open(crate) spec fn chunk_ids(self, i: int) -> Seq<u32> {
        seg_ids(self.chunks@, self.id_data@, i)
    }

    pub open(crate) spec fn spec_len(self) -> int {
        128 * self.num_chunks() + self.remainders@.len()
    }

    /// Element `k` of the list: from a block while `k` is below the covered
    /// range, from the tail after it.
    pub open(crate) spec fn elem_at(self, k: int) -> (u32, u32) {
        if k < 128 * self.num_chunks() {
            (self.chunk_ids(k / 128)[k % 128], self.chunks@[k / 128].weights@[k % 128])
        } else {
            self.remainders@[k - 128 * self.num_chunks()]
        }
    }

    /// What the cached last element must be: the final tail entry, else the
    /// final element of the terminal block, else nothing.
    pub open(crate) spec fn computed_last(self) -> Option<(u32, u32)> {
        if self.remainders@.len() > 0 {
            Option::Some(self.remainders@.last())
        } else if self.num_chunks() > 0 {
            Option::Some(
                (
                    self.chunk_ids(self.num_chunks() - 1)[127],
                    self.chunks@[self.num_chunks() - 1].weights@[127],
                ),
            )
        } else {
            Option::None
        }
    }

    /// Structural well-formedness; holds of every posting list value.
    #[verifier::type_invariant]
    pub open(crate) spec fn wf(self) -> bool {
        &&& forall|i: int|
            0 <= i < self.num_chunks() ==> (#[trigger] self.chunks@[i]).weights@.len() == 128
        &&& self.num_chunks() > 0 ==> self.chunks@[0].offset == 0
        &&& self.num_chunks() == 0 ==> self.id_data@.len() == 0
        &&& forall|i: int|
            0 <= i < self.num_chunks() ==> 0 <= #[trigger] self.chunk_size(i) <= 512
        &&& forall|i: int| 0 <= i < self.num_chunks() ==> #[trigger] self.chunk_size(i) % 16 == 0
        &&& self.id_data@.len() <= 0xFFFF_FFFF
        &&& self.chunks@.len() <= 0xFFFF_FFFF
        &&& self.remainders@.len() < 128
        &&& pairs_sorted(self.remainders@)
        &&& 128 * self.num_chunks() + self.remainders@.len() <= usize::MAX
        &&& self.last == self.computed_last()
    }

    /// The identifiers are strictly increasing across the whole list and
    /// every block header's `initial` is the first identifier of its block.
    /// Lists built by this crate are ordered; a list loaded from bytes that
    /// no save produced may not be.
    pub open(crate) spec fn ordered(self) -> bool {
        &&& pairs_sorted(self@)
        &&& forall|i: int|
            0 <= i < self.num_chunks()
                ==> (#[trigger] self.chunks@[i]).initial == self.chunk_ids(i)[0]
    }

    /// Offsets never move backward: `chunk_off` is monotone.
    pub(crate) proof fn lemma_off_monotone(self, i: int, j: int)
        requires
            self.wf(),
            0 <= i <= j <= self.num_chunks(),
        ensures
            self.chunk_off(i) <= self.chunk_off(j),
        decreases j - i,
    {
        if i < j {
            assert(self.chunk_size(j - 1) >= 0);
            self.lemma_off_monotone(i, j - 1);
        }
    }

    /// Every offset lies within 512 bytes per preceding block.
    pub(crate) proof fn lemma_off_upper(self, i: int)
        requires
            self.wf(),
            0 <= i <= self.num_chunks(),
            self.num_chunks() > 0,
        ensures
            self.chunk_off(i) <= 512 * i,
        decreases i,
    {
        if i == 0 {
            assert(self.chunk_off(0) == 0);
        } else {
            self.lemma_off_upper(i - 1);
            assert(self.chunk_size(i - 1) <= 512);
        }
    }

    /// The cached last element is the element at the last position.
    pub(crate) proof fn lemma_last_matches(self)
        requires
            self.wf(),
        ensures
            self.spec_last() == (if self@.len() == 0 {
                Option::<(u32, u32)>::None
            } else {
                Option::Some(self@[self@.len() - 1])
            }),
    {
        let n = self.num_chunks();
        if self.remainders@.len() > 0 {
            let k = self.spec_len() - 1;
            assert(self@[k] == self.elem_at(k));
        } else if n > 0 {
            let k = 128 * n - 1;
            assert(k == 128 * (n - 1) + 127);
            vstd::arithmetic::div_mod::lemma_fundamental_div_mod(k, 128);
            vstd::arithmetic::div_mod::lemma_mod_bound(k, 128);
            assert(k / 128 == n - 1);
            assert(self@[k] == self.elem_at(k));
        }
    }

    /// Appends `element` when its id lies strictly beyond the cached last
    /// element (or the list is empty); any other upsert is unsupported, is
    /// reported by returning `false`, and leaves the list unchanged. An
    /// accepted append extends the content by exactly the new (id, weight)
    /// pair, so upserting a sorted sequence of entries onto an empty list
    /// yields a list whose content is exactly that sequence. Earlier bytes
    /// are never rewritten: the append goes to the tail, and when the tail
    /// reaches 128 entries it is compressed into one new block whose bytes
    /// and header are appended behind everything already stored.
    #[verifier::rlimit(100)]
    pub fn upsert(&mut self, element: PostingElement) -> (r: bool)
        requires
            append_accepted(old(self).spec_last(), element.record_id) ==> old(self).spec_len()
                < MAX_POSTING_LEN,
        ensures
            r == append_accepted(old(self).spec_last(), element.record_id),
            r ==> final(self)@ == old(self)@.push((element.record_id, element.weight)),
            r ==> final(self).spec_last() == Option::Some((element.record_id, element.weight)),
            r && old(self).ordered() ==> final(self).ordered(),
            r ==> final(self).spec_id_data().subrange(
                0,
                old(self).spec_id_data().len() as int,
            ) == old(self).spec_id_data(),
            r ==> final(self).spec_chunks().len() >= old(self).spec_chunks().len() && (forall|
                i: int,
            |
                0 <= i < old(self).spec_chunks().len() ==> #[trigger] final(self).spec_chunks()[i]
                    == old(self).spec_chunks()[i]),
            r && old(self).spec_remainders().len() < 127
                ==> final(self).spec_id_data() == old(self).spec_id_data()
                && final(self).spec_chunks() == old(self).spec_chunks()
                && final(self).spec_remainders() == old(self).spec_remainders().push(
                (element.record_id, element.weight),
            ),
            r && old(self).spec_remainders().len() == 127 ==> final(self).spec_chunks().len()
                == old(self).spec_chunks().len() + 1 && final(self).spec_remainders()
                == Seq::<(u32, u32)>::empty(),
            !r ==> *final(self) == *old(self),
    {
        proof {
            use_type_invariant(&*self);
        }
        let ghost orig = *self;
        let accepted = match &self.last {
            Option::None => true,
            Option::Some(p) => p.0 < element.record_id,
        };
        if !accepted {
            return false;
        }
        let pair = (element.record_id, element.weight);
        let mut tmp = PostingList {
            id_data: Vec::new(),
            chunks: Vec::new(),
            remainders: Vec::new(),
            last: Option::None,
        };
        core::mem::swap(&mut tmp, self);
        let PostingList { mut id_data, mut chunks, mut remainders, last: _ } = tmp;
        let ghost old_rem = remainders@;
        remainders.push(pair);
        proof {
            assert(pairs_sorted(remainders@)) by {
                if old_rem.len() > 0 {
                    assert(orig.computed_last() == Option::Some(old_rem.last()));
                    assert forall|a: int, b: int|
                        0 <= a < b < remainders@.len() implies (#[trigger] remainders@[a]).0 < (
                    #[trigger] remainders@[b]).0 by {
                        if b < old_rem.len() {
                            assert(remainders@[a] == old_rem[a]);
                            assert(remainders@[b] == old_rem[b]);
                        } else {
                            assert(remainders@[b] == pair);
                            assert(remainders@[a] == old_rem[a]);
                            if a < old_rem.len() - 1 {
                                assert(old_rem[a].0 < old_rem[old_rem.len() - 1].0);
                            }
                        }
                    }
                }
            }
        }
        if remainders.len() == 128 {
            let mut ids: Vec<u32> = Vec::new();
            let mut weights: Vec<u32> = Vec::new();
            let mut k: usize = 0;
            while k < 128
                invariant
                    k <= 128,
                    remainders@.len() == 128,
                    ids@ == Seq::new(k as nat, |t: int| remainders@[t].0),
                    weights@ == Seq::new(k as nat, |t: int| remainders@[t].1),
                decreases 128 - k,
            {
                let e = remainders[k];
                ids.push(e.0);
                weights.push(e.1);
                proof {
                    assert(ids@ =~= Seq::new((k + 1) as nat, |t: int| remainders@[t].0));
                    assert(weights@ =~= Seq::new((k + 1) as nat, |t: int| remainders@[t].1));
                }
                k += 1;
            }
            proof {
                assert(strictly_increasing(ids@)) by {
                    assert forall|a: int, b: int| 0 <= a < b < 128 implies ids@[a] < ids@[b] by {
                        assert(remainders@[a].0 < remainders@[b].0);
                    }
                }
            }
            let initial = ids[0];
            let prev = if initial == 0 {
                Option::None
            } else {
                Option::Some(initial - 1)
            };
            proof {
                assert(prev_below(prev, ids@));
                if orig.num_chunks() > 0 {
                    orig.lemma_off_upper(orig.num_chunks());
                }
                assert(id_data@.len() + 512 <= 0xFFFF_FFFF);
            }
            let bits = num_bits_block(prev, ids.as_slice());
            let mut bytes = pack_block(prev, ids.as_slice(), bits);
            let offset = id_data.len() as u32;
            let ghost old_data = id_data@;
            let ghost old_chunks = chunks@;
            let ghost packed = bytes@;
            id_data.append(&mut bytes);
            chunks.push(CompressedPostingChunk { initial, offset, weights });
            proof {
                assert(old_data =~= id_data@.subrange(0, old_data.len() as int));
                assert forall|t: int|
                    0 <= t < old_chunks.len() implies #[trigger] seg_size(old_chunks, old_data, t)
                    >= 0 by {
                    assert(orig.chunk_size(t) >= 0);
                }
                assert forall|i: int| 0 <= i < old_chunks.len() implies {
                    &&& seg_off(chunks@, id_data@, i) == seg_off(old_chunks, old_data, i)
                    &&& seg_off(chunks@, id_data@, i + 1) == seg_off(old_chunks, old_data, i + 1)
                    &&& #[trigger] seg_size(chunks@, id_data@, i) == seg_size(old_chunks, old_data, i)
                    &&& seg_ids(chunks@, id_data@, i) == seg_ids(old_chunks, old_data, i)
                } by {
                    lemma_segs_stable(old_chunks, old_data, chunks@, id_data@, i);
                }
                let ci = old_chunks.len() as int;
                assert(seg_off(chunks@, id_data@, ci) == old_data.len());
                assert(seg_off(chunks@, id_data@, ci + 1) == id_data@.len());
                assert(seg_size(chunks@, id_data@, ci) == 16 * bits);
                assert(seg_bytes(chunks@, id_data@, ci) =~= packed);
                assert(seg_bits(chunks@, id_data@, ci) == bits);
                assert(seg_prev(chunks@, ci) == prev);
                assert(seg_ids(chunks@, id_data@, ci) == ids@);
                assert forall|i: int|
                    0 <= i < chunks@.len() implies 0 <= (#[trigger] seg_size(
                    chunks@,
                    id_data@,
                    i,
                )) <= 512 && seg_size(chunks@, id_data@, i) % 16 == 0 by {
                    if i < ci {
                        assert(0 <= orig.chunk_size(i) <= 512);
                        assert(orig.chunk_size(i) % 16 == 0);
                    }
                }
                assert(old_rem.len() == 127);
                assert(128 * ci == orig.spec_len() - 127);
                if ci == 0 {
                    assert(old_data.len() == 0);
                    assert(chunks@[0].offset == 0);
                }
                assert(remainders@[127] == pair);
                assert(seg_ids(chunks@, id_data@, ci)[127] == pair.0);
                assert(chunks@[ci].weights@[127] == pair.1);
                assert((pair.0, pair.1) == pair);
                assert(id_data@.len() <= 0xFFFF_FFFF);
                assert(128 * chunks@.len() <= usize::MAX);
            }
            let upd = PostingList {
                id_data,
                chunks,
                remainders: Vec::new(),
                last: Option::Some(pair),
            };
            proof {
                let ci = old_chunks.len() as int;
                assert(upd.num_chunks() == ci + 1);
                assert(upd.chunk_ids(ci) == ids@);
                assert(upd.spec_chunks()[ci].weights@ == weights@);
                assert(upd@ =~= orig@.push(pair)) by {
                    assert forall|k: int| 0 <= k < orig@.len() + 1 implies upd.elem_at(k)
                        == orig@.push(pair)[k] by {
                        vstd::arithmetic::div_mod::lemma_fundamental_div_mod(k, 128);
                        vstd::arithmetic::div_mod::lemma_mod_bound(k, 128);
                        if k < 128 * ci {
                            assert(upd.chunk_ids(k / 128) == orig.chunk_ids(k / 128));
                            assert(upd.elem_at(k) == orig.elem_at(k));
                            assert(orig@[k] == orig.elem_at(k));
                        } else {
                            let m = k - 128 * ci;
                            assert(k / 128 == ci);
                            assert(k % 128 == m);
                            assert(upd.elem_at(k) == (remainders@[m].0, remainders@[m].1));
                            if m < 127 {
                                assert(remainders@[m] == old_rem[m]);
                                assert(orig@[k] == orig.elem_at(k));
                                assert(orig.elem_at(k) == old_rem[m]);
                            } else {
                                assert(remainders@[m] == pair);
                            }
                        }
                    }
                }
                if orig.ordered() {
                    orig.lemma_last_matches();
                    assert(upd.ordered()) by {
                        assert forall|a: int, b: int|
                            0 <= a < b < upd@.len() implies (#[trigger] upd@[a]).0 < (
                        #[trigger] upd@[b]).0 by {
                            if b < orig@.len() {
                                assert(orig@[a].0 < orig@[b].0);
                            } else {
                                assert(upd@[b] == pair);
                                if a < orig@.len() - 1 {
                                    assert(orig@[a].0 < orig@[orig@.len() - 1].0);
                                }
                            }
                        }
                        assert forall|i: int|
                            0 <= i < upd.num_chunks() implies (
                        #[trigger] upd.spec_chunks()[i]).initial == upd.chunk_ids(i)[0] by {
                            if i < ci {
                                assert(orig.spec_chunks()[i].initial == orig.chunk_ids(i)[0]);
                                assert(upd.chunk_ids(i) == orig.chunk_ids(i));
                            } else {
                                assert(upd.chunk_ids(i) == ids@);
                                assert(ids@[0] == remainders@[0].0);
                            }
                        }
                    }
                }
            }
            *self = upd;
        } else {
            proof {
                assert forall|i: int|
                    0 <= i < chunks@.len() implies 0 <= (#[trigger] seg_size(
                    chunks@,
                    id_data@,
                    i,
                )) <= 512 && seg_size(chunks@, id_data@, i) % 16 == 0 by {
                    assert(0 <= orig.chunk_size(i) <= 512);
                    assert(orig.chunk_size(i) % 16 == 0);
                }
                assert(remainders@.last() == pair);
            }
            let upd = PostingList { id_data, chunks, remainders, last: Option::Some(pair) };
            proof {
                let ci = orig.num_chunks();
                assert(upd.chunks@ == orig.chunks@);
                assert(upd.id_data@ == orig.id_data@);
                assert forall|i: int| 0 <= i < upd.num_chunks() implies (
                #[trigger] upd.chunks@[i]).weights@.len() == 128 && upd.chunk_ids(i)
                    == orig.chunk_ids(i) by {
                    assert(orig.chunks@[i].weights@.len() == 128);
                }
                assert(upd@ =~= orig@.push(pair)) by {
                    assert forall|k: int| 0 <= k < orig@.len() + 1 implies upd.elem_at(k)
                        == orig@.push(pair)[k] by {
                        if k < 128 * ci {
                            assert(upd.elem_at(k) == orig.elem_at(k));
                            assert(orig@[k] == orig.elem_at(k));
                        } else {
                            let m = k - 128 * ci;
                            if m < old_rem.len() {
                                assert(remainders@[m] == old_rem[m]);
                                assert(orig@[k] == orig.elem_at(k));
                            } else {
                                assert(remainders@[m] == pair);
                            }
                        }
                    }
                }
                if orig.ordered() {
                    orig.lemma_last_matches();
                    assert(upd.ordered()) by {
                        assert forall|a: int, b: int|
                            0 <= a < b < upd@.len() implies (#[trigger] upd@[a]).0 < (
                        #[trigger] upd@[b]).0 by {
                            if b < orig@.len() {
                                assert(orig@[a].0 < orig@[b].0);
                            } else {
                                assert(upd@[b] == pair);
                                if a < orig@.len() - 1 {
                                    assert(orig@[a].0 < orig@[orig@.len() - 1].0);
                                }
                            }
                        }
                        assert forall|i: int|
                            0 <= i < upd.num_chunks() implies (
                        #[trigger] upd.spec_chunks()[i]).initial == upd.chunk_ids(i)[0] by {
                            assert(orig.spec_chunks()[i].initial == orig.chunk_ids(i)[0]);
                            assert(upd.chunk_ids(i) == orig.chunk_ids(i));
                        }
                    }
                }
            }
            *self = upd;
        }
        true
    }

    /// Number of elements in the list.
    pub fn len(&self) -> (r: usize)
        ensures
            r == self@.len(),
    {
        proof {
            use_type_invariant(&*self);
        }
        self.chunks.len() * 128 + self.remainders.len()
    }
}

impl View for PostingList {
    type V = Seq<(u32, u32)>;

    /// The list's content: its (id, weight) pairs in order of position.
    open(crate) spec fn view(&self) -> Seq<(u32, u32)> {
        Seq::new(self.spec_len() as nat, |k: int| self.elem_at(k))
    }
}

impl Default for PostingList {
    /// The empty posting list.
    fn default() -> (r: Self)
        ensures
            r@ == Seq::<(u32, u32)>::empty(),
            r.spec_last() is None,
            r.ordered(),
    {
        let r = PostingList {
            id_data: Vec::new(),
            chunks: Vec::new(),
            remainders: Vec::new(),
            last: Option::None,
        };
        proof {
            assert(r@ =~= Seq::<(u32, u32)>::empty());
        }
        r
    }
}

} // verus!
