//! Building a posting list from entries given in any order: the entries are
//! sorted by id, entries repeating an id keep only the first one given, full
//! blocks of 128 are compressed and the tail stays as remainders.

use vstd::prelude::*;

use crate::codec::{num_bits_block, pack_block, prev_below, strictly_increasing};
use crate::posting::{
    earlier_ids_differ, first_occurrence, id_in, pairs_sorted, seg_bits, seg_bytes, seg_ids,
    lemma_segs_stable, seg_off, seg_prev, seg_size, unique_ids, CompressedPostingChunk,
    PostingList, MAX_POSTING_LEN,
};

verus! {

broadcast use vstd::seq_lib::group_to_multiset_ensures;

/// Accumulates (id, weight) entries, in any order, for `build`.
pub struct PostingBuilder {
    pub(crate) elements: Vec<(u32, u32)>,
}

impl View for PostingBuilder {
    type V = Seq<(u32, u32)>;

    /// The entries added so far, in the order they were added.
    open(crate) spec fn view(&self) -> Seq<(u32, u32)> {
        self.elements@
    }
}

/// Membership of an id is invariant under appending an entry with another id,
/// and appending an entry makes its id a member.
proof fn lemma_id_in_push(s: Seq<(u32, u32)>, e: (u32, u32), x: u32)
    ensures
        id_in(s.push(e), x) <==> (id_in(s, x) || x == e.0),
{
    if id_in(s.push(e), x) {
        let i = choose|i: int| 0 <= i < s.push(e).len() && (#[trigger] s.push(e)[i]).0 == x;
        if i < s.len() {
            assert(s[i] == s.push(e)[i]);
        }
    }
    if id_in(s, x) {
        let i = choose|i: int| 0 <= i < s.len() && (#[trigger] s[i]).0 == x;
        assert(s.push(e)[i].0 == x);
        assert(id_in(s.push(e), x));
    }
    if x == e.0 {
        assert(s.push(e)[s.len() as int].0 == x);
        assert(id_in(s.push(e), x));
    }
}

/// Membership of an id is likewise invariant under inserting an entry.
proof fn lemma_id_in_insert(s: Seq<(u32, u32)>, p: int, e: (u32, u32), x: u32)
    requires
        0 <= p <= s.len(),
    ensures
        id_in(s.insert(p, e), x) <==> (id_in(s, x) || x == e.0),
{
    let t = s.insert(p, e);
    if id_in(t, x) {
        let i = choose|i: int| 0 <= i < t.len() && (#[trigger] t[i]).0 == x;
        if i < p {
            assert(s[i] == t[i]);
        } else if i > p {
            assert(s[i - 1] == t[i]);
            assert(id_in(s, x));
        }
    }
    if id_in(s, x) {
        let i = choose|i: int| 0 <= i < s.len() && (#[trigger] s[i]).0 == x;
        if i < p {
            assert(t[i].0 == x);
        } else {
            assert(t[i + 1].0 == x);
        }
        assert(id_in(t, x));
    }
    if x == e.0 {
        assert(t[p].0 == x);
        assert(id_in(t, x));
    }
}

/// A first occurrence stays one when more entries are appended after it.
proof fn lemma_first_occurrence_push(s: Seq<(u32, u32)>, e: (u32, u32), x: (u32, u32))
    requires
        first_occurrence(s, x),
    ensures
        first_occurrence(s.push(e), x),
{
    let i = choose|i: int|
        0 <= i < s.len() && #[trigger] s[i] == x && earlier_ids_differ(s, i, x.0);
    assert(s.push(e)[i] == x);
    assert(earlier_ids_differ(s.push(e), i, x.0)) by {
        assert(forall|j: int| 0 <= j < i ==> s.push(e)[j] == s[j]);
    }
}

/// Index of the first entry of `v` whose id is at least `id`, or the length
/// when every id is below it; a binary search over the sorted entries.
fn lower_bound(v: &Vec<(u32, u32)>, id: u32) -> (r: usize)
    requires
        pairs_sorted(v@),
    ensures
        r <= v@.len(),
        forall|k: int| 0 <= k < r ==> (#[trigger] v@[k]).0 < id,
        forall|k: int| r <= k < v@.len() ==> (#[trigger] v@[k]).0 >= id,
{
    let mut lo: usize = 0;
    let mut hi: usize = v.len();
    while lo < hi
        invariant
            lo <= hi <= v@.len(),
            pairs_sorted(v@),
            forall|k: int| 0 <= k < lo ==> (#[trigger] v@[k]).0 < id,
            forall|k: int| hi <= k < v@.len() ==> (#[trigger] v@[k]).0 >= id,
        decreases hi - lo,
    {
        let mid = lo + (hi - lo) / 2;
        if v[mid].0 < id {
            lo = mid + 1;
        } else {
            hi = mid;
        }
    }
    lo
}

/// Sorts the entries by id; of entries sharing an id only the first given
/// one is kept.
fn sort_dedup(input: &Vec<(u32, u32)>) -> (r: Vec<(u32, u32)>)
    ensures
        pairs_sorted(r@),
        forall|x: u32| id_in(r@, x) <==> id_in(input@, x),
        forall|k: int| 0 <= k < r@.len() ==> first_occurrence(input@, #[trigger] r@[k]),
        unique_ids(input@) ==> r@.to_multiset() == input@.to_multiset(),
        r@.len() <= input@.len(),
{
    let mut out: Vec<(u32, u32)> = Vec::new();
    let mut j: usize = 0;
    while j < input.len()
        invariant
            j <= input@.len(),
            out@.len() <= j,
            pairs_sorted(out@),
            forall|x: u32| id_in(out@, x) <==> id_in(input@.take(j as int), x),
            forall|k: int|
                0 <= k < out@.len() ==> first_occurrence(
                    input@.take(j as int),
                    #[trigger] out@[k],
                ),
            unique_ids(input@) ==> out@.to_multiset() == input@.take(j as int).to_multiset(),
        decreases input@.len() - j,
    {
        let e = input[j];
        let ghost tj = input@.take(j as int);
        let ghost tj1 = input@.take(j as int + 1);
        proof {
            assert(tj1 =~= tj.push(e));
        }
        let p = lower_bound(&out, e.0);
        let found = p < out.len() && {
            let q = out[p];
            q.0 == e.0
        };
        if found {
            proof {
                assert(id_in(out@, e.0)) by {
                    assert(out@[p as int].0 == e.0);
                }
                assert forall|x: u32| id_in(out@, x) <==> id_in(tj1, x) by {
                    lemma_id_in_push(tj, e, x);
                }
                assert forall|k: int|
                    0 <= k < out@.len() implies first_occurrence(tj1, #[trigger] out@[k]) by {
                    lemma_first_occurrence_push(tj, e, out@[k]);
                }
                if unique_ids(input@) {
                    let i = choose|i: int| 0 <= i < tj.len() && (#[trigger] tj[i]).0 == e.0;
                    assert(input@[i].0 == input@[j as int].0);
                    assert(false);
                }
            }
        } else {
            proof {
                assert(!id_in(out@, e.0)) by {
                    assert forall|k: int|
                        0 <= k < out@.len() implies (#[trigger] out@[k]).0 != e.0 by {
                        if k >= p {
                            assert(out@[k].0 >= e.0);
                            if k == p {
                                assert(out@[k].0 != e.0);
                            } else {
                                assert(out@[p as int].0 < out@[k].0);
                            }
                        }
                    }
                }
            }
            let ghost old_out = out@;
            out.insert(p, e);
            proof {
                assert(pairs_sorted(out@)) by {
                    assert forall|a: int, b: int|
                        0 <= a < b < out@.len() implies (#[trigger] out@[a]).0 < (
                    #[trigger] out@[b]).0 by {
                        if b < p {
                        } else if a > p {
                            assert(out@[a] == old_out[a - 1]);
                            assert(out@[b] == old_out[b - 1]);
                        } else if a == p && b > p {
                            assert(out@[b] == old_out[b - 1]);
                            assert(old_out[b - 1].0 >= e.0);
                            assert(old_out[b - 1].0 != e.0);
                        } else if a < p && b == p {
                            assert(out@[a] == old_out[a]);
                        } else if a < p && b > p {
                            assert(out@[a] == old_out[a]);
                            assert(out@[b] == old_out[b - 1]);
                            if a < b - 1 {
                            } else {
                                assert(old_out[a].0 < e.0);
                                assert(old_out[b - 1].0 >= e.0);
                            }
                        }
                    }
                }
                assert forall|x: u32| id_in(out@, x) <==> id_in(tj1, x) by {
                    lemma_id_in_insert(old_out, p as int, e, x);
                    lemma_id_in_push(tj, e, x);
                }
                assert(!id_in(tj, e.0));
                assert forall|k: int|
                    0 <= k < out@.len() implies first_occurrence(tj1, #[trigger] out@[k]) by {
                    if k < p {
                        assert(out@[k] == old_out[k]);
                        lemma_first_occurrence_push(tj, e, old_out[k]);
                    } else if k > p {
                        assert(out@[k] == old_out[k - 1]);
                        lemma_first_occurrence_push(tj, e, old_out[k - 1]);
                    } else {
                        assert(out@[k] == e);
                        assert(tj1[j as int] == e);
                        assert(earlier_ids_differ(tj1, j as int, e.0)) by {
                            assert forall|t: int| 0 <= t < j implies (#[trigger] tj1[t]).0 != e.0
                            by {
                                assert(tj1[t] == tj[t]);
                            }
                        }
                        assert(first_occurrence(tj1, e));
                    }
                }
                if unique_ids(input@) {
                    vstd::seq_lib::to_multiset_insert(old_out, p as int, e);
                    assert(tj1.to_multiset() =~= tj.to_multiset().insert(e));
                    assert(out@.to_multiset() =~= tj1.to_multiset());
                }
            }
        }
        j += 1;
    }
    proof {
        assert(input@.take(input@.len() as int) =~= input@);
    }
    out
}

/// Compresses the `nfull` leading full blocks of already sorted entries
/// into an identifier buffer and its block headers.
#[verifier::rlimit(100)]
fn encode_full_blocks(sorted: &Vec<(u32, u32)>, nfull: usize) -> (r: (Vec<u8>, Vec<
    CompressedPostingChunk,
>))
    requires
        pairs_sorted(sorted@),
        sorted@.len() <= MAX_POSTING_LEN,
        128 * nfull <= sorted@.len(),
    ensures
        r.1@.len() == nfull,
        r.0@.len() <= 512 * nfull,
        nfull == 0 ==> r.0@.len() == 0,
        nfull > 0 ==> r.1@[0].spec_offset() == 0,
        forall|i: int| 0 <= i < nfull ==> (#[trigger] r.1@[i]).spec_weights().len() == 128,
        forall|i: int| 0 <= i < nfull ==> 0 <= #[trigger] seg_size(r.1@, r.0@, i) <= 512,
        forall|i: int| 0 <= i < nfull ==> #[trigger] seg_size(r.1@, r.0@, i) % 16 == 0,
        forall|i: int|
            0 <= i < nfull ==> #[trigger] seg_ids(r.1@, r.0@, i) == Seq::new(
                128,
                |k: int| sorted@[128 * i + k].0,
            ),
        forall|i: int|
            0 <= i < nfull ==> (#[trigger] r.1@[i]).spec_weights() == Seq::new(
                128,
                |k: int| sorted@[128 * i + k].1,
            ),
        forall|i: int| 0 <= i < nfull ==> (#[trigger] r.1@[i]).spec_initial() == sorted@[128 * i].0,
{
    let total = sorted.len();
    let mut id_data: Vec<u8> = Vec::new();
    let mut chunks: Vec<CompressedPostingChunk> = Vec::new();
    let mut c: usize = 0;
    while c < nfull
        invariant
            pairs_sorted(sorted@),
            total == sorted@.len(),
            total <= MAX_POSTING_LEN,
            128 * nfull <= total,
            c <= nfull,
            chunks@.len() == c,
            id_data@.len() <= 512 * c,
            c == 0 ==> id_data@.len() == 0,
            c > 0 ==> chunks@[0].offset == 0,
            forall|i: int|
                0 <= i < c ==> (#[trigger] chunks@[i]).weights@.len() == 128,
            forall|i: int|
                0 <= i < c ==> 0 <= #[trigger] seg_size(chunks@, id_data@, i) <= 512,
            forall|i: int|
                0 <= i < c ==> #[trigger] seg_size(chunks@, id_data@, i) % 16 == 0,
            forall|i: int|
                0 <= i < c ==> #[trigger] seg_ids(chunks@, id_data@, i) == Seq::new(
                    128,
                    |k: int| sorted@[128 * i + k].0,
                ),
            forall|i: int|
                0 <= i < c ==> (#[trigger] chunks@[i]).weights@ == Seq::new(
                    128,
                    |k: int| sorted@[128 * i + k].1,
                ),
            forall|i: int|
                0 <= i < c ==> (#[trigger] chunks@[i]).initial == sorted@[128 * i].0,
        decreases nfull - c,
    {
        let base = c * 128;
        proof {
            assert(base + 128 <= total);
        }
        let mut ids: Vec<u32> = Vec::new();
        let mut weights: Vec<u32> = Vec::new();
        let mut k: usize = 0;
        while k < 128
            invariant
                k <= 128,
                base + 128 <= total,
                total == sorted@.len(),
                ids@ == Seq::new(k as nat, |t: int| sorted@[base + t].0),
                weights@ == Seq::new(k as nat, |t: int| sorted@[base + t].1),
            decreases 128 - k,
        {
            let e = sorted[base + k];
            ids.push(e.0);
            weights.push(e.1);
            proof {
                assert(ids@ =~= Seq::new((k + 1) as nat, |t: int| sorted@[base + t].0));
                assert(weights@ =~= Seq::new((k + 1) as nat, |t: int| sorted@[base + t].1));
            }
            k += 1;
        }
        proof {
            assert(strictly_increasing(ids@)) by {
                assert forall|a: int, b: int| 0 <= a < b < 128 implies ids@[a] < ids@[b] by {
                    assert(sorted@[base + a].0 < sorted@[base + b].0);
                }
            }
        }
        let initial = ids[0];
        let prev = if initial == 0 {
            Option::None
        } else {
            Option::Some(initial - 1)
        };
        proof {
            assert(prev_below(prev, ids@));
        }
        let bits = num_bits_block(prev, ids.as_slice());
        let mut bytes = pack_block(prev, ids.as_slice(), bits);
        proof {
            assert(id_data@.len() <= 512 * nfull);
            assert(512 * nfull <= 4 * total);
        }
        let offset = id_data.len() as u32;
        let ghost old_data = id_data@;
        let ghost old_chunks = chunks@;
        let ghost packed = bytes@;
        id_data.append(&mut bytes);
        chunks.push(CompressedPostingChunk { initial, offset, weights });
        proof {
            assert(old_data =~= id_data@.subrange(0, old_data.len() as int));
            assert forall|i: int| 0 <= i < c implies {
                &&& 0 <= #[trigger] seg_size(chunks@, id_data@, i) <= 512
                &&& seg_size(chunks@, id_data@, i) % 16 == 0
                &&& seg_ids(chunks@, id_data@, i) == Seq::new(
                    128,
                    |k: int| sorted@[128 * i + k].0,
                )
            } by {
                lemma_segs_stable(old_chunks, old_data, chunks@, id_data@, i);
            }
            // the new block
            let ci = c as int;
            assert(seg_off(chunks@, id_data@, ci) == old_data.len());
            assert(seg_off(chunks@, id_data@, ci + 1) == id_data@.len());
            assert(seg_size(chunks@, id_data@, ci) == 16 * bits);
            assert(seg_bytes(chunks@, id_data@, ci) =~= packed);
            assert(seg_bits(chunks@, id_data@, ci) == bits);
            assert(seg_prev(chunks@, ci) == prev);
            assert(seg_ids(chunks@, id_data@, ci) == ids@);
            assert(seg_ids(chunks@, id_data@, ci) =~= Seq::new(
                128,
                |k: int| sorted@[128 * ci + k].0,
            ));
        }
        c += 1;
    }
    (id_data, chunks)
}

/// Turns entries already sorted by id into a posting list: full blocks of
/// 128 are compressed, the tail stays uncompressed, and the last entry is
/// cached.
#[verifier::rlimit(100)]
fn encode_sorted(sorted: Vec<(u32, u32)>) -> (r: PostingList)
    requires
        pairs_sorted(sorted@),
        sorted@.len() <= MAX_POSTING_LEN,
    ensures
        r@ == sorted@,
        r.ordered(),
        r.spec_last() == (if sorted@.len() == 0 {
            Option::<(u32, u32)>::None
        } else {
            Option::Some(sorted@.last())
        }),
{
    let total = sorted.len();
    let nfull = total / 128;
    proof {
        vstd::arithmetic::div_mod::lemma_fundamental_div_mod(total as int, 128);
        vstd::arithmetic::div_mod::lemma_mod_bound(total as int, 128);
    }
    let (id_data, chunks) = encode_full_blocks(&sorted, nfull);
    let mut remainders: Vec<(u32, u32)> = Vec::new();
    let base0 = nfull * 128;
    let mut t: usize = base0;
    while t < total
        invariant
            base0 <= t <= total,
            base0 == nfull * 128,
            total == sorted@.len(),
            remainders@ == sorted@.subrange(base0 as int, t as int),
        decreases total - t,
    {
        let e = sorted[t];
        remainders.push(e);
        proof {
            assert(remainders@ =~= sorted@.subrange(base0 as int, t + 1));
        }
        t += 1;
    }
    let last = if total > 0 {
        Option::Some(sorted[total - 1])
    } else {
        Option::None
    };
    let r = PostingList { id_data, chunks, remainders, last };
    proof {
        assert(r@ =~= sorted@) by {
            assert forall|k: int| 0 <= k < sorted@.len() implies r.elem_at(k) == sorted@[k] by {
                if k < 128 * (nfull as int) {
                    vstd::arithmetic::div_mod::lemma_fundamental_div_mod(k, 128);
                    vstd::arithmetic::div_mod::lemma_mod_bound(k, 128);
                    let i = k / 128;
                    let m = k % 128;
                    assert(0 <= i < nfull as int);
                    assert(r.chunk_ids(i)[m] == sorted@[128 * i + m].0);
                    assert(r.spec_chunks()[i].spec_weights()[m] == sorted@[128 * i + m].1);
                    assert(r.elem_at(k) == (sorted@[k].0, sorted@[k].1));
                }
            }
        }
        assert(r.ordered());
        if total == 128 * (nfull as int) && nfull > 0 {
            assert(r.computed_last() == Option::Some((sorted@[total - 1].0, sorted@[total - 1].1)));
        }
    }
    r
}

impl PostingBuilder {
    /// An empty builder.
    pub fn new() -> (r: Self)
        ensures
            r@ == Seq::<(u32, u32)>::empty(),
    {
        let r = PostingBuilder { elements: Vec::new() };
        proof {
            assert(r@ =~= Seq::<(u32, u32)>::empty());
        }
        r
    }

    /// Adds one (id, weight) entry; order and repetition are sorted out by
    /// `build`.
    pub fn add(&mut self, record_id: u32, weight: u32)
        ensures
            final(self)@ == old(self)@.push((record_id, weight)),
    {
        self.elements.push((record_id, weight));
    }

    /// Builds the posting list: the entries sorted by id, with only the
    /// first-given entry of each id kept. When no id repeats, the list is
    /// exactly the added entries, sorted.
    pub fn build(self) -> (r: PostingList)
        requires
            self@.len() <= MAX_POSTING_LEN,
        ensures
            pairs_sorted(r@),
            r.ordered(),
            forall|x: u32| id_in(r@, x) <==> id_in(self@, x),
            forall|k: int| 0 <= k < r@.len() ==> first_occurrence(self@, #[trigger] r@[k]),
            unique_ids(self@) ==> r@.to_multiset() == self@.to_multiset(),
            r.spec_last() == (if r@.len() == 0 {
                Option::<(u32, u32)>::None
            } else {
                Option::Some(r@.last())
            }),
    {
        let sorted = sort_dedup(&self.elements);
        encode_sorted(sorted)
    }
}

impl Default for PostingBuilder {
    /// Same as `PostingBuilder::new`.
    fn default() -> (r: Self)
        ensures
            r@ == Seq::<(u32, u32)>::empty(),
    {
        PostingBuilder::new()
    }
}

impl PostingList {
    /// Builds a posting list from (id, weight) entries given in any order;
    /// a builder fed the same entries gives the same list.
    pub fn from(records: Vec<(u32, u32)>) -> (r: PostingList)
        requires
            records@.len() <= MAX_POSTING_LEN,
        ensures
            pairs_sorted(r@),
            r.ordered(),
            forall|x: u32| id_in(r@, x) <==> id_in(records@, x),
            forall|k: int| 0 <= k < r@.len() ==> first_occurrence(records@, #[trigger] r@[k]),
            unique_ids(records@) ==> r@.to_multiset() == records@.to_multiset(),
            r.spec_last() == (if r@.len() == 0 {
                Option::<(u32, u32)>::None
            } else {
                Option::Some(r@.last())
            }),
    {
        let mut builder = PostingBuilder::new();
        let mut j: usize = 0;
        while j < records.len()
            invariant
                j <= records@.len(),
                builder@ == records@.take(j as int),
            decreases records@.len() - j,
        {
            let e = records[j];
            builder.add(e.0, e.1);
            proof {
                assert(records@.take(j + 1) =~= records@.take(j as int).push(e));
            }
            j += 1;
        }
        proof {
            assert(records@.take(records@.len() as int) =~= records@);
        }
        builder.build()
    }

    /// A posting list holding the single entry (`record_id`, `weight`).
    pub fn new_one(record_id: u32, weight: u32) -> (r: PostingList)
        ensures
            r@ == seq![(record_id, weight)],
            r.spec_last() == Option::Some((record_id, weight)),
            r.ordered(),
    {
        let mut builder = PostingBuilder::new();
        builder.add(record_id, weight);
        let r = builder.build();
        proof {
            assert(id_in(builder@, record_id)) by {
                assert(builder@[0].0 == record_id);
            }
            assert(r@.len() >= 1) by {
                assert(id_in(r@, record_id));
            }
            assert(r@.len() <= 1) by {
                if r@.len() > 1 {
                    assert(first_occurrence(builder@, r@[0]));
                    assert(first_occurrence(builder@, r@[1]));
                }
            }
            assert(r@[0] == (record_id, weight)) by {
                assert(first_occurrence(builder@, r@[0]));
            }
            assert(r@ =~= seq![(record_id, weight)]);
        }
        r
    }
}

} // verus!
