//! Byte-exact persistence of one posting list, little-endian throughout:
//! a header of three `u32` counts, then the raw identifier bytes, then per
//! block its first identifier, its byte offset and its 128 weights, then the
//! tail entries as (id, weight) pairs.

use vstd::prelude::*;

use vstd::bytes::{
    spec_u32_from_le_bytes, spec_u32_to_le_bytes, u32_from_le_bytes, u32_to_le_bytes,
};

use crate::codec::{unpack_block, unpacked_ids};
use crate::posting::{
    lemma_pairs_sorted_from_adjacent, pairs_sorted, seg_size, CompressedPostingChunk, LoadError,
    PostingList,
};

verus! {

/// The `u32` stored little-endian at byte position `p` of `data`.
pub open spec fn le32_at(data: Seq<u8>, p: int) -> u32 {
    spec_u32_from_le_bytes(data.subrange(p, p + 4))
}

/// First header field: how many identifier bytes follow the header.
pub open spec fn hdr_id_len(data: Seq<u8>) -> int {
    le32_at(data, 0) as int
}

/// Second header field: how many compressed blocks the list holds.
pub open spec fn hdr_num_chunks(data: Seq<u8>) -> int {
    le32_at(data, 4) as int
}

/// Third header field: how many tail entries the list holds.
pub open spec fn hdr_num_rems(data: Seq<u8>) -> int {
    le32_at(data, 8) as int
}

/// The bytes the header announces: header, identifier bytes, 520 bytes per
/// block (two `u32`s and 128 weights), 8 per tail entry.
pub open spec fn needed_len(data: Seq<u8>) -> int {
    12 + hdr_id_len(data) + 520 * hdr_num_chunks(data) + 8 * hdr_num_rems(data)
}

/// The input holds at least what its own header announces.
pub open spec fn full_sized(data: Seq<u8>) -> bool {
    data.len() >= 12 && data.len() >= needed_len(data)
}

/// Where the block records start.
pub open spec fn chunks_base(data: Seq<u8>) -> int {
    12 + hdr_id_len(data)
}

pub open spec fn parsed_initial(data: Seq<u8>, i: int) -> u32 {
    le32_at(data, chunks_base(data) + 520 * i)
}

pub open spec fn parsed_offset(data: Seq<u8>, i: int) -> u32 {
    le32_at(data, chunks_base(data) + 520 * i + 4)
}

pub open spec fn parsed_weight(data: Seq<u8>, i: int, k: int) -> u32 {
    le32_at(data, chunks_base(data) + 520 * i + 8 + 4 * k)
}

/// Where the tail entries start.
pub open spec fn rems_base(data: Seq<u8>) -> int {
    chunks_base(data) + 520 * hdr_num_chunks(data)
}

pub open spec fn parsed_rem(data: Seq<u8>, j: int) -> (u32, u32) {
    (le32_at(data, rems_base(data) + 8 * j), le32_at(data, rems_base(data) + 8 * j + 4))
}

/// The 128 weights of block `i`, as stored.
pub open spec fn parsed_weights(data: Seq<u8>, i: int) -> Seq<u32> {
    Seq::new(128, |k: int| parsed_weight(data, i, k))
}

/// All tail entries, as stored.
pub open spec fn parsed_rems(data: Seq<u8>) -> Seq<(u32, u32)> {
    Seq::new(hdr_num_rems(data) as nat, |j: int| parsed_rem(data, j))
}

/// Byte offset one past block `i`'s identifier bytes: the next block's
/// offset, or the end of the identifier buffer for the final block.
pub open spec fn parsed_off_end(data: Seq<u8>, i: int) -> int {
    if i + 1 < hdr_num_chunks(data) {
        parsed_offset(data, i + 1) as int
    } else {
        hdr_id_len(data)
    }
}

/// Structural consistency of a sized input: block offsets start at zero and
/// cut the identifier buffer into slices of at most 512 bytes, each a
/// multiple of 16; fewer than 128 tail entries, sorted by id. Every saved
/// list satisfies this; an input failing it is rejected as malformed.
pub open spec fn shape_ok(data: Seq<u8>) -> bool {
    let n = hdr_num_chunks(data);
    &&& (n == 0 ==> hdr_id_len(data) == 0)
    &&& (n > 0 ==> parsed_offset(data, 0) == 0)
    &&& forall|i: int|
        0 <= i < n ==> 0 <= parsed_off_end(data, i) - (#[trigger] parsed_offset(data, i)) <= 512
    &&& forall|i: int|
        0 <= i < n ==> (parsed_off_end(data, i) - (#[trigger] parsed_offset(data, i))) % 16 == 0
    &&& hdr_num_rems(data) < 128
    &&& forall|j: int|
        0 <= j < hdr_num_rems(data) - 1 ==> (#[trigger] parsed_rem(data, j)).0 < parsed_rem(
            data,
            j + 1,
        ).0
}

/// The cached last element that loading reconstructs: the final tail entry,
/// else the last identifier of the terminal block (decoded from its bytes)
/// with its weight, else nothing.
pub open spec fn rebuilt_last(data: Seq<u8>) -> Option<(u32, u32)> {
    let n = hdr_num_chunks(data);
    let m = hdr_num_rems(data);
    if m > 0 {
        Option::Some(parsed_rem(data, m - 1))
    } else if n > 0 {
        let off = parsed_offset(data, n - 1) as int;
        let seg = data.subrange(12 + off, 12 + hdr_id_len(data));
        let bits = ((hdr_id_len(data) - off) / 16) as u8;
        let prev = if parsed_initial(data, n - 1) == 0 {
            Option::<u32>::None
        } else {
            Option::Some((parsed_initial(data, n - 1) - 1) as u32)
        };
        Option::Some((unpacked_ids(prev, seg, bits)[127], parsed_weight(data, n - 1, 127)))
    } else {
        Option::None
    }
}

/// Two lists agree in content: identifier bytes, every block header field,
/// tail, and cached last element.
pub open spec fn content_eq(a: PostingList, b: PostingList) -> bool {
    &&& a.spec_id_data() == b.spec_id_data()
    &&& a.spec_chunks().len() == b.spec_chunks().len()
    &&& forall|i: int|
        0 <= i < a.spec_chunks().len() ==> (#[trigger] a.spec_chunks()[i]).spec_initial()
            == b.spec_chunks()[i].spec_initial() && a.spec_chunks()[i].spec_offset()
            == b.spec_chunks()[i].spec_offset() && a.spec_chunks()[i].spec_weights()
            == b.spec_chunks()[i].spec_weights()
    &&& a.spec_remainders() == b.spec_remainders()
    &&& a.spec_last() == b.spec_last()
}

impl PostingList {
    /// How many bytes `save` produces.
    pub open(crate) spec fn saved_len(self) -> int {
        12 + self.id_data@.len() as int + 520 * self.chunks@.len() as int + 8
            * self.remainders@.len() as int
    }

    /// Byte `i` of the saved form.
    pub open(crate) spec fn byte_at(self, i: int) -> u8 {
        let idlen = self.id_data@.len() as int;
        let n = self.chunks@.len() as int;
        if i < 4 {
            spec_u32_to_le_bytes(self.id_data@.len() as u32)[i]
        } else if i < 8 {
            spec_u32_to_le_bytes(self.chunks@.len() as u32)[i - 4]
        } else if i < 12 {
            spec_u32_to_le_bytes(self.remainders@.len() as u32)[i - 8]
        } else if i < 12 + idlen {
            self.id_data@[i - 12]
        } else if i < 12 + idlen + 520 * n {
            let o = i - 12 - idlen;
            let c = o / 520;
            let w = o % 520;
            if w < 4 {
                spec_u32_to_le_bytes(self.chunks@[c].initial)[w]
            } else if w < 8 {
                spec_u32_to_le_bytes(self.chunks@[c].offset)[w - 4]
            } else {
                spec_u32_to_le_bytes(self.chunks@[c].weights@[(w - 8) / 4])[(w - 8) % 4]
            }
        } else {
            let o = i - 12 - idlen - 520 * n;
            let j = o / 8;
            let w = o % 8;
            if w < 4 {
                spec_u32_to_le_bytes(self.remainders@[j].0)[w]
            } else {
                spec_u32_to_le_bytes(self.remainders@[j].1)[w - 4]
            }
        }
    }

    /// The bytes `save` produces: the exact little-endian image of the list.
    pub open(crate) spec fn save_bytes(self) -> Seq<u8> {
        Seq::new(self.saved_len() as nat, |i: int| self.byte_at(i))
    }

    /// Serializes the list; deterministic, so saving twice gives identical
    /// bytes.
    pub fn save(&self) -> (r: Vec<u8>)
        ensures
            r@ == self.save_bytes(),
            r@.len() == self.saved_len(),
    {
        proof {
            use_type_invariant(&*self);
            vstd::bytes::lemma_auto_spec_u32_to_from_le_bytes();
        }
        let idlen = self.id_data.len();
        let n = self.chunks.len();
        let m = self.remainders.len();
        let mut out: Vec<u8> = Vec::new();
        push_le32(&mut out, idlen as u32);
        push_le32(&mut out, n as u32);
        push_le32(&mut out, m as u32);
        push_bytes(&mut out, self.id_data.as_slice());
        proof {
            assert forall|t: int| 0 <= t < out@.len() implies out@[t] == self.byte_at(t) by {
                if t < 4 {
                } else if t < 8 {
                } else if t < 12 {
                }
            }
        }
        let mut c: usize = 0;
        while c < n
            invariant
                self.wf(),
                n == self.chunks@.len(),
                idlen == self.id_data@.len(),
                m == self.remainders@.len(),
                c <= n,
                out@.len() == 12 + idlen + 520 * c,
                forall|t: int| 0 <= t < out@.len() ==> #[trigger] out@[t] == self.byte_at(t),
            decreases n - c,
        {
            let ghost base = out@.len() as int;
            push_le32(&mut out, self.chunks[c].initial);
            push_le32(&mut out, self.chunks[c].offset);
            proof {
                vstd::bytes::lemma_auto_spec_u32_to_from_le_bytes();
                assert forall|t: int| base <= t < out@.len() implies #[trigger] out@[t]
                    == chunk_record_byte(self.chunks@[c as int], t - base) by {
                }
            }
            let mut k: usize = 0;
            while k < 128
                invariant
                    self.wf(),
                    n == self.chunks@.len(),
                    idlen == self.id_data@.len(),
                    c < n,
                    k <= 128,
                    base == 12 + idlen + 520 * c,
                    out@.len() == base + 8 + 4 * k,
                    forall|t: int| 0 <= t < base ==> #[trigger] out@[t] == self.byte_at(t),
                    forall|t: int|
                        base <= t < out@.len() ==> #[trigger] out@[t] == chunk_record_byte(
                            self.chunks@[c as int],
                            t - base,
                        ),
                decreases 128 - k,
            {
                push_le32(&mut out, self.chunks[c].weights[k]);
                proof {
                    vstd::bytes::lemma_auto_spec_u32_to_from_le_bytes();
                    assert forall|t: int| base <= t < out@.len() implies #[trigger] out@[t]
                        == chunk_record_byte(self.chunks@[c as int], t - base) by {
                        let o = t - base;
                        if o >= 8 + 4 * k {
                            vstd::arithmetic::div_mod::lemma_fundamental_div_mod(o - 8, 4);
                            vstd::arithmetic::div_mod::lemma_mod_bound(o - 8, 4);
                            assert((o - 8) / 4 == k);
                            assert((o - 8) % 4 == t - (base + 8 + 4 * k));
                        }
                    }
                }
                k += 1;
            }
            proof {
                vstd::bytes::lemma_auto_spec_u32_to_from_le_bytes();
                assert forall|t: int| 0 <= t < out@.len() implies #[trigger] out@[t]
                    == self.byte_at(t) by {
                    if t >= base {
                        let o = t - 12 - idlen;
                        vstd::arithmetic::div_mod::lemma_fundamental_div_mod(o, 520);
                        vstd::arithmetic::div_mod::lemma_mod_bound(o, 520);
                        assert(o / 520 == c);
                        assert(o % 520 == t - base);
                        let w = t - base;
                        if w >= 8 {
                            vstd::arithmetic::div_mod::lemma_fundamental_div_mod(w - 8, 4);
                            vstd::arithmetic::div_mod::lemma_mod_bound(w - 8, 4);
                        }
                    }
                }
            }
            c += 1;
        }
        let ghost rbase = out@.len() as int;
        let mut j: usize = 0;
        while j < m
            invariant
                self.wf(),
                n == self.chunks@.len(),
                idlen == self.id_data@.len(),
                m == self.remainders@.len(),
                j <= m,
                rbase == 12 + idlen + 520 * n,
                out@.len() == rbase + 8 * j,
                forall|t: int| 0 <= t < out@.len() ==> #[trigger] out@[t] == self.byte_at(t),
            decreases m - j,
        {
            let ghost base = out@.len() as int;
            let e = self.remainders[j];
            push_le32(&mut out, e.0);
            push_le32(&mut out, e.1);
            proof {
                vstd::bytes::lemma_auto_spec_u32_to_from_le_bytes();
                assert forall|t: int| 0 <= t < out@.len() implies #[trigger] out@[t]
                    == self.byte_at(t) by {
                    if t >= rbase {
                        let o = t - rbase;
                        vstd::arithmetic::div_mod::lemma_fundamental_div_mod(o, 8);
                        vstd::arithmetic::div_mod::lemma_mod_bound(o, 8);
                        if t >= base {
                            assert(o / 8 == j);
                            assert(o % 8 == t - base);
                        }
                    }
                }
            }
            j += 1;
        }
        proof {
            assert(out@ =~= self.save_bytes());
        }
        out
    }
}

/// Reads the `n` block records that start at `chunks_base(data)`.
#[verifier::rlimit(100)]
fn parse_chunks(data: &[u8], idlen: usize, n: usize) -> (chunks: Vec<CompressedPostingChunk>)
    requires
        idlen == hdr_id_len(data@),
        n == hdr_num_chunks(data@),
        data@.len() >= needed_len(data@),
    ensures
        chunks@.len() == n,
        forall|t: int|
            0 <= t < n ==> (#[trigger] chunks@[t]).spec_initial() == parsed_initial(data@, t)
                && chunks@[t].spec_offset() == parsed_offset(data@, t)
                && chunks@[t].spec_weights() == parsed_weights(data@, t),
{
    let dlen = data.len();
    let cb = 12 + idlen;
    let mut chunks: Vec<CompressedPostingChunk> = Vec::new();
    let mut i: usize = 0;
    while i < n
        invariant
            data@.len() >= needed_len(data@),
            idlen == hdr_id_len(data@),
            n == hdr_num_chunks(data@),
            cb == chunks_base(data@),
            dlen == data@.len(),
            i <= n,
            chunks@.len() == i,
            forall|t: int|
                0 <= t < i ==> (#[trigger] chunks@[t]).spec_initial() == parsed_initial(data@, t)
                    && chunks@[t].spec_offset() == parsed_offset(data@, t)
                    && chunks@[t].spec_weights() == parsed_weights(data@, t),
        decreases n - i,
    {
        proof {
            assert(0 <= 8 * hdr_num_rems(data@));
            assert(cb + 520 * (i + 1) <= data@.len());
        }
        let base = cb + 520 * i;
        let initial = u32_from_le_bytes(vstd::slice::slice_subrange(data, base, base + 4));
        let offset = u32_from_le_bytes(vstd::slice::slice_subrange(data, base + 4, base + 8));
        let weights = parse_weights(data, idlen, n, i);
        chunks.push(CompressedPostingChunk { initial, offset, weights });
        i += 1;
    }
    chunks
}

/// Reads the 128 weights of block `i`.
#[verifier::rlimit(100)]
fn parse_weights(data: &[u8], idlen: usize, n: usize, i: usize) -> (weights: Vec<u32>)
    requires
        idlen == hdr_id_len(data@),
        n == hdr_num_chunks(data@),
        data@.len() >= needed_len(data@),
        i < n,
    ensures
        weights@ == parsed_weights(data@, i as int),
{
    let dlen = data.len();
    proof {
        assert(0 <= 8 * hdr_num_rems(data@));
        assert(12 + idlen + 520 * (i + 1) <= data@.len());
    }
    let base = 12 + idlen + 520 * i;
    let mut weights: Vec<u32> = Vec::new();
    let mut k: usize = 0;
    while k < 128
        invariant
            data@.len() >= needed_len(data@),
            idlen == hdr_id_len(data@),
            n == hdr_num_chunks(data@),
            i < n,
            base == chunks_base(data@) + 520 * i,
            base + 520 <= data@.len(),
            dlen == data@.len(),
            k <= 128,
            weights@ == Seq::new(k as nat, |t: int| parsed_weight(data@, i as int, t)),
        decreases 128 - k,
    {
        let w = u32_from_le_bytes(
            vstd::slice::slice_subrange(data, base + 8 + 4 * k, base + 8 + 4 * k + 4),
        );
        weights.push(w);
        proof {
            assert(weights@ =~= Seq::new(
                (k + 1) as nat,
                |t: int| parsed_weight(data@, i as int, t),
            ));
        }
        k += 1;
    }
    proof {
        assert(weights@ =~= parsed_weights(data@, i as int));
    }
    weights
}

/// Reads the `m` tail entries that start at `rems_base(data)`.
#[verifier::rlimit(100)]
fn parse_rems(data: &[u8], idlen: usize, n: usize, m: usize) -> (remainders: Vec<(u32, u32)>)
    requires
        idlen == hdr_id_len(data@),
        n == hdr_num_chunks(data@),
        m == hdr_num_rems(data@),
        data@.len() >= needed_len(data@),
    ensures
        remainders@ == parsed_rems(data@),
{
    proof {
        assert(12 + idlen + 520 * n + 8 * m <= data@.len());
    }
    let dlen = data.len();
    let rb = 12 + idlen + 520 * n;
    let mut remainders: Vec<(u32, u32)> = Vec::new();
    let mut j: usize = 0;
    while j < m
        invariant
            data@.len() >= needed_len(data@),
            idlen == hdr_id_len(data@),
            n == hdr_num_chunks(data@),
            m == hdr_num_rems(data@),
            rb == rems_base(data@),
            rb + 8 * m <= data@.len(),
            dlen == data@.len(),
            j <= m,
            remainders@ == Seq::new(j as nat, |t: int| parsed_rem(data@, t)),
        decreases m - j,
    {
        let rid = u32_from_le_bytes(vstd::slice::slice_subrange(data, rb + 8 * j, rb + 8 * j + 4));
        let rw = u32_from_le_bytes(
            vstd::slice::slice_subrange(data, rb + 8 * j + 4, rb + 8 * j + 8),
        );
        remainders.push((rid, rw));
        proof {
            assert(remainders@ =~= Seq::new((j + 1) as nat, |t: int| parsed_rem(data@, t)));
        }
        j += 1;
    }
    proof {
        assert(remainders@ =~= parsed_rems(data@));
    }
    remainders
}

/// Checks exactly the `shape_ok` conditions on the parsed pieces.
#[verifier::rlimit(100)]
fn validate_shape(
    data: &[u8],
    idlen: usize,
    n: usize,
    m: usize,
    chunks: &Vec<CompressedPostingChunk>,
    remainders: &Vec<(u32, u32)>,
) -> (ok: bool)
    requires
        idlen == hdr_id_len(data@),
        n == hdr_num_chunks(data@),
        m == hdr_num_rems(data@),
        data@.len() >= needed_len(data@),
        chunks@.len() == n,
        forall|t: int|
            0 <= t < n ==> (#[trigger] chunks@[t]).spec_offset() == parsed_offset(data@, t),
        remainders@.len() == m,
        forall|t: int| 0 <= t < m ==> #[trigger] remainders@[t] == parsed_rem(data@, t),
    ensures
        ok <==> shape_ok(data@),
{
    if m >= 128 {
        return false;
    }
    if n == 0 && idlen != 0 {
        return false;
    }
    if n > 0 {
        let first_off = chunks[0].offset;
        if first_off != 0 {
            return false;
        }
    }
    let mut i: usize = 0;
    while i < n
        invariant
            data@.len() >= needed_len(data@),
            idlen == hdr_id_len(data@),
            n == hdr_num_chunks(data@) == chunks@.len(),
            m == hdr_num_rems(data@),
            i <= n,
            forall|t: int|
                0 <= t < n ==> (#[trigger] chunks@[t]).spec_offset() == parsed_offset(data@, t),
            forall|t: int|
                0 <= t < i ==> 0 <= parsed_off_end(data@, t) - (#[trigger] parsed_offset(
                    data@,
                    t,
                )) <= 512 && (parsed_off_end(data@, t) - parsed_offset(data@, t)) % 16 == 0,
        decreases n - i,
    {
        let off = chunks[i].offset as usize;
        let end = if i + 1 < n {
            chunks[i + 1].offset as usize
        } else {
            idlen
        };
        if end < off || end - off > 512 || (end - off) % 16 != 0 {
            return false;
        }
        i += 1;
    }
    let mut j: usize = 0;
    while j + 1 < m
        invariant
            m == hdr_num_rems(data@) == remainders@.len(),
            m < 128,
            j <= m,
            forall|t: int| 0 <= t < m ==> #[trigger] remainders@[t] == parsed_rem(data@, t),
            forall|t: int|
                0 <= t < j ==> (#[trigger] parsed_rem(data@, t)).0 < parsed_rem(data@, t + 1).0,
        decreases m - j,
    {
        let a = remainders[j];
        let b = remainders[j + 1];
        if a.0 >= b.0 {
            return false;
        }
        j += 1;
    }
    true
}

/// A parsed, shape-checked list with its cached last element rebuilt is
/// well-formed.
#[verifier::rlimit(100)]
proof fn lemma_loaded_wf(l: PostingList, data: Seq<u8>)
    requires
        data.len() >= needed_len(data),
        data.len() <= usize::MAX,
        shape_ok(data),
        l.spec_id_data() == data.subrange(12, 12 + hdr_id_len(data)),
        l.spec_chunks().len() == hdr_num_chunks(data),
        forall|t: int|
            0 <= t < hdr_num_chunks(data) ==> (#[trigger] l.spec_chunks()[t]).spec_initial()
                == parsed_initial(data, t) && l.spec_chunks()[t].spec_offset() == parsed_offset(
                data,
                t,
            ) && l.spec_chunks()[t].spec_weights() == parsed_weights(data, t),
        l.spec_remainders() == parsed_rems(data),
        l.spec_last() == rebuilt_last(data),
    ensures
        l.wf(),
{
    let n = hdr_num_chunks(data);
    let m = hdr_num_rems(data);
    let idlen = hdr_id_len(data);
    assert(l.spec_id_data().len() == idlen);
    assert forall|t: int|
        0 <= t < n implies 0 <= (#[trigger] seg_size(l.spec_chunks(), l.spec_id_data(), t)) <= 512
        && seg_size(l.spec_chunks(), l.spec_id_data(), t) % 16 == 0 by {
        assert(seg_size(l.spec_chunks(), l.spec_id_data(), t) == parsed_off_end(data, t)
            - parsed_offset(data, t));
    }
    assert(128 * n + m <= 520 * n + 8 * m);
    assert(520 * n + 8 * m <= data.len() - 12);
    lemma_pairs_sorted_from_adjacent(l.spec_remainders());
    if m > 0 {
        assert(l.computed_last() == Option::Some(l.spec_remainders().last()));
        assert(l.spec_remainders().last() == parsed_rem(data, m - 1));
    } else if n > 0 {
        let off = parsed_offset(data, n - 1) as int;
        assert(l.chunk_seg(n - 1) =~= data.subrange(12 + off, 12 + idlen));
        assert(l.chunk_bits(n - 1) == ((idlen - off) / 16) as u8);
        assert(l.computed_last() == rebuilt_last(data));
    }
}

impl PostingList {
    /// Parses a saved list. `Truncated` when the input is shorter than its
    /// header announces; `Malformed` when it is long enough but structurally
    /// inconsistent; otherwise the list, with the cached last element
    /// rebuilt from the tail or by decoding only the terminal block.
    #[verifier::rlimit(100)]
    fn load_inner(data: &[u8]) -> (r: Result<PostingList, LoadError>)
        ensures
            match r {
                Result::Ok(l) => full_sized(data@) && shape_ok(data@) && l.spec_id_data()
                    == data@.subrange(12, 12 + hdr_id_len(data@)) && l.spec_chunks().len()
                    == hdr_num_chunks(data@) && (forall|i: int|
                    0 <= i < hdr_num_chunks(data@) ==> (
                    #[trigger] l.spec_chunks()[i]).spec_initial() == parsed_initial(data@, i)
                        && l.spec_chunks()[i].spec_offset() == parsed_offset(data@, i)
                        && l.spec_chunks()[i].spec_weights() == parsed_weights(data@, i))
                    && l.spec_remainders() == parsed_rems(data@) && l.spec_last() == rebuilt_last(
                    data@,
                ),
                Result::Err(e) => (e == LoadError::Truncated <==> !full_sized(data@)) && (e
                    == LoadError::Malformed <==> full_sized(data@) && !shape_ok(data@)),
            },
    {
        if data.len() < 12 {
            return Result::Err(LoadError::Truncated);
        }
        let idlen32 = u32_from_le_bytes(vstd::slice::slice_subrange(data, 0, 4));
        let n32 = u32_from_le_bytes(vstd::slice::slice_subrange(data, 4, 8));
        let m32 = u32_from_le_bytes(vstd::slice::slice_subrange(data, 8, 12));
        let needed: u64 = 12u64 + (idlen32 as u64) + 520u64 * (n32 as u64) + 8u64 * (m32 as u64);
        if (data.len() as u64) < needed {
            return Result::Err(LoadError::Truncated);
        }
        proof {
            assert(full_sized(data@));
        }
        let idlen = idlen32 as usize;
        let n = n32 as usize;
        let m = m32 as usize;
        let id_data = vstd::slice::slice_to_vec(vstd::slice::slice_subrange(data, 12, 12 + idlen));
        let chunks = parse_chunks(data, idlen, n);
        let remainders = parse_rems(data, idlen, n, m);
        if !validate_shape(data, idlen, n, m, &chunks, &remainders) {
            return Result::Err(LoadError::Malformed);
        }
        // rebuild the cached last element
        let last = if m > 0 {
            let e = remainders[m - 1];
            Option::Some(e)
        } else if n > 0 {
            let off = chunks[n - 1].offset as usize;
            proof {
                assert(parsed_off_end(data@, n as int - 1) == idlen);
                assert(0 <= idlen - parsed_offset(data@, n as int - 1) <= 512);
            }
            let sz = idlen - off;
            let bits = (sz / 16) as u8;
            proof {
                assert(sz % 16 == 0);
                vstd::arithmetic::div_mod::lemma_fundamental_div_mod(sz as int, 16);
            }
            let seg = vstd::slice::slice_subrange(data, 12 + off, 12 + idlen);
            let initial = chunks[n - 1].initial;
            let prev = if initial == 0 {
                Option::None
            } else {
                Option::Some(initial - 1)
            };
            let dec = unpack_block(prev, seg, bits);
            let w = chunks[n - 1].weights[127];
            Option::Some((dec[127], w))
        } else {
            Option::None
        };
        proof {
            assert(last == rebuilt_last(data@));
            let lg = PostingList { id_data: id_data, chunks: chunks, remainders: remainders, last: last };
            lemma_loaded_wf(lg, data@);
        }
        let l = PostingList { id_data, chunks, remainders, last };
        Result::Ok(l)
    }
}

/// Four saved bytes that spell `x` little-endian read back as `x`.
proof fn lemma_le32_at(data: Seq<u8>, p: int, x: u32)
    requires
        0 <= p,
        p + 4 <= data.len(),
        forall|b: int| 0 <= b < 4 ==> data[p + b] == spec_u32_to_le_bytes(x)[b],
    ensures
        le32_at(data, p) == x,
{
    vstd::bytes::lemma_auto_spec_u32_to_from_le_bytes();
    assert(data.subrange(p, p + 4) =~= spec_u32_to_le_bytes(x));
}

/// The header of a saved list reads back as the list's own counts.
proof fn lemma_save_header(l: PostingList, data: Seq<u8>)
    requires
        l.wf(),
        data == l.save_bytes(),
    ensures
        data.len() == l.saved_len(),
        hdr_id_len(data) == l.spec_id_data().len(),
        hdr_num_chunks(data) == l.spec_chunks().len(),
        hdr_num_rems(data) == l.spec_remainders().len(),
        full_sized(data),
        chunks_base(data) == 12 + l.spec_id_data().len(),
        rems_base(data) == 12 + l.spec_id_data().len() + 520 * l.spec_chunks().len(),
{
    vstd::bytes::lemma_auto_spec_u32_to_from_le_bytes();
    lemma_le32_at(data, 0, l.id_data@.len() as u32);
    lemma_le32_at(data, 4, l.chunks@.len() as u32);
    lemma_le32_at(data, 8, l.remainders@.len() as u32);
}

/// The block records of a saved list read back as the list's own blocks.
#[verifier::rlimit(100)]
proof fn lemma_save_chunks(l: PostingList, data: Seq<u8>)
    requires
        l.wf(),
        data == l.save_bytes(),
    ensures
        data.subrange(12, 12 + hdr_id_len(data)) == l.spec_id_data(),
        forall|i: int|
            0 <= i < l.spec_chunks().len() ==> #[trigger] parsed_initial(data, i)
                == l.spec_chunks()[i].spec_initial(),
        forall|i: int|
            0 <= i < l.spec_chunks().len() ==> #[trigger] parsed_offset(data, i)
                == l.spec_chunks()[i].spec_offset(),
        forall|i: int|
            0 <= i < l.spec_chunks().len() ==> #[trigger] parsed_weights(data, i)
                == l.spec_chunks()[i].spec_weights(),
        parsed_rems(data) == l.spec_remainders(),
{
    vstd::bytes::lemma_auto_spec_u32_to_from_le_bytes();
    lemma_save_header(l, data);
    let idlen = l.id_data@.len() as int;
    let n = l.chunks@.len() as int;
    let m = l.remainders@.len() as int;
    let cb = 12 + idlen;
    assert(data.subrange(12, 12 + idlen) =~= l.id_data@);
    assert forall|i: int| 0 <= i < n implies #[trigger] parsed_initial(data, i)
        == l.spec_chunks()[i].spec_initial() && parsed_offset(data, i)
        == l.spec_chunks()[i].spec_offset() && parsed_weights(data, i)
        == l.spec_chunks()[i].spec_weights() by {
        assert forall|b: int| 0 <= b < 4 implies data[cb + 520 * i + b] == spec_u32_to_le_bytes(
            l.chunks@[i].initial,
        )[b] by {
            let o = 520 * i + b;
            vstd::arithmetic::div_mod::lemma_fundamental_div_mod(o, 520);
            vstd::arithmetic::div_mod::lemma_mod_bound(o, 520);
            assert(o / 520 == i && o % 520 == b);
        }
        lemma_le32_at(data, cb + 520 * i, l.chunks@[i].initial);
        assert forall|b: int| 0 <= b < 4 implies data[cb + 520 * i + 4 + b]
            == spec_u32_to_le_bytes(l.chunks@[i].offset)[b] by {
            let o = 520 * i + 4 + b;
            vstd::arithmetic::div_mod::lemma_fundamental_div_mod(o, 520);
            vstd::arithmetic::div_mod::lemma_mod_bound(o, 520);
            assert(o / 520 == i && o % 520 == 4 + b);
        }
        lemma_le32_at(data, cb + 520 * i + 4, l.chunks@[i].offset);
        assert forall|k: int| 0 <= k < 128 implies #[trigger] parsed_weight(data, i, k)
            == l.chunks@[i].weights@[k] by {
            assert forall|b: int| 0 <= b < 4 implies data[cb + 520 * i + 8 + 4 * k + b]
                == spec_u32_to_le_bytes(l.chunks@[i].weights@[k])[b] by {
                let o = 520 * i + 8 + 4 * k + b;
                vstd::arithmetic::div_mod::lemma_fundamental_div_mod(o, 520);
                vstd::arithmetic::div_mod::lemma_mod_bound(o, 520);
                assert(o / 520 == i && o % 520 == 8 + 4 * k + b);
                let w = 8 + 4 * k + b;
                vstd::arithmetic::div_mod::lemma_fundamental_div_mod(w - 8, 4);
                vstd::arithmetic::div_mod::lemma_mod_bound(w - 8, 4);
                assert((w - 8) / 4 == k && (w - 8) % 4 == b);
            }
            lemma_le32_at(data, cb + 520 * i + 8 + 4 * k, l.chunks@[i].weights@[k]);
        }
        assert(parsed_weights(data, i) =~= l.chunks@[i].weights@);
    }
    assert forall|i: int| 0 <= i < n implies #[trigger] parsed_offset(data, i)
        == l.spec_chunks()[i].spec_offset() by {
        assert(parsed_initial(data, i) == l.spec_chunks()[i].spec_initial());
    }
    assert forall|i: int| 0 <= i < n implies #[trigger] parsed_weights(data, i)
        == l.spec_chunks()[i].spec_weights() by {
        assert(parsed_initial(data, i) == l.spec_chunks()[i].spec_initial());
    }
    let rb = cb + 520 * n;
    assert forall|j: int| 0 <= j < m implies #[trigger] parsed_rem(data, j)
        == l.remainders@[j] by {
        assert forall|b: int| 0 <= b < 4 implies data[rb + 8 * j + b] == spec_u32_to_le_bytes(
            l.remainders@[j].0,
        )[b] by {
            let o = 8 * j + b;
            vstd::arithmetic::div_mod::lemma_fundamental_div_mod(o, 8);
            vstd::arithmetic::div_mod::lemma_mod_bound(o, 8);
            assert(o / 8 == j && o % 8 == b);
        }
        lemma_le32_at(data, rb + 8 * j, l.remainders@[j].0);
        assert forall|b: int| 0 <= b < 4 implies data[rb + 8 * j + 4 + b] == spec_u32_to_le_bytes(
            l.remainders@[j].1,
        )[b] by {
            let o = 8 * j + 4 + b;
            vstd::arithmetic::div_mod::lemma_fundamental_div_mod(o, 8);
            vstd::arithmetic::div_mod::lemma_mod_bound(o, 8);
            assert(o / 8 == j && o % 8 == 4 + b);
        }
        lemma_le32_at(data, rb + 8 * j + 4, l.remainders@[j].1);
        assert(parsed_rem(data, j) == (l.remainders@[j].0, l.remainders@[j].1));
    }
    assert(parsed_rems(data) =~= l.remainders@);
}

/// What a save of a well-formed list parses back to: the list itself, its
/// shape accepted and its cached last element rebuilt unchanged.
#[verifier::rlimit(100)]
proof fn lemma_parse_of_save(l: PostingList, data: Seq<u8>)
    requires
        l.wf(),
        data == l.save_bytes(),
    ensures
        full_sized(data),
        shape_ok(data),
        hdr_id_len(data) == l.spec_id_data().len(),
        hdr_num_chunks(data) == l.spec_chunks().len(),
        hdr_num_rems(data) == l.spec_remainders().len(),
        data.subrange(12, 12 + hdr_id_len(data)) == l.spec_id_data(),
        forall|i: int|
            0 <= i < l.spec_chunks().len() ==> #[trigger] parsed_initial(data, i)
                == l.spec_chunks()[i].spec_initial(),
        forall|i: int|
            0 <= i < l.spec_chunks().len() ==> #[trigger] parsed_offset(data, i)
                == l.spec_chunks()[i].spec_offset(),
        forall|i: int|
            0 <= i < l.spec_chunks().len() ==> #[trigger] parsed_weights(data, i)
                == l.spec_chunks()[i].spec_weights(),
        parsed_rems(data) == l.spec_remainders(),
        rebuilt_last(data) == l.spec_last(),
{
    lemma_save_header(l, data);
    lemma_save_chunks(l, data);
    let idlen = l.id_data@.len() as int;
    let n = l.chunks@.len() as int;
    let m = l.remainders@.len() as int;
    assert(shape_ok(data)) by {
        assert forall|i: int|
            0 <= i < n implies 0 <= parsed_off_end(data, i) - (#[trigger] parsed_offset(data, i))
            <= 512 && (parsed_off_end(data, i) - parsed_offset(data, i)) % 16 == 0 by {
            assert(parsed_off_end(data, i) - parsed_offset(data, i) == l.chunk_size(i));
        }
        assert forall|j: int|
            0 <= j < m - 1 implies (#[trigger] parsed_rem(data, j)).0 < parsed_rem(
            data,
            j + 1,
        ).0 by {
            assert(parsed_rem(data, j) == parsed_rems(data)[j]);
            assert(parsed_rem(data, j + 1) == parsed_rems(data)[j + 1]);
        }
    }
    assert(rebuilt_last(data) == l.spec_last()) by {
        if m > 0 {
            assert(parsed_rem(data, m - 1) == parsed_rems(data)[m - 1]);
        } else if n > 0 {
            let off = parsed_offset(data, n - 1) as int;
            assert(off == l.chunks@[n - 1].offset);
            assert(data.subrange(12 + off, 12 + idlen) =~= l.chunk_seg(n - 1));
            assert(((idlen - off) / 16) as u8 == l.chunk_bits(n - 1));
            assert(parsed_weight(data, n - 1, 127) == parsed_weights(data, n - 1)[127]);
            assert(l.spec_last() == l.computed_last());
        }
    }
}

/// Lists equal in content have the same elements, the same saved bytes, and
/// are ordered together.
proof fn lemma_content_eq_view(a: PostingList, b: PostingList)
    requires
        content_eq(a, b),
    ensures
        a@ == b@,
        a.save_bytes() == b.save_bytes(),
        b.ordered() ==> a.ordered(),
{
    assert forall|i: int| 0 <= i < a.spec_chunks().len() implies #[trigger] a.chunk_ids(i)
        == b.chunk_ids(i) && a.chunk_off(i) == b.chunk_off(i) && a.chunk_off(i + 1) == b.chunk_off(
        i + 1,
    ) by {
        assert(a.chunk_seg(i) =~= b.chunk_seg(i));
    }
    assert(a@ =~= b@) by {
        assert forall|k: int| 0 <= k < a.spec_len() implies a.elem_at(k) == b.elem_at(k) by {
            if k < 128 * a.num_chunks() {
                vstd::arithmetic::div_mod::lemma_fundamental_div_mod(k, 128);
                vstd::arithmetic::div_mod::lemma_mod_bound(k, 128);
            }
        }
    }
    assert(a.save_bytes() =~= b.save_bytes()) by {
        assert forall|i: int| 0 <= i < a.saved_len() implies a.byte_at(i) == b.byte_at(i) by {
            let idlen = a.id_data@.len() as int;
            let n = a.chunks@.len() as int;
            if 12 + idlen <= i < 12 + idlen + 520 * n {
                let o = i - 12 - idlen;
                vstd::arithmetic::div_mod::lemma_fundamental_div_mod(o, 520);
                vstd::arithmetic::div_mod::lemma_mod_bound(o, 520);
                let w = o % 520;
                if w >= 8 {
                    vstd::arithmetic::div_mod::lemma_fundamental_div_mod(w - 8, 4);
                    vstd::arithmetic::div_mod::lemma_mod_bound(w - 8, 4);
                }
            } else if i >= 12 + idlen + 520 * n {
                let o = i - 12 - idlen - 520 * n;
                vstd::arithmetic::div_mod::lemma_fundamental_div_mod(o, 8);
                vstd::arithmetic::div_mod::lemma_mod_bound(o, 8);
            }
        }
    }
    if b.ordered() {
        assert(a.ordered()) by {
            assert(pairs_sorted(a@));
            assert forall|i: int|
                0 <= i < a.num_chunks() implies (#[trigger] a.spec_chunks()[i]).initial
                == a.chunk_ids(i)[0] by {
                assert(b.spec_chunks()[i].initial == b.chunk_ids(i)[0]);
            }
        }
    }
}

impl PostingList {
    /// Loads a list saved by `save`. `Truncated` when the input is shorter
    /// than its header announces; `Malformed` when it is long enough but no
    /// save could have produced its structure; otherwise the parsed list,
    /// with the cached last element rebuilt without decoding any non-terminal
    /// block. Loading what `save` produced gives back the saved list in
    /// content, so `load` inverts `save`.
    pub fn load(data: &[u8]) -> (r: Result<PostingList, LoadError>)
        ensures
            match r {
                Result::Ok(l) => full_sized(data@) && shape_ok(data@) && l.spec_id_data()
                    == data@.subrange(12, 12 + hdr_id_len(data@)) && l.spec_chunks().len()
                    == hdr_num_chunks(data@) && (forall|i: int|
                    0 <= i < hdr_num_chunks(data@) ==> (
                    #[trigger] l.spec_chunks()[i]).spec_initial() == parsed_initial(data@, i)
                        && l.spec_chunks()[i].spec_offset() == parsed_offset(data@, i)
                        && l.spec_chunks()[i].spec_weights() == parsed_weights(data@, i))
                    && l.spec_remainders() == parsed_rems(data@) && l.spec_last() == rebuilt_last(
                    data@,
                ),
                Result::Err(e) => (e == LoadError::Truncated <==> !full_sized(data@)) && (e
                    == LoadError::Malformed <==> full_sized(data@) && !shape_ok(data@)),
            },
            forall|l: PostingList|
                (#[trigger] l.save_bytes()) == data@ && l.wf() ==> r is Ok && content_eq(
                    r->Ok_0,
                    l,
                ) && r->Ok_0@ == l@ && r->Ok_0.save_bytes() == l.save_bytes() && (l.ordered()
                    ==> r->Ok_0.ordered()),
    {
        let r = Self::load_inner(data);
        proof {
            assert forall|l: PostingList|
                (#[trigger] l.save_bytes()) == data@ && l.wf() implies r is Ok && content_eq(
                r->Ok_0,
                l,
            ) && r->Ok_0@ == l@ && r->Ok_0.save_bytes() == l.save_bytes() && (l.ordered()
                ==> r->Ok_0.ordered()) by {
                lemma_parse_of_save(l, data@);
                let l2 = r->Ok_0;
                assert(content_eq(l2, l)) by {
                    assert forall|i: int|
                        0 <= i < l2.spec_chunks().len() implies (
                    #[trigger] l2.spec_chunks()[i]).spec_initial()
                        == l.spec_chunks()[i].spec_initial() && l2.spec_chunks()[i].spec_offset()
                        == l.spec_chunks()[i].spec_offset() && l2.spec_chunks()[i].spec_weights()
                        == l.spec_chunks()[i].spec_weights() by {
                        assert(parsed_initial(data@, i) == l.spec_chunks()[i].spec_initial());
                        assert(parsed_offset(data@, i) == l.spec_chunks()[i].spec_offset());
                        assert(parsed_weights(data@, i) == l.spec_chunks()[i].spec_weights());
                    }
                    assert(l2.spec_remainders() == l.spec_remainders());
                }
                lemma_content_eq_view(l2, l);
            }
        }
        r
    }
}

/// Byte `o` of one block's 520-byte record.
pub(crate) open spec fn chunk_record_byte(ch: CompressedPostingChunk, o: int) -> u8 {
    if o < 4 {
        spec_u32_to_le_bytes(ch.initial)[o]
    } else if o < 8 {
        spec_u32_to_le_bytes(ch.offset)[o - 4]
    } else {
        spec_u32_to_le_bytes(ch.weights@[(o - 8) / 4])[(o - 8) % 4]
    }
}

/// Appends the little-endian bytes of `x`.
fn push_le32(out: &mut Vec<u8>, x: u32)
    ensures
        final(out)@ == old(out)@ + spec_u32_to_le_bytes(x),
{
    proof {
        vstd::bytes::lemma_auto_spec_u32_to_from_le_bytes();
    }
    let bytes = u32_to_le_bytes(x);
    out.push(bytes[0]);
    out.push(bytes[1]);
    out.push(bytes[2]);
    out.push(bytes[3]);
    proof {
        assert(out@ =~= old(out)@ + spec_u32_to_le_bytes(x));
    }
}

/// Appends a byte slice.
fn push_bytes(out: &mut Vec<u8>, src: &[u8])
    ensures
        final(out)@ == old(out)@ + src@,
{
    let mut k: usize = 0;
    while k < src.len()
        invariant
            k <= src@.len(),
            out@ == old(out)@ + src@.subrange(0, k as int),
        decreases src@.len() - k,
    {
        let b = src[k];
        out.push(b);
        proof {
            assert(out@ =~= old(out)@ + src@.subrange(0, k + 1));
        }
        k += 1;
    }
    proof {
        assert(src@.subrange(0, src@.len() as int) =~= src@);
    }
}

} // verus!
