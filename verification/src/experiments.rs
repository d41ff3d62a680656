use vstd::prelude::*;

use crate::channel::channel::{
    flip_positions, flipped, lemma_flipped_binary, lemma_reported_errors_are_differences,
    send_multiple,
};
use crate::channel::channel_errors::{differences, ChannelErrors};
use crate::channel::reed_muller::Hadamards;
use crate::channel::split_vector::{flatten, SplitVector};
use crate::channel::walsh::{lemma_rm_decode_corrects_errors, rm_decode_spec, rm_encode_spec};
use crate::math::index_arith::{lemma_index_in_grid, lemma_index_split, lemma_index_unique};
use crate::math::matrix::GenMatrix;
use crate::math::vector::{is_binary_seq, BinaryVector};
use crate::parameters::Muller;
use vstd::arithmetic::power2::pow2;

verus! {

/// Part `k` of `v` for RM(1, m): the `m + 1` bits of `v` from position `k * (m + 1)` on,
/// zeroes past the end of `v`.
pub open spec fn chunk(v: Seq<i32>, m: nat, k: int) -> Seq<i32> {
    let c = m + 1;
    Seq::new(c, |i: int| if k * c + i < v.len() { v[k * c + i] } else { 0i32 })
}

/// Part `k` of `v` as it comes out of the channel: encoded with RM(1, m), its bits turned where
/// the decisions for that part, `2^m` of them from position `k * 2^m` of `flips`, are `true`,
/// and decoded.
pub open spec fn received_part(v: Seq<i32>, m: nat, flips: Seq<bool>, k: int) -> Seq<i32> {
    let n = pow2(m) as int;
    rm_decode_spec(flipped(rm_encode_spec(chunk(v, m, k), m), flips.subrange(k * n, k * n + n)), m)
}

/// The message received when `v` is split into parts of `m + 1` bits, every part is encoded
/// with RM(1, m), sent through a channel that turns the bits where `flips` is `true`, decoded,
/// and the parts are put back together and cut to the length of `v`.
pub open spec fn received(v: Seq<i32>, m: nat, flips: Seq<bool>) -> Seq<i32> {
    Seq::new(v.len(), |i: int| received_part(v, m, flips, i / (m + 1) as int)[i % (m + 1) as int])
}

/// The number of bits that a message of `len` bits takes once encoded with RM(1, m): `2^m`
/// for every part of `m + 1` bits, the last one possibly short.
pub open spec fn encoded_len_spec(len: nat, m: nat) -> nat {
    ((len + m) / (m + 1)) * pow2(m)
}

/// The number of bits that a message of `len` bits takes once encoded with RM(1, `m`).
pub fn encoded_len(len: u32, m: Muller) -> (n: u64)
    ensures
        n == encoded_len_spec(len as nat, m@),
{
    let mm = m.get();
    let c = mm as u64 + 1;
    let parts = (len as u64 + mm as u64) / c;
    let size = 2u64 << (mm - 1);
    proof {
        vstd::arithmetic::power2::lemma2_to64();
        assert(size == pow2(m@)) by {
            vstd::bits::lemma_u64_shl_is_mul(2, (mm - 1) as u64);
            vstd::arithmetic::power2::lemma_pow2_adds(1, (mm - 1) as nat);
        }
        assert(parts <= 0x1_0000_0009);
        assert(parts * size <= 0x1_0000_0009 * 1024) by (nonlinear_arith)
            requires parts <= 0x1_0000_0009, size <= 1024;
    }
    parts * size
}

/// Parts that all hold `c` bits concatenate to `parts.len() * c` bits, bit `i` coming from
/// part `i / c`.
proof fn lemma_flatten_uniform(parts: Seq<BinaryVector>, c: int)
    requires
        c >= 1,
        forall|j: int| 0 <= j < parts.len() ==> (#[trigger] parts[j])@.len() == c,
    ensures
        flatten(parts).len() == parts.len() * c,
        forall|i: int|
            0 <= i < parts.len() * c ==> #[trigger] flatten(parts)[i] == parts[i / c]@[i % c],
    decreases parts.len(),
{
    if parts.len() > 0 {
        let n = parts.len() as int;
        let init = parts.drop_last();
        lemma_flatten_uniform(init, c);
        assert((n - 1) * c + c == n * c) by (nonlinear_arith);
        assert forall|i: int| 0 <= i < n * c implies #[trigger] flatten(parts)[i] == parts[i
            / c]@[i % c] by {
            lemma_index_split(i, c);
            if i < (n - 1) * c {
                if i / c >= n - 1 {
                    assert((i / c) * c >= (n - 1) * c) by (nonlinear_arith)
                        requires i / c >= n - 1, c >= 1;
                }
                assert(init[i / c] == parts[i / c]);
            } else {
                lemma_index_unique(i / c, i % c, n - 1, i - (n - 1) * c, c);
            }
        }
    }
}

/// The parts of a binary vector split for RM(1, m) are its chunks, and fit for encoding.
proof fn lemma_split_chunks(sv: SplitVector, v: Seq<i32>, m: nat)
    requires
        sv.is_split_of(v, m),
        is_binary_seq(v),
    ensures
        sv.parts_fit(m + 1),
        sv.full_vectors@.len() == v.len() as int / (m + 1) as int,
        forall|j: int|
            0 <= j < sv.full_vectors@.len() ==> (#[trigger] sv.full_vectors@[j])@ == chunk(
                v,
                m,
                j,
            ),
        sv.rem_vector matches Some((r, n)) ==> r@ == chunk(v, m, sv.full_vectors@.len() as int)
            && n == v.len() as int % (m + 1) as int,
{
    let c = (m + 1) as int;
    let q = v.len() as int / c;
    lemma_index_split(v.len() as int, c);
    assert forall|j: int| 0 <= j < sv.full_vectors@.len() implies (
    #[trigger] sv.full_vectors@[j])@ == chunk(v, m, j) by {
        lemma_index_in_grid(j, 0, q, c);
        assert(j * c + c <= q * c);
        assert(sv.full_vectors@[j]@ =~= chunk(v, m, j));
    }
    match sv.rem_vector {
        None => {},
        Some((r, n)) => {
            assert(r@ =~= chunk(v, m, q));
            assert forall|i: int| 0 <= i < r@.len() implies #[trigger] r@[i] == 0 || r@[i] == 1 by {
                if q * c + i < v.len() {
                    assert(v[q * c + i] == 0 || v[q * c + i] == 1);
                }
            }
        },
    }
    assert forall|j: int| 0 <= j < sv.full_vectors@.len() implies (
    #[trigger] sv.full_vectors@[j]).is_binary() by {
        lemma_index_in_grid(j, 0, q, c);
        assert forall|i: int| 0 <= i < c implies #[trigger] sv.full_vectors@[j]@[i] == 0
            || sv.full_vectors@[j]@[i] == 1 by {
            assert(sv.full_vectors@[j]@[i] == v[j * c + i]);
        }
    }
}

/// The number of bits that a message of `len` bits takes once split into parts of `m + 1`
/// bits, the last part padded with zeroes.
pub open spec fn padded_len_spec(len: nat, m: nat) -> nat {
    ((len + m) / (m + 1)) * (m + 1)
}

/// The number of bits that a message of `len` bits takes once split for RM(1, `m`), the last
/// part padded with zeroes.
pub fn padded_len(len: u32, m: Muller) -> (n: u64)
    ensures
        n == padded_len_spec(len as nat, m@),
{
    let mm = m.get();
    let c = mm as u64 + 1;
    let parts = (len as u64 + mm as u64) / c;
    proof {
        assert(parts <= 0x1_0000_0009);
        assert(parts * c <= 0x1_0000_0009 * 11) by (nonlinear_arith)
            requires parts <= 0x1_0000_0009, c <= 11;
    }
    parts * c
}

/// Splits `message` into parts of `m + 1` bits and sends the parts, not encoded, through a
/// channel that turns the bits where `flips` is `true`; `flips` holds one decision per bit of
/// the parts, part after part, the padding of the last part included.
///
/// Returns the parts as they came out of the channel; put back together they give `message`
/// with its bits turned where the first `message@.len()` decisions say so.
pub fn send_plain(message: &BinaryVector, m: Muller, flips: &[bool]) -> (res: SplitVector)
    requires
        message.wf(),
        flips@.len() == padded_len_spec(message@.len(), m@),
    ensures
        res.restorable(),
        !res.encoded,
        res.restore_spec() == flipped(message@, flips@.subrange(0, message@.len() as int)),
{
    let ghost v = message@;
    let ghost c = (m@ + 1) as int;
    proof {
        message.lemma_shape();
        lemma_index_split(v.len() as int, c);
    }
    let ghost q = v.len() as int / c;
    let ghost rest = v.len() as int % c;
    let mut split = SplitVector::new(message, m);
    let ghost split0 = split;
    proof {
        // every part holds m + 1 bits; there are as many parts as started groups
        assert forall|j: int| 0 <= j < split0.full_vectors@.len() implies (
        #[trigger] split0.full_vectors@[j])@.len() == c by {
            lemma_index_in_grid(j, 0, q, c);
        }
        lemma_flatten_uniform(split0.full_vectors@, c);
        let d: int = if rest > 0 { 1 } else { 0 };
        let parts = q + d;
        assert(parts * c == q * c + d * c) by (nonlinear_arith)
            requires parts == q + d;
        if rest > 0 {
            assert(d * c == c) by (nonlinear_arith)
                requires d == 1;
        } else {
            assert(d * c == 0) by (nonlinear_arith)
                requires d == 0;
        }
        vstd::arithmetic::div_mod::lemma_fundamental_div_mod_converse(
            v.len() + m@ as int,
            c,
            parts,
            rest + m@ - d * c,
        );
        assert(split0.all_bits().len() == parts * c);
        assert forall|j: int| 0 <= j < q implies part_offset_is(split0, j, c) by {
            lemma_flatten_uniform(split0.full_vectors@.subrange(0, j), c);
        }
    }
    send_multiple(&mut split, flips);
    proof {
        let sent = split;
        let restored = sent.restore_spec();
        let want = flipped(v, flips@.subrange(0, v.len() as int));
        lemma_flatten_uniform(sent.full_vectors@, c);
        assert(restored.len() == v.len());
        assert forall|i: int| 0 <= i < v.len() implies #[trigger] restored[i] == want[i] by {
            lemma_index_split(i, c);
            let k = i / c;
            if i < q * c {
                if k >= q {
                    assert(k * c >= q * c) by (nonlinear_arith)
                        requires k >= q, c >= 1;
                }
                assert(part_offset_is(split0, k, c));
                lemma_index_in_grid(k, 0, q, c);
                assert(split0.full_vectors@[k]@[i % c] == v[i]);
            } else {
                lemma_index_unique(k, i % c, q, i - q * c, c);
            }
        }
        assert(restored =~= want);
    }
    split
}

/// Splits `message` for the `m` of `gen_matrix`, encodes every part, sends the parts through a
/// channel that turns the bits where `flips` is `true` and decodes them with `hadamards`;
/// `flips` holds one decision per encoded bit, part after part.
///
/// Returns the decoded parts, which put back together give what came out of the channel.
pub fn send_encoded(
    message: &BinaryVector,
    gen_matrix: &GenMatrix,
    hadamards: &Hadamards,
    flips: &[bool],
) -> (res: SplitVector)
    requires
        message.wf(),
        message.is_binary(),
        hadamards.spec_muller() == gen_matrix.spec_muller(),
        flips@.len() == encoded_len_spec(message@.len(), gen_matrix.spec_muller()@),
    ensures
        res.restorable(),
        !res.encoded,
        res.restore_spec() == received(message@, gen_matrix.spec_muller()@, flips@),
{
    let muller = gen_matrix.muller();
    let ghost m = muller@;
    let ghost v = message@;
    let ghost c = (m + 1) as int;
    let ghost n = pow2(m) as int;
    proof {
        message.lemma_shape();
        vstd::arithmetic::power2::lemma_pow2_pos(m);
        lemma_index_split(v.len() as int, c);
    }
    let ghost q = v.len() as int / c;
    let ghost rest = v.len() as int % c;
    let mut split = SplitVector::new(message, muller);
    let ghost split0 = split;
    proof {
        lemma_split_chunks(split0, v, m);
    }
    split.encode(gen_matrix);
    let ghost encoded = split;
    proof {
        lemma_flatten_uniform(encoded.full_vectors@, n);
        // the number of parts is the number of started groups of m + 1 bits
        let d: int = if rest > 0 { 1 } else { 0 };
        let parts = q + d;
        assert(parts * c == q * c + d * c) by (nonlinear_arith)
            requires parts == q + d;
        assert(parts * n == q * n + d * n) by (nonlinear_arith)
            requires parts == q + d;
        if rest > 0 {
            assert(d * c == c && d * n == n) by (nonlinear_arith)
                requires d == 1;
        } else {
            assert(d * c == 0 && d * n == 0) by (nonlinear_arith)
                requires d == 0;
        }
        vstd::arithmetic::div_mod::lemma_fundamental_div_mod_converse(
            v.len() + m as int,
            c,
            parts,
            rest + m - d * c,
        );
        assert(encoded.full_vectors@.len() == q);
        assert(encoded.all_bits().len() == parts * n);
        assert(flips@.len() == parts * n);
        assert(encoded.parts_fit(n as nat));
    }
    send_multiple(&mut split, flips);
    let ghost sent = split;
    proof {
        assert(encoded.parts_fit(n as nat));
        assert(sent.parts_fit(n as nat));
    }
    split.decode(hadamards);
    let ghost decoded = split;
    proof {
        lemma_flatten_uniform(decoded.full_vectors@, c);
        assert forall|j: int| 0 <= j < q implies part_offset_is(encoded, j, n) by {
            lemma_flatten_uniform(encoded.full_vectors@.subrange(0, j), n);
        }
        assert(decoded.restore_spec().len() == v.len());
    }
    proof {
        let restored = decoded.restore_spec();
        let want = received(v, m, flips@);
        assert forall|i: int| 0 <= i < v.len() implies #[trigger] restored[i] == want[i] by {
            lemma_index_split(i, c);
            let k = i / c;
            if i < q * c {
                if k >= q {
                    assert(k * c >= q * c) by (nonlinear_arith)
                        requires k >= q, c >= 1;
                }
                assert(part_offset_is(encoded, k, n));
                lemma_index_in_grid(k, 0, q, n);
            } else {
                lemma_index_unique(k, i % c, q, i - q * c, c);
                lemma_index_in_grid(q, 0, q + 1, n);
            }
        }
        assert(restored =~= want);
    }
    split
}

/// Splits `message` for the `m` of `gen_matrix`, encodes every part, sends the parts through a
/// channel that turns the bits where `flips` is `true`, decodes them with `hadamards` and puts
/// them back together; `flips` holds one decision per encoded bit, part after part.
///
/// Returns the positions where what came out differs from `message`.
pub fn transmission_errors(
    message: &BinaryVector,
    gen_matrix: &GenMatrix,
    hadamards: &Hadamards,
    flips: &[bool],
) -> (errors: ChannelErrors)
    requires
        message.wf(),
        message.is_binary(),
        hadamards.spec_muller() == gen_matrix.spec_muller(),
        flips@.len() == encoded_len_spec(message@.len(), gen_matrix.spec_muller()@),
    ensures
        errors@ == differences(message@, received(message@, gen_matrix.spec_muller()@, flips@)),
{
    let split = send_encoded(message, gen_matrix, hadamards, flips);
    proof {
        message.lemma_shape();
    }
    let restored = split.restore();
    ChannelErrors::from_vectors(message, &restored)
}

/// Part `j` of `sv` starts at position `j * n` of the concatenation of its parts.
spec fn part_offset_is(sv: SplitVector, j: int, n: int) -> bool {
    crate::channel::split_vector::part_offset(sv.full_vectors@, j) == j * n
}

/// A transmission in which every encoded part has fewer than `2^(m-2)` of its `2^m` bits
/// turned brings the message through unchanged.
pub proof fn lemma_few_errors_per_part_are_corrected(v: Seq<i32>, m: nat, flips: Seq<bool>)
    requires
        1 <= m <= 10,
        is_binary_seq(v),
        flips.len() == encoded_len_spec(v.len(), m),
        forall|k: int|
            0 <= k < (v.len() + m) / (m + 1) ==> 4 * (#[trigger] flip_positions(
                flips.subrange(k * pow2(m), k * pow2(m) + pow2(m)),
                pow2(m),
            )).len() < pow2(m),
    ensures
        received(v, m, flips) == v,
{
    let c = (m + 1) as int;
    let n = pow2(m) as int;
    let parts = (v.len() + m) as int / c;
    vstd::arithmetic::power2::lemma_pow2_pos(m);
    assert forall|i: int| 0 <= i < v.len() implies #[trigger] received(v, m, flips)[i] == v[i] by {
        lemma_index_split(i, c);
        let k = i / c;
        // k is one of the parts
        vstd::arithmetic::div_mod::lemma_div_is_ordered(i + c, v.len() + m as int, c);
        assert((k + 1) * c == k * c + c) by (nonlinear_arith);
        vstd::arithmetic::div_mod::lemma_fundamental_div_mod_converse(i + c, c, k + 1, i % c);
        assert(k < parts);
        assert(k * n + n <= parts * n) by (nonlinear_arith)
            requires k < parts, n >= 1;
        assert(0 <= k * n) by (nonlinear_arith)
            requires k >= 0, n >= 1;
        assert(parts * n == flips.len());
        let x = chunk(v, m, k);
        assert(k * c + i % c == i);
        assert forall|j: int| 0 <= j < x.len() implies #[trigger] x[j] == 0 || x[j] == 1 by {
            if k * c + j < v.len() {
                assert(v[k * c + j] == 0 || v[k * c + j] == 1);
            }
        }
        let f = flips.subrange(k * n, k * n + n);
        let cw = rm_encode_spec(x, m);
        let y = flipped(cw, f);
        crate::channel::walsh::lemma_codeword_binary(x, m);
        lemma_flipped_binary(cw, f);
        lemma_reported_errors_are_differences(cw, f);
        assert(4 * flip_positions(f, pow2(m)).len() < pow2(m));
        lemma_rm_decode_corrects_errors(x, y, m);
    }
    assert(received(v, m, flips) =~= v);
}

} // verus!
