use vstd::prelude::*;

use crate::channel::channel::{flip_positions, flipped};
use crate::channel::reed_muller::Hadamards;
use crate::channel::split_vector::{lemma_pack_bits_of, pack_bits};
use crate::experiments::{
    encoded_len_spec, lemma_few_errors_per_part_are_corrected, padded_len_spec, received,
    send_encoded, send_plain,
};
use crate::math::matrix::GenMatrix;
use crate::math::vector::{bits_of, BinaryVector};
use vstd::arithmetic::power2::pow2;

verus! {

/// No position below `n` is reported where no decision is `true`.
proof fn lemma_no_flip_positions(flips: Seq<bool>, n: nat)
    requires
        n <= flips.len(),
        forall|i: int| 0 <= i < flips.len() ==> !#[trigger] flips[i],
    ensures
        flip_positions(flips, n).len() == 0,
    decreases n,
{
    if n > 0 {
        lemma_no_flip_positions(flips, (n - 1) as nat);
    }
}

/// Sends the bytes of `text` through a channel twice, as the text scenario does: split into
/// parts of `m + 1` bits as they are, with the bits turned where `raw_flips` is `true`; and
/// split, encoded with RM(1, m), with the bits turned where `coded_flips` is `true` and
/// decoded with `hadamards`. `raw_flips` holds one decision per bit of the plain parts,
/// `coded_flips` one per bit of the encoded parts.
///
/// Returns `None` if `text` is empty, else the bytes that came out of each transmission.
pub fn transmit_text(
    text: &[u8],
    gen_matrix: &GenMatrix,
    hadamards: &Hadamards,
    raw_flips: &[bool],
    coded_flips: &[bool],
) -> (res: Option<(Vec<u8>, Vec<u8>)>)
    requires
        text@.len() * 8 <= u32::MAX,
        hadamards.spec_muller() == gen_matrix.spec_muller(),
        raw_flips@.len() == padded_len_spec(text@.len() * 8, gen_matrix.spec_muller()@),
        coded_flips@.len() == encoded_len_spec(text@.len() * 8, gen_matrix.spec_muller()@),
    ensures
        res is None <==> text@.len() == 0,
        res matches Some((raw, decoded)) ==> raw@ == pack_bits(
            flipped(bits_of(text@), raw_flips@.subrange(0, text@.len() * 8 as int)),
        ) && decoded@ == pack_bits(
            received(bits_of(text@), gen_matrix.spec_muller()@, coded_flips@),
        ),
        text@.len() > 0 && (forall|i: int| 0 <= i < raw_flips@.len() ==> !#[trigger] raw_flips@[i])
            ==> (res matches Some((raw, _)) && raw@ == text@),
        text@.len() > 0 && (forall|i: int|
            0 <= i < coded_flips@.len() ==> !#[trigger] coded_flips@[i]) ==> (res matches Some(
            (_, decoded),
        ) && decoded@ == text@),
{
    let bits = match BinaryVector::from_bits(text) {
        Some(b) => b,
        None => {
            return None;
        },
    };
    let m = gen_matrix.muller();
    let raw = send_plain(&bits, m, raw_flips);
    let decoded = send_encoded(&bits, gen_matrix, hadamards, coded_flips);
    proof {
        let v = bits_of(text@);
        let mm = m@;
        lemma_pack_bits_of(text@);
        if forall|i: int| 0 <= i < raw_flips@.len() ==> !#[trigger] raw_flips@[i] {
            let x = (v.len() + mm) as int;
            let c = (mm + 1) as int;
            vstd::arithmetic::div_mod::lemma_fundamental_div_mod(x, c);
            vstd::arithmetic::div_mod::lemma_mod_bound(x, c);
            vstd::arithmetic::mul::lemma_mul_is_commutative(c, x / c);
            assert(v.len() <= raw_flips@.len());
            assert(flipped(v, raw_flips@.subrange(0, v.len() as int)) =~= v);
        }
        if forall|i: int| 0 <= i < coded_flips@.len() ==> !#[trigger] coded_flips@[i] {
            let n = pow2(mm) as int;
            vstd::arithmetic::power2::lemma_pow2_pos(mm);
            assert forall|k: int| 0 <= k < (v.len() + mm) / (mm + 1) implies 4 * (
            #[trigger] flip_positions(coded_flips@.subrange(k * n, k * n + n), pow2(mm))).len()
                < pow2(mm) by {
                let f = coded_flips@.subrange(k * n, k * n + n);
                assert(k * n + n <= coded_flips@.len()) by (nonlinear_arith)
                    requires
                        k + 1 <= (v.len() + mm) / (mm + 1),
                        coded_flips@.len() == ((v.len() + mm) / (mm + 1)) * n,
                        n >= 1,
                ;
                assert(0 <= k * n) by (nonlinear_arith)
                    requires k >= 0, n >= 1;
                assert forall|i: int| 0 <= i < f.len() implies !#[trigger] f[i] by {
                    assert(f[i] == coded_flips@[k * n + i]);
                }
                lemma_no_flip_positions(f, pow2(mm));
            }
            lemma_few_errors_per_part_are_corrected(v, mm, coded_flips@);
        }
    }
    Some((raw.to_bytes(), decoded.to_bytes()))
}

} // verus!
