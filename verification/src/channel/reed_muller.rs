use vstd::prelude::*;

use crate::channel::walsh::{
    bounded_by, enc_sum, ints, is_stage_matrix, last_max_index, lemma_stage_from_kron,
    lemma_stage_product, lemma_walsh_len, rm_decode_spec, rm_encode_spec, rm_weights_spec, signs,
    stage, stage_entry, walsh,
};
use crate::math::matrix::{
    gen_entry, lemma_kron_unit_bounded, lemma_unit_products_fit, unit_bounded, GenMatrix, Matrix,
};
use crate::math::vector::{dot_col, dot_fits, is_binary_seq, rem2, BinaryVector, Vector};
use crate::parameters::Muller;
use vstd::arithmetic::power2::pow2;

verus! {

/// `2^k` as a `u16`.
fn two_pow(k: u32) -> (r: u16)
    requires
        k <= 15,
    ensures
        r == pow2(k as nat),
        r >= 1,
{
    proof {
        vstd::arithmetic::power2::lemma_pow2_pos(k as nat);
        vstd::arithmetic::power2::lemma2_to64();
        vstd::arithmetic::power2::lemma_pow2_strictly_increases(k as nat, 16);
        vstd::arithmetic::mul::lemma_mul_basics(pow2(k as nat) as int);
        vstd::bits::lemma_u16_shl_is_mul(1, k as u16);
    }
    1u16 << (k as u16)
}

/// Stores precalculated hadamard matrices.
#[derive(Debug)]
pub struct Hadamards {
    matrices: Vec<Matrix>,
    m: Muller,
}

impl Clone for Hadamards {
    /// A copy of `self`: the same matrices for the same parameter.
    fn clone(&self) -> (res: Self)
        ensures
            res.spec_muller() == self.spec_muller(),
            res.spec_matrices().len() == self.spec_matrices().len(),
            forall|s: int|
                0 <= s < res.spec_matrices().len() ==> {
                    &&& (#[trigger] res.spec_matrices()[s]).nrows() == self.spec_matrices()[s].nrows()
                    &&& res.spec_matrices()[s].ncols() == self.spec_matrices()[s].ncols()
                    &&& res.spec_matrices()[s]@ == self.spec_matrices()[s]@
                },
    {
        proof {
            use_type_invariant(self);
        }
        let count = self.matrices.len();
        let mut matrices: Vec<Matrix> = Vec::new();
        for i in 0..count
            invariant
                count == self.matrices@.len(),
                count == self.m@,
                forall|s: int|
                    0 <= s < count ==> is_stage_matrix(#[trigger] self.matrices@[s], self.m@, s as nat),
                matrices@.len() == i,
                forall|s: int|
                    0 <= s < i ==> {
                        &&& (#[trigger] matrices@[s]).nrows() == self.matrices@[s].nrows()
                        &&& matrices@[s].ncols() == self.matrices@[s].ncols()
                        &&& matrices@[s]@ == self.matrices@[s]@
                        &&& is_stage_matrix(matrices@[s], self.m@, s as nat)
                    },
        {
            let copy = self.matrices[i].clone();
            proof {
                let orig = self.matrices@[i as int];
                assert(is_stage_matrix(orig, self.m@, i as nat));
                assert forall|r: int, c: int|
                    0 <= r < pow2(self.m@) && 0 <= c < pow2(self.m@) implies #[trigger] copy.entry(
                    r,
                    c,
                ) == stage_entry(i as nat, r, c) by {
                    assert(copy.entry(r, c) == orig.entry(r, c));
                }
            }
            matrices.push(copy);
        }
        Self { matrices, m: self.m }
    }
}

impl Hadamards {
    #[verifier::type_invariant]
    closed spec fn stages_ok(&self) -> bool {
        &&& self.matrices@.len() == self.m@
        &&& forall|s: int|
            0 <= s < self.matrices@.len() ==> is_stage_matrix(
                #[trigger] self.matrices@[s],
                self.m@,
                s as nat,
            )
    }

    /// The precalculated matrices.
    pub closed spec fn spec_matrices(&self) -> Seq<Matrix> {
        self.matrices@
    }

    /// The muller parameter of `self`.
    pub closed spec fn spec_muller(&self) -> Muller {
        self.m
    }

    /// Precalculate hadamard matrices with parameter `m`.
    ///
    /// Returns the `m` butterfly matrices `I_(2^(m-i)) ⊗ [[1, 1], [1, -1]] ⊗ I_(2^(i-1))`
    /// for `i` in \[1; m].
    pub fn new(m: Muller) -> (res: Self)
        ensures
            res.spec_muller() == m,
            res.spec_matrices().len() == m@,
            forall|s: int|
                0 <= s < m@ ==> is_stage_matrix(#[trigger] res.spec_matrices()[s], m@, s as nat),
    {
        let muller = m.get() as u32;
        let mut matrices: Vec<Matrix> = Vec::new();
        let parity = Matrix::parity();
        for i in 1..(muller + 1)
            invariant
                muller == m@,
                1 <= muller <= 10,
                parity.wf(),
                parity.nrows() == 2,
                parity.ncols() == 2,
                parity@ == seq![1i32, 1i32, 1i32, -1i32],
                unit_bounded(parity@),
                matrices@.len() == i - 1,
                forall|s: int|
                    0 <= s < matrices@.len() ==> is_stage_matrix(
                        #[trigger] matrices@[s],
                        muller as nat,
                        s as nat,
                    ),
        {
            let identity = Matrix::identity(two_pow(muller - i)).unwrap();
            let identity2 = Matrix::identity(two_pow(i - 1)).unwrap();
            proof {
                vstd::arithmetic::power2::lemma2_to64();
                vstd::arithmetic::power2::lemma_pow2_adds((muller - i) as nat, 1);
                vstd::arithmetic::power2::lemma_pow2_adds((muller - i + 1) as nat, (i - 1) as nat);
                vstd::arithmetic::power2::lemma_pow2_pos((muller - i) as nat);
                vstd::arithmetic::power2::lemma_pow2_pos((i - 1) as nat);
                vstd::arithmetic::power2::lemma_pow2_strictly_increases(muller as nat, 11);
                identity.lemma_len();
                identity2.lemma_len();
                parity.lemma_len();
                lemma_unit_products_fit(identity@, parity@);
                let a = pow2((muller - i) as nat) as int;
                let b = pow2((i - 1) as nat) as int;
                assert(a * 2 * b == pow2(muller as nat)) by (nonlinear_arith)
                    requires pow2(muller as nat) == (a * 2) * b;
                assert((a * 2) * (a * 2) <= u32::MAX) by (nonlinear_arith)
                    requires 1 <= a, a * 2 * b <= 1024, b >= 1;
            }
            let k1 = identity.kronecher_product(&parity);
            proof {
                lemma_kron_unit_bounded(identity, parity, k1);
                k1.lemma_len();
                lemma_unit_products_fit(k1@, identity2@);
                let a2 = k1.nrows() as int;
                let b = pow2((i - 1) as nat) as int;
                assert(a2 * b <= 1024) by (nonlinear_arith)
                    requires a2 * b == pow2(muller as nat), pow2(muller as nat) <= 1024;
                assert((a2 * b) * (a2 * b) <= u32::MAX) by (nonlinear_arith)
                    requires a2 * b <= 1024, a2 >= 0, b >= 0;
            }
            let k = k1.kronecher_product(&identity2);
            proof {
                lemma_stage_from_kron(
                    identity,
                    parity,
                    k1,
                    identity2,
                    k,
                    muller as nat,
                    (i - 1) as nat,
                );
            }
            matrices.push(k);
        }
        Self { matrices, m }
    }

    /// Returns a reference to inner data of `self`.
    pub fn matrices(&self) -> (r: &Vec<Matrix>)
        ensures
            r@ == self.spec_matrices(),
            r@.len() == self.spec_muller()@,
            forall|s: int|
                0 <= s < r@.len() ==> is_stage_matrix(
                    #[trigger] r@[s],
                    self.spec_muller()@,
                    s as nat,
                ),
    {
        proof {
            use_type_invariant(self);
        }
        &self.matrices
    }

    /// Returns the muller parameter of `self`.
    pub fn muller(&self) -> (m: Muller)
        ensures
            m == self.spec_muller(),
    {
        self.m
    }
}

/// The row-by-column sums with a generation matrix are the encoding sums.
proof fn lemma_dot_col_gen(x: Seq<i32>, g: GenMatrix, k: int, t: nat)
    requires
        g.is_generator(),
        x.len() == g.spec_matrix().nrows(),
        t <= x.len(),
        0 <= k < g.spec_matrix().ncols(),
    ensures
        dot_col(x, g.spec_matrix()@, g.spec_matrix().ncols(), k, t) == enc_sum(x, k, t),
    decreases t,
{
    if t > 0 {
        lemma_dot_col_gen(x, g, k, (t - 1) as nat);
        let gm = g.spec_matrix();
        crate::math::index_arith::lemma_index_in_grid(
            t - 1,
            k,
            gm.nrows() as int,
            gm.ncols() as int,
        );
        assert(gm.entry(t - 1, k) == gen_entry(t - 1, k));
    }
}

/// Encoding a binary message never overflows.
pub proof fn lemma_binary_encodable(x: Seq<i32>, g: GenMatrix)
    requires
        g.is_generator(),
        x.len() == g.spec_matrix().nrows(),
        is_binary_seq(x),
    ensures
        dot_fits(x, g.spec_matrix()@, g.spec_matrix().ncols()),
{
    let gm = g.spec_matrix();
    let n = gm.ncols();
    gm.lemma_len();
    assert forall|col: int, t: int|
        #![trigger dot_col(x, gm@, n, col, (t + 1) as nat)]
        #![trigger crate::math::matrix::product_fits(x[t], gm@[t * n + col])]
        0 <= col < n && 0 <= t < x.len() implies {
        &&& crate::math::matrix::product_fits(x[t], gm@[t * n + col])
        &&& i32::MIN <= dot_col(x, gm@, n, col, (t + 1) as nat) <= i32::MAX
    } by {
        crate::math::index_arith::lemma_index_in_grid(t, col, gm.nrows() as int, n as int);
        assert(gm.entry(t, col) == gen_entry(t, col));
        lemma_gen_entry_bit(t, col);
        lemma_dot_col_gen(x, g, col, (t + 1) as nat);
        lemma_enc_sum_range(x, col, (t + 1) as nat);
        assert(x[t] == 0 || x[t] == 1);
        let e = gm@[t * n + col];
        assert(x[t] * e == 0 || x[t] * e == 1) by (nonlinear_arith)
            requires x[t] == 0 || x[t] == 1, e == 0 || e == 1;
    }
}

proof fn lemma_gen_entry_bit(r: int, c: int)
    requires
        r >= 0,
        c >= 0,
    ensures
        gen_entry(r, c) == 0 || gen_entry(r, c) == 1,
{
    if r > 0 {
        vstd::arithmetic::power2::lemma_pow2_pos((r - 1) as nat);
        vstd::arithmetic::div_mod::lemma_div_pos_is_pos(c, pow2((r - 1) as nat) as int);
        vstd::arithmetic::div_mod::lemma_mod_bound(c / pow2((r - 1) as nat) as int, 2);
    }
}

proof fn lemma_enc_sum_range(x: Seq<i32>, k: int, t: nat)
    requires
        is_binary_seq(x),
        t <= x.len(),
        k >= 0,
    ensures
        0 <= enc_sum(x, k, t) <= t,
    decreases t,
{
    if t > 0 {
        lemma_enc_sum_range(x, k, (t - 1) as nat);
        lemma_gen_entry_bit(t - 1, k);
        let e = gen_entry(t - 1, k);
        assert(x[t - 1] == 0 || x[t - 1] == 1);
        assert(x[t - 1] * e == 0 || x[t - 1] * e == 1) by (nonlinear_arith)
            requires x[t - 1] == 0 || x[t - 1] == 1, e == 0 || e == 1;
    }
}

/// Encodes `vector` using `RM(1, m)` generated `gen_matrix`.
///
/// Returns an encoded [`BinaryVector`].
pub fn rm_encode(vector: &BinaryVector, gen_matrix: &GenMatrix) -> (res: BinaryVector)
    requires
        vector.wf(),
        vector@.len() == gen_matrix.spec_matrix().nrows(),
        dot_fits(vector@, gen_matrix.spec_matrix()@, gen_matrix.spec_matrix().ncols()),
    ensures
        res.wf(),
        res@ == rm_encode_spec(vector@, gen_matrix.spec_muller()@),
{
    let gm = gen_matrix.matrix();
    let res = vector.dot_product_unchecked(gm);
    proof {
        let x = vector@;
        let m = gen_matrix.spec_muller()@;
        assert forall|k: int| 0 <= k < res@.len() implies #[trigger] res@[k] == rm_encode_spec(
            x,
            m,
        )[k] by {
            lemma_dot_col_gen(x, *gen_matrix, k, x.len());
        }
        assert(res@ =~= rm_encode_spec(x, m));
    }
    res
}

/// `(idx >> i) & 1` is bit `i` of a non-negative `idx`.
proof fn lemma_shift_bit(idx: i32, i: u32)
    requires
        0 <= idx,
        i < 31,
    ensures
        ((idx >> i) & 1) == ((idx as int) / pow2(i as nat) as int) % 2,
{
    let u = idx as u32;
    assert(((idx >> i) & 1) == (((u >> i) & 1) as i32)) by (bit_vector)
        requires
            0 <= idx,
            i < 31,
            u == idx as u32,
    ;
    assert(((u >> i) & 1) == (u >> i) % 2) by (bit_vector);
    vstd::bits::lemma_u32_shr_is_div(u, i);
}

/// Decodes a message from weights.
/// - idx is in index of the largest absolute weight
/// - num is the largest absolute weight
/// - m is the Muller parameter
///
/// Returns a decoded binary vector
fn weights_to_vector(idx: i32, num: i32, m: Muller) -> (res: BinaryVector)
    requires
        0 <= idx,
    ensures
        res.wf(),
        res@.len() == m@ + 1,
        res@[0] == (if num < 0 {
            0i32
        } else {
            1i32
        }),
        forall|i: int|
            1 <= i <= m@ ==> #[trigger] res@[i] == ((idx as int) / pow2((i - 1) as nat) as int) % 2,
{
    let rows = m.rows() as usize;
    let mut bits: Vec<i32> = Vec::new();
    for k in 0..rows
        invariant
            bits@.len() == k,
    {
        bits.push(0);
    }
    bits.set(0, if num < 0 { 0 } else { 1 });
    let count = m.get() as usize;
    for i in 0..count
        invariant
            count == m@,
            rows == m@ + 1,
            1 <= count <= 10,
            bits@.len() == rows,
            bits@[0] == (if num < 0 {
                0i32
            } else {
                1i32
            }),
            0 <= idx,
            forall|j: int|
                1 <= j <= i ==> #[trigger] bits@[j] == ((idx as int) / pow2((j - 1) as nat) as int) % 2,
    {
        proof {
            lemma_shift_bit(idx, i as u32);
        }
        bits.set(i + 1, (idx >> (i as u32)) & 1);
    }
    BinaryVector::from_vec_unchecked(bits)
}

/// Absolute value of a weight.
fn weight_abs(x: i32) -> (r: i32)
    requires
        x > i32::MIN,
    ensures
        r == crate::channel::walsh::abs(x as int),
{
    if x < 0 {
        -x
    } else {
        x
    }
}

/// Decodes `vector` encoded with `RM(1, m)`.
///
/// Returns a decoded `vector` and the weights calculated.
pub fn rm_decode(vector: &BinaryVector, hadamards: &Hadamards) -> (res: (BinaryVector, Vector))
    requires
        vector.wf(),
        vector.is_binary(),
        vector@.len() == pow2(hadamards.spec_muller()@),
    ensures
        res.0.wf(),
        res.0@ == rm_decode_spec(vector@, hadamards.spec_muller()@),
        res.1.wf(),
        ints(res.1@) == rm_weights_spec(vector@, hadamards.spec_muller()@),
{
    let m = hadamards.muller();
    // reading the value brings its range, [1; 10], into the proof
    let _ = m.get();
    let ghost mm = m@;
    let ghost n = pow2(mm);
    let mats = hadamards.matrices();
    let ghost u = ints(signs(vector@));
    let mut weights = vector.substitute_zeroes();
    proof {
        vstd::arithmetic::power2::lemma2_to64();
        assert(ints(weights@) =~= u);
        assert forall|i: int| 0 <= i < weights@.len() implies -1 <= #[trigger] weights@[i] <= 1 by {
            assert(vector@[i] == 0 || vector@[i] == 1);
        }
    }
    let count = mats.len();
    for i in 0..count
        invariant
            count == mm,
            mats@.len() == mm,
            1 <= mm <= 10,
            forall|s: int| 0 <= s < mats@.len() ==> is_stage_matrix(#[trigger] mats@[s], mm, s as nat),
            weights.wf(),
            weights@.len() == n,
            n == pow2(mm),
            ints(weights@) == walsh(u, i as nat),
            bounded_by(weights@, pow2(i as nat) as int),
    {
        proof {
            vstd::arithmetic::power2::lemma_pow2_strictly_increases(i as nat, 10);
            vstd::arithmetic::power2::lemma2_to64();
            vstd::arithmetic::power2::lemma_pow2_adds(i as nat, 1);
            lemma_stage_product(weights@, mats@[i as int], mm, i as nat, pow2(i as nat) as int);
        }
        let next = weights.dot_product_unchecked(&mats[i]);
        proof {
            let h = mats@[i as int];
            assert(ints(next@) =~= stage(ints(weights@), i as nat));
            assert forall|c: int| 0 <= c < next@.len() implies -pow2((i + 1) as nat) <= #[trigger] next@[c]
                <= pow2((i + 1) as nat) by {
                assert(ints(next@)[c] == stage(ints(weights@), i as nat)[c]);
            }
        }
        weights = next;
    }
    proof {
        vstd::arithmetic::power2::lemma_pow2_pos(mm);
        vstd::arithmetic::power2::lemma2_to64();
        vstd::arithmetic::power2::lemma_pow2_strictly_increases(mm, 11);
        weights.lemma_shape();
    }
    let w = weights.inner();
    let len = w.len();
    let mut idx: usize = 0;
    let mut num: i32 = w[0];
    for j in 1..len
        invariant
            len == w@.len(),
            w@ == weights@,
            1 <= len <= 1024,
            bounded_by(weights@, 1024),
            0 <= idx < j,
            idx == last_max_index(ints(w@), j as nat),
            num == w@[idx as int],
    {
        if weight_abs(w[j]) >= weight_abs(num) {
            idx = j;
            num = w[j];
        }
    }
    proof {
        assert(len == ints(w@).len());
    }
    let decoded = weights_to_vector(idx as i32, num, m);
    proof {
        let ww = ints(weights@);
        assert(decoded@ =~= rm_decode_spec(vector@, mm));
    }
    (decoded, weights)
}

} // verus!
