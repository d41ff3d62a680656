use vstd::prelude::*;

use crate::channel::channel_errors::{differences, error_indexes};
use crate::math::index_arith::{lemma_index_in_grid, lemma_index_unique};
use crate::math::matrix::{gen_entry, product_fits, Matrix};
use crate::math::vector::{dot_col, dot_fits, is_binary_seq, rem2};
use vstd::arithmetic::power2::pow2;

verus! {

// ---------------------------------------------------------------------------------------
// Positions split around a block size `b`: `c == q * 2b + bit * b + lo`.
// ---------------------------------------------------------------------------------------

/// The parts of `c` around block size `b` determine `c / b`, `c % b` and `c / 2b`.
pub proof fn lemma_digits(c: int, q: int, bit: int, lo: int, b: int)
    requires
        b >= 1,
        q >= 0,
        bit == 0 || bit == 1,
        0 <= lo < b,
        c == q * (2 * b) + bit * b + lo,
    ensures
        c / b == 2 * q + bit,
        c % b == lo,
        (c / b) % 2 == bit,
        (c / b) / 2 == q,
        c / (2 * b) == q,
        c % (2 * b) == bit * b + lo,
        c >= 0,
{
    assert(c == (2 * q + bit) * b + lo) by (nonlinear_arith)
        requires c == q * (2 * b) + bit * b + lo;
    vstd::arithmetic::div_mod::lemma_fundamental_div_mod_converse(c, b, 2 * q + bit, lo);
    vstd::arithmetic::div_mod::lemma_fundamental_div_mod_converse(2 * q + bit, 2, q, bit);
    assert(c == q * (2 * b) + (bit * b + lo)) by (nonlinear_arith)
        requires c == q * (2 * b) + bit * b + lo;
    if bit == 0 {
        assert(bit * b == 0) by (nonlinear_arith)
            requires bit == 0;
    } else {
        assert(bit * b == b) by (nonlinear_arith)
            requires bit == 1;
    }
    vstd::arithmetic::div_mod::lemma_fundamental_div_mod_converse(c, 2 * b, q, bit * b + lo);
    assert(q * (2 * b) >= 0) by (nonlinear_arith)
        requires q >= 0, b >= 0;
}

/// Every `c >= 0` splits into parts around block size `b`.
pub proof fn lemma_split_digits(c: int, b: int)
    requires
        b >= 1,
        c >= 0,
    ensures
        c / (2 * b) >= 0,
        (c / b) % 2 == 0 || (c / b) % 2 == 1,
        0 <= c % b < b,
        c == (c / (2 * b)) * (2 * b) + ((c / b) % 2) * b + c % b,
{
    let big_q = c / b;
    vstd::arithmetic::div_mod::lemma_fundamental_div_mod(c, b);
    vstd::arithmetic::div_mod::lemma_mod_bound(c, b);
    vstd::arithmetic::div_mod::lemma_div_pos_is_pos(c, b);
    vstd::arithmetic::div_mod::lemma_fundamental_div_mod(big_q, 2);
    vstd::arithmetic::div_mod::lemma_mod_bound(big_q, 2);
    vstd::arithmetic::div_mod::lemma_div_pos_is_pos(big_q, 2);
    vstd::arithmetic::div_mod::lemma_div_denominator(c, b, 2);
    vstd::arithmetic::mul::lemma_mul_is_commutative(b, 2);
    assert(c == (big_q / 2) * (2 * b) + (big_q % 2) * b + c % b) by (nonlinear_arith)
        requires
            c == b * big_q + c % b,
            big_q == 2 * (big_q / 2) + big_q % 2,
    ;
}

// ---------------------------------------------------------------------------------------
// The butterfly matrices of the fast Hadamard transform.
// ---------------------------------------------------------------------------------------

/// Entry `(r, c)` of the stage-`t` matrix `I ⊗ [[1, 1], [1, -1]] ⊗ I_(2^t)`: non-zero when `r`
/// and `c` agree everywhere but in the digit of weight `2^t`, and `-1` when both have it set.
pub open spec fn stage_entry(t: nat, r: int, c: int) -> i32 {
    let b = pow2(t) as int;
    if r / (2 * b) == c / (2 * b) && r % b == c % b {
        if (r / b) % 2 == 1 && (c / b) % 2 == 1 {
            -1i32
        } else {
            1i32
        }
    } else {
        0i32
    }
}

/// `h` is the `2^m x 2^m` stage-`t` butterfly matrix.
pub open spec fn is_stage_matrix(h: Matrix, m: nat, t: nat) -> bool {
    &&& h.wf()
    &&& h.nrows() == pow2(m)
    &&& h.ncols() == pow2(m)
    &&& forall|r: int, c: int|
        0 <= r < pow2(m) && 0 <= c < pow2(m) ==> #[trigger] h.entry(r, c) == stage_entry(t, r, c)
}

/// One butterfly stage of the fast Hadamard transform, pairing positions that differ in the
/// digit of weight `2^t`.
pub open spec fn stage(u: Seq<int>, t: nat) -> Seq<int> {
    let b = pow2(t) as int;
    Seq::new(
        u.len(),
        |c: int|
            if (c / b) % 2 == 0 {
                u[c] + u[c + b]
            } else {
                u[c - b] - u[c]
            },
    )
}

/// The first `t` stages of the fast Hadamard transform of `u`.
pub open spec fn walsh(u: Seq<int>, t: nat) -> Seq<int>
    decreases t,
{
    if t == 0 {
        u
    } else {
        stage(walsh(u, (t - 1) as nat), (t - 1) as nat)
    }
}

/// `s` as a sequence of mathematical integers.
pub open spec fn ints(s: Seq<i32>) -> Seq<int> {
    Seq::new(s.len(), |i: int| s[i] as int)
}

/// All entries of `s` lie within `[-k, k]`.
pub open spec fn bounded_by(s: Seq<i32>, k: int) -> bool {
    forall|i: int| 0 <= i < s.len() ==> -k <= #[trigger] s[i] <= k
}

pub proof fn lemma_walsh_len(u: Seq<int>, t: nat)
    ensures
        walsh(u, t).len() == u.len(),
    decreases t,
{
    if t > 0 {
        lemma_walsh_len(u, (t - 1) as nat);
    }
}

/// In column `c` of a stage-`t` matrix only rows `r0` and `r0 + 2^t` are non-zero, where `r0`
/// is `c` with its digit of weight `2^t` cleared; so a partial row-by-column sum has at most
/// these two terms.
proof fn lemma_stage_column_sum(u: Seq<i32>, h: Matrix, m: nat, t: nat, c: int, k: nat)
    requires
        t < m,
        is_stage_matrix(h, m, t),
        u.len() == pow2(m),
        0 <= c < pow2(m),
        k <= pow2(m),
    ensures
        ({
            let b = pow2(t) as int;
            let r0 = (c / (2 * b)) * (2 * b) + c % b;
            let r1 = r0 + b;
            let t1: int = if (c / b) % 2 == 1 { -u[r1] } else { u[r1] as int };
            dot_col(u, h@, pow2(m), c, k) == (if r0 < k { u[r0] as int } else { 0 }) + (if r1
                < k {
                t1
            } else {
                0
            })
        }),
    decreases k,
{
    let b = pow2(t) as int;
    let n = pow2(m) as int;
    vstd::arithmetic::power2::lemma_pow2_pos(t);
    let q = c / (2 * b);
    let bit = (c / b) % 2;
    let lo = c % b;
    lemma_split_digits(c, b);
    let r0 = q * (2 * b) + lo;
    let r1 = r0 + b;
    let e1: int = if bit == 1 { -1 } else { 1 };
    if k > 0 {
        lemma_stage_column_sum(u, h, m, t, c, (k - 1) as nat);
        let r = k - 1;
        h.lemma_len();
        lemma_index_in_grid(r, c, n, n);
        assert(h@[r * n + c] == h.entry(r, c));
        assert(h.entry(r, c) == stage_entry(t, r, c));
        lemma_digits(r0, q, 0, lo, b);
        lemma_digits(r1, q, 1, lo, b);
        if r == r0 {
            assert(stage_entry(t, r, c) == 1);
            assert(u[r] * 1 == u[r]);
        } else if r == r1 {
            assert(stage_entry(t, r, c) == e1);
            if bit == 1 {
                assert(u[r] * -1 == -u[r]);
            } else {
                assert(u[r] * 1 == u[r]);
            }
        } else {
            lemma_split_digits(r, b);
            if r / (2 * b) == q && r % b == lo {
                let rb = (r / b) % 2;
                if rb == 0 {
                    assert(r == r0);
                } else {
                    assert(r == r1);
                }
            }
            assert(stage_entry(t, r, c) == 0);
            assert(u[r] * 0 == 0);
        }
    }
}

/// Multiplying a row by the stage-`t` matrix performs stage `t` of the transform; with entries
/// within `[-k, k]` none of the products or partial sums leaves `[-2k, 2k]`.
pub proof fn lemma_stage_product(u: Seq<i32>, h: Matrix, m: nat, t: nat, k: int)
    requires
        t < m,
        is_stage_matrix(h, m, t),
        u.len() == pow2(m),
        bounded_by(u, k),
        0 <= k,
        2 * k <= i32::MAX,
    ensures
        dot_fits(u, h@, pow2(m)),
        forall|c: int|
            0 <= c < pow2(m) ==> #[trigger] dot_col(u, h@, pow2(m), c, pow2(m)) == stage(
                ints(u),
                t,
            )[c],
        forall|c: int|
            0 <= c < pow2(m) ==> -2 * k <= #[trigger] stage(ints(u), t)[c] <= 2 * k,
{
    let n = pow2(m);
    let b = pow2(t) as int;
    vstd::arithmetic::power2::lemma_pow2_pos(t);
    vstd::arithmetic::power2::lemma_pow2_adds(t, 1);
    vstd::arithmetic::power2::lemma2_to64();
    vstd::arithmetic::power2::lemma_pow2_pos(m);
    h.lemma_len();
    assert forall|col: int, s: int|
        #![trigger dot_col(u, h@, n, col, (s + 1) as nat)]
        #![trigger product_fits(u[s], h@[s * n + col])]
        0 <= col < n && 0 <= s < u.len() implies {
        &&& product_fits(u[s], h@[s * n + col])
        &&& i32::MIN <= dot_col(u, h@, n, col, (s + 1) as nat) <= i32::MAX
    } by {
        lemma_index_in_grid(s, col, n as int, n as int);
        assert(h@[s * n + col] == h.entry(s, col));
        assert(h.entry(s, col) == stage_entry(t, s, col));
        let e = h@[s * n + col];
        let x = u[s];
        assert(-k <= x <= k);
        if e == 0 {
            assert(x * e == 0) by (nonlinear_arith)
                requires e == 0;
        } else if e == 1 {
            assert(x * e == x) by (nonlinear_arith)
                requires e == 1;
        } else {
            assert(e == -1);
            assert(x * e == -x) by (nonlinear_arith)
                requires e == -1;
        }
        lemma_stage_column_sum(u, h, m, t, col, (s + 1) as nat);
        lemma_stage_rows_in_range(col, m, t);
        lemma_split_digits(col, b);
        let r0 = (col / (2 * b)) * (2 * b) + col % b;
        assert(-k <= u[r0] <= k);
        assert(-k <= u[r0 + b] <= k);
    }
    assert(dot_fits(u, h@, n));
    assert forall|c: int| 0 <= c < n implies #[trigger] dot_col(u, h@, n, c, n) == stage(
        ints(u),
        t,
    )[c] && -2 * k <= stage(ints(u), t)[c] <= 2 * k by {
        lemma_stage_column_sum(u, h, m, t, c, n);
        let q = c / (2 * b);
        let lo = c % b;
        lemma_split_digits(c, b);
        lemma_stage_rows_in_range(c, m, t);
        let r0 = q * (2 * b) + lo;
        assert(-k <= u[r0] <= k);
        assert(-k <= u[r0 + b] <= k);
        if (c / b) % 2 == 0 {
            assert(c == r0);
            assert(stage(ints(u), t)[c] == ints(u)[c] + ints(u)[c + b]);
        } else {
            assert(c == r0 + b);
            assert(stage(ints(u), t)[c] == ints(u)[c - b] - ints(u)[c]);
        }
    }
    assert forall|c: int| 0 <= c < n implies -2 * k <= #[trigger] stage(ints(u), t)[c] <= 2
        * k by {
        assert(dot_col(u, h@, n, c, n) == stage(ints(u), t)[c]);
    }
}

/// Both rows paired with column `c` at stage `t < m` lie inside a `2^m` grid.
proof fn lemma_stage_rows_in_range(c: int, m: nat, t: nat)
    requires
        t < m,
        0 <= c < pow2(m),
    ensures
        ({
            let b = pow2(t) as int;
            &&& (c / (2 * b)) * (2 * b) + c % b + b < pow2(m)
            &&& 0 <= (c / (2 * b)) * (2 * b) + c % b
        }),
{
    let b = pow2(t) as int;
    let n = pow2(m) as int;
    vstd::arithmetic::power2::lemma_pow2_pos(t);
    vstd::arithmetic::power2::lemma_pow2_adds(t + 1, (m - t - 1) as nat);
    vstd::arithmetic::power2::lemma_pow2_adds(t, 1);
    vstd::arithmetic::power2::lemma2_to64();
    vstd::arithmetic::power2::lemma_pow2_pos((m - t - 1) as nat);
    let k = pow2((m - t - 1) as nat) as int;
    assert(n == (2 * b) * k);
    lemma_split_digits(c, b);
    let q = c / (2 * b);
    // q < k since c < n
    if q >= k {
        assert(q * (2 * b) >= k * (2 * b)) by (nonlinear_arith)
            requires q >= k, b >= 0;
        vstd::arithmetic::mul::lemma_mul_is_commutative(k, 2 * b);
        assert(false);
    }
    assert(q * (2 * b) + 2 * b <= k * (2 * b)) by (nonlinear_arith)
        requires q + 1 <= k, b >= 0;
    vstd::arithmetic::mul::lemma_mul_is_commutative(k, 2 * b);
    assert(q * (2 * b) >= 0) by (nonlinear_arith)
        requires q >= 0, b >= 0;
}


/// The matrix `I_a ⊗ P` Kronecker-multiplied by `I_b`, with `a = 2^(m-1-s)`, `b = 2^s` and
/// `P` the 2x2 parity matrix, is the stage-`s` butterfly matrix of size `2^m`.
pub proof fn lemma_stage_from_kron(
    ia: Matrix,
    par: Matrix,
    k1: Matrix,
    ib: Matrix,
    k: Matrix,
    m: nat,
    s: nat,
)
    requires
        s < m,
        ia.wf(),
        ia.nrows() == pow2((m - 1 - s) as nat),
        ia.ncols() == pow2((m - 1 - s) as nat),
        forall|r: int, c: int|
            0 <= r < ia.nrows() && 0 <= c < ia.nrows() ==> #[trigger] ia.entry(r, c) == (if r
                == c {
                1i32
            } else {
                0i32
            }),
        par.wf(),
        par.nrows() == 2,
        par.ncols() == 2,
        par@ == seq![1i32, 1i32, 1i32, -1i32],
        k1.nrows() == ia.nrows() * 2,
        k1.ncols() == ia.ncols() * 2,
        forall|i1: int, j1: int, i2: int, j2: int|
            0 <= i1 < ia.nrows() && 0 <= j1 < ia.ncols() && 0 <= i2 < 2 && 0 <= j2 < 2
                ==> #[trigger] k1.entry(i1 * 2 + i2, j1 * 2 + j2) == ia.entry(i1, j1) * par.entry(
                i2,
                j2,
            ),
        ib.wf(),
        ib.nrows() == pow2(s),
        ib.ncols() == pow2(s),
        forall|r: int, c: int|
            0 <= r < ib.nrows() && 0 <= c < ib.nrows() ==> #[trigger] ib.entry(r, c) == (if r
                == c {
                1i32
            } else {
                0i32
            }),
        k.wf(),
        k.nrows() == k1.nrows() * ib.nrows(),
        k.ncols() == k1.ncols() * ib.ncols(),
        forall|i1: int, j1: int, i2: int, j2: int|
            0 <= i1 < k1.nrows() && 0 <= j1 < k1.ncols() && 0 <= i2 < ib.nrows() && 0 <= j2
                < ib.ncols() ==> #[trigger] k.entry(i1 * ib.nrows() + i2, j1 * ib.ncols() + j2)
                == k1.entry(i1, j1) * ib.entry(i2, j2),
    ensures
        is_stage_matrix(k, m, s),
{
    let b = pow2(s) as int;
    let a = pow2((m - 1 - s) as nat) as int;
    vstd::arithmetic::power2::lemma_pow2_pos(s);
    vstd::arithmetic::power2::lemma_pow2_pos((m - 1 - s) as nat);
    vstd::arithmetic::power2::lemma_pow2_adds((m - 1 - s) as nat, s + 1);
    vstd::arithmetic::power2::lemma_pow2_adds(s, 1);
    vstd::arithmetic::power2::lemma2_to64();
    assert(pow2(m) == a * (2 * b));
    assert(k.nrows() == pow2(m)) by (nonlinear_arith)
        requires k.nrows() == (a * 2) * b, pow2(m) == a * (2 * b);
    assert(k.ncols() == pow2(m)) by (nonlinear_arith)
        requires k.ncols() == (a * 2) * b, pow2(m) == a * (2 * b);
    assert forall|r: int, c: int| 0 <= r < pow2(m) && 0 <= c < pow2(m) implies #[trigger] k.entry(
        r,
        c,
    ) == stage_entry(s, r, c) by {
        lemma_split_digits(r, b);
        lemma_split_digits(c, b);
        let i1 = r / (2 * b);
        let p = (r / b) % 2;
        let i2 = r % b;
        let j1 = c / (2 * b);
        let q = (c / b) % 2;
        let j2 = c % b;
        lemma_digits(r, i1, p, i2, b);
        lemma_digits(c, j1, q, j2, b);
        if i1 >= a {
            assert(i1 * (2 * b) >= a * (2 * b)) by (nonlinear_arith)
                requires i1 >= a, b >= 0;
            assert(p * b >= 0) by (nonlinear_arith)
                requires p >= 0, b >= 0;
        }
        if j1 >= a {
            assert(j1 * (2 * b) >= a * (2 * b)) by (nonlinear_arith)
                requires j1 >= a, b >= 0;
            assert(q * b >= 0) by (nonlinear_arith)
                requires q >= 0, b >= 0;
        }
        let big_r = i1 * 2 + p;
        let big_c = j1 * 2 + q;
        assert(r == big_r * b + i2) by (nonlinear_arith)
            requires r == i1 * (2 * b) + p * b + i2, big_r == i1 * 2 + p;
        assert(c == big_c * b + j2) by (nonlinear_arith)
            requires c == j1 * (2 * b) + q * b + j2, big_c == j1 * 2 + q;
        assert(0 <= big_r < a * 2 && 0 <= big_c < a * 2);
        assert(k.entry(big_r * b + i2, big_c * b + j2) == k1.entry(big_r, big_c) * ib.entry(
            i2,
            j2,
        ));
        assert(k1.entry(i1 * 2 + p, j1 * 2 + q) == ia.entry(i1, j1) * par.entry(p, q));
        let e1 = ia.entry(i1, j1);
        let e2 = par.entry(p, q);
        let e3 = ib.entry(i2, j2);
        assert(par.entry(p, q) == par@[p * 2 + q]);
        assert(e2 == (if p == 1 && q == 1 { -1i32 } else { 1i32 }));
        if i1 == j1 && i2 == j2 {
            assert(e1 == 1 && e3 == 1);
            assert(e1 * e2 == e2);
            assert(e2 * e3 == e2);
        } else if i1 != j1 {
            assert(e1 == 0);
            assert(e1 * e2 == 0);
            assert(0 * e3 == 0);
        } else {
            assert(e3 == 0);
            assert((e1 * e2) * 0 == 0);
        }
    }
}

// ---------------------------------------------------------------------------------------
// Encoding and decoding of RM(1, m), stated over sequences.
// ---------------------------------------------------------------------------------------

/// `x[0] * G[0][k] + ... + x[t-1] * G[t-1][k]` for the generation matrix `G` of RM(1, m).
pub open spec fn enc_sum(x: Seq<i32>, k: int, t: nat) -> int
    decreases t,
{
    if t == 0 {
        0
    } else {
        enc_sum(x, k, (t - 1) as nat) + x[t - 1] * gen_entry(t - 1, k)
    }
}

/// The codeword of RM(1, m) for the message `x` (of length `m + 1`): bit `k` is
/// `x[0] + x[1] * k_0 + ... + x[m] * k_(m-1)` modulo 2, where `k_i` is bit `i` of `k`.
pub open spec fn rm_encode_spec(x: Seq<i32>, m: nat) -> Seq<i32> {
    Seq::new(pow2(m), |k: int| rem2(enc_sum(x, k, x.len())) as i32)
}

/// `v` with every 0 replaced by -1.
pub open spec fn signs(v: Seq<i32>) -> Seq<i32> {
    Seq::new(
        v.len(),
        |k: int|
            if v[k] == 0 {
                -1i32
            } else {
                v[k]
            },
    )
}

pub open spec fn abs(x: int) -> int {
    if x < 0 {
        -x
    } else {
        x
    }
}

/// Among `w[0..k]`, the last position holding a value of largest absolute value.
pub open spec fn last_max_index(w: Seq<int>, k: nat) -> int
    decreases k,
{
    if k <= 1 {
        0
    } else {
        let p = last_max_index(w, (k - 1) as nat);
        if abs(w[k - 1]) >= abs(w[p]) {
            k - 1
        } else {
            p
        }
    }
}

/// The last strongest position holds a weight at least as strong as every other, and every
/// weight after it is strictly weaker: among equally strong weights it is the last.
pub proof fn lemma_last_max_index_is_last_strongest(w: Seq<int>, k: nat)
    requires
        1 <= k <= w.len(),
    ensures
        0 <= last_max_index(w, k) < k,
        forall|i: int| 0 <= i < k ==> abs(#[trigger] w[i]) <= abs(w[last_max_index(w, k)]),
        forall|i: int|
            last_max_index(w, k) < i < k ==> abs(#[trigger] w[i]) < abs(w[last_max_index(w, k)]),
    decreases k,
{
    if k > 1 {
        lemma_last_max_index_is_last_strongest(w, (k - 1) as nat);
    }
}

/// The message read off the transformed weights `w`: the first bit tells the sign of the
/// strongest weight, the others are the bits of its position.
pub open spec fn decoded_bits(w: Seq<int>, m: nat) -> Seq<i32> {
    let j = last_max_index(w, w.len());
    Seq::new(
        m + 1,
        |i: int|
            if i == 0 {
                if w[j] < 0 {
                    0i32
                } else {
                    1i32
                }
            } else {
                ((j / pow2((i - 1) as nat) as int) % 2) as i32
            },
    )
}

/// The weights computed while decoding `v` with RM(1, m).
pub open spec fn rm_weights_spec(v: Seq<i32>, m: nat) -> Seq<int> {
    walsh(ints(signs(v)), m)
}

/// The message decoded from `v` with RM(1, m).
pub open spec fn rm_decode_spec(v: Seq<i32>, m: nat) -> Seq<i32> {
    decoded_bits(rm_weights_spec(v, m), m)
}

// ---------------------------------------------------------------------------------------
// Decoding inverts encoding.
// ---------------------------------------------------------------------------------------

/// The encoding sums of a binary message are not negative.
pub proof fn lemma_enc_sum_nonneg(x: Seq<i32>, k: int, t: nat)
    requires
        is_binary_seq(x),
        t <= x.len(),
        k >= 0,
    ensures
        enc_sum(x, k, t) >= 0,
    decreases t,
{
    if t > 0 {
        lemma_enc_sum_nonneg(x, k, (t - 1) as nat);
        let e = gen_entry(t - 1, k);
        if t - 1 > 0 {
            vstd::arithmetic::power2::lemma_pow2_pos((t - 2) as nat);
            vstd::arithmetic::div_mod::lemma_div_pos_is_pos(k, pow2((t - 2) as nat) as int);
            vstd::arithmetic::div_mod::lemma_mod_bound(k / pow2((t - 2) as nat) as int, 2);
        }
        assert(e >= 0);
        assert(x[t - 1] == 0 || x[t - 1] == 1);
        assert(x[t - 1] * e >= 0) by (nonlinear_arith)
            requires x[t - 1] >= 0, e >= 0;
    }
}

/// The last strongest position is a position of `w`.
pub proof fn lemma_last_max_index_nonneg(w: Seq<int>, k: nat)
    ensures
        0 <= last_max_index(w, k),
        k >= 1 ==> last_max_index(w, k) < k,
    decreases k,
{
    if k > 1 {
        lemma_last_max_index_nonneg(w, (k - 1) as nat);
    }
}

/// Message bits `x[1..=t]` read as the number `x[1] + 2 x[2] + ... + 2^(t-1) x[t]`.
pub open spec fn low_val(x: Seq<i32>, t: nat) -> int
    decreases t,
{
    if t == 0 {
        0
    } else {
        low_val(x, (t - 1) as nat) + x[t as int] * pow2((t - 1) as nat)
    }
}

/// `x[t+1] * h_0 + x[t+2] * h_1 + ...` up to `x[m]`, where `h_i` is bit `i` of `h`.
pub open spec fn high_sum(x: Seq<i32>, m: nat, t: nat, h: int) -> int
    decreases m - t,
{
    if t >= m {
        0
    } else {
        x[(t + 1) as int] * (h % 2) + high_sum(x, m, t + 1, h / 2)
    }
}

/// The value of position `c` after `t` stages of transforming the signed codeword of `x`.
pub open spec fn closed_form(x: Seq<i32>, m: nat, t: nat, c: int) -> int {
    let b = pow2(t) as int;
    if c % b == low_val(x, t) {
        if (x[0] + high_sum(x, m, t, c / b)) % 2 == 1 {
            b
        } else {
            -b
        }
    } else {
        0
    }
}

proof fn lemma_low_val_bound(x: Seq<i32>, t: nat)
    requires
        is_binary_seq(x),
        t < x.len(),
    ensures
        0 <= low_val(x, t) < pow2(t),
    decreases t,
{
    vstd::arithmetic::power2::lemma_pow2_pos(t);
    if t > 0 {
        lemma_low_val_bound(x, (t - 1) as nat);
        vstd::arithmetic::power2::lemma_pow2_adds((t - 1) as nat, 1);
        vstd::arithmetic::power2::lemma2_to64();
        assert(x[t as int] == 0 || x[t as int] == 1);
    }
}

proof fn lemma_high_sum_nonneg(x: Seq<i32>, m: nat, t: nat, h: int)
    requires
        is_binary_seq(x),
        x.len() == m + 1,
        h >= 0,
    ensures
        high_sum(x, m, t, h) >= 0,
    decreases m - t,
{
    if t < m {
        lemma_high_sum_nonneg(x, m, t + 1, h / 2);
        assert(x[(t + 1) as int] == 0 || x[(t + 1) as int] == 1);
        assert(x[(t + 1) as int] * (h % 2) >= 0) by (nonlinear_arith)
            requires x[(t + 1) as int] >= 0, h % 2 >= 0;
    }
}

/// Both halves of the encoding sum: `enc_sum(x, c, j + 1) + high_sum(j) == x[0] + high_sum(0)`.
proof fn lemma_enc_sum_split(x: Seq<i32>, m: nat, c: int, j: nat)
    requires
        is_binary_seq(x),
        x.len() == m + 1,
        c >= 0,
        j <= m,
    ensures
        enc_sum(x, c, j + 1) + high_sum(x, m, j, c / pow2(j) as int) == x[0] + high_sum(
            x,
            m,
            0,
            c,
        ),
    decreases j,
{
    vstd::arithmetic::power2::lemma2_to64();
    if j == 0 {
        assert(enc_sum(x, c, 0) == 0);
        assert(gen_entry(0, c) == 1);
        assert(x[0] * 1 == x[0]);
        assert(c / 1 == c);
    } else {
        let i = (j - 1) as nat;
        lemma_enc_sum_split(x, m, c, i);
        vstd::arithmetic::power2::lemma_pow2_pos(i);
        vstd::arithmetic::power2::lemma_pow2_adds(i, 1);
        vstd::arithmetic::div_mod::lemma_div_pos_is_pos(c, pow2(i) as int);
        vstd::arithmetic::div_mod::lemma_div_denominator(c, pow2(i) as int, 2);
        assert(gen_entry(j as int, c) == ((c / pow2(i) as int) % 2) as i32);
        vstd::arithmetic::div_mod::lemma_mod_bound(c / pow2(i) as int, 2);
    }
}

/// The signed codeword already has the closed form before any stage.
proof fn lemma_closed_form_start(x: Seq<i32>, m: nat, c: int)
    requires
        is_binary_seq(x),
        x.len() == m + 1,
        0 <= c < pow2(m),
    ensures
        ints(signs(rm_encode_spec(x, m)))[c] == closed_form(x, m, 0, c),
{
    vstd::arithmetic::power2::lemma2_to64();
    lemma_enc_sum_split(x, m, c, m);
    lemma_high_sum_nonneg(x, m, 0, c);
    assert(high_sum(x, m, m, c / pow2(m) as int) == 0);
    let e = enc_sum(x, c, (m + 1) as nat);
    assert(x[0] == 0 || x[0] == 1);
    assert(e >= 0);
    assert(c % 1 == 0);
    assert(c / 1 == c);
    assert(low_val(x, 0) == 0);
}

/// One stage of the transform keeps the closed form, one digit further.
proof fn lemma_closed_form_step(x: Seq<i32>, m: nat, t: nat, w: Seq<int>, c: int)
    requires
        is_binary_seq(x),
        x.len() == m + 1,
        t < m,
        w.len() == pow2(m),
        forall|d: int| 0 <= d < pow2(m) ==> #[trigger] w[d] == closed_form(x, m, t, d),
        0 <= c < pow2(m),
    ensures
        stage(w, t)[c] == closed_form(x, m, t + 1, c),
{
    let b = pow2(t) as int;
    vstd::arithmetic::power2::lemma_pow2_pos(t);
    vstd::arithmetic::power2::lemma_pow2_adds(t, 1);
    vstd::arithmetic::power2::lemma2_to64();
    assert(pow2(t + 1) == 2 * b);
    lemma_split_digits(c, b);
    lemma_stage_rows_in_range(c, m, t);
    let q = c / (2 * b);
    let bit = (c / b) % 2;
    let lo = c % b;
    let r0 = q * (2 * b) + lo;
    let r1 = r0 + b;
    lemma_digits(r0, q, 0, lo, b);
    lemma_digits(r1, q, 1, lo, b);
    lemma_low_val_bound(x, t);
    let lv = low_val(x, t);
    let xb = x[(t + 1) as int];
    assert(xb == 0 || xb == 1);
    assert(low_val(x, t + 1) == lv + xb * b);
    let hh = high_sum(x, m, t + 1, q);
    assert(high_sum(x, m, t, 2 * q) == xb * 0 + hh);
    assert(high_sum(x, m, t, 2 * q + 1) == xb * 1 + hh);
    assert(xb * 0 == 0);
    assert(xb * 1 == xb);
    assert(w[r0] == closed_form(x, m, t, r0));
    assert(w[r1] == closed_form(x, m, t, r1));
    // closed form at stage t + 1 for both rows of the pair
    assert(0 * b == 0);
    assert(1 * b == b);
    if xb == 0 {
        assert(xb * b == 0);
    } else {
        assert(xb * b == b);
    }
    assert(r0 % (2 * b) == lo);
    assert(r1 % (2 * b) == b + lo);
    assert((lo == lv + xb * b) <==> (lo == lv && xb == 0)) by {
        if lo == lv + xb * b {
            lemma_index_unique(0, lo, xb as int, lv, b);
        }
    }
    assert((b + lo == lv + xb * b) <==> (lo == lv && xb == 1)) by {
        if b + lo == lv + xb * b {
            lemma_index_unique(1, lo, xb as int, lv, b);
        }
    }
    if bit == 0 {
        assert(c == r0);
    } else {
        assert(c == r1);
    }
    lemma_high_sum_nonneg(x, m, t + 1, q);
    assert(x[0] == 0 || x[0] == 1);
    assert((x[0] + hh + 1) % 2 == 1 <==> (x[0] + hh) % 2 == 0) by {
        vstd::arithmetic::div_mod::lemma_mod_bound(x[0] + hh, 2);
        vstd::arithmetic::div_mod::lemma_fundamental_div_mod(x[0] + hh, 2);
        vstd::arithmetic::div_mod::lemma_fundamental_div_mod_converse(
            x[0] + hh + 1,
            2,
            if (x[0] + hh) % 2 == 0 { (x[0] + hh) / 2 } else { (x[0] + hh) / 2 + 1 },
            if (x[0] + hh) % 2 == 0 { 1 } else { 0 },
        );
    }
}

proof fn lemma_walsh_closed_form(x: Seq<i32>, m: nat, t: nat)
    requires
        is_binary_seq(x),
        x.len() == m + 1,
        t <= m,
    ensures
        walsh(ints(signs(rm_encode_spec(x, m))), t).len() == pow2(m),
        forall|c: int|
            0 <= c < pow2(m) ==> #[trigger] walsh(ints(signs(rm_encode_spec(x, m))), t)[c]
                == closed_form(x, m, t, c),
    decreases t,
{
    let u = ints(signs(rm_encode_spec(x, m)));
    lemma_walsh_len(u, t);
    if t == 0 {
        assert forall|c: int| 0 <= c < pow2(m) implies #[trigger] walsh(u, t)[c] == closed_form(
            x,
            m,
            t,
            c,
        ) by {
            lemma_closed_form_start(x, m, c);
        }
    } else {
        let s = (t - 1) as nat;
        lemma_walsh_closed_form(x, m, s);
        let w = walsh(u, s);
        assert forall|c: int| 0 <= c < pow2(m) implies #[trigger] walsh(u, t)[c] == closed_form(
            x,
            m,
            t,
            c,
        ) by {
            lemma_closed_form_step(x, m, s, w, c);
        }
    }
}

/// The position holding the message bits `x[1..=m]` has them as its binary digits.
proof fn lemma_low_val_bits(x: Seq<i32>, t: nat, i: nat)
    requires
        is_binary_seq(x),
        i < t,
        t < x.len(),
    ensures
        (low_val(x, t) / pow2(i) as int) % 2 == x[(i + 1) as int],
    decreases t,
{
    vstd::arithmetic::power2::lemma_pow2_pos(i);
    vstd::arithmetic::power2::lemma2_to64();
    lemma_low_val_bound(x, i);
    if t == i + 1 {
        // low_val(i + 1) = low_val(i) + x[(i + 1) as int] * 2^i with low_val(i) < 2^i
        let p = pow2(i) as int;
        assert(low_val(x, t) == x[(i + 1) as int] * p + low_val(x, i));
        vstd::arithmetic::div_mod::lemma_fundamental_div_mod_converse(
            low_val(x, t),
            p,
            x[(i + 1) as int] as int,
            low_val(x, i),
        );
        assert(x[(i + 1) as int] == 0 || x[(i + 1) as int] == 1);
    } else {
        lemma_low_val_bits(x, (t - 1) as nat, i);
        let p = pow2(i) as int;
        let prev = low_val(x, (t - 1) as nat);
        let add = x[t as int] * pow2((t - 1) as nat);
        // add is a multiple of 2^(i + 1)
        vstd::arithmetic::power2::lemma_pow2_adds(i + 1, (t - 2 - i) as nat);
        vstd::arithmetic::power2::lemma_pow2_adds(i, 1);
        let k = pow2((t - 2 - i) as nat) as int;
        assert(pow2((t - 1) as nat) == (2 * p) * k);
        assert(add == p * (2 * (x[t as int] * k))) by (nonlinear_arith)
            requires add == x[t as int] * ((2 * p) * k);
        lemma_low_val_bound(x, (t - 1) as nat);
        assert(prev >= 0);
        vstd::arithmetic::div_mod::lemma_div_pos_is_pos(prev, p);
        vstd::arithmetic::div_mod::lemma_hoist_over_denominator(prev, 2 * (x[t as int] * k), p as nat);
        assert(add == 2 * (x[t as int] * k) * p) by (nonlinear_arith)
            requires add == p * (2 * (x[t as int] * k));
        vstd::arithmetic::div_mod::lemma_mod_multiples_vanish(x[t as int] * k, prev / p, 2);
    }
}

/// The codeword of a binary message is binary.
pub proof fn lemma_codeword_binary(x: Seq<i32>, m: nat)
    requires
        is_binary_seq(x),
    ensures
        is_binary_seq(rm_encode_spec(x, m)),
        rm_encode_spec(x, m).len() == pow2(m),
{
    let cw = rm_encode_spec(x, m);
    assert forall|k: int| 0 <= k < cw.len() implies #[trigger] cw[k] == 0 || cw[k] == 1 by {
        lemma_enc_sum_nonneg(x, k, x.len());
        vstd::arithmetic::div_mod::lemma_mod_bound(enc_sum(x, k, x.len()), 2);
    }
}

/// After all `m` stages, the signed codeword of `x` has a single non-zero weight, `±2^m`, at
/// the position whose binary digits are the message bits `x[1..=m]`; its sign is that of
/// `x[0]`.
proof fn lemma_codeword_weights(x: Seq<i32>, m: nat)
    requires
        x.len() == m + 1,
        is_binary_seq(x),
    ensures
        rm_weights_spec(rm_encode_spec(x, m), m).len() == pow2(m),
        0 <= low_val(x, m) < pow2(m),
        forall|c: int|
            0 <= c < pow2(m) ==> #[trigger] rm_weights_spec(rm_encode_spec(x, m), m)[c] == (if c
                == low_val(x, m) {
                if x[0] == 1 {
                    pow2(m) as int
                } else {
                    -(pow2(m) as int)
                }
            } else {
                0
            }),
{
    let n = pow2(m) as int;
    vstd::arithmetic::power2::lemma_pow2_pos(m);
    lemma_walsh_closed_form(x, m, m);
    let w = rm_weights_spec(rm_encode_spec(x, m), m);
    let l = low_val(x, m);
    lemma_low_val_bound(x, m);
    assert forall|c: int| 0 <= c < n implies #[trigger] w[c] == (if c == l {
        if x[0] == 1 {
            n
        } else {
            -n
        }
    } else {
        0
    }) by {
        vstd::arithmetic::div_mod::lemma_small_mod(c as nat, n as nat);
        vstd::arithmetic::div_mod::lemma_basic_div(c, n);
        assert(x[0] == 0 || x[0] == 1);
    }
}

/// If the weight at `l` is strictly stronger than every other one, the last strongest
/// position is `l`.
proof fn lemma_last_max_strict(w: Seq<int>, l: int, k: nat)
    requires
        0 <= l < w.len(),
        1 <= k <= w.len(),
        forall|j: int| 0 <= j < w.len() && j != l ==> abs(#[trigger] w[j]) < abs(w[l]),
    ensures
        k > l ==> last_max_index(w, k) == l,
        k <= l ==> 0 <= last_max_index(w, k) < k,
    decreases k,
{
    if k > 1 {
        lemma_last_max_strict(w, l, (k - 1) as nat);
    }
}

/// Weights whose strongest entry sits at the position of the message bits `x[1..=m]` and
/// has the sign of `x[0]` decode to `x`.
proof fn lemma_decoded_bits_of(w: Seq<int>, x: Seq<i32>, m: nat)
    requires
        x.len() == m + 1,
        is_binary_seq(x),
        last_max_index(w, w.len()) == low_val(x, m),
        (w[low_val(x, m)] < 0) == (x[0] == 0),
    ensures
        decoded_bits(w, m) == x,
{
    let d = decoded_bits(w, m);
    assert forall|i: int| 0 <= i < x.len() implies #[trigger] d[i] == x[i] by {
        if i > 0 {
            lemma_low_val_bits(x, m, (i - 1) as nat);
        } else {
            assert(x[0] == 0 || x[0] == 1);
        }
    }
    assert(d =~= x);
}

// ---------------------------------------------------------------------------------------
// Decoding corrects errors.
// ---------------------------------------------------------------------------------------

/// `|u[lo]| + |u[lo + 1]| + ... + |u[lo + len - 1]|`.
pub open spec fn abs_sum(u: Seq<int>, lo: int, len: nat) -> int
    decreases len,
{
    if len == 0 {
        0
    } else {
        abs_sum(u, lo, (len - 1) as nat) + abs(u[lo + len - 1])
    }
}

/// `u - v`, entry by entry.
pub open spec fn diff(u: Seq<int>, v: Seq<int>) -> Seq<int> {
    Seq::new(u.len(), |i: int| u[i] - v[i])
}

proof fn lemma_abs_sum_split(u: Seq<int>, lo: int, a: nat, b: nat)
    ensures
        abs_sum(u, lo, a + b) == abs_sum(u, lo, a) + abs_sum(u, lo + a, b),
    decreases b,
{
    if b > 0 {
        lemma_abs_sum_split(u, lo, a, (b - 1) as nat);
        assert((a + b - 1) as nat == a + (b - 1) as nat);
    }
}

/// Position `c` and its partner at stage `t`: the pair is `r0` and `r0 + 2^t`, both in
/// range, and both start their blocks of size `2^t` inside the block of size `2^(t+1)` that
/// holds `c`.
proof fn lemma_pair(c: int, m: nat, t: nat)
    requires
        t < m,
        0 <= c < pow2(m),
    ensures
        ({
            let b = pow2(t) as int;
            let r0 = (c / (2 * b)) * (2 * b) + c % b;
            &&& b >= 1
            &&& pow2(t + 1) == 2 * b
            &&& 0 <= r0
            &&& r0 + b < pow2(m)
            &&& (c / b) % 2 == 0 ==> c == r0
            &&& (c / b) % 2 == 1 ==> c == r0 + b
            &&& r0 - r0 % b == c - c % (2 * b)
            &&& (r0 + b) - (r0 + b) % b == c - c % (2 * b) + b
        }),
{
    let b = pow2(t) as int;
    vstd::arithmetic::power2::lemma_pow2_pos(t);
    vstd::arithmetic::power2::lemma_pow2_adds(t, 1);
    vstd::arithmetic::power2::lemma2_to64();
    lemma_split_digits(c, b);
    lemma_stage_rows_in_range(c, m, t);
    let q = c / (2 * b);
    let bit = (c / b) % 2;
    let lo = c % b;
    let r0 = q * (2 * b) + lo;
    lemma_digits(r0, q, 0, lo, b);
    lemma_digits(r0 + b, q, 1, lo, b);
    lemma_digits(c, q, bit, lo, b);
    assert(0 * b == 0);
    assert(1 * b == b);
}

/// The transform is linear: transforming `u - v` gives the difference of the transforms.
proof fn lemma_walsh_diff(u: Seq<int>, v: Seq<int>, m: nat, t: nat)
    requires
        u.len() == pow2(m),
        v.len() == pow2(m),
        t <= m,
    ensures
        walsh(diff(u, v), t).len() == pow2(m),
        forall|c: int|
            0 <= c < pow2(m) ==> walsh(u, t)[c] - walsh(v, t)[c] == #[trigger] walsh(
                diff(u, v),
                t,
            )[c],
    decreases t,
{
    let d = diff(u, v);
    lemma_walsh_len(u, t);
    lemma_walsh_len(v, t);
    lemma_walsh_len(d, t);
    if t > 0 {
        let s = (t - 1) as nat;
        lemma_walsh_diff(u, v, m, s);
        lemma_walsh_len(u, s);
        lemma_walsh_len(v, s);
        lemma_walsh_len(d, s);
        let wu = walsh(u, s);
        let wv = walsh(v, s);
        let wd = walsh(d, s);
        assert forall|c: int| 0 <= c < pow2(m) implies walsh(u, t)[c] - walsh(v, t)[c]
            == #[trigger] walsh(d, t)[c] by {
            lemma_pair(c, m, s);
            let b = pow2(s) as int;
            let r0 = (c / (2 * b)) * (2 * b) + c % b;
            assert(wu[r0] - wv[r0] == wd[r0]);
            assert(wu[r0 + b] - wv[r0 + b] == wd[r0 + b]);
        }
    }
}

/// After `t` stages, an entry is at most the sum of the magnitudes in its block of `2^t`
/// positions.
proof fn lemma_walsh_abs_bound(u: Seq<int>, m: nat, t: nat)
    requires
        u.len() == pow2(m),
        t <= m,
    ensures
        forall|c: int|
            0 <= c < pow2(m) ==> abs(#[trigger] walsh(u, t)[c]) <= abs_sum(
                u,
                c - c % (pow2(t) as int),
                pow2(t),
            ),
    decreases t,
{
    lemma_walsh_len(u, t);
    vstd::arithmetic::power2::lemma2_to64();
    if t == 0 {
        assert forall|c: int| 0 <= c < pow2(m) implies abs(#[trigger] walsh(u, t)[c]) <= abs_sum(
            u,
            c - c % (pow2(t) as int),
            pow2(t),
        ) by {
            assert(c % 1 == 0);
            assert(abs_sum(u, c, 1) == abs_sum(u, c, 0) + abs(u[c]));
        }
    } else {
        let s = (t - 1) as nat;
        lemma_walsh_abs_bound(u, m, s);
        lemma_walsh_len(u, s);
        let w = walsh(u, s);
        assert forall|c: int| 0 <= c < pow2(m) implies abs(#[trigger] walsh(u, t)[c]) <= abs_sum(
            u,
            c - c % (pow2(t) as int),
            pow2(t),
        ) by {
            lemma_pair(c, m, s);
            let b = pow2(s) as int;
            let r0 = (c / (2 * b)) * (2 * b) + c % b;
            assert(abs(w[r0]) <= abs_sum(u, r0 - r0 % b, pow2(s)));
            assert(abs(w[r0 + b]) <= abs_sum(u, (r0 + b) - (r0 + b) % b, pow2(s)));
            lemma_abs_sum_split(u, c - c % (2 * b), pow2(s), pow2(s));
        }
    }
}

/// The signed forms of two binary words differ by `±2` where the words differ and by `0`
/// elsewhere, so the magnitudes of the difference add up to twice the number of differences.
proof fn lemma_abs_sum_sign_diff(cw: Seq<i32>, y: Seq<i32>, k: nat)
    requires
        is_binary_seq(cw),
        is_binary_seq(y),
        cw.len() == y.len(),
        k <= y.len(),
    ensures
        abs_sum(diff(ints(signs(y)), ints(signs(cw))), 0, k) == 2 * error_indexes(
            cw,
            y,
            k,
        ).len(),
    decreases k,
{
    if k > 0 {
        lemma_abs_sum_sign_diff(cw, y, (k - 1) as nat);
        let i = k - 1;
        assert(cw[i] == 0 || cw[i] == 1);
        assert(y[i] == 0 || y[i] == 1);
    }
}

/// A word has no differences with itself.
proof fn lemma_no_self_errors(a: Seq<i32>, k: nat)
    requires
        k <= a.len(),
    ensures
        error_indexes(a, a, k).len() == 0,
    decreases k,
{
    if k > 0 {
        lemma_no_self_errors(a, (k - 1) as nat);
    }
}

/// Decoding recovers the message from every received word that differs from the message's
/// codeword in fewer than `2^(m-2)` positions: RM(1, m) corrects that many errors.
pub proof fn lemma_rm_decode_corrects_errors(x: Seq<i32>, y: Seq<i32>, m: nat)
    requires
        1 <= m <= 10,
        x.len() == m + 1,
        is_binary_seq(x),
        y.len() == pow2(m),
        is_binary_seq(y),
        4 * differences(rm_encode_spec(x, m), y).len() < pow2(m),
    ensures
        rm_decode_spec(y, m) == x,
{
    let n = pow2(m) as int;
    vstd::arithmetic::power2::lemma_pow2_pos(m);
    let cw = rm_encode_spec(x, m);
    lemma_codeword_binary(x, m);
    let e = differences(cw, y).len() as int;
    lemma_abs_sum_sign_diff(cw, y, n as nat);
    let u = ints(signs(y));
    let v = ints(signs(cw));
    lemma_walsh_diff(u, v, m, m);
    lemma_walsh_abs_bound(diff(u, v), m, m);
    lemma_codeword_weights(x, m);
    lemma_walsh_len(u, m);
    let wy = rm_weights_spec(y, m);
    let wc = rm_weights_spec(cw, m);
    let wd = walsh(diff(u, v), m);
    let l = low_val(x, m);
    assert forall|c: int| 0 <= c < n implies abs(wy[c] - wc[c]) <= 2 * e by {
        vstd::arithmetic::div_mod::lemma_small_mod(c as nat, n as nat);
        assert(wy[c] - wc[c] == wd[c]);
    }
    assert forall|j: int| 0 <= j < wy.len() && j != l implies abs(#[trigger] wy[j]) < abs(
        wy[l],
    ) by {
        assert(abs(wy[j] - wc[j]) <= 2 * e);
        assert(abs(wy[l] - wc[l]) <= 2 * e);
    }
    lemma_last_max_strict(wy, l, n as nat);
    assert(abs(wy[l] - wc[l]) <= 2 * e);
    assert(x[0] == 0 || x[0] == 1);
    lemma_decoded_bits_of(wy, x, m);
}

/// Decoding the codeword of a message gives the message back.
pub proof fn lemma_rm_decode_inverts_encode(x: Seq<i32>, m: nat)
    requires
        1 <= m <= 10,
        x.len() == m + 1,
        is_binary_seq(x),
    ensures
        rm_decode_spec(rm_encode_spec(x, m), m) == x,
{
    let cw = rm_encode_spec(x, m);
    lemma_codeword_binary(x, m);
    lemma_no_self_errors(cw, cw.len());
    vstd::arithmetic::power2::lemma_pow2_pos(m);
    lemma_rm_decode_corrects_errors(x, cw, m);
}

/// Decoding reads the message off the strongest weight, taking the last one where several are
/// equally strong: its first bit tells whether that weight is not negative, and the others are
/// the binary digits of its position.
pub proof fn lemma_decode_reads_last_strongest_weight(v: Seq<i32>, m: nat)
    requires
        v.len() >= 1,
    ensures
        exists|j: int|
            #![trigger rm_weights_spec(v, m)[j]]
            {
                let w = rm_weights_spec(v, m);
                let d = rm_decode_spec(v, m);
                &&& 0 <= j < w.len()
                &&& forall|i: int| 0 <= i < w.len() ==> abs(#[trigger] w[i]) <= abs(w[j])
                &&& forall|i: int| j < i < w.len() ==> abs(#[trigger] w[i]) < abs(w[j])
                &&& d.len() == m + 1
                &&& d[0] == (if w[j] < 0 {
                    0i32
                } else {
                    1i32
                })
                &&& forall|k: int|
                    1 <= k <= m ==> #[trigger] d[k] == ((j / pow2((k - 1) as nat) as int) % 2) as i32
            },
{
    let w = rm_weights_spec(v, m);
    lemma_walsh_len(ints(signs(v)), m);
    lemma_last_max_index_is_last_strongest(w, w.len());
    let j = last_max_index(w, w.len());
    assert(w[j] == rm_weights_spec(v, m)[j]);
}

} // verus!
