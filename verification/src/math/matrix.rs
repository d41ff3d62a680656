use vstd::prelude::*;

use crate::math::index_arith::{lemma_index_in_grid, lemma_index_split, lemma_index_unique};
use crate::parameters::Muller;
use crate::text::{int_text, push_char, push_int};
use vstd::arithmetic::power2::pow2;

verus! {

/// A dense matrix of `i32` values stored row by row.
#[derive(Debug, PartialEq, Eq)]
pub struct Matrix {
    rows: u32,
    cols: u32,
    data: Vec<i32>,
}

impl View for Matrix {
    type V = Seq<i32>;

    /// The entries of the matrix, row by row.
    closed spec fn view(&self) -> Seq<i32> {
        self.data@
    }
}

/// Every entry of `s` lies within `[-1, 1]`.
pub open spec fn unit_bounded(s: Seq<i32>) -> bool {
    forall|i: int| 0 <= i < s.len() ==> -1 <= #[trigger] s[i] <= 1
}

/// The first `k` entries of row `r` of the row-major data `d` with `cols` columns, each
/// followed by a space.
pub open spec fn row_text(d: Seq<i32>, cols: nat, r: nat, k: nat) -> Seq<char>
    decreases k,
{
    if k == 0 {
        Seq::empty()
    } else {
        row_text(d, cols, r, (k - 1) as nat) + int_text(d[r * cols + k - 1] as int) + seq![' ']
    }
}

/// The first `r` rows of the row-major data `d` with `cols` columns, each ended by a newline.
pub open spec fn matrix_text(d: Seq<i32>, cols: nat, r: nat) -> Seq<char>
    decreases r,
{
    if r == 0 {
        Seq::empty()
    } else {
        matrix_text(d, cols, (r - 1) as nat) + row_text(d, cols, (r - 1) as nat, cols) + seq!['\n']
    }
}

/// The product of two `i32` values fits in an `i32`.
pub open spec fn product_fits(a: i32, b: i32) -> bool {
    i32::MIN <= a * b <= i32::MAX
}

impl Clone for Matrix {
    /// A copy of `self`: the same shape and the same entries.
    fn clone(&self) -> (res: Self)
        ensures
            res.nrows() == self.nrows(),
            res.ncols() == self.ncols(),
            res@ == self@,
            self.wf() ==> res.wf(),
    {
        let data = self.data.clone();
        proof {
            assert(data@ =~= self.data@);
        }
        Matrix { rows: self.rows, cols: self.cols, data }
    }
}

impl Matrix {
    /// Number of rows.
    pub closed spec fn nrows(&self) -> nat {
        self.rows as nat
    }

    /// Number of columns.
    pub closed spec fn ncols(&self) -> nat {
        self.cols as nat
    }

    /// The data holds exactly `rows * cols` entries.
    pub closed spec fn wf(&self) -> bool {
        &&& self.data@.len() == self.rows * self.cols
        &&& self.data@.len() <= u32::MAX
    }

    /// The entry at row `r` and column `c`.
    pub open spec fn entry(&self, r: int, c: int) -> i32 {
        self@[r * self.ncols() + c]
    }

    /// A well-formed matrix has `rows * cols` entries.
    pub proof fn lemma_len(&self)
        requires
            self.wf(),
        ensures
            self@.len() == self.nrows() * self.ncols(),
            self@.len() <= u32::MAX,
            self.nrows() <= u32::MAX,
            self.ncols() <= u32::MAX,
    {
    }

    /// A matrix with the shape and entry count of a well-formed one is well formed.
    pub proof fn lemma_wf_same_shape(a: Matrix, b: Matrix)
        requires
            a.wf(),
            b.nrows() == a.nrows(),
            b.ncols() == a.ncols(),
            b@.len() == a@.len(),
        ensures
            b.wf(),
    {
    }

    /// Creates a new matrix with specified `rows` and `cols`, containing `data`.
    ///
    /// Returns `None` if `data` is empty or specified dimensions don't match its length.
    pub fn new(rows: u16, cols: u16, data: Vec<i32>) -> (res: Option<Self>)
        ensures
            res is Some <==> (data@.len() != 0 && data@.len() == rows * cols),
            res matches Some(m) ==> {
                &&& m.wf()
                &&& m.nrows() == rows
                &&& m.ncols() == cols
                &&& m@ == data@
            },
    {
        proof {
            assert(rows * cols <= u32::MAX) by (nonlinear_arith)
                requires rows <= 65535, cols <= 65535;
        }
        let size = rows as u64 * cols as u64;
        if data.is_empty() || data.len() as u64 != size {
            None
        } else {
            Some(Self { rows: rows as u32, cols: cols as u32, data })
        }
    }

    /// Creates a new matrix with specified `rows` and `cols`, containing `data`,
    /// where the caller already knows that the length of `data` is `rows * cols`.
    pub fn new_unchecked(rows: u16, cols: u16, data: Vec<i32>) -> (res: Self)
        requires
            data@.len() != 0,
            data@.len() == rows * cols,
        ensures
            res.wf(),
            res.nrows() == rows,
            res.ncols() == cols,
            res@ == data@,
    {
        proof {
            assert(rows * cols <= u32::MAX) by (nonlinear_arith)
                requires rows <= 65535, cols <= 65535;
        }
        Self { rows: rows as u32, cols: cols as u32, data }
    }

    /// Creates a one-row matrix holding `data`.
    pub fn from_vec(data: Vec<i32>) -> (res: Self)
        requires
            data@.len() <= u32::MAX,
        ensures
            res.wf(),
            res.nrows() == 1,
            res.ncols() == data@.len(),
            res@ == data@,
    {
        Self { rows: 1, cols: data.len() as u32, data }
    }

    /// Creates an identity matrix of size `n`.
    ///
    /// Returns `None` if `n` is 0.
    pub fn identity(n: u16) -> (res: Option<Self>)
        ensures
            res is Some <==> n != 0,
            res matches Some(m) ==> {
                &&& m.wf()
                &&& m.nrows() == n
                &&& m.ncols() == n
                &&& unit_bounded(m@)
                &&& forall|r: int, c: int|
                    0 <= r < n && 0 <= c < n ==> #[trigger] m.entry(r, c) == (if r == c {
                        1i32
                    } else {
                        0i32
                    })
            },
    {
        if n == 0 {
            return None;
        }
        let n = n as usize;
        proof {
            assert(n * n <= 65535 * 65535) by (nonlinear_arith)
                requires n <= 65535;
        }
        let len = n * n;
        proof {
            assert(len >= 1) by (nonlinear_arith)
                requires len == n * n, n >= 1;
        }
        let mut data: Vec<i32> = vec![0; len];
        let ghost step = (n + 1) as int;
        let mut idx: usize = 0;
        let ghost mut k: int = 0;
        while idx < data.len()
            invariant
                data@.len() == len,
                len == n * n,
                len <= 4294836225,
                1 <= n <= 65535,
                step == n + 1,
                idx == k * step,
                0 <= k <= n,
                k < n ==> idx < len,
                forall|p: int|
                    0 <= p < len ==> #[trigger] data@[p] == (if p < idx && p % step == 0 {
                        1i32
                    } else {
                        0i32
                    }),
            decreases n - k,
        {
            proof {
                if k >= n {
                    assert(k * step >= n * step) by (nonlinear_arith)
                        requires k >= n, step >= 0;
                    assert(n * step == n * n + n) by (nonlinear_arith)
                        requires step == n + 1;
                }
                assert((idx as int) % step == 0) by {
                    vstd::arithmetic::div_mod::lemma_mod_multiples_basic(k, step);
                }
            }
            let ghost old_data = data@;
            let ghost old_idx = idx as int;
            data.set(idx, 1);
            idx = idx + n + 1;
            proof {
                k = k + 1;
                assert(idx == k * step) by (nonlinear_arith)
                    requires idx == (k - 1) * step + step;
                assert forall|p: int| 0 <= p < len implies #[trigger] data@[p] == (if p < idx && p
                    % step == 0 {
                    1i32
                } else {
                    0i32
                }) by {
                    if p != old_idx {
                        assert(data@[p] == old_data[p]);
                        if old_idx < p < idx && p % step == 0 {
                            vstd::arithmetic::div_mod::lemma_fundamental_div_mod(p, step);
                            let q = p / step;
                            assert(false) by (nonlinear_arith)
                                requires
                                    p == step * q,
                                    (k - 1) * step < p < k * step,
                                    step > 0,
                            ;
                        }
                    }
                }
                if k < n {
                    assert(k * step <= (n - 1) * (n + 1)) by (nonlinear_arith)
                        requires k <= n - 1, step == n + 1, k >= 0;
                    assert((n - 1) * (n + 1) < n * n) by (nonlinear_arith)
                        requires n >= 1;
                }
            }
        }
        let res = Self { rows: n as u32, cols: n as u32, data };
        proof {
            assert forall|i: int| 0 <= i < res@.len() implies -1 <= #[trigger] res@[i] <= 1 by {
                assert(data@[i] == 0 || data@[i] == 1);
            }
            assert forall|r: int, c: int| 0 <= r < n && 0 <= c < n implies #[trigger] res.entry(
                r,
                c,
            ) == (if r == c {
                1i32
            } else {
                0i32
            }) by {
                lemma_index_in_grid(r, c, n as int, n as int);
                lemma_diagonal_positions(r, c, n as int);
            }
        }
        Some(res)
    }

    /// Creates a 2x2 parity matrix.
    pub fn parity() -> (res: Self)
        ensures
            res.wf(),
            res.nrows() == 2,
            res.ncols() == 2,
            res@ == seq![1i32, 1i32, 1i32, -1i32],
            unit_bounded(res@),
    {
        let mut data: Vec<i32> = Vec::new();
        data.push(1);
        data.push(1);
        data.push(1);
        data.push(-1);
        assert(data@ =~= seq![1i32, 1i32, 1i32, -1i32]);
        let res = Self { rows: 2, cols: 2, data };
        assert(res.data@.len() == 4);
        assert(res.rows * res.cols == 4) by (nonlinear_arith)
            requires res.rows == 2, res.cols == 2;
        res
    }

    /// Returns the number of rows `self` has.
    pub fn rows(&self) -> (r: u32)
        ensures
            r == self.nrows(),
    {
        self.rows
    }

    /// Formats the matrix: every entry followed by a space, every row ended by a newline.
    pub fn to_string(&self) -> (s: String)
        requires
            self.wf(),
        ensures
            s@ == matrix_text(self@, self.ncols(), self.nrows()),
    {
        let mut s = String::new();
        for i in 0..self.rows
            invariant
                self.wf(),
                s@ == matrix_text(self@, self.ncols(), i as nat),
        {
            let ghost before = s@;
            for j in 0..self.cols
                invariant
                    self.wf(),
                    i < self.rows,
                    s@ == before + row_text(self@, self.ncols(), i as nat, j as nat),
            {
                proof {
                    lemma_index_in_grid(i as int, j as int, self.nrows() as int, self.ncols() as int);
                    assert(i * self.cols + j < self.rows * self.cols);
                }
                push_int(&mut s, self.data[((i * self.cols) + j) as usize]);
                push_char(&mut s, ' ');
            }
            push_char(&mut s, '\n');
        }
        s
    }

    /// Returns the number of columns `self` has.
    pub fn cols(&self) -> (c: u32)
        ensures
            c == self.ncols(),
    {
        self.cols
    }

    /// Returns a reference to inner data of `self`.
    pub fn inner(&self) -> (d: &[i32])
        ensures
            d@ == self@,
    {
        self.data.as_slice()
    }

    /// Returns a mutable reference inner data of `self`.
    pub fn inner_mut(&mut self) -> (d: &mut [i32])
        ensures
            d@ == old(self)@,
            final(self)@ == final(d)@,
            final(self).nrows() == old(self).nrows(),
            final(self).ncols() == old(self).ncols(),
    {
        self.data.as_mut_slice()
    }

    /// Multiplies each element of the MxN `self` matrix by the PxQ `other` matrix.
    ///
    /// Returns a PMxQN matrix.
    pub fn kronecher_product(&self, other: &Matrix) -> (res: Self)
        requires
            self.wf(),
            other.wf(),
            self.nrows() * other.nrows() <= u32::MAX,
            self.ncols() * other.ncols() <= u32::MAX,
            (self.nrows() * other.nrows()) * (self.ncols() * other.ncols()) <= u32::MAX,
            forall|i: int, j: int|
                0 <= i < self@.len() && 0 <= j < other@.len() ==> product_fits(
                    #[trigger] self@[i],
                    #[trigger] other@[j],
                ),
        ensures
            is_kronecker_of(res, *self, *other),
            res.wf(),
            res.nrows() == self.nrows() * other.nrows(),
            res.ncols() == self.ncols() * other.ncols(),
            forall|i1: int, j1: int, i2: int, j2: int|
                0 <= i1 < self.nrows() && 0 <= j1 < self.ncols() && 0 <= i2 < other.nrows() && 0
                    <= j2 < other.ncols() ==> #[trigger] res.entry(
                    i1 * other.nrows() + i2,
                    j1 * other.ncols() + j2,
                ) == self.entry(i1, j1) * other.entry(i2, j2),
    {
        let rows = self.rows * other.rows;
        let cols = self.cols * other.cols;
        let self_rows = self.rows as usize;
        let self_cols = self.cols as usize;
        let other_rows = other.rows as usize;
        let other_cols = other.cols as usize;
        let ghost r1 = self_rows as int;
        let ghost c1 = self_cols as int;
        let ghost r2 = other_rows as int;
        let ghost c2 = other_cols as int;
        let ghost cc = cols as int;
        let total = (rows * cols) as usize;
        let self_len = self.data.len();
        let other_len = other.data.len();
        let mut data: Vec<i32> = vec![0; total];
        let cols_u = cols as usize;

        for self_row in 0..self_rows
            invariant
                data@.len() == total,
                total == (r1 * r2) * cc,
                cc == c1 * c2,
                total <= u32::MAX,
                r1 * r2 <= u32::MAX,
                self_rows == r1, self_cols == c1, other_rows == r2, other_cols == c2,
                cols_u == cc,
                self@.len() == r1 * c1,
                other@.len() == r2 * c2,
                self_len == self@.len(),
                other_len == other@.len(),
                forall|i: int, j: int|
                    0 <= i < self@.len() && 0 <= j < other@.len() ==> product_fits(
                        #[trigger] self@[i],
                        #[trigger] other@[j],
                    ),
                forall|i1: int, j1: int, i2: int, j2: int|
                    #![trigger kron_pos(i1, j1, i2, j2, r2, c2, cc)]
                    0 <= i1 < self_row && 0 <= j1 < c1 && 0 <= i2 < r2 && 0 <= j2 < c2
                        ==> data@[kron_pos(i1, j1, i2, j2, r2, c2, cc)] == self@[i1 * c1 + j1]
                        * other@[i2 * c2 + j2],
        {
            for self_col in 0..self_cols
                invariant
                    data@.len() == total,
                    total == (r1 * r2) * cc,
                    cc == c1 * c2,
                    total <= u32::MAX,
                    r1 * r2 <= u32::MAX,
                    self_rows == r1, self_cols == c1, other_rows == r2, other_cols == c2,
                    cols_u == cc,
                    0 <= self_row < r1,
                    self@.len() == r1 * c1,
                    other@.len() == r2 * c2,
                    self_len == self@.len(),
                    other_len == other@.len(),
                    forall|i: int, j: int|
                        0 <= i < self@.len() && 0 <= j < other@.len() ==> product_fits(
                            #[trigger] self@[i],
                            #[trigger] other@[j],
                        ),
                    forall|i1: int, j1: int, i2: int, j2: int|
                        #![trigger kron_pos(i1, j1, i2, j2, r2, c2, cc)]
                        0 <= i1 < r1 && 0 <= j1 < c1 && 0 <= i2 < r2 && 0 <= j2 < c2
                            && (i1 < self_row || (i1 == self_row && j1 < self_col))
                            ==> data@[kron_pos(i1, j1, i2, j2, r2, c2, cc)] == self@[i1 * c1
                            + j1] * other@[i2 * c2 + j2],
            {
                proof {
                    lemma_index_in_grid(self_row as int, self_col as int, r1, c1);
                }
                let self_val = self.data[self_row * self_cols + self_col];
                proof {
                    assert(self_row * other_rows <= r1 * r2) by (nonlinear_arith)
                        requires self_row < r1, other_rows == r2, r2 >= 0;
                    assert(self_row * other_rows * cols_u <= total) by (nonlinear_arith)
                        requires
                            self_row < r1,
                            total == (r1 * r2) * cc,
                            other_rows == r2,
                            cols_u == cc,
                            r2 >= 0,
                            cc >= 0,
                    ;
                    assert(self_col * other_cols <= cc) by (nonlinear_arith)
                        requires self_col < c1, other_cols == c2, cc == c1 * c2, c2 >= 0;
                }
                proof {
                    if r2 >= 1 {
                        assert(self_row * other_rows * cols_u + self_col * other_cols <= total)
                            by (nonlinear_arith)
                            requires
                                self_row < r1,
                                self_col < c1,
                                other_rows == r2,
                                other_cols == c2,
                                cols_u == cc,
                                cc == c1 * c2,
                                total == (r1 * r2) * cc,
                                r2 >= 1,
                                c2 >= 0,
                        ;
                    } else {
                        assert(self_row * other_rows * cols_u == 0) by (nonlinear_arith)
                            requires other_rows == r2, r2 == 0;
                    }
                }
                let submatrix_start = (self_row * other_rows * cols_u) + (self_col * other_cols);
                for other_row in 0..other_rows
                    invariant
                        data@.len() == total,
                        total == (r1 * r2) * cc,
                        cc == c1 * c2,
                        total <= u32::MAX,
                        self_rows == r1, self_cols == c1, other_rows == r2, other_cols == c2,
                        cols_u == cc,
                        0 <= self_row < r1,
                        0 <= self_col < c1,
                        self_val == self@[self_row * c1 + self_col],
                        submatrix_start == self_row * r2 * cc + self_col * c2,
                        self@.len() == r1 * c1,
                        other@.len() == r2 * c2,
                        other_len == other@.len(),
                        forall|j: int|
                            0 <= j < other@.len() ==> product_fits(self_val, #[trigger] other@[j]),
                        forall|i1: int, j1: int, i2: int, j2: int|
                            #![trigger kron_pos(i1, j1, i2, j2, r2, c2, cc)]
                            0 <= i1 < r1 && 0 <= j1 < c1 && 0 <= i2 < r2 && 0 <= j2 < c2 && (i1
                                < self_row || (i1 == self_row && j1 < self_col) || (i1 == self_row
                                && j1 == self_col && i2 < other_row)) ==> data@[kron_pos(
                                i1,
                                j1,
                                i2,
                                j2,
                                r2,
                                c2,
                                cc,
                            )] == self@[i1 * c1 + j1] * other@[i2 * c2 + j2],
                {
                    for other_col in 0..other_cols
                        invariant
                            data@.len() == total,
                            total == (r1 * r2) * cc,
                            cc == c1 * c2,
                            total <= u32::MAX,
                            self_rows == r1, self_cols == c1, other_rows == r2, other_cols == c2,
                            cols_u == cc,
                            0 <= self_row < r1,
                            0 <= self_col < c1,
                            0 <= other_row < r2,
                            self_val == self@[self_row * c1 + self_col],
                            submatrix_start == self_row * r2 * cc + self_col * c2,
                            other@.len() == r2 * c2,
                            other_len == other@.len(),
                            forall|j: int|
                                0 <= j < other@.len() ==> product_fits(
                                    self_val,
                                    #[trigger] other@[j],
                                ),
                            forall|i1: int, j1: int, i2: int, j2: int|
                                #![trigger kron_pos(i1, j1, i2, j2, r2, c2, cc)]
                                0 <= i1 < r1 && 0 <= j1 < c1 && 0 <= i2 < r2 && 0 <= j2 < c2
                                    && (i1 < self_row || (i1 == self_row && j1 < self_col) || (i1
                                    == self_row && j1 == self_col && i2 < other_row) || (i1
                                    == self_row && j1 == self_col && i2 == other_row && j2
                                    < other_col)) ==> data@[kron_pos(i1, j1, i2, j2, r2, c2, cc)]
                                    == self@[i1 * c1 + j1] * other@[i2 * c2 + j2],
                    {
                        proof {
                            lemma_index_in_grid(other_row as int, other_col as int, r2, c2);
                        }
                        let other_val = other.data[(other_row * other_cols) + other_col];
                        let ghost here = kron_pos(
                            self_row as int,
                            self_col as int,
                            other_row as int,
                            other_col as int,
                            r2,
                            c2,
                            cc,
                        );
                        proof {
                            lemma_kron_pos_bounds(
                                self_row as int,
                                self_col as int,
                                other_row as int,
                                other_col as int,
                                r1,
                                c1,
                                r2,
                                c2,
                            );
                            assert(other_row * cols_u + other_col <= total) by (nonlinear_arith)
                                requires
                                    other_row < r2,
                                    other_col < c2,
                                    cols_u == cc,
                                    cc == c1 * c2,
                                    total == (r1 * r2) * cc,
                                    c1 >= 1,
                                    r1 >= 1,
                            ;
                            assert(submatrix_start + other_row * cols_u + other_col == here)
                                by (nonlinear_arith)
                                requires
                                    submatrix_start == self_row * r2 * cc + self_col * c2,
                                    cols_u == cc,
                                    here == (self_row * r2 + other_row) * cc + (self_col * c2
                                        + other_col),
                            ;
                        }
                        let offset = (other_row * cols_u) + other_col;
                        let value = self_val * other_val;
                        let ghost old_data = data@;
                        data.set(submatrix_start + offset, value);
                        proof {
                            assert(data@ == old_data.update(here, value));
                            assert forall|i1: int, j1: int, i2: int, j2: int|
                                #![trigger kron_pos(i1, j1, i2, j2, r2, c2, cc)]
                                0 <= i1 < r1 && 0 <= j1 < c1 && 0 <= i2 < r2 && 0 <= j2 < c2
                                    && (i1 < self_row || (i1 == self_row && j1 < self_col) || (i1
                                    == self_row && j1 == self_col && i2 < other_row) || (i1
                                    == self_row && j1 == self_col && i2 == other_row && j2
                                    < other_col + 1)) implies data@[kron_pos(
                                i1,
                                j1,
                                i2,
                                j2,
                                r2,
                                c2,
                                cc,
                            )] == self@[i1 * c1 + j1] * other@[i2 * c2 + j2] by {
                                if i1 == self_row && j1 == self_col && i2 == other_row && j2
                                    == other_col {
                                    assert(kron_pos(i1, j1, i2, j2, r2, c2, cc) == here);
                                } else {
                                    lemma_kron_pos_bounds(i1, j1, i2, j2, r1, c1, r2, c2);
                                    lemma_kron_pos_injective(
                                        i1,
                                        j1,
                                        i2,
                                        j2,
                                        self_row as int,
                                        self_col as int,
                                        other_row as int,
                                        other_col as int,
                                        r1,
                                        c1,
                                        r2,
                                        c2,
                                    );
                                    assert(data@[kron_pos(i1, j1, i2, j2, r2, c2, cc)]
                                        == old_data[kron_pos(i1, j1, i2, j2, r2, c2, cc)]);
                                }
                            }
                        }
                    }
                }
            }
        }
        let res = Self { rows, cols, data };
        proof {
            assert forall|i1: int, j1: int, i2: int, j2: int|
                0 <= i1 < self.nrows() && 0 <= j1 < self.ncols() && 0 <= i2 < other.nrows() && 0
                    <= j2 < other.ncols() implies #[trigger] res.entry(
                i1 * other.nrows() + i2,
                j1 * other.ncols() + j2,
            ) == self.entry(i1, j1) * other.entry(i2, j2) by {
                assert(kron_pos(i1, j1, i2, j2, r2, c2, cc) == (i1 * r2 + i2) * cc + (j1 * c2
                    + j2));
            }
        }
        res
    }
}

/// Products of entries within `[-1, 1]` fit in an `i32`.
pub proof fn lemma_unit_products_fit(a: Seq<i32>, b: Seq<i32>)
    requires
        unit_bounded(a),
        unit_bounded(b),
    ensures
        forall|i: int, j: int|
            0 <= i < a.len() && 0 <= j < b.len() ==> product_fits(#[trigger] a[i], #[trigger] b[j]),
{
    assert forall|i: int, j: int| 0 <= i < a.len() && 0 <= j < b.len() implies product_fits(
        #[trigger] a[i],
        #[trigger] b[j],
    ) by {
        let x = a[i];
        let y = b[j];
        assert(-1 <= x <= 1 && -1 <= y <= 1);
        assert(-1 <= x * y <= 1) by (nonlinear_arith)
            requires -1 <= x <= 1, -1 <= y <= 1;
    }
}

proof fn lemma_mul_le(x: int, y: int, z: int)
    requires
        x <= y,
        z >= 0,
    ensures
        x * z <= y * z,
{
    assert(x * z <= y * z) by (nonlinear_arith)
        requires x <= y, z >= 0;
}

/// The Kronecker product of matrices with entries within `[-1, 1]` has its entries there too.
pub proof fn lemma_kron_unit_bounded(a: Matrix, b: Matrix, res: Matrix)
    requires
        a.wf(),
        b.wf(),
        res.wf(),
        unit_bounded(a@),
        unit_bounded(b@),
        res.nrows() == a.nrows() * b.nrows(),
        res.ncols() == a.ncols() * b.ncols(),
        forall|i1: int, j1: int, i2: int, j2: int|
            0 <= i1 < a.nrows() && 0 <= j1 < a.ncols() && 0 <= i2 < b.nrows() && 0 <= j2
                < b.ncols() ==> #[trigger] res.entry(i1 * b.nrows() + i2, j1 * b.ncols() + j2)
                == a.entry(i1, j1) * b.entry(i2, j2),
    ensures
        unit_bounded(res@),
{
    assert forall|p: int| 0 <= p < res@.len() implies -1 <= #[trigger] res@[p] <= 1 by {
        let rr = b.nrows() as int;
        let cc = b.ncols() as int;
        let cols = res.ncols() as int;
        if cols == 0 {
            assert(res@.len() == 0) by (nonlinear_arith)
                requires res@.len() == res.nrows() * res.ncols(), res.ncols() == 0;
        }
        assert(cols > 0);
        if rr == 0 {
            assert(res.nrows() == 0) by (nonlinear_arith)
                requires res.nrows() == a.nrows() * rr, rr == 0;
            assert(res@.len() == 0) by (nonlinear_arith)
                requires res@.len() == res.nrows() * cols, res.nrows() == 0;
        }
        assert(cc > 0) by (nonlinear_arith)
            requires cols == a.ncols() * cc, cols > 0, cc >= 0;
        crate::math::index_arith::lemma_index_split(p, cols);
        let r = p / cols;
        let c = p % cols;
        crate::math::index_arith::lemma_index_split(r, rr);
        crate::math::index_arith::lemma_index_split(c, cc);
        let i1 = r / rr;
        let i2 = r % rr;
        let j1 = c / cc;
        let j2 = c % cc;
        if r >= res.nrows() {
            lemma_mul_le(res.nrows() as int, r, cols);
        }
        if i1 >= a.nrows() {
            lemma_mul_le(a.nrows() as int, i1, rr);
        }
        if j1 >= a.ncols() {
            lemma_mul_le(a.ncols() as int, j1, cc);
        }
        assert(res.entry(r, c) == res@[p]);
        lemma_index_in_grid(i1, j1, a.nrows() as int, a.ncols() as int);
        lemma_index_in_grid(i2, j2, rr, cc);
        let x = a.entry(i1, j1);
        let y = b.entry(i2, j2);
        assert(-1 <= x <= 1 && -1 <= y <= 1);
        assert(-1 <= x * y <= 1) by (nonlinear_arith)
            requires -1 <= x <= 1, -1 <= y <= 1;
    }
}

/// Entry `(r, c)` of the generation matrix of RM(1, m): the first row is all ones and
/// row `r > 0` holds bit `r - 1` of the column index.
pub open spec fn gen_entry(r: int, c: int) -> i32 {
    if r == 0 {
        1
    } else {
        ((c / pow2((r - 1) as nat) as int) % 2) as i32
    }
}

/// Generation matrix for RM(1, m)
#[derive(Debug, PartialEq, Eq)]
pub struct GenMatrix {
    matrix: Matrix,
    m: Muller,
}

impl Clone for GenMatrix {
    /// A copy of `self`: the same matrix for the same parameter.
    fn clone(&self) -> (res: Self)
        ensures
            res.spec_muller() == self.spec_muller(),
            res.spec_matrix().nrows() == self.spec_matrix().nrows(),
            res.spec_matrix().ncols() == self.spec_matrix().ncols(),
            res.spec_matrix()@ == self.spec_matrix()@,
    {
        proof {
            use_type_invariant(self);
        }
        let matrix = self.matrix.clone();
        proof {
            assert forall|r: int, c: int|
                0 <= r < matrix.nrows() && 0 <= c < matrix.ncols() implies #[trigger] matrix.entry(
                r,
                c,
            ) == gen_entry(r, c) by {
                assert(matrix.entry(r, c) == self.matrix.entry(r, c));
            }
        }
        GenMatrix { matrix, m: self.m }
    }
}

impl GenMatrix {
    /// The matrix representing `self`.
    pub closed spec fn spec_matrix(&self) -> Matrix {
        self.matrix
    }

    /// The muller parameter of `self`.
    pub closed spec fn spec_muller(&self) -> Muller {
        self.m
    }

    /// `self` is the generation matrix of RM(1, m) for its own `m`.
    pub open spec fn is_generator(&self) -> bool {
        let g = self.spec_matrix();
        &&& 1 <= self.spec_muller()@ <= 10
        &&& g.wf()
        &&& g.nrows() == self.spec_muller()@ + 1
        &&& g.ncols() == pow2(self.spec_muller()@)
        &&& forall|r: int, c: int|
            0 <= r < g.nrows() && 0 <= c < g.ncols() ==> #[trigger] g.entry(r, c) == gen_entry(
                r,
                c,
            )
    }

    #[verifier::type_invariant]
    closed spec fn generates(&self) -> bool {
        self.is_generator()
    }

    /// Creates a generation matrix for RM(1, m)
    pub fn new(m: Muller) -> (res: Self)
        ensures
            res.spec_muller() == m,
            res.is_generator(),
    {
        let rows = m.rows();
        let cols = m.cols();
        // reading the value brings its range, [1; 10], into the proof
        let _ = m.get();
        let ghost mm = m@;
        proof {
            assert(rows * cols <= 11 * 1024) by (nonlinear_arith)
                requires rows <= 11, cols <= 1024;
        }
        let len = (rows * cols) as usize;
        let mut data: Vec<i32> = vec![1; len];
        proof {
            assert forall|p: int| 0 <= p < len implies #[trigger] data@[p] == 1i32 by {
                assert(vstd::pervasive::cloned(1i32, data@[p]));
            }
        }
        let mut interval: u32 = 1;
        proof {
            vstd::arithmetic::power2::lemma2_to64();
            assert forall|r: int, c: int|
                0 <= r < rows && 0 <= c < cols implies #[trigger] data@[r * cols + c] == (if r
                < 1 {
                gen_entry(r, c)
            } else {
                1i32
            }) by {
                lemma_index_in_grid(r, c, rows as int, cols as int);
            }
        }
        // Skip the first row as it's already filled with ones
        for row in 1..rows
            invariant
                rows == mm + 1,
                1 <= mm <= 10,
                cols == pow2(mm),
                cols <= 1024,
                data@.len() == len,
                len == rows * cols,
                interval == pow2((row - 1) as nat),
                forall|r: int, c: int|
                    0 <= r < rows && 0 <= c < cols ==> #[trigger] data@[r * cols + c] == (if r
                        < row {
                        gen_entry(r, c)
                    } else {
                        1i32
                    }),
        {
            let ghost big_q = pow2((mm - row) as nat) as int;
            proof {
                lemma_pow2_split(row as nat, mm);
            }
            let mut col: u32 = 0;
            let ghost mut q: int = 0;
            while col < cols
                invariant
                    rows == mm + 1,
                    1 <= mm <= 10,
                    1 <= row <= mm,
                    cols == pow2(mm),
                    cols <= 1024,
                    interval >= 1,
                    data@.len() == len,
                    len == rows * cols,
                    interval == pow2((row - 1) as nat),
                    cols == 2 * interval * big_q,
                    big_q >= 1,
                    col == q * (2 * interval),
                    0 <= q <= big_q,
                    forall|r: int, c: int|
                        0 <= r < rows && 0 <= c < cols ==> #[trigger] data@[r * cols + c] == (if r
                            < row || (r == row && c < col) {
                            gen_entry(r, c)
                        } else {
                            1i32
                        }),
                decreases big_q - q,
            {
                let ghost col0 = col as int;
                proof {
                    if q >= big_q {
                        assert(q * (2 * interval) >= big_q * (2 * interval)) by (nonlinear_arith)
                            requires q >= big_q, interval >= 0;
                        assert(false) by (nonlinear_arith)
                            requires
                                col == q * (2 * interval),
                                cols == 2 * interval * big_q,
                                q * (2 * interval) >= big_q * (2 * interval),
                                col < cols,
                        ;
                    }
                    assert(col0 + 2 * interval <= cols) by (nonlinear_arith)
                        requires
                            col0 == q * (2 * interval),
                            q + 1 <= big_q,
                            cols == 2 * interval * big_q,
                            interval >= 0,
                    ;
                }
                for j in 0..interval
                    invariant
                        rows == mm + 1,
                        1 <= mm <= 10,
                        1 <= row <= mm,
                        cols == pow2(mm),
                        cols <= 1024,
                        data@.len() == len,
                        len == rows * cols,
                        interval == pow2((row - 1) as nat),
                        interval >= 1,
                        col0 == q * (2 * interval),
                        q >= 0,
                        col == col0 + j,
                        col0 + 2 * interval <= cols,
                        forall|r: int, c: int|
                            0 <= r < rows && 0 <= c < cols ==> #[trigger] data@[r * cols + c]
                                == (if r < row || (r == row && c < col) {
                                gen_entry(r, c)
                            } else {
                                1i32
                            }),
                {
                    proof {
                        lemma_index_in_grid(row as int, col as int, rows as int, cols as int);
                        lemma_block_parity(col as int, q, interval as int);
                        assert(gen_entry(row as int, col as int) == 0i32);
                        assert(row * cols + col <= 11 * 1024) by (nonlinear_arith)
                            requires row <= 10, cols <= 1024, col < cols;
                    }
                    let ghost old_data = data@;
                    data.set((row * cols + col) as usize, 0);
                    col += 1;
                    proof {
                        assert forall|r: int, c: int|
                            0 <= r < rows && 0 <= c < cols implies #[trigger] data@[r * cols + c]
                            == (if r < row || (r == row && c < col) {
                            gen_entry(r, c)
                        } else {
                            1i32
                        }) by {
                            lemma_index_in_grid(r, c, rows as int, cols as int);
                            if r != row || c != col - 1 {
                                if r * cols + c == row * cols + (col - 1) {
                                    lemma_index_unique(r, c, row as int, col - 1, cols as int);
                                }
                            }
                        }
                    }
                }
                // Skip the ones
                proof {
                    assert forall|c: int| col <= c < col + interval implies gen_entry(row as int, c)
                        == 1i32 by {
                        lemma_block_parity(c, q, interval as int);
                    }
                }
                col += interval;
                proof {
                    q = q + 1;
                    assert(col == q * (2 * interval)) by (nonlinear_arith)
                        requires col == col0 + 2 * interval, col0 == (q - 1) * (2 * interval);
                }
            }
            proof {
                assert(q == big_q) by (nonlinear_arith)
                    requires
                        col == q * (2 * interval),
                        cols == 2 * interval * big_q,
                        col >= cols,
                        q <= big_q,
                        interval >= 1,
                ;
                vstd::arithmetic::power2::lemma_pow2_adds((row - 1) as nat, 1);
                vstd::arithmetic::power2::lemma2_to64();
                vstd::arithmetic::power2::lemma_pow2_strictly_increases((row - 1) as nat, 10);
            }
            let ghost old_interval = interval;
            interval <<= 1;
            proof {
                vstd::bits::lemma_u32_shl_is_mul(old_interval, 1);
                assert(interval == pow2(row as nat));
            }
        }
        let matrix = Matrix { rows, cols, data };
        proof {
            assert forall|r: int, c: int|
                0 <= r < matrix.nrows() && 0 <= c < matrix.ncols() implies #[trigger] matrix.entry(
                r,
                c,
            ) == gen_entry(r, c) by {
                assert(matrix.entry(r, c) == data@[r * cols + c]);
            }
        }
        Self { matrix, m }
    }

    /// Returns the number of rows `self` has.
    pub fn rows(&self) -> (r: u32)
        ensures
            r == self.spec_matrix().nrows(),
            self.is_generator(),
    {
        proof {
            use_type_invariant(self);
        }
        self.matrix.rows()
    }

    /// Returns the number of columns `self` has.
    pub fn cols(&self) -> (c: u32)
        ensures
            c == self.spec_matrix().ncols(),
            self.is_generator(),
    {
        proof {
            use_type_invariant(self);
        }
        self.matrix.cols()
    }

    /// Returns a reference to inner data of `self`.
    pub fn inner(&self) -> (d: &[i32])
        ensures
            d@ == self.spec_matrix()@,
    {
        self.matrix.inner()
    }

    /// Returns the matrix representing `self`.
    pub fn matrix(&self) -> (g: &Matrix)
        ensures
            *g == self.spec_matrix(),
            self.is_generator(),
    {
        proof {
            use_type_invariant(self);
        }
        &self.matrix
    }

    /// Returns the muller parameter of `self`.
    pub fn muller(&self) -> (m: Muller)
        ensures
            m == self.spec_muller(),
            self.is_generator(),
    {
        proof {
            use_type_invariant(self);
        }
        self.m
    }
}

/// `2^m` splits into `2^row` blocks of `2^(m - row)` each.
proof fn lemma_pow2_split(row: nat, m: nat)
    requires
        1 <= row <= m,
    ensures
        pow2(m) == 2 * pow2((row - 1) as nat) * pow2((m - row) as nat),
        pow2((m - row) as nat) >= 1,
        pow2((row - 1) as nat) >= 1,
{
    vstd::arithmetic::power2::lemma_pow2_adds(row, (m - row) as nat);
    vstd::arithmetic::power2::lemma_pow2_adds((row - 1) as nat, 1);
    vstd::arithmetic::power2::lemma2_to64();
    vstd::arithmetic::power2::lemma_pow2_pos((m - row) as nat);
    vstd::arithmetic::power2::lemma_pow2_pos((row - 1) as nat);
    vstd::arithmetic::mul::lemma_mul_is_commutative(pow2((row - 1) as nat) as int, 2);
}

/// Inside the block `[q * 2I, (q + 1) * 2I)`, the first `I` positions have an even quotient
/// by `I` and the last `I` positions an odd one.
proof fn lemma_block_parity(c: int, q: int, interval: int)
    requires
        interval >= 1,
        q >= 0,
        q * (2 * interval) <= c < q * (2 * interval) + 2 * interval,
    ensures
        c < q * (2 * interval) + interval ==> (c / interval) % 2 == 0,
        c >= q * (2 * interval) + interval ==> (c / interval) % 2 == 1,
{
    if c < q * (2 * interval) + interval {
        assert(c == (2 * q) * interval + (c - q * (2 * interval))) by (nonlinear_arith);
        vstd::arithmetic::div_mod::lemma_fundamental_div_mod_converse(
            c,
            interval,
            2 * q,
            c - q * (2 * interval),
        );
    } else {
        assert(c == (2 * q + 1) * interval + (c - q * (2 * interval) - interval))
            by (nonlinear_arith);
        vstd::arithmetic::div_mod::lemma_fundamental_div_mod_converse(
            c,
            interval,
            2 * q + 1,
            c - q * (2 * interval) - interval,
        );
    }
}

/// Position in the row-major data of a Kronecker product of the product of
/// entry `(i1, j1)` of the left factor and entry `(i2, j2)` of the right factor,
/// where the right factor is `r2 x c2` and the product has `cols` columns.
pub open spec fn kron_pos(i1: int, j1: int, i2: int, j2: int, r2: int, c2: int, cols: int) -> int {
    (i1 * r2 + i2) * cols + (j1 * c2 + j2)
}

proof fn lemma_kron_pos_bounds(
    i1: int,
    j1: int,
    i2: int,
    j2: int,
    r1: int,
    c1: int,
    r2: int,
    c2: int,
)
    requires
        0 <= i1 < r1,
        0 <= j1 < c1,
        0 <= i2 < r2,
        0 <= j2 < c2,
    ensures
        0 <= kron_pos(i1, j1, i2, j2, r2, c2, c1 * c2) < (r1 * r2) * (c1 * c2),
{
    lemma_index_in_grid(i1, i2, r1, r2);
    lemma_index_in_grid(j1, j2, c1, c2);
    lemma_index_in_grid(i1 * r2 + i2, j1 * c2 + j2, r1 * r2, c1 * c2);
}

proof fn lemma_kron_pos_injective(
    i1: int,
    j1: int,
    i2: int,
    j2: int,
    k1: int,
    l1: int,
    k2: int,
    l2: int,
    r1: int,
    c1: int,
    r2: int,
    c2: int,
)
    requires
        0 <= i1 < r1,
        0 <= j1 < c1,
        0 <= i2 < r2,
        0 <= j2 < c2,
        0 <= k1 < r1,
        0 <= l1 < c1,
        0 <= k2 < r2,
        0 <= l2 < c2,
        !(i1 == k1 && j1 == l1 && i2 == k2 && j2 == l2),
    ensures
        kron_pos(i1, j1, i2, j2, r2, c2, c1 * c2) != kron_pos(k1, l1, k2, l2, r2, c2, c1 * c2),
{
    lemma_index_in_grid(j1, j2, c1, c2);
    lemma_index_in_grid(l1, l2, c1, c2);
    if kron_pos(i1, j1, i2, j2, r2, c2, c1 * c2) == kron_pos(k1, l1, k2, l2, r2, c2, c1 * c2) {
        lemma_index_unique(i1 * r2 + i2, j1 * c2 + j2, k1 * r2 + k2, l1 * c2 + l2, c1 * c2);
        lemma_index_unique(i1, i2, k1, k2, r2);
        lemma_index_unique(j1, j2, l1, l2, c2);
    }
}

/// In an `n x n` grid, the row-major positions divisible by `n + 1` are exactly the diagonal.
proof fn lemma_diagonal_positions(r: int, c: int, n: int)
    requires
        0 <= r < n,
        0 <= c < n,
    ensures
        ((r * n + c) % (n + 1) == 0) <==> (r == c),
{
    let p = r * n + c;
    if c >= r {
        assert(p == r * (n + 1) + (c - r)) by (nonlinear_arith)
            requires p == r * n + c;
        vstd::arithmetic::div_mod::lemma_fundamental_div_mod_converse(p, n + 1, r, c - r);
    } else {
        assert(p == (r - 1) * (n + 1) + (n + 1 - (r - c))) by (nonlinear_arith)
            requires p == r * n + c;
        vstd::arithmetic::div_mod::lemma_fundamental_div_mod_converse(
            p,
            n + 1,
            r - 1,
            n + 1 - (r - c),
        );
    }
}

/// `res` is the Kronecker product of `x` and `y`: it has `x.nrows() * y.nrows()` rows,
/// `x.ncols() * y.ncols()` columns, and the product of entries `(i1, j1)` of `x` and
/// `(i2, j2)` of `y` at row `i1 * y.nrows() + i2` and column `j1 * y.ncols() + j2`.
pub open spec fn is_kronecker_of(res: Matrix, x: Matrix, y: Matrix) -> bool {
    &&& res.wf()
    &&& res.nrows() == x.nrows() * y.nrows()
    &&& res.ncols() == x.ncols() * y.ncols()
    &&& forall|i1: int, j1: int, i2: int, j2: int|
        0 <= i1 < x.nrows() && 0 <= j1 < x.ncols() && 0 <= i2 < y.nrows() && 0 <= j2
            < y.ncols() ==> #[trigger] res.entry(i1 * y.nrows() + i2, j1 * y.ncols() + j2)
            == x.entry(i1, j1) * y.entry(i2, j2)
}

/// A position below `a * (b * c)` written with three digits of bases `a`, `b` and `c`, grouped
/// either way.
proof fn lemma_three_digits(x: int, a: int, b: int, c: int) -> (d: (int, int, int))
    requires
        0 <= x < a * (b * c),
        b >= 1,
        c >= 1,
    ensures
        0 <= d.0 < a,
        0 <= d.1 < b,
        0 <= d.2 < c,
        x == (d.0 * b + d.1) * c + d.2,
        x == d.0 * (b * c) + (d.1 * c + d.2),
        0 <= d.0 * b + d.1 < a * b,
        0 <= d.1 * c + d.2 < b * c,
{
    assert(b * c >= 1) by (nonlinear_arith)
        requires b >= 1, c >= 1;
    lemma_index_split(x, b * c);
    let x1 = x / (b * c);
    let s = x % (b * c);
    lemma_index_split(s, c);
    let x2 = s / c;
    let x3 = s % c;
    if x1 >= a {
        assert(x1 * (b * c) >= a * (b * c)) by (nonlinear_arith)
            requires x1 >= a, b * c >= 1;
    }
    if x2 >= b {
        assert(x2 * c >= b * c) by (nonlinear_arith)
            requires x2 >= b, c >= 1;
    }
    assert(x1 * (b * c) == (x1 * b) * c) by (nonlinear_arith);
    assert((x1 * b + x2) * c == (x1 * b) * c + x2 * c) by (nonlinear_arith);
    lemma_index_in_grid(x1, x2, a, b);
    lemma_index_in_grid(x2, x3, b, c);
    (x1, x2, x3)
}

/// The Kronecker product is associative: `(a ⊗ b) ⊗ c` and `a ⊗ (b ⊗ c)` have the same
/// shape and the same entries.
pub proof fn lemma_kronecker_associative(
    a: Matrix,
    b: Matrix,
    c: Matrix,
    ab: Matrix,
    bc: Matrix,
    ab_c: Matrix,
    a_bc: Matrix,
)
    requires
        a.wf(),
        b.wf(),
        c.wf(),
        is_kronecker_of(ab, a, b),
        is_kronecker_of(ab_c, ab, c),
        is_kronecker_of(bc, b, c),
        is_kronecker_of(a_bc, a, bc),
    ensures
        ab_c.nrows() == a_bc.nrows(),
        ab_c.ncols() == a_bc.ncols(),
        ab_c@ == a_bc@,
{
    let (ra, rb, rc) = (a.nrows() as int, b.nrows() as int, c.nrows() as int);
    let (ca, cb, cc) = (a.ncols() as int, b.ncols() as int, c.ncols() as int);
    assert((ra * rb) * rc == ra * (rb * rc)) by (nonlinear_arith);
    assert((ca * cb) * cc == ca * (cb * cc)) by (nonlinear_arith);
    let rows = ab_c.nrows() as int;
    let cols = ab_c.ncols() as int;
    ab_c.lemma_len();
    a_bc.lemma_len();
    if rows == 0 || cols == 0 {
        assert(rows * cols == 0) by (nonlinear_arith)
            requires rows == 0 || cols == 0;
        assert(ab_c@ =~= a_bc@);
    } else {
        assert(rb >= 1 && rc >= 1 && cb >= 1 && cc >= 1) by (nonlinear_arith)
            requires
                rows == ra * (rb * rc),
                cols == ca * (cb * cc),
                rows != 0,
                cols != 0,
                ra >= 0,
                rb >= 0,
                rc >= 0,
                ca >= 0,
                cb >= 0,
                cc >= 0,
        ;
        assert forall|p: int| 0 <= p < ab_c@.len() implies #[trigger] ab_c@[p] == a_bc@[p] by {
            lemma_index_split(p, cols);
            let r = p / cols;
            let q = p % cols;
            if r >= rows {
                assert(r * cols >= rows * cols) by (nonlinear_arith)
                    requires r >= rows, cols >= 1;
            }
            let (i1, i2, i3) = lemma_three_digits(r, ra, rb, rc);
            let (j1, j2, j3) = lemma_three_digits(q, ca, cb, cc);
            let x = a.entry(i1, j1) as int;
            let y = b.entry(i2, j2) as int;
            let z = c.entry(i3, j3) as int;
            assert(ab.entry(i1 * rb + i2, j1 * cb + j2) == x * y);
            assert(ab_c.entry((i1 * rb + i2) * rc + i3, (j1 * cb + j2) * cc + j3) == (x * y) * z);
            assert(bc.entry(i2 * rc + i3, j2 * cc + j3) == y * z);
            assert(a_bc.entry(i1 * (rb * rc) + (i2 * rc + i3), j1 * (cb * cc) + (j2 * cc + j3))
                == x * (y * z));
            assert((x * y) * z == x * (y * z)) by (nonlinear_arith);
            assert(ab_c.entry(r, q) == ab_c@[p]);
            assert(a_bc.entry(r, q) == a_bc@[p]);
        }
        assert(ab_c@ =~= a_bc@);
    }
}

} // verus!
