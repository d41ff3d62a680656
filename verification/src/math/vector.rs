use vstd::prelude::*;

use crate::math::index_arith::lemma_index_in_grid;
use crate::math::matrix::{product_fits, Matrix};
use crate::text::push_char;
use vstd::string::StringSliceAdditionalSpecFns;

verus! {

/// The sum of the first `k` terms of column `col` of the product of the row `v` and the
/// row-major matrix `m` with `width` columns: `v[0] * m[0][col] + ... + v[k-1] * m[k-1][col]`.
pub open spec fn dot_col(v: Seq<i32>, m: Seq<i32>, width: nat, col: int, k: nat) -> int
    decreases k,
{
    if k == 0 {
        0
    } else {
        dot_col(v, m, width, col, (k - 1) as nat) + v[k - 1] * m[(k - 1) * width + col]
    }
}

/// Every product and every partial sum of the row-by-matrix product of `v` and `m` fits
/// in an `i32`, so that computing it term by term never overflows.
pub open spec fn dot_fits(v: Seq<i32>, m: Seq<i32>, width: nat) -> bool {
    forall|col: int, t: int|
        0 <= col < width && 0 <= t < v.len() ==> {
            &&& product_fits(v[t], m[t * width + col])
            &&& i32::MIN <= #[trigger] dot_col(v, m, width, col, (t + 1) as nat) <= i32::MAX
        }
}

/// Remainder of the division of `x` by 2, taken in \{0, 1} also for negative `x`.
pub open spec fn rem2(x: int) -> int {
    x % 2
}

/// Computes the row-by-matrix product of `v` and the `v.len() x width` matrix `m`.
fn row_times_matrix(v: &[i32], m: &[i32], width: usize) -> (res: Vec<i32>)
    requires
        m@.len() == v@.len() * width,
        dot_fits(v@, m@, width as nat),
    ensures
        res@.len() == width,
        forall|col: int|
            0 <= col < width ==> #[trigger] res@[col] == dot_col(v@, m@, width as nat, col, v@.len()),
{
    let n = v.len();
    let mlen = m.len();
    let mut data: Vec<i32> = Vec::new();
    for col in 0..width
        invariant
            n == v@.len(),
            m@.len() == n * width,
            mlen == m@.len(),
            dot_fits(v@, m@, width as nat),
            data@.len() == col,
            forall|c: int|
                0 <= c < col ==> #[trigger] data@[c] == dot_col(v@, m@, width as nat, c, n as nat),
    {
        let mut value: i32 = 0;
        for k in 0..n
            invariant
                n == v@.len(),
                m@.len() == n * width,
                mlen == m@.len(),
                0 <= col < width,
                dot_fits(v@, m@, width as nat),
                value == dot_col(v@, m@, width as nat, col as int, k as nat),
        {
            proof {
                lemma_index_in_grid(k as int, col as int, n as int, width as int);
                assert(i32::MIN <= dot_col(v@, m@, width as nat, col as int, (k + 1) as nat)
                    <= i32::MAX);
            }
            value = value + v[k] * m[k * width + col];
        }
        data.push(value);
    }
    data
}

/// A one-dimensional matrix.
#[derive(Debug, Clone, PartialEq, Eq)]
pub struct Vector(Matrix);

impl View for Vector {
    type V = Seq<i32>;

    closed spec fn view(&self) -> Seq<i32> {
        self.0@
    }
}

impl Vector {
    /// The matrix representing `self`.
    pub closed spec fn spec_matrix(&self) -> Matrix {
        self.0
    }

    /// `self` is a well-formed matrix with a single row.
    pub closed spec fn wf(&self) -> bool {
        &&& self.0.wf()
        &&& self.0.nrows() == 1
    }

    /// The matrix of a well-formed vector has one row and as many columns as entries.
    pub proof fn lemma_shape(&self)
        requires
            self.wf(),
        ensures
            self.spec_matrix().wf(),
            self.spec_matrix().nrows() == 1,
            self.spec_matrix().ncols() == self@.len(),
            self.spec_matrix()@ == self@,
            self@.len() <= u32::MAX,
    {
        self.0.lemma_len();
    }

    /// A vector with the shape and entry count of a well-formed one is well formed.
    pub proof fn lemma_wf_same_shape(a: Vector, b: Vector)
        requires
            a.wf(),
            b.spec_matrix().nrows() == a.spec_matrix().nrows(),
            b.spec_matrix().ncols() == a.spec_matrix().ncols(),
            b@.len() == a@.len(),
        ensures
            b.wf(),
    {
        Matrix::lemma_wf_same_shape(a.0, b.0);
    }

    /// Creates a vector holding `data`.
    pub fn from_vec(data: Vec<i32>) -> (res: Self)
        requires
            data@.len() <= u32::MAX,
        ensures
            res.wf(),
            res@ == data@,
    {
        Self(Matrix::from_vec(data))
    }

    /// Calculates the dot product between `self` and `Matrix`.
    fn dot_product_inner(&self, other: &Matrix) -> (res: Self)
        requires
            self.wf(),
            other.wf(),
            other.nrows() == self@.len(),
            dot_fits(self@, other@, other.ncols()),
        ensures
            res.wf(),
            res@.len() == other.ncols(),
            forall|col: int|
                0 <= col < other.ncols() ==> #[trigger] res@[col] == dot_col(
                    self@,
                    other@,
                    other.ncols(),
                    col,
                    self@.len(),
                ),
    {
        proof {
            self.lemma_shape();
            other.lemma_len();
        }
        let other_cols = other.cols() as usize;
        let data = row_times_matrix(self.0.inner(), other.inner(), other_cols);
        Self(Matrix::from_vec(data))
    }

    /// Multiplies a vector and a matrix.
    ///
    /// Returns `None` if the column count of `self` doesn't match the row count of `other`.
    pub fn dot_product(&self, other: &Matrix) -> (res: Option<Self>)
        requires
            self.wf(),
            other.wf(),
            other.nrows() == self@.len() ==> dot_fits(self@, other@, other.ncols()),
        ensures
            res is Some <==> other.nrows() == self@.len(),
            res matches Some(r) ==> {
                &&& r.wf()
                &&& r@.len() == other.ncols()
                &&& forall|col: int|
                    0 <= col < other.ncols() ==> #[trigger] r@[col] == dot_col(
                        self@,
                        other@,
                        other.ncols(),
                        col,
                        self@.len(),
                    )
            },
    {
        proof {
            self.lemma_shape();
        }
        if self.cols() != other.rows() {
            return None;
        }
        Some(self.dot_product_inner(other))
    }

    /// Multiplies a vector and a matrix whose row count the caller knows to match the
    /// column count of `self`.
    pub fn dot_product_unchecked(&self, other: &Matrix) -> (res: Self)
        requires
            self.wf(),
            other.wf(),
            other.nrows() == self@.len(),
            dot_fits(self@, other@, other.ncols()),
        ensures
            res.wf(),
            res@.len() == other.ncols(),
            forall|col: int|
                0 <= col < other.ncols() ==> #[trigger] res@[col] == dot_col(
                    self@,
                    other@,
                    other.ncols(),
                    col,
                    self@.len(),
                ),
    {
        self.dot_product_inner(other)
    }

    /// Returns the number of rows `self` has.
    ///
    /// Always returns 1.
    pub fn rows(&self) -> (r: u32)
        ensures
            r == 1,
    {
        1
    }

    /// Returns the number of columns `self` has.
    pub fn cols(&self) -> (c: u32)
        requires
            self.wf(),
        ensures
            c == self@.len(),
    {
        proof {
            self.lemma_shape();
        }
        self.0.cols()
    }

    /// Returns a reference to inner data of `self`.
    pub fn inner(&self) -> (d: &[i32])
        ensures
            d@ == self@,
    {
        self.0.inner()
    }

    /// Returns a mutable reference to inner data of `self`.
    pub fn inner_mut(&mut self) -> (d: &mut [i32])
        ensures
            d@ == old(self)@,
            final(self)@ == final(d)@,
            final(self).spec_matrix().nrows() == old(self).spec_matrix().nrows(),
            final(self).spec_matrix().ncols() == old(self).spec_matrix().ncols(),
    {
        self.0.inner_mut()
    }

    /// Returns the matrix representing `self`.
    pub fn matrix(&self) -> (m: &Matrix)
        ensures
            *m == self.spec_matrix(),
    {
        &self.0
    }
}

/// A one-dimensional matrix meant to hold only 0s and 1s.
#[derive(Debug, Clone, PartialEq, Eq)]
pub struct BinaryVector(Vector);

impl View for BinaryVector {
    type V = Seq<i32>;

    closed spec fn view(&self) -> Seq<i32> {
        self.0@
    }
}

/// Every entry of `s` is 0 or 1.
pub open spec fn is_binary_seq(s: Seq<i32>) -> bool {
    forall|i: int| 0 <= i < s.len() ==> #[trigger] s[i] == 0 || s[i] == 1
}

/// `b` is an ASCII whitespace byte: space, tab, line feed, form feed or carriage return.
pub open spec fn is_ascii_ws(b: u8) -> bool {
    b == 32 || b == 9 || b == 10 || b == 12 || b == 13
}

/// Every byte of `src` is `'0'`, `'1'` or ASCII whitespace.
pub open spec fn all_binary_chars(src: Seq<u8>) -> bool {
    forall|i: int| 0 <= i < src.len() ==> #[trigger] src[i] == 48 || src[i] == 49 || is_ascii_ws(src[i])
}

/// The digits of `src` with whitespace skipped: `'1'` gives 1, any other byte 0.
pub open spec fn binary_digits(src: Seq<u8>) -> Seq<i32>
    decreases src.len(),
{
    if src.len() == 0 {
        Seq::empty()
    } else {
        let rest = binary_digits(src.drop_last());
        let last = src.last();
        if is_ascii_ws(last) {
            rest
        } else {
            rest.push(if last == 49 { 1i32 } else { 0i32 })
        }
    }
}

/// The bits of `bytes`, most significant bit of each byte first.
pub open spec fn bits_of(bytes: Seq<u8>) -> Seq<i32> {
    Seq::new(
        bytes.len() * 8,
        |i: int| ((bytes[i / 8] >> ((7 - i % 8) as u8)) & 1u8) as i32,
    )
}

/// The characters `'0'` and `'1'` spelling the binary sequence `v`.
pub open spec fn binary_string(v: Seq<i32>) -> Seq<char> {
    Seq::new(
        v.len(),
        |i: int|
            if v[i] == 0 {
                '0'
            } else {
                '1'
            },
    )
}

/// `b` is an ASCII whitespace byte.
fn is_whitespace_byte(b: u8) -> (r: bool)
    ensures
        r == is_ascii_ws(b),
{
    b == 32u8 || b == 9u8 || b == 10u8 || b == 12u8 || b == 13u8
}

proof fn lemma_binary_digits_step(src: Seq<u8>, i: int)
    requires
        0 <= i < src.len(),
    ensures
        binary_digits(src.subrange(0, i + 1)) == (if is_ascii_ws(src[i]) {
            binary_digits(src.subrange(0, i))
        } else {
            binary_digits(src.subrange(0, i)).push(if src[i] == 49 { 1i32 } else { 0i32 })
        }),
{
    assert(src.subrange(0, i + 1).drop_last() =~= src.subrange(0, i));
}

impl BinaryVector {
    /// The vector representing `self`.
    pub closed spec fn spec_vector(&self) -> Vector {
        self.0
    }

    /// `self` is a well-formed vector.
    pub closed spec fn wf(&self) -> bool {
        self.0.wf()
    }

    /// Every entry of `self` is 0 or 1.
    pub open spec fn is_binary(&self) -> bool {
        is_binary_seq(self@)
    }

    /// The vector of a binary vector has the same entries.
    pub proof fn lemma_shape(&self)
        requires
            self.wf(),
        ensures
            self.spec_vector().wf(),
            self.spec_vector()@ == self@,
            self.spec_vector().spec_matrix().wf(),
            self.spec_vector().spec_matrix().nrows() == 1,
            self.spec_vector().spec_matrix().ncols() == self@.len(),
            self.spec_vector().spec_matrix()@ == self@,
            self@.len() <= u32::MAX,
    {
        self.0.lemma_shape();
    }

    /// A binary vector with the shape and entry count of a well-formed one is well formed.
    pub proof fn lemma_wf_same_shape(a: BinaryVector, b: BinaryVector)
        requires
            a.wf(),
            b.spec_vector().spec_matrix().nrows() == a.spec_vector().spec_matrix().nrows(),
            b.spec_vector().spec_matrix().ncols() == a.spec_vector().spec_matrix().ncols(),
            b@.len() == a@.len(),
        ensures
            b.wf(),
    {
        Vector::lemma_wf_same_shape(a.0, b.0);
    }

    /// Creates a new binary vector from `vec` without checking that it holds only 0s and 1s.
    pub fn from_vec_unchecked(vec: Vec<i32>) -> (res: Self)
        requires
            vec@.len() <= u32::MAX,
        ensures
            res.wf(),
            res@ == vec@,
    {
        Self(Vector::from_vec(vec))
    }

    /// Creates a new binary vector from a `src` that contains only 0s and 1s. Whitespaces are skipped.
    ///
    /// Returns `None` if a non-binary character was detected or the string is empty.
    pub fn from_binary_bytes(src: &[u8]) -> (res: Option<Self>)
        requires
            src@.len() <= u32::MAX,
        ensures
            res is Some <==> (all_binary_chars(src@) && binary_digits(src@).len() > 0),
            res matches Some(v) ==> v.wf() && v@ == binary_digits(src@) && v.is_binary(),
    {
        let len = src.len();
        let mut data: Vec<i32> = Vec::new();
        for k in 0..len
            invariant
                data@.len() == k,
                forall|j: int| 0 <= j < k ==> #[trigger] data@[j] == 0i32,
        {
            data.push(0);
        }
        let mut whtspc_offset: usize = 0;
        for idx in 0..len
            invariant
                len == src@.len(),
                whtspc_offset <= idx,
                data@.len() == len - whtspc_offset,
                data@.subrange(0, idx - whtspc_offset) == binary_digits(src@.subrange(0, idx as int)),
                forall|j: int| idx - whtspc_offset <= j < data@.len() ==> #[trigger] data@[j] == 0i32,
                all_binary_chars(src@.subrange(0, idx as int)),
        {
            let ch = src[idx];
            proof {
                lemma_binary_digits_step(src@, idx as int);
                assert(src@.subrange(0, idx + 1).drop_last() =~= src@.subrange(0, idx as int));
            }
            if ch == 48u8 {
                proof {
                    assert(data@.subrange(0, idx + 1 - whtspc_offset) =~= data@.subrange(0, idx - whtspc_offset).push(0i32));
                }
            } else if ch == 49u8 {
                data.set(idx - whtspc_offset, 1);
                proof {
                    assert(data@.subrange(0, idx + 1 - whtspc_offset) =~= binary_digits(src@.subrange(0, idx as int)).push(1i32));
                }
            } else if is_whitespace_byte(ch) {
                data.pop();
                whtspc_offset += 1;
                proof {
                    assert(data@.subrange(0, idx + 1 - whtspc_offset) =~= binary_digits(src@.subrange(0, idx as int)));
                }
            } else {
                proof {
                    assert(!all_binary_chars(src@)) by {
                        assert(!(src@[idx as int] == 48 || src@[idx as int] == 49 || is_ascii_ws(src@[idx as int])));
                    }
                }
                return None;
            }
            proof {
                assert forall|i: int| 0 <= i < idx + 1 implies #[trigger] src@.subrange(0, idx + 1)[i] == 48
                    || src@.subrange(0, idx + 1)[i] == 49 || is_ascii_ws(src@.subrange(0, idx + 1)[i]) by {
                    if i < idx {
                        assert(src@.subrange(0, idx + 1)[i] == src@.subrange(0, idx as int)[i]);
                    }
                }
            }
        }
        proof {
            assert(src@.subrange(0, len as int) =~= src@);
            assert(data@.subrange(0, len - whtspc_offset) =~= data@);
            assert forall|i: int| 0 <= i < data@.len() implies #[trigger] data@[i] == 0 || data@[i] == 1 by {
                lemma_binary_digits_binary(src@);
            }
        }
        if data.len() == 0 {
            None
        } else {
            Some(Self(Vector::from_vec(data)))
        }
    }

    /// Creates a new binary vector by extracting each bit of `src`.
    pub fn from_bits(src: &[u8]) -> (res: Option<Self>)
        requires
            src@.len() * 8 <= u32::MAX,
        ensures
            res is Some <==> src@.len() > 0,
            res matches Some(v) ==> v.wf() && v@ == bits_of(src@) && v.is_binary(),
    {
        let msg_bytes = src;
        if msg_bytes.len() == 0 {
            return None;
        }
        let len_bits = msg_bytes.len() * 8;
        let mut bits: Vec<i32> = Vec::new();
        for i in 0..len_bits
            invariant
                len_bits == msg_bytes@.len() * 8,
                bits@.len() == i,
                forall|j: int| 0 <= j < i ==> #[trigger] bits@[j] == bits_of(msg_bytes@)[j],
        {
            let idx = i >> 3;
            let pos = i & 7;
            proof {
                assert(idx == i / 8 && pos == i % 8) by (bit_vector)
                    requires idx == i >> 3, pos == i & 7;
            }
            let byte = msg_bytes[idx];
            let bit = ((byte >> ((7 - pos) as u8)) & 1u8) as i32;
            bits.push(bit);
        }
        proof {
            assert(bits@ =~= bits_of(msg_bytes@));
            assert forall|j: int| 0 <= j < bits@.len() implies #[trigger] bits@[j] == 0 || bits@[j] == 1 by {
                let b = msg_bytes@[j / 8];
                let sh = (7 - j % 8) as u8;
                assert(((b >> sh) & 1u8) == 0u8 || ((b >> sh) & 1u8) == 1u8) by (bit_vector);
            }
        }
        Some(Self(Vector::from_vec(bits)))
    }

    /// The characters of `self`: `'0'` for each 0 and `'1'` for each 1.
    pub fn to_string(&self) -> (s: String)
        requires
            self.is_binary(),
        ensures
            s@ == binary_string(self@),
    {
        let bits = self.inner();
        let mut res = String::new();
        for i in 0..bits.len()
            invariant
                bits@ == self@,
                is_binary_seq(bits@),
                res@ == binary_string(bits@.subrange(0, i as int)),
        {
            let c = if bits[i] == 0 { '0' } else { '1' };
            push_char(&mut res, c);
            proof {
                assert(res@ =~= binary_string(bits@.subrange(0, i + 1)));
            }
        }
        proof {
            assert(bits@.subrange(0, bits@.len() as int) =~= bits@);
        }
        res
    }

    /// Calculates the dot product between `self` and `Matrix` with modulo of 2.
    fn dot_product_inner(&self, other: &Matrix) -> (res: Self)
        requires
            self.wf(),
            other.wf(),
            other.nrows() == self@.len(),
            dot_fits(self@, other@, other.ncols()),
        ensures
            res.wf(),
            res.is_binary(),
            res@.len() == other.ncols(),
            forall|col: int|
                0 <= col < other.ncols() ==> #[trigger] res@[col] == rem2(
                    dot_col(self@, other@, other.ncols(), col, self@.len()),
                ),
    {
        proof {
            self.lemma_shape();
            other.lemma_len();
        }
        let other_cols = other.cols() as usize;
        let sums = row_times_matrix(self.inner(), other.inner(), other_cols);
        let mut data: Vec<i32> = Vec::new();
        for col in 0..other_cols
            invariant
                sums@.len() == other_cols,
                data@.len() == col,
                forall|c: int| 0 <= c < col ==> #[trigger] data@[c] == rem2(sums@[c] as int),
        {
            let sum = sums[col];
            let bit: i32 = if sum % 2 == 0 {
                0
            } else {
                1
            };
            data.push(bit);
        }
        Self(Vector::from_vec(data))
    }

    /// Multiplies a binary vector and a matrix with modulo of 2.
    ///
    /// Returns `None` if the column count of `self` doesn't match the row count of `other`.
    pub fn dot_product(&self, other: &Matrix) -> (res: Option<Self>)
        requires
            self.wf(),
            other.wf(),
            other.nrows() == self@.len() ==> dot_fits(self@, other@, other.ncols()),
        ensures
            res is Some <==> other.nrows() == self@.len(),
            res matches Some(r) ==> {
                &&& r.wf()
                &&& r.is_binary()
                &&& r@.len() == other.ncols()
                &&& forall|col: int|
                    0 <= col < other.ncols() ==> #[trigger] r@[col] == rem2(
                        dot_col(self@, other@, other.ncols(), col, self@.len()),
                    )
            },
    {
        proof {
            self.lemma_shape();
        }
        if self.cols() != other.rows() {
            return None;
        }
        Some(self.dot_product_inner(other))
    }

    /// Multiplies a binary vector and a matrix with modulo of 2, where the caller knows that
    /// the row count of `other` matches the column count of `self`.
    pub fn dot_product_unchecked(&self, other: &Matrix) -> (res: Self)
        requires
            self.wf(),
            other.wf(),
            other.nrows() == self@.len(),
            dot_fits(self@, other@, other.ncols()),
        ensures
            res.wf(),
            res.is_binary(),
            res@.len() == other.ncols(),
            forall|col: int|
                0 <= col < other.ncols() ==> #[trigger] res@[col] == rem2(
                    dot_col(self@, other@, other.ncols(), col, self@.len()),
                ),
    {
        self.dot_product_inner(other)
    }

    /// Substitutes all zeroes in a binary vector with -1s.
    ///
    /// Returns a new vector.
    pub fn substitute_zeroes(&self) -> (res: Vector)
        requires
            self.wf(),
        ensures
            res.wf(),
            res@.len() == self@.len(),
            forall|i: int|
                0 <= i < self@.len() ==> #[trigger] res@[i] == (if self@[i] == 0 {
                    -1i32
                } else {
                    self@[i]
                }),
    {
        proof {
            self.lemma_shape();
        }
        let bits = self.inner();
        let mut data: Vec<i32> = Vec::new();
        for i in 0..bits.len()
            invariant
                bits@ == self@,
                data@.len() == i,
                forall|j: int|
                    0 <= j < i ==> #[trigger] data@[j] == (if bits@[j] == 0 {
                        -1i32
                    } else {
                        bits@[j]
                    }),
        {
            let num = bits[i];
            if num == 0 {
                data.push(-1);
            } else {
                data.push(num);
            }
        }
        Vector::from_vec(data)
    }

    /// Returns the number of rows `self` has.
    ///
    /// Always returns 1.
    pub fn rows(&self) -> (r: u32)
        ensures
            r == 1,
    {
        1
    }

    /// Returns the number of columns `self` has.
    pub fn cols(&self) -> (c: u32)
        requires
            self.wf(),
        ensures
            c == self@.len(),
    {
        self.0.cols()
    }

    /// Returns a reference to inner data of `self`.
    pub fn inner(&self) -> (d: &[i32])
        ensures
            d@ == self@,
    {
        self.0.inner()
    }

    /// Returns a mutable reference to inner data of `self`.
    pub fn inner_mut(&mut self) -> (d: &mut [i32])
        ensures
            d@ == old(self)@,
            final(self)@ == final(d)@,
            final(self).spec_vector().spec_matrix().nrows() == old(
                self,
            ).spec_vector().spec_matrix().nrows(),
            final(self).spec_vector().spec_matrix().ncols() == old(
                self,
            ).spec_vector().spec_matrix().ncols(),
    {
        self.0.inner_mut()
    }

    /// Returns the matrix representing `self`.
    pub fn matrix(&self) -> (m: &Matrix)
        ensures
            *m == self.spec_vector().spec_matrix(),
    {
        self.0.matrix()
    }
}


/// Digits read from a source are binary.
proof fn lemma_binary_digits_binary(src: Seq<u8>)
    ensures
        is_binary_seq(binary_digits(src)),
    decreases src.len(),
{
    if src.len() > 0 {
        lemma_binary_digits_binary(src.drop_last());
    }
}

/// Reading the digits of a text made of `'0'`s and `'1'`s and spelling them out again gives
/// the text back, character for byte.
pub proof fn lemma_binary_text_round_trip(src: Seq<u8>)
    requires
        forall|i: int| 0 <= i < src.len() ==> #[trigger] src[i] == 48 || src[i] == 49,
    ensures
        binary_digits(src).len() == src.len(),
        binary_string(binary_digits(src)) == Seq::new(src.len(), |i: int| src[i] as char),
    decreases src.len(),
{
    if src.len() > 0 {
        let init = src.drop_last();
        assert forall|i: int| 0 <= i < init.len() implies #[trigger] init[i] == 48 || init[i]
            == 49 by {
            assert(init[i] == src[i]);
        }
        lemma_binary_text_round_trip(init);
        let n = src.len() - 1;
        assert(src[n] == 48 || src[n] == 49);
        assert(!is_ascii_ws(src.last()));
        let bit: i32 = if src.last() == 49 { 1 } else { 0 };
        assert(binary_digits(src) == binary_digits(init).push(bit));
        assert(48u8 as char == '0');
        assert(49u8 as char == '1');
        let want = Seq::new(src.len(), |i: int| src[i] as char);
        let prev = Seq::new(init.len(), |i: int| init[i] as char);
        assert forall|i: int| 0 <= i < src.len() implies #[trigger] binary_string(
            binary_digits(src),
        )[i] == want[i] by {
            if i < n {
                assert(binary_digits(src)[i] == binary_digits(init)[i]);
                assert(binary_string(binary_digits(init))[i] == prev[i]);
            }
        }
        assert(binary_string(binary_digits(src)) =~= want);
    }
}

/// A text of `'0'`s and `'1'`s read as a binary vector (through its bytes) and spelled out
/// again gives the text back.
pub proof fn lemma_binary_str_round_trip(s: &str)
    requires
        forall|i: int| 0 <= i < s@.len() ==> #[trigger] s@[i] == '0' || s@[i] == '1',
    ensures
        binary_string(binary_digits(s.spec_bytes())) == s@,
{
    assert(vstd::string::is_ascii(s));
    vstd::string::is_ascii_spec_bytes(s);
    let bytes = s.spec_bytes();
    assert forall|i: int| 0 <= i < bytes.len() implies #[trigger] bytes[i] == 48 || bytes[i]
        == 49 by {
        assert(bytes[i] == s@[i] as u8);
    }
    lemma_binary_text_round_trip(bytes);
    assert forall|i: int| 0 <= i < s@.len() implies #[trigger] (bytes[i] as char) == s@[i] by {
        assert(bytes[i] == s@[i] as u8);
    }
    assert(Seq::new(bytes.len(), |i: int| bytes[i] as char) =~= s@);
}

} // verus!
