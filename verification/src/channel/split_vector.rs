use vstd::prelude::*;

use crate::channel::reed_muller::{lemma_binary_encodable, rm_decode, rm_encode, Hadamards};
use crate::channel::walsh::{lemma_codeword_binary, rm_decode_spec, rm_encode_spec};
use crate::math::matrix::GenMatrix;
use crate::math::vector::{bits_of, is_binary_seq, BinaryVector};
use crate::parameters::Muller;
use vstd::arithmetic::power2::pow2;

verus! {

/// Length of the leftover bits kept in [`SplitVector::rem_vector`].
pub type DecodedLen = u8;

/// Stores split binary vectors according to the [`Muller`] parameter.
///
/// - `full_vectors` contains bits that were able to fit into a vector of size `m + 1`.
/// - `rem_vector` contains leftover bits with trailing zeroes and the length of the leftover bits.
/// - `encoded` shows whether the [`SplitVector`] is encoded or not.
#[derive(Debug, Clone, PartialEq, Eq)]
pub struct SplitVector {
    pub full_vectors: Vec<BinaryVector>,
    pub rem_vector: Option<(BinaryVector, DecodedLen)>,
    pub encoded: bool,
}

/// The concatenation of the parts.
pub open spec fn flatten(parts: Seq<BinaryVector>) -> Seq<i32>
    decreases parts.len(),
{
    if parts.len() == 0 {
        Seq::empty()
    } else {
        flatten(parts.drop_last()) + parts.last()@
    }
}

/// Bit `pos` (counted from the most significant one) set from the lowest bit of `bit`.
pub open spec fn with_bit(byte: u8, bit: i32, pos: nat) -> u8 {
    byte | ((bit as u8) << ((7 - pos) as u8))
}

/// The byte made of the first `j` entries of `bits`, most significant bit first.
pub open spec fn byte_from(bits: Seq<i32>, j: nat) -> u8
    decreases j,
{
    if j == 0 {
        0u8
    } else {
        with_bit(byte_from(bits, (j - 1) as nat), bits[j - 1], (j - 1) as nat)
    }
}

/// `bits` packed eight at a time into bytes, most significant bit first; a last group of
/// fewer than eight bits is dropped.
pub open spec fn pack_bits(bits: Seq<i32>) -> Seq<u8> {
    Seq::new(bits.len() / 8, |k: int| byte_from(bits.subrange(8 * k, 8 * k + 8), 8))
}

proof fn lemma_byte_from_prefix(x: Seq<i32>, y: Seq<i32>, j: nat)
    requires
        j <= x.len(),
        j <= y.len(),
        forall|i: int| 0 <= i < j ==> x[i] == y[i],
    ensures
        byte_from(x, j) == byte_from(y, j),
    decreases j,
{
    if j > 0 {
        lemma_byte_from_prefix(x, y, (j - 1) as nat);
    }
}

/// The first `j + 1` parts concatenate to the first `j` parts followed by part `j`.
pub proof fn lemma_flatten_step(parts: Seq<BinaryVector>, j: int)
    requires
        0 <= j < parts.len(),
    ensures
        flatten(parts.subrange(0, j + 1)) == flatten(parts.subrange(0, j)) + parts[j]@,
{
    assert(parts.subrange(0, j + 1).drop_last() =~= parts.subrange(0, j));
}

/// The parts before `j` hold at most as many bits as all parts.
pub proof fn lemma_flatten_prefix_len(parts: Seq<BinaryVector>, j: int)
    requires
        0 <= j <= parts.len(),
    ensures
        flatten(parts.subrange(0, j)).len() <= flatten(parts).len(),
    decreases parts.len(),
{
    if j == parts.len() {
        assert(parts.subrange(0, j) =~= parts);
    } else {
        lemma_flatten_prefix_len(parts.drop_last(), j);
        assert(parts.drop_last().subrange(0, j) =~= parts.subrange(0, j));
    }
}

/// Where part `j` of `parts` starts in their concatenation.
pub open spec fn part_offset(parts: Seq<BinaryVector>, j: int) -> int {
    flatten(parts.subrange(0, j)).len() as int
}

/// `n` zeroes.
pub open spec fn zeroes(n: nat) -> Seq<i32> {
    Seq::new(n, |i: int| 0i32)
}

impl Default for SplitVector {
    /// No parts, not encoded.
    fn default() -> (res: Self)
        ensures
            res.full_vectors@ == Seq::<BinaryVector>::empty(),
            res.rem_vector is None,
            !res.encoded,
    {
        Self { full_vectors: Vec::new(), rem_vector: None, encoded: false }
    }
}

impl SplitVector {
    /// `self` holds `v` cut into parts of `m + 1` bits, the leftover bits padded with zeroes.
    pub open spec fn is_split_of(&self, v: Seq<i32>, m: nat) -> bool {
        let c = m + 1;
        &&& !self.encoded
        &&& self.full_vectors@.len() == v.len() / c
        &&& forall|j: int|
            0 <= j < self.full_vectors@.len() ==> {
                &&& (#[trigger] self.full_vectors@[j]).wf()
                &&& self.full_vectors@[j]@ == v.subrange(j * c, j * c + c)
            }
        &&& (v.len() % c == 0 <==> self.rem_vector is None)
        &&& self.rem_vector matches Some((r, n)) ==> {
            &&& r.wf()
            &&& n == v.len() % c
            &&& r@ == v.subrange(v.len() - n, v.len() as int) + zeroes((c - n) as nat)
        }
    }

    /// The bits `self` stands for, part after part; the leftover part is cut to its length
    /// unless `self` is encoded.
    pub open spec fn restore_spec(&self) -> Seq<i32> {
        flatten(self.full_vectors@) + match self.rem_vector {
            None => Seq::empty(),
            Some((r, n)) => if self.encoded {
                r@
            } else {
                r@.subrange(0, n as int)
            },
        }
    }

    /// Splits a `vec` into vectors of lengths `m + 1`.
    ///
    /// Returns a split vector.
    pub fn new(vec: &BinaryVector, m: Muller) -> (res: Self)
        requires
            vec.wf(),
        ensures
            res.is_split_of(vec@, m@),
    {
        proof {
            vec.lemma_shape();
        }
        let bits = vec.inner();
        let cols = m.rows() as usize;
        let blen = bits.len();
        let rem_bits = blen % cols;
        let ghost c = cols as int;
        let ghost full = (bits@.len() as int) / c;
        proof {
            crate::math::index_arith::lemma_index_split(bits@.len() as int, c);
            assert(full * c >= 0) by (nonlinear_arith)
                requires full >= 0, c >= 0;
        }
        let len_full_bits = blen - rem_bits;
        let mut full_vectors: Vec<BinaryVector> = Vec::new();
        let mut current_vec: Vec<i32> = Vec::new();
        for i in 0..len_full_bits
            invariant
                bits@ == vec@,
                bits@.len() <= u32::MAX,
                cols == c,
                2 <= c <= 11,
                len_full_bits == full * c,
                len_full_bits <= bits@.len(),
                full_vectors@.len() * c + current_vec@.len() == i,
                current_vec@.len() < c,
                current_vec@ == bits@.subrange(full_vectors@.len() * c, i as int),
                forall|j: int|
                    0 <= j < full_vectors@.len() ==> {
                        &&& (#[trigger] full_vectors@[j]).wf()
                        &&& full_vectors@[j]@ == bits@.subrange(j * c, j * c + c)
                    },
        {
            current_vec.push(bits[i]);
            proof {
                assert(current_vec@ =~= bits@.subrange(full_vectors@.len() * c, i + 1));
            }
            if current_vec.len() == cols {
                let ghost k = full_vectors@.len() as int;
                full_vectors.push(BinaryVector::from_vec_unchecked(current_vec));
                current_vec = Vec::new();
                proof {
                    assert(k * c + c == (k + 1) * c) by (nonlinear_arith);
                    assert(current_vec@ =~= bits@.subrange(full_vectors@.len() * c, i + 1));
                }
            }
        }
        proof {
            // all full parts are done
            crate::math::index_arith::lemma_index_unique(
                full_vectors@.len() as int,
                current_vec@.len() as int,
                full,
                0,
                c,
            );
            assert(full_vectors@.len() == full);
        }
        if 0 != rem_bits {
            // The remaining bits will be in a different matrix
            let mut rem_bit_vec: Vec<i32> = Vec::new();
            for k in 0..cols
                invariant
                    rem_bit_vec@.len() == k,
                    forall|j: int| 0 <= j < k ==> #[trigger] rem_bit_vec@[j] == 0i32,
            {
                rem_bit_vec.push(0);
            }
            for i in 0..rem_bits
                invariant
                    bits@ == vec@,
                    blen == bits@.len(),
                    cols == c,
                    rem_bits < c,
                    len_full_bits + rem_bits == bits@.len(),
                    rem_bit_vec@.len() == c,
                    forall|j: int|
                        0 <= j < c ==> #[trigger] rem_bit_vec@[j] == (if j < i {
                            bits@[len_full_bits + j]
                        } else {
                            0i32
                        }),
            {
                rem_bit_vec.set(i, bits[len_full_bits + i]);
            }
            proof {
                assert(rem_bit_vec@ =~= bits@.subrange(
                    bits@.len() - rem_bits,
                    bits@.len() as int,
                ) + zeroes((c - rem_bits) as nat));
            }
            Self {
                full_vectors,
                rem_vector: Some((BinaryVector::from_vec_unchecked(rem_bit_vec), rem_bits as u8)),
                encoded: false,
            }
        } else {
            Self { full_vectors, rem_vector: None, encoded: false }
        }
    }

    /// Every part of `self` is a well-formed binary vector of `len` bits.
    pub open spec fn parts_fit(&self, len: nat) -> bool {
        &&& forall|j: int|
            0 <= j < self.full_vectors@.len() ==> {
                &&& (#[trigger] self.full_vectors@[j]).wf()
                &&& self.full_vectors@[j].is_binary()
                &&& self.full_vectors@[j]@.len() == len
            }
        &&& self.rem_vector matches Some((r, n)) ==> {
            &&& r.wf()
            &&& r.is_binary()
            &&& r@.len() == len
        }
    }

    /// The bits of all parts of `self`, the full parts first and then the whole leftover part.
    pub open spec fn all_bits(&self) -> Seq<i32> {
        flatten(self.full_vectors@) + match self.rem_vector {
            None => Seq::empty(),
            Some((r, _)) => r@,
        }
    }

    /// Every part of `self` can be read back: the parts are well formed and, unless `self` is
    /// encoded, the leftover length does not exceed the leftover part.
    pub open spec fn restorable(&self) -> bool {
        &&& forall|j: int|
            0 <= j < self.full_vectors@.len() ==> (#[trigger] self.full_vectors@[j]).wf()
        &&& self.rem_vector matches Some((r, n)) ==> {
            &&& r.wf()
            &&& !self.encoded ==> n <= r@.len()
        }
    }

    /// `self` is `orig` with every part encoded with RM(1, m).
    pub open spec fn is_encoding_of(&self, orig: SplitVector, m: nat) -> bool {
        &&& self.encoded
        &&& self.full_vectors@.len() == orig.full_vectors@.len()
        &&& forall|j: int|
            0 <= j < self.full_vectors@.len() ==> {
                &&& (#[trigger] self.full_vectors@[j]).wf()
                &&& self.full_vectors@[j]@ == rm_encode_spec(orig.full_vectors@[j]@, m)
            }
        &&& (self.rem_vector is None <==> orig.rem_vector is None)
        &&& self.rem_vector matches Some((r, n)) ==> orig.rem_vector matches Some((o, k)) && {
            &&& r.wf()
            &&& n == k
            &&& r@ == rm_encode_spec(o@, m)
        }
    }

    /// `self` is `orig` with every part decoded with RM(1, m).
    pub open spec fn is_decoding_of(&self, orig: SplitVector, m: nat) -> bool {
        &&& !self.encoded
        &&& self.full_vectors@.len() == orig.full_vectors@.len()
        &&& forall|j: int|
            0 <= j < self.full_vectors@.len() ==> {
                &&& (#[trigger] self.full_vectors@[j]).wf()
                &&& self.full_vectors@[j]@ == rm_decode_spec(orig.full_vectors@[j]@, m)
            }
        &&& (self.rem_vector is None <==> orig.rem_vector is None)
        &&& self.rem_vector matches Some((r, n)) ==> orig.rem_vector matches Some((o, k)) && {
            &&& r.wf()
            &&& n == k
            &&& r@ == rm_decode_spec(o@, m)
        }
    }

    /// The number of bits in all parts of `self`, the leftover part counted whole, or `None`
    /// if that number does not fit a `usize`.
    pub fn bit_count(&self) -> (n: Option<usize>)
        ensures
            n matches Some(k) ==> k == self.all_bits().len(),
            n is None ==> self.all_bits().len() > usize::MAX,
    {
        let count = self.full_vectors.len();
        let mut total: usize = 0;
        for j in 0..count
            invariant
                count == self.full_vectors@.len(),
                total == flatten(self.full_vectors@.subrange(0, j as int)).len(),
        {
            proof {
                lemma_flatten_step(self.full_vectors@, j as int);
                lemma_flatten_prefix_len(self.full_vectors@, j + 1);
            }
            match total.checked_add(self.full_vectors[j].inner().len()) {
                Some(t) => {
                    total = t;
                },
                None => {
                    return None;
                },
            }
        }
        proof {
            assert(self.full_vectors@.subrange(0, count as int) =~= self.full_vectors@);
        }
        match &self.rem_vector {
            Some((rem, _)) => total.checked_add(rem.inner().len()),
            None => {
                proof {
                    assert(self.all_bits() =~= flatten(self.full_vectors@));
                }
                Some(total)
            },
        }
    }

    /// Encodes `self` by multiplying each vector by `gen_matrix`.
    pub fn encode(&mut self, gen_matrix: &GenMatrix)
        requires
            !old(self).encoded ==> old(self).parts_fit(gen_matrix.spec_matrix().nrows()),
        ensures
            old(self).encoded ==> *final(self) == *old(self),
            !old(self).encoded ==> final(self).is_encoding_of(
                *old(self),
                gen_matrix.spec_muller()@,
            ),
            !old(self).encoded ==> final(self).parts_fit(pow2(gen_matrix.spec_muller()@)),
    {
        if self.encoded {
            return;
        }
        let gm = gen_matrix.matrix();
        let ghost m = gen_matrix.spec_muller()@;
        let ghost orig = *self;
        let count = self.full_vectors.len();
        for j in 0..count
            invariant
                gen_matrix.is_generator(),
                m == gen_matrix.spec_muller()@,
                count == self.full_vectors@.len(),
                count == orig.full_vectors@.len(),
                self.rem_vector == orig.rem_vector,
                !self.encoded,
                orig.parts_fit(gen_matrix.spec_matrix().nrows()),
                forall|i: int|
                    0 <= i < count ==> {
                        &&& (#[trigger] self.full_vectors@[i]).wf()
                        &&& self.full_vectors@[i].is_binary()
                        &&& i < j ==> self.full_vectors@[i]@ == rm_encode_spec(
                            orig.full_vectors@[i]@,
                            m,
                        ) && self.full_vectors@[i]@.len() == pow2(m)
                        &&& i >= j ==> self.full_vectors@[i] == orig.full_vectors@[i]
                    },
        {
            proof {
                lemma_binary_encodable(self.full_vectors@[j as int]@, *gen_matrix);
            }
            let encoded = rm_encode(&self.full_vectors[j], gen_matrix);
            proof {
                lemma_codeword_binary(self.full_vectors@[j as int]@, m);
            }
            self.full_vectors.set(j, encoded);
        }
        let new_rem = match &self.rem_vector {
            Some((m_vec, len)) => {
                proof {
                    lemma_binary_encodable(m_vec@, *gen_matrix);
                    lemma_codeword_binary(m_vec@, m);
                }
                Some((rm_encode(m_vec, gen_matrix), *len))
            },
            None => None,
        };
        self.rem_vector = new_rem;
        self.encoded = true;
    }

    /// Decodes `self` using fast Hadamard transform.
    pub fn decode(&mut self, hadamards: &Hadamards)
        requires
            old(self).encoded ==> old(self).parts_fit(pow2(hadamards.spec_muller()@)),
        ensures
            !old(self).encoded ==> *final(self) == *old(self),
            old(self).encoded ==> final(self).is_decoding_of(*old(self), hadamards.spec_muller()@),
            old(self).encoded ==> final(self).parts_fit(hadamards.spec_muller()@ + 1),
    {
        if !self.encoded {
            return;
        }
        let ghost m = hadamards.spec_muller()@;
        let ghost orig = *self;
        let count = self.full_vectors.len();
        for j in 0..count
            invariant
                m == hadamards.spec_muller()@,
                count == self.full_vectors@.len(),
                count == orig.full_vectors@.len(),
                self.rem_vector == orig.rem_vector,
                self.encoded,
                orig.parts_fit(pow2(m)),
                forall|i: int|
                    0 <= i < count ==> {
                        &&& (#[trigger] self.full_vectors@[i]).wf()
                        &&& self.full_vectors@[i].is_binary()
                        &&& i < j ==> self.full_vectors@[i]@ == rm_decode_spec(
                            orig.full_vectors@[i]@,
                            m,
                        ) && self.full_vectors@[i]@.len() == m + 1
                        &&& i >= j ==> self.full_vectors@[i] == orig.full_vectors@[i]
                    },
        {
            let (decoded_vec, _) = rm_decode(&self.full_vectors[j], hadamards);
            proof {
                lemma_decoded_binary(self.full_vectors@[j as int]@, m);
            }
            self.full_vectors.set(j, decoded_vec);
        }
        let new_rem = match &self.rem_vector {
            Some((m_vec, len)) => {
                let (decoded_vec, _) = rm_decode(m_vec, hadamards);
                proof {
                    lemma_decoded_binary(m_vec@, m);
                }
                Some((decoded_vec, *len))
            },
            None => None,
        };
        self.rem_vector = new_rem;
        self.encoded = false;
    }

    /// All bits of `self` as one sequence, as `restore` gives them.
    fn stream(&self) -> (res: Vec<i32>)
        requires
            self.restorable(),
        ensures
            res@ == self.restore_spec(),
    {
        let mut restored: Vec<i32> = Vec::new();
        let count = self.full_vectors.len();
        for j in 0..count
            invariant
                count == self.full_vectors@.len(),
                restored@ == flatten(self.full_vectors@.subrange(0, j as int)),
        {
            let part = self.full_vectors[j].inner();
            let ghost before = restored@;
            for k in 0..part.len()
                invariant
                    restored@ == before + part@.subrange(0, k as int),
            {
                restored.push(part[k]);
                proof {
                    assert(restored@ =~= before + part@.subrange(0, k + 1));
                }
            }
            proof {
                lemma_flatten_step(self.full_vectors@, j as int);
                assert(part@.subrange(0, part@.len() as int) =~= part@);
            }
        }
        proof {
            assert(self.full_vectors@.subrange(0, count as int) =~= self.full_vectors@);
        }
        if let Some((rem, len)) = &self.rem_vector {
            let bits = rem.inner();
            let size = if self.encoded { bits.len() } else { *len as usize };
            let ghost before = restored@;
            for i in 0..size
                invariant
                    size <= bits@.len(),
                    restored@ == before + bits@.subrange(0, i as int),
            {
                restored.push(bits[i]);
                proof {
                    assert(restored@ =~= before + bits@.subrange(0, i + 1));
                }
            }
            proof {
                assert(bits@.subrange(0, bits@.len() as int) =~= bits@);
            }
        } else {
            proof {
                assert(restored@ =~= restored@ + Seq::<i32>::empty());
            }
        }
        restored
    }

    /// Restores all split parts into one single `BinaryVector`.
    pub fn restore(&self) -> (res: BinaryVector)
        requires
            self.restorable(),
            self.restore_spec().len() <= u32::MAX,
        ensures
            res.wf(),
            res@ == self.restore_spec(),
    {
        BinaryVector::from_vec_unchecked(self.stream())
    }

    /// Restores a message from split parts.
    ///
    /// Returns an array of restored bytes.
    pub fn to_bytes(&self) -> (res: Vec<u8>)
        requires
            self.restorable(),
        ensures
            res@ == pack_bits(self.restore_spec()),
    {
        let bits = self.stream();
        let mut byte = 0u8;
        let mut cur_pow = 0usize;
        let mut restored_bytes: Vec<u8> = Vec::new();
        let len = bits.len();
        for i in 0..len
            invariant
                len == bits@.len(),
                bits@ == self.restore_spec(),
                cur_pow < 8,
                restored_bytes@.len() * 8 + cur_pow == i,
                byte == byte_from(bits@.subrange(i - cur_pow, i as int), cur_pow as nat),
                forall|k: int|
                    0 <= k < restored_bytes@.len() ==> #[trigger] restored_bytes@[k] == byte_from(
                        bits@.subrange(8 * k, 8 * k + 8),
                        8,
                    ),
        {
            proof {
                let prev = bits@.subrange(i - cur_pow, i as int);
                let next = bits@.subrange(i - cur_pow, i + 1);
                lemma_byte_from_prefix(prev, next, cur_pow as nat);
                assert(next[cur_pow as int] == bits@[i as int]);
            }
            byte |= (bits[i] as u8) << (7 - cur_pow);
            cur_pow += 1;
            if cur_pow == 8 {
                restored_bytes.push(byte);
                byte = 0;
                cur_pow = 0;
                proof {
                    assert(restored_bytes@.len() * 8 == i + 1);
                }
            }
        }
        proof {
            let out = pack_bits(bits@);
            assert(restored_bytes@.len() == bits@.len() / 8) by {
                vstd::arithmetic::div_mod::lemma_fundamental_div_mod_converse(
                    bits@.len() as int,
                    8,
                    restored_bytes@.len() as int,
                    cur_pow as int,
                );
            }
            assert(restored_bytes@ =~= out);
        }
        restored_bytes
    }
}

/// A decoded message is binary and has `m + 1` bits.
proof fn lemma_decoded_binary(v: Seq<i32>, m: nat)
    ensures
        is_binary_seq(rm_decode_spec(v, m)),
        rm_decode_spec(v, m).len() == m + 1,
{
    let w = crate::channel::walsh::rm_weights_spec(v, m);
    let j = crate::channel::walsh::last_max_index(w, w.len());
    crate::channel::walsh::lemma_last_max_index_nonneg(w, w.len());
    assert forall|i: int| 0 <= i < m + 1 implies #[trigger] rm_decode_spec(v, m)[i] == 0
        || rm_decode_spec(v, m)[i] == 1 by {
        if i > 0 {
            vstd::arithmetic::power2::lemma_pow2_pos((i - 1) as nat);
            vstd::arithmetic::div_mod::lemma_div_pos_is_pos(j, pow2((i - 1) as nat) as int);
            vstd::arithmetic::div_mod::lemma_mod_bound(j / pow2((i - 1) as nat) as int, 2);
        }
    }
}


proof fn lemma_flatten_chunks(parts: Seq<BinaryVector>, v: Seq<i32>, c: int, j: int)
    requires
        c >= 1,
        0 <= j <= parts.len(),
        j * c <= v.len(),
        forall|i: int| 0 <= i < j ==> (#[trigger] parts[i])@ == v.subrange(i * c, i * c + c),
    ensures
        flatten(parts.subrange(0, j)) == v.subrange(0, j * c),
    decreases j,
{
    if j == 0 {
        assert(j * c == 0) by (nonlinear_arith)
            requires j == 0;
        assert(flatten(parts.subrange(0, 0)) =~= v.subrange(0, 0));
    } else {
        assert((j - 1) * c + c == j * c) by (nonlinear_arith);
        assert((j - 1) * c <= j * c) by (nonlinear_arith)
            requires c >= 1;
        lemma_flatten_chunks(parts, v, c, j - 1);
        lemma_flatten_step(parts, j - 1);
        assert(parts[j - 1]@ == v.subrange((j - 1) * c, j * c));
        assert(v.subrange(0, (j - 1) * c) + v.subrange((j - 1) * c, j * c) =~= v.subrange(0, j * c));
    }
}

proof fn lemma_flatten_views(p1: Seq<BinaryVector>, p2: Seq<BinaryVector>)
    requires
        p1.len() == p2.len(),
        forall|i: int| 0 <= i < p1.len() ==> (#[trigger] p1[i])@ == p2[i]@,
    ensures
        flatten(p1) == flatten(p2),
    decreases p1.len(),
{
    if p1.len() > 0 {
        lemma_flatten_views(p1.drop_last(), p2.drop_last());
    }
}

/// Restoring a split vector gives back the vector that was split.
pub proof fn lemma_restore_inverts_split(sv: SplitVector, v: Seq<i32>, m: nat)
    requires
        sv.is_split_of(v, m),
    ensures
        sv.restorable(),
        sv.restore_spec() == v,
{
    let c = (m + 1) as int;
    let full = sv.full_vectors@.len() as int;
    crate::math::index_arith::lemma_index_split(v.len() as int, c);
    assert(full * c <= v.len());
    lemma_flatten_chunks(sv.full_vectors@, v, c, full);
    assert(sv.full_vectors@.subrange(0, full) =~= sv.full_vectors@);
    match sv.rem_vector {
        None => {
            assert(v.subrange(0, full * c) + Seq::<i32>::empty() =~= v);
        },
        Some((r, n)) => {
            assert(r@.subrange(0, n as int) =~= v.subrange(v.len() - n, v.len() as int));
            assert(v.subrange(0, full * c) + v.subrange(full * c, v.len() as int) =~= v);
        },
    }
}

/// Splitting a binary vector, encoding every part and decoding every part again restores the
/// vector.
pub proof fn lemma_split_encode_decode_restores(
    split: SplitVector,
    encoded: SplitVector,
    decoded: SplitVector,
    v: Seq<i32>,
    m: nat,
)
    requires
        1 <= m <= 10,
        is_binary_seq(v),
        split.is_split_of(v, m),
        encoded.is_encoding_of(split, m),
        decoded.is_decoding_of(encoded, m),
    ensures
        decoded.restorable(),
        decoded.restore_spec() == v,
{
    let c = (m + 1) as int;
    lemma_restore_inverts_split(split, v, m);
    crate::math::index_arith::lemma_index_split(v.len() as int, c);
    assert forall|i: int| 0 <= i < decoded.full_vectors@.len() implies (
    #[trigger] decoded.full_vectors@[i])@ == split.full_vectors@[i]@ by {
        let x = split.full_vectors@[i]@;
        let q = v.len() as int / c;
        assert(i * c + c <= v.len()) by (nonlinear_arith)
            requires i + 1 <= q, v.len() == q * c + v.len() as int % c, v.len() as int % c >= 0, c >= 0;
        assert(0 <= i * c) by (nonlinear_arith)
            requires i >= 0, c >= 0;
        assert forall|k: int| 0 <= k < x.len() implies #[trigger] x[k] == 0 || x[k] == 1 by {
            assert(x[k] == v[i * c + k]);
        }
        crate::channel::walsh::lemma_rm_decode_inverts_encode(x, m);
    }
    lemma_flatten_views(decoded.full_vectors@, split.full_vectors@);
    match split.rem_vector {
        None => {},
        Some((r, n)) => {
            let x = r@;
            assert forall|k: int| 0 <= k < x.len() implies #[trigger] x[k] == 0 || x[k] == 1 by {
                if k < n {
                    assert(x[k] == v[v.len() - n + k]);
                }
            }
            crate::channel::walsh::lemma_rm_decode_inverts_encode(x, m);
        },
    }
}

/// Packing the bits of some bytes gives the bytes back.
pub proof fn lemma_pack_bits_of(bytes: Seq<u8>)
    ensures
        pack_bits(bits_of(bytes)) == bytes,
{
    let bits = bits_of(bytes);
    assert forall|k: int| 0 <= k < bytes.len() implies #[trigger] pack_bits(bits)[k] == bytes[k] by {
        let s = bits.subrange(8 * k, 8 * k + 8);
        let x = bytes[k];
        assert forall|j: int| 0 <= j < 8 implies #[trigger] s[j] == ((x >> ((7 - j) as u8)) & 1u8) as i32 by {
            assert((8 * k + j) / 8 == k);
            assert((8 * k + j) % 8 == j);
        }
        let b0 = (x >> 7u8) & 1u8;
        let b1 = (x >> 6u8) & 1u8;
        let b2 = (x >> 5u8) & 1u8;
        let b3 = (x >> 4u8) & 1u8;
        let b4 = (x >> 3u8) & 1u8;
        let b5 = (x >> 2u8) & 1u8;
        let b6 = (x >> 1u8) & 1u8;
        let b7 = (x >> 0u8) & 1u8;
        assert(b0 <= 1 && b1 <= 1 && b2 <= 1 && b3 <= 1 && b4 <= 1 && b5 <= 1 && b6 <= 1 && b7 <= 1) by (bit_vector)
            requires
                b0 == (x >> 7u8) & 1u8,
                b1 == (x >> 6u8) & 1u8,
                b2 == (x >> 5u8) & 1u8,
                b3 == (x >> 4u8) & 1u8,
                b4 == (x >> 3u8) & 1u8,
                b5 == (x >> 2u8) & 1u8,
                b6 == (x >> 1u8) & 1u8,
                b7 == (x >> 0u8) & 1u8,
        ;
        assert(s[0] as u8 == b0);
        assert(s[1] as u8 == b1);
        assert(s[2] as u8 == b2);
        assert(s[3] as u8 == b3);
        assert(s[4] as u8 == b4);
        assert(s[5] as u8 == b5);
        assert(s[6] as u8 == b6);
        assert(s[7] as u8 == b7);
        reveal_with_fuel(byte_from, 9);
        assert(byte_from(s, 8) == (((((((((0u8 | (b0 << 7u8)) | (b1 << 6u8)) | (b2 << 5u8)) | (b3
            << 4u8)) | (b4 << 3u8)) | (b5 << 2u8)) | (b6 << 1u8)) | (b7 << 0u8))));
        assert(x == (((((((((0u8 | (b0 << 7u8)) | (b1 << 6u8)) | (b2 << 5u8)) | (b3 << 4u8)) | (b4
            << 3u8)) | (b5 << 2u8)) | (b6 << 1u8)) | (b7 << 0u8)))) by (bit_vector)
            requires
                b0 == (x >> 7u8) & 1u8,
                b1 == (x >> 6u8) & 1u8,
                b2 == (x >> 5u8) & 1u8,
                b3 == (x >> 4u8) & 1u8,
                b4 == (x >> 3u8) & 1u8,
                b5 == (x >> 2u8) & 1u8,
                b6 == (x >> 1u8) & 1u8,
                b7 == (x >> 0u8) & 1u8,
        ;
    }
    assert(bits.len() / 8 == bytes.len());
    assert(pack_bits(bits) =~= bytes);
}

/// The bits of bytes are binary.
proof fn lemma_bits_of_binary(bytes: Seq<u8>)
    ensures
        is_binary_seq(bits_of(bytes)),
{
    assert forall|i: int| 0 <= i < bits_of(bytes).len() implies #[trigger] bits_of(bytes)[i] == 0
        || bits_of(bytes)[i] == 1 by {
        let x = bytes[i / 8];
        let k = (7 - i % 8) as u8;
        assert((x >> k) & 1u8 == 0 || (x >> k) & 1u8 == 1) by (bit_vector);
    }
}

/// The bytes of a message split for RM(1, m) come back when the parts are put together and
/// packed into bytes.
pub proof fn lemma_bytes_survive_split(bytes: Seq<u8>, split: SplitVector, m: nat)
    requires
        split.is_split_of(bits_of(bytes), m),
    ensures
        split.restorable(),
        pack_bits(split.restore_spec()) == bytes,
{
    lemma_restore_inverts_split(split, bits_of(bytes), m);
    lemma_pack_bits_of(bytes);
}

/// The bytes of a message split for RM(1, m) come back also after every part has been encoded
/// and decoded again.
pub proof fn lemma_bytes_survive_encoding(
    bytes: Seq<u8>,
    split: SplitVector,
    encoded: SplitVector,
    decoded: SplitVector,
    m: nat,
)
    requires
        1 <= m <= 10,
        split.is_split_of(bits_of(bytes), m),
        encoded.is_encoding_of(split, m),
        decoded.is_decoding_of(encoded, m),
    ensures
        decoded.restorable(),
        pack_bits(decoded.restore_spec()) == bytes,
{
    lemma_bits_of_binary(bytes);
    lemma_split_encode_decode_restores(split, encoded, decoded, bits_of(bytes), m);
    lemma_pack_bits_of(bytes);
}

} // verus!
