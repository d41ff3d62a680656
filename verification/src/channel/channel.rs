use vstd::prelude::*;

use crate::channel::channel_errors::{differences, error_indexes, ChannelErrors};
use crate::channel::split_vector::{
    flatten, lemma_flatten_prefix_len, lemma_flatten_step, part_offset, SplitVector,
};
use crate::math::vector::{is_binary_seq, BinaryVector};

verus! {

/// A channel that carries binary vectors and may corrupt their bits on the way.
pub trait Send {
    /// Sends multiple `vectors` through the channel.
    fn send_multiple(&mut self, vectors: &mut SplitVector);

    /// Sends a single `vector` through the channel.
    ///
    /// Returns an array of error indexes.
    fn send_single(&mut self, vector: &mut BinaryVector) -> ChannelErrors;
}

/// The positions below `n` where `flips` is `true`, in increasing order.
pub open spec fn flip_positions(flips: Seq<bool>, n: nat) -> Seq<usize>
    decreases n,
{
    if n == 0 {
        Seq::empty()
    } else if flips[n - 1] {
        flip_positions(flips, (n - 1) as nat).push((n - 1) as usize)
    } else {
        flip_positions(flips, (n - 1) as nat)
    }
}

/// `v` with the lowest bit of every entry toggled where `flips` is `true`.
pub open spec fn flipped(v: Seq<i32>, flips: Seq<bool>) -> Seq<i32> {
    Seq::new(
        v.len(),
        |i: int|
            if flips[i] {
                v[i] ^ 1
            } else {
                v[i]
            },
    )
}

/// Corrupts a binary vector by turning each 0 to 1 and vice versa where `flips` is `true`;
/// `flips` holds one decision per bit, drawn by whoever models the channel.
///
/// Returns an array of error indexes.
pub fn corrupt_with_errors(vec: &mut BinaryVector, flips: &[bool]) -> (errors: ChannelErrors)
    requires
        old(vec).wf(),
        flips@.len() == old(vec)@.len(),
    ensures
        final(vec).wf(),
        final(vec)@ == flipped(old(vec)@, flips@),
        errors@ == flip_positions(flips@, flips@.len()),
{
    let ghost before = *vec;
    let mut errors: Vec<usize> = Vec::new();
    let bits = vec.inner_mut();
    let n = bits.len();
    for idx in 0..n
        invariant
            n == bits@.len(),
            n == flips@.len(),
            bits@.len() == before@.len(),
            forall|i: int|
                0 <= i < n ==> #[trigger] bits@[i] == (if i < idx && flips@[i] {
                    before@[i] ^ 1
                } else {
                    before@[i]
                }),
            errors@ == flip_positions(flips@, idx as nat),
    {
        if flips[idx] {
            errors.push(idx);
            bits[idx] ^= 1;
        }
    }
    proof {
        assert(bits@ =~= flipped(before@, flips@));
        BinaryVector::lemma_wf_same_shape(before, *vec);
    }
    ChannelErrors::from_vec(errors)
}

/// Corrupts a binary vector by turning each 0 to 1 and vice versa where `flips` is `true`.
pub fn corrupt(vec: &mut BinaryVector, flips: &[bool])
    requires
        old(vec).wf(),
        flips@.len() == old(vec)@.len(),
    ensures
        final(vec).wf(),
        final(vec)@ == flipped(old(vec)@, flips@),
{
    let _ = corrupt_with_errors(vec, flips);
}

/// A copy of `part` with the lowest bit of entry `i` toggled where `flips[start + i]` is `true`.
fn flipped_copy(part: &BinaryVector, flips: &[bool], start: usize) -> (res: BinaryVector)
    requires
        part.wf(),
        start + part@.len() <= flips@.len(),
    ensures
        res.wf(),
        res@ == flipped(part@, flips@.subrange(start as int, start + part@.len())),
{
    proof {
        part.lemma_shape();
    }
    let bits = part.inner();
    let n = bits.len();
    let total = flips.len();
    let mut out: Vec<i32> = Vec::new();
    for i in 0..n
        invariant
            n == bits@.len(),
            total == flips@.len(),
            bits@ == part@,
            start + n <= flips@.len(),
            out@ == flipped(bits@.subrange(0, i as int), flips@.subrange(start as int, start + i)),
    {
        let b = if flips[start + i] {
            bits[i] ^ 1
        } else {
            bits[i]
        };
        out.push(b);
        proof {
            assert(out@ =~= flipped(
                bits@.subrange(0, i + 1),
                flips@.subrange(start as int, start + i + 1),
            ));
        }
    }
    proof {
        assert(bits@.subrange(0, n as int) =~= bits@);
    }
    BinaryVector::from_vec_unchecked(out)
}

/// Flipping a concatenation flips each piece with its own share of the decisions.
proof fn lemma_flipped_concat(a: Seq<i32>, b: Seq<i32>, fa: Seq<bool>, fb: Seq<bool>)
    requires
        fa.len() == a.len(),
        fb.len() == b.len(),
    ensures
        flipped(a + b, fa + fb) == flipped(a, fa) + flipped(b, fb),
{
    assert(flipped(a + b, fa + fb) =~= flipped(a, fa) + flipped(b, fb));
}

/// Flipping keeps a binary sequence binary.
pub proof fn lemma_flipped_binary(v: Seq<i32>, flips: Seq<bool>)
    requires
        is_binary_seq(v),
        flips.len() >= v.len(),
    ensures
        is_binary_seq(flipped(v, flips)),
{
    assert forall|i: int| 0 <= i < v.len() implies #[trigger] flipped(v, flips)[i] == 0
        || flipped(v, flips)[i] == 1 by {
        let x = v[i];
        assert(x == 0 || x == 1);
        assert(x == 0 ==> x ^ 1 == 1) by (bit_vector);
        assert(x == 1 ==> x ^ 1 == 0) by (bit_vector);
    }
}

/// Sends all parts of `vectors` through the channel: corrupts the full parts first and then
/// the leftover part, turning a bit where `flips` is `true`; `flips` holds one decision per
/// bit of the parts, in that order.
pub fn send_multiple(vectors: &mut SplitVector, flips: &[bool])
    requires
        old(vectors).restorable(),
        flips@.len() == old(vectors).all_bits().len(),
    ensures
        final(vectors).restorable(),
        final(vectors).encoded == old(vectors).encoded,
        final(vectors).full_vectors@.len() == old(vectors).full_vectors@.len(),
        forall|j: int|
            0 <= j < final(vectors).full_vectors@.len() ==> (
            #[trigger] final(vectors).full_vectors@[j])@.len() == old(vectors).full_vectors@[j]@.len(),
        old(vectors).rem_vector is None <==> final(vectors).rem_vector is None,
        old(vectors).rem_vector matches Some((r, n)) ==> final(vectors).rem_vector matches Some(
            (s, k),
        ) && k == n && s@.len() == r@.len(),
        forall|len: nat| #[trigger]
            old(vectors).parts_fit(len) ==> final(vectors).parts_fit(len),
        forall|j: int|
            0 <= j < old(vectors).full_vectors@.len() ==> (#[trigger] final(
                vectors).full_vectors@[j])@ == flipped(
                old(vectors).full_vectors@[j]@,
                flips@.subrange(
                    part_offset(old(vectors).full_vectors@, j),
                    part_offset(old(vectors).full_vectors@, j) + old(vectors).full_vectors@[j]@.len(),
                ),
            ),
        old(vectors).rem_vector matches Some((r, n)) ==> (final(vectors).rem_vector matches Some(
            (s, k),
        ) && s@ == flipped(
            r@,
            flips@.subrange(flatten(old(vectors).full_vectors@).len() as int, flips@.len() as int),
        )),
        final(vectors).all_bits() == flipped(old(vectors).all_bits(), flips@),
{
    let ghost orig = *vectors;
    let count = vectors.full_vectors.len();
    let total = flips.len();
    let mut off: usize = 0;
    for j in 0..count
        invariant
            total == flips@.len(),
            count == vectors.full_vectors@.len(),
            count == orig.full_vectors@.len(),
            orig.restorable(),
            flips@.len() == orig.all_bits().len(),
            vectors.rem_vector == orig.rem_vector,
            vectors.encoded == orig.encoded,
            off == flatten(orig.full_vectors@.subrange(0, j as int)).len(),
            flatten(vectors.full_vectors@.subrange(0, j as int)) == flipped(
                flatten(orig.full_vectors@.subrange(0, j as int)),
                flips@.subrange(0, off as int),
            ),
            forall|i: int|
                0 <= i < count ==> {
                    &&& (#[trigger] vectors.full_vectors@[i]).wf()
                    &&& vectors.full_vectors@[i]@.len() == orig.full_vectors@[i]@.len()
                    &&& (orig.full_vectors@[i].is_binary() ==> vectors.full_vectors@[i].is_binary())
                    &&& i >= j ==> vectors.full_vectors@[i] == orig.full_vectors@[i]
                    &&& i < j ==> vectors.full_vectors@[i]@ == flipped(
                        orig.full_vectors@[i]@,
                        flips@.subrange(
                            part_offset(orig.full_vectors@, i),
                            part_offset(orig.full_vectors@, i) + orig.full_vectors@[i]@.len(),
                        ),
                    )
                },
    {
        let ghost prev = vectors.full_vectors@;
        proof {
            lemma_flatten_step(orig.full_vectors@, j as int);
            lemma_flatten_prefix_len(orig.full_vectors@, j + 1);
        }
        let part = flipped_copy(&vectors.full_vectors[j], flips, off);
        let ghost piece = orig.full_vectors@[j as int]@;
        let ghost f_old = flips@.subrange(0, off as int);
        let ghost f_new = flips@.subrange(off as int, off + piece.len());
        proof {
            if orig.full_vectors@[j as int].is_binary() {
                lemma_flipped_binary(piece, f_new);
            }
        }
        vectors.full_vectors.set(j, part);
        proof {
            lemma_flatten_step(vectors.full_vectors@, j as int);
            assert(vectors.full_vectors@.subrange(0, j as int) =~= prev.subrange(0, j as int));
            lemma_flipped_concat(
                flatten(orig.full_vectors@.subrange(0, j as int)),
                piece,
                f_old,
                f_new,
            );
            assert(f_old + f_new =~= flips@.subrange(0, off + piece.len()));
        }
        off = off + vectors.full_vectors[j].inner().len();
    }
    proof {
        assert(vectors.full_vectors@.subrange(0, count as int) =~= vectors.full_vectors@);
        assert(orig.full_vectors@.subrange(0, count as int) =~= orig.full_vectors@);
    }
    let ghost full = vectors.full_vectors@;
    let new_rem = match &vectors.rem_vector {
        Some((r, n)) => {
            let flipped_r = flipped_copy(r, flips, off);
            proof {
                if r.is_binary() {
                    lemma_flipped_binary(r@, flips@.subrange(off as int, off + r@.len()));
                }
            }
            Some((flipped_r, *n))
        },
        None => None,
    };
    vectors.rem_vector = new_rem;
    proof {
        let fl = flatten(orig.full_vectors@);
        match orig.rem_vector {
            Some((r, n)) => {
                lemma_flipped_concat(
                    fl,
                    r@,
                    flips@.subrange(0, off as int),
                    flips@.subrange(off as int, flips@.len() as int),
                );
                assert(flips@.subrange(0, off as int) + flips@.subrange(off as int, flips@.len() as int)
                    =~= flips@);
            },
            None => {
                assert(flips@.subrange(0, off as int) =~= flips@);
                assert(vectors.all_bits() =~= flatten(full));
                assert(orig.all_bits() =~= fl);
            },
        }
    }
}

/// The errors reported when corrupting a vector are exactly the positions where the
/// corrupted vector differs from the sent one.
pub proof fn lemma_reported_errors_are_differences(v: Seq<i32>, flips: Seq<bool>)
    requires
        flips.len() == v.len(),
    ensures
        flip_positions(flips, flips.len()) == differences(v, flipped(v, flips)),
{
    lemma_flip_prefix(v, flips, v.len());
}

proof fn lemma_flip_prefix(v: Seq<i32>, flips: Seq<bool>, n: nat)
    requires
        flips.len() == v.len(),
        n <= v.len(),
    ensures
        flip_positions(flips, n) == error_indexes(v, flipped(v, flips), n),
    decreases n,
{
    if n > 0 {
        lemma_flip_prefix(v, flips, (n - 1) as nat);
        let i = n - 1;
        let x = v[i];
        assert((x ^ 1) != x) by (bit_vector);
    }
}

} // verus!
