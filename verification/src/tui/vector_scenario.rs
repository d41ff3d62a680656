use vstd::prelude::*;

use crate::channel::reed_muller::{lemma_binary_encodable, rm_decode, rm_encode, Hadamards};
use crate::channel::walsh::{ints, rm_decode_spec, rm_encode_spec, rm_weights_spec};
use crate::math::matrix::GenMatrix;
use crate::math::vector::{is_binary_seq, BinaryVector, Vector};
use crate::text::{decimal, is_white_space, push_char, push_decimal, push_str, unicode_white_space};
use vstd::arithmetic::power2::pow2;

verus! {

/// Why a vector typed into the vector scenario was refused.
#[derive(Debug, Clone, Copy, PartialEq, Eq)]
pub enum VectorInputError {
    /// The vector to send does not have as many bits as the generation matrix has rows; the
    /// row count is given.
    Length(u32),
    /// The vector to send holds something other than `0` and `1`.
    NotBinary,
    /// The corrupted vector does not have as many bits as the encoded one; the length of the
    /// encoded one is given.
    CorruptedLength(usize),
    /// Nothing has been sent through the channel yet.
    NotSent,
    /// The corrupted vector holds something other than `0` and `1`.
    CorruptedNotBinary,
}

/// Every byte of `text` is the digit `0` or `1`.
pub open spec fn is_bit_text(text: Seq<u8>) -> bool {
    forall|i: int| 0 <= i < text.len() ==> #[trigger] text[i] == 48 || text[i] == 49
}

/// The bits spelled by the digits `0` and `1` of `text`.
pub open spec fn bits_of_text(text: Seq<u8>) -> Seq<i32> {
    Seq::new(text.len(), |i: int| if text[i] == 49 { 1i32 } else { 0i32 })
}

/// The title of the dialog that reports `e`.
pub open spec fn title_spec(e: VectorInputError) -> Seq<char> {
    match e {
        VectorInputError::NotSent | VectorInputError::CorruptedNotBinary => "Loginė klaida"@,
        _ => "Įvesties klaida"@,
    }
}

/// The message of the dialog that reports `e`.
pub open spec fn message_spec(e: VectorInputError) -> Seq<char> {
    match e {
        VectorInputError::Length(n) => "Vektoriaus ilgis turi būti lygus "@ + decimal(n as nat),
        VectorInputError::CorruptedLength(n) => "Iškraipyto vektoriaus ilgis turi būti lygus "@
            + decimal(n as nat),
        VectorInputError::NotSent => "Vektorius nebuvo išsiųstas kanalu!"@,
        VectorInputError::NotBinary | VectorInputError::CorruptedNotBinary =>
            "Vektoriuje turi būti tik 0 ir 1!"@,
    }
}

impl VectorInputError {
    /// The title of the dialog that reports `self`.
    pub fn title(&self) -> (t: &'static str)
        ensures
            t@ == title_spec(*self),
    {
        match self {
            VectorInputError::NotSent | VectorInputError::CorruptedNotBinary => "Loginė klaida",
            _ => "Įvesties klaida",
        }
    }

    /// The message of the dialog that reports `self`.
    pub fn message(&self) -> (s: String)
        ensures
            s@ == message_spec(*self),
    {
        let mut s = String::new();
        match self {
            VectorInputError::Length(n) => {
                push_str(&mut s, "Vektoriaus ilgis turi būti lygus ");
                push_decimal(&mut s, *n as u64);
            },
            VectorInputError::CorruptedLength(n) => {
                push_str(&mut s, "Iškraipyto vektoriaus ilgis turi būti lygus ");
                push_decimal(&mut s, *n as u64);
            },
            VectorInputError::NotSent => {
                push_str(&mut s, "Vektorius nebuvo išsiųstas kanalu!");
            },
            VectorInputError::NotBinary | VectorInputError::CorruptedNotBinary => {
                push_str(&mut s, "Vektoriuje turi būti tik 0 ir 1!");
            },
        }
        proof {
            assert(Seq::<char>::empty() + message_spec(*self) =~= message_spec(*self));
        }
        s
    }
}

/// `s` with its whitespace characters left out.
pub open spec fn without_white_space(s: Seq<char>) -> Seq<char>
    decreases s.len(),
{
    if s.len() == 0 {
        Seq::empty()
    } else if unicode_white_space(s.last()) {
        without_white_space(s.drop_last())
    } else {
        without_white_space(s.drop_last()).push(s.last())
    }
}

/// Leaving out whitespace keeps every other character, in order: it is the filter that drops
/// exactly the whitespace characters. So a text without whitespace comes back unchanged, and a
/// text cut in two is cleaned piece by piece.
pub proof fn lemma_without_white_space_filters(s: Seq<char>)
    ensures
        without_white_space(s) == s.filter(|c: char| !unicode_white_space(c)),
        (forall|i: int| 0 <= i < s.len() ==> !unicode_white_space(#[trigger] s[i]))
            ==> without_white_space(s) == s,
    decreases s.len(),
{
    reveal(Seq::filter);
    if s.len() > 0 {
        lemma_without_white_space_filters(s.drop_last());
        if forall|i: int| 0 <= i < s.len() ==> !unicode_white_space(#[trigger] s[i]) {
            assert forall|i: int| 0 <= i < s.drop_last().len() implies !unicode_white_space(
                #[trigger] s.drop_last()[i],
            ) by {
                assert(s.drop_last()[i] == s[i]);
            }
            assert(!unicode_white_space(s[s.len() - 1]));
            assert(s.drop_last().push(s.last()) =~= s);
        }
    }
}

/// Cleaning a text cut in two gives the cleaned pieces one after the other.
pub proof fn lemma_without_white_space_concat(a: Seq<char>, b: Seq<char>)
    ensures
        without_white_space(a + b) == without_white_space(a) + without_white_space(b),
{
    lemma_without_white_space_filters(a + b);
    lemma_without_white_space_filters(a);
    lemma_without_white_space_filters(b);
    Seq::filter_distributes_over_add(a, b, |c: char| !unicode_white_space(c));
}

/// Removes all whitespaces from `src`.
///
/// Returns a new [`String`] with removed whitespaces.
pub fn sanitise_str(src: &str) -> (res: String)
    ensures
        res@ == without_white_space(src@),
        res@ == src@.filter(|c: char| !unicode_white_space(c)),
{
    broadcast use vstd::string::axiom_spec_iter;

    let mut res = String::new();
    for ch in it: src.chars()
        invariant
            it.seq() == src@,
            res@ == without_white_space(src@.subrange(0, it.index() as int)),
    {
        let ghost k = it.index();
        proof {
            assert(src@.subrange(0, k + 1).drop_last() =~= src@.subrange(0, k as int));
        }
        if !is_white_space(ch) {
            push_char(&mut res, ch);
        }
    }
    proof {
        assert(src@.subrange(0, src@.len() as int) =~= src@);
        lemma_without_white_space_filters(src@);
    }
    res
}

/// The bits spelled by `text`, or `None` if it holds anything but the digits `0` and `1`.
fn read_bits(text: &[u8]) -> (res: Option<BinaryVector>)
    requires
        text@.len() <= u32::MAX,
    ensures
        res is Some <==> is_bit_text(text@),
        res matches Some(v) ==> v.wf() && v@ == bits_of_text(text@),
{
    let mut bits: Vec<i32> = Vec::new();
    for i in 0..text.len()
        invariant
            is_bit_text(text@.subrange(0, i as int)),
            bits@ == bits_of_text(text@.subrange(0, i as int)),
    {
        let b = text[i];
        if b == 48u8 {
            bits.push(0);
        } else if b == 49u8 {
            bits.push(1);
        } else {
            proof {
                assert(!is_bit_text(text@)) by {
                    assert(text@[i as int] == b);
                }
            }
            return None;
        }
        proof {
            assert(bits@ =~= bits_of_text(text@.subrange(0, i + 1)));
            assert forall|k: int| 0 <= k < i + 1 implies #[trigger] text@.subrange(0, i + 1)[k]
                == 48 || text@.subrange(0, i + 1)[k] == 49 by {
                if k < i {
                    assert(text@.subrange(0, i + 1)[k] == text@.subrange(0, i as int)[k]);
                }
            }
        }
    }
    proof {
        assert(text@.subrange(0, text@.len() as int) =~= text@);
    }
    Some(BinaryVector::from_vec_unchecked(bits))
}

/// Reads the vector typed into the vector scenario, with whitespace already taken out, and
/// encodes it with `gen_matrix`.
///
/// Returns the encoded vector, or why the text was refused: its length is checked against the
/// rows of `gen_matrix` first, then its digits.
pub fn prepare_vector(text: &[u8], gen_matrix: &GenMatrix) -> (res: Result<
    BinaryVector,
    VectorInputError,
>)
    ensures
        text@.len() != gen_matrix.spec_matrix().nrows() ==> res == Err::<BinaryVector, _>(
            VectorInputError::Length(gen_matrix.spec_matrix().nrows() as u32),
        ),
        text@.len() == gen_matrix.spec_matrix().nrows() && !is_bit_text(text@) ==> res == Err::<
            BinaryVector,
            _,
        >(VectorInputError::NotBinary),
        text@.len() == gen_matrix.spec_matrix().nrows() && is_bit_text(text@) ==> (res matches Ok(
            v,
        ) && v.wf() && v@ == rm_encode_spec(bits_of_text(text@), gen_matrix.spec_muller()@)),
{
    let rows = gen_matrix.rows();
    if text.len() != rows as usize {
        return Err(VectorInputError::Length(rows));
    }
    match read_bits(text) {
        Some(vector) => {
            proof {
                assert(is_binary_seq(vector@));
                lemma_binary_encodable(vector@, *gen_matrix);
            }
            Ok(rm_encode(&vector, gen_matrix))
        },
        None => Err(VectorInputError::NotBinary),
    }
}

/// Reads the corrupted vector of the vector scenario, with whitespace already taken out, and
/// decodes it with `hadamards`; `encoded_len` is the length of the vector that was sent, 0 if
/// none was.
///
/// Returns the decoded vector and its weights, or why the text was refused: its length is
/// checked against `encoded_len` first, then that something was sent, then its digits.
pub fn decode_vector(encoded_len: usize, corrupted: &[u8], hadamards: &Hadamards) -> (res: Result<
    (BinaryVector, Vector),
    VectorInputError,
>)
    requires
        encoded_len == 0 || encoded_len == pow2(hadamards.spec_muller()@),
    ensures
        corrupted@.len() != encoded_len ==> res == Err::<(BinaryVector, Vector), _>(
            VectorInputError::CorruptedLength(encoded_len),
        ),
        corrupted@.len() == encoded_len && encoded_len == 0 ==> res == Err::<
            (BinaryVector, Vector),
            _,
        >(VectorInputError::NotSent),
        corrupted@.len() == encoded_len && encoded_len > 0 && !is_bit_text(corrupted@) ==> res
            == Err::<(BinaryVector, Vector), _>(VectorInputError::CorruptedNotBinary),
        corrupted@.len() == encoded_len && encoded_len > 0 && is_bit_text(corrupted@) ==> (
        res matches Ok((d, w)) && d.wf() && w.wf() && d@ == rm_decode_spec(
            bits_of_text(corrupted@),
            hadamards.spec_muller()@,
        ) && ints(w@) == rm_weights_spec(bits_of_text(corrupted@), hadamards.spec_muller()@)),
{
    if corrupted.len() != encoded_len {
        return Err(VectorInputError::CorruptedLength(encoded_len));
    }
    if encoded_len == 0 {
        return Err(VectorInputError::NotSent);
    }
    let m = hadamards.muller();
    // reading the value brings its range, [1; 10], into the proof
    let _ = m.get();
    proof {
        vstd::arithmetic::power2::lemma2_to64();
        assert(hadamards.spec_muller()@ <= 10);
        vstd::arithmetic::power2::lemma_pow2_strictly_increases(hadamards.spec_muller()@, 32);
    }
    match read_bits(corrupted) {
        Some(vector) => Ok(rm_decode(&vector, hadamards)),
        None => Err(VectorInputError::CorruptedNotBinary),
    }
}

} // verus!
