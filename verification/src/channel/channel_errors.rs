use vstd::prelude::*;

use crate::math::vector::{is_ascii_ws, BinaryVector};
use crate::text::{decimal, push_char, push_decimal, push_str};

verus! {

/// The positions below `n` where `a` and `b` differ or where one of them has no entry,
/// in increasing order.
pub open spec fn error_indexes<T>(a: Seq<T>, b: Seq<T>, n: nat) -> Seq<usize>
    decreases n,
{
    if n == 0 {
        Seq::empty()
    } else {
        let rest = error_indexes(a, b, (n - 1) as nat);
        let i = n - 1;
        if i < a.len() && i < b.len() && a[i] == b[i] {
            rest
        } else {
            rest.push(i as usize)
        }
    }
}

/// The positions where `a` and `b` differ, every position present in only one of them
/// counting as a difference.
pub open spec fn differences<T>(a: Seq<T>, b: Seq<T>) -> Seq<usize> {
    error_indexes(a, b, if a.len() > b.len() { a.len() } else { b.len() })
}

/// `s` with its ASCII whitespace bytes left out.
pub open spec fn without_ws(s: Seq<u8>) -> Seq<u8>
    decreases s.len(),
{
    if s.len() == 0 {
        Seq::empty()
    } else if is_ascii_ws(s.last()) {
        without_ws(s.drop_last())
    } else {
        without_ws(s.drop_last()).push(s.last())
    }
}

/// The word for "errors" that agrees with the count `n` in Lithuanian.
pub open spec fn error_word_spec(n: nat) -> Seq<char> {
    if (n % 100 > 10 && n % 100 < 20) || n % 10 == 0 {
        "klaidų"@
    } else if n % 10 == 1 {
        "klaida"@
    } else {
        "klaidos"@
    }
}

/// The word agrees with the count as Lithuanian grammar wants: `klaidų` (genitive plural) for
/// counts ending in 0 or in 11 to 19, `klaida` (singular) for the other counts ending in 1, and
/// `klaidos` (plural) for all the rest.
pub proof fn lemma_error_word_agrees(n: nat)
    ensures
        (n % 10 == 0 || (11 <= n % 100 && n % 100 <= 19)) ==> error_word_spec(n) == "klaidų"@,
        (n % 10 == 1 && n % 100 != 11) ==> error_word_spec(n) == "klaida"@,
        (2 <= n % 10 && n % 10 <= 9 && !(12 <= n % 100 && n % 100 <= 19)) ==> error_word_spec(n)
            == "klaidos"@,
{
    vstd::arithmetic::div_mod::lemma_mod_mod(n as int, 10, 10);
    assert(n % 100 == (n % 100) as int);
    let x = n % 100;
    assert(x < 100);
    assert(x % 10 == n % 10);
}

/// `[a, b, c]`: the numbers of `s` in decimal, as a list.
pub open spec fn list_text(s: Seq<usize>) -> Seq<char> {
    seq!['['] + list_items(s) + seq![']']
}

/// The numbers of `s` in decimal, separated by `", "`.
pub open spec fn list_items(s: Seq<usize>) -> Seq<char>
    decreases s.len(),
{
    if s.len() == 0 {
        Seq::empty()
    } else if s.len() == 1 {
        decimal(s[0] as nat)
    } else {
        list_items(s.drop_last()) + seq![',', ' '] + decimal(s.last() as nat)
    }
}

/// Contains indexes of bits that were corrupted during transmission.
#[derive(Debug, Clone, PartialEq, Eq)]
pub struct ChannelErrors(Vec<usize>);

impl View for ChannelErrors {
    type V = Seq<usize>;

    closed spec fn view(&self) -> Seq<usize> {
        self.0@
    }
}

impl Default for ChannelErrors {
    /// No errors.
    fn default() -> (res: Self)
        ensures
            res@ == Seq::<usize>::empty(),
    {
        Self(Vec::new())
    }
}

impl ChannelErrors {
    /// Compares the bytes of two binary strings. Whitespaces are ignored.
    ///
    /// Returns an array of error indexes.
    pub fn from_bytes(str1: &[u8], str2: &[u8]) -> (res: Self)
        ensures
            res@ == differences(without_ws(str1@), without_ws(str2@)),
    {
        let s1 = keep_non_ws(str1);
        let s2 = keep_non_ws(str2);
        let (min, max) = if s1.len() > s2.len() {
            (s2.len(), s1.len())
        } else {
            (s1.len(), s2.len())
        };
        let mut errors: Vec<usize> = Vec::new();
        for idx in 0..min
            invariant
                min <= s1@.len(),
                min <= s2@.len(),
                errors@ == error_indexes(s1@, s2@, idx as nat),
        {
            if s1[idx] != s2[idx] {
                errors.push(idx);
            }
        }
        // Every bit that is not present is an error
        for idx in min..max
            invariant
                min <= idx <= max,
                max == (if s1@.len() > s2@.len() { s1@.len() } else { s2@.len() }),
                min == (if s1@.len() > s2@.len() { s2@.len() } else { s1@.len() }),
                errors@ == error_indexes(s1@, s2@, idx as nat),
        {
            errors.push(idx);
        }
        Self(errors)
    }

    /// Compares two binary vectors.
    ///
    /// Returns an array of error indexes
    pub fn from_vectors(vec1: &BinaryVector, vec2: &BinaryVector) -> (res: Self)
        requires
            vec1.wf(),
            vec2.wf(),
        ensures
            res@ == differences(vec1@, vec2@),
    {
        let (min, max) = if vec1.cols() > vec2.cols() {
            (vec2.cols() as usize, vec1.cols() as usize)
        } else {
            (vec1.cols() as usize, vec2.cols() as usize)
        };
        let a = vec1.inner();
        let b = vec2.inner();
        let mut errors: Vec<usize> = Vec::new();
        for idx in 0..min
            invariant
                a@ == vec1@,
                b@ == vec2@,
                min <= a@.len(),
                min <= b@.len(),
                errors@ == error_indexes(a@, b@, idx as nat),
        {
            if a[idx] != b[idx] {
                errors.push(idx);
            }
        }
        // Every bit that is not present is an error
        for idx in min..max
            invariant
                a@ == vec1@,
                b@ == vec2@,
                min <= idx <= max,
                max == (if a@.len() > b@.len() { a@.len() } else { b@.len() }),
                min == (if a@.len() > b@.len() { b@.len() } else { a@.len() }),
                errors@ == error_indexes(a@, b@, idx as nat),
        {
            errors.push(idx);
        }
        Self(errors)
    }

    /// Creates the errors at the positions `errors`.
    pub fn from_vec(errors: Vec<usize>) -> (res: Self)
        ensures
            res@ == errors@,
    {
        Self(errors)
    }

    /// Returns a reference to error indexes.
    pub fn get(&self) -> (r: &[usize])
        ensures
            r@ == self@,
    {
        self.0.as_slice()
    }

    /// The word for "errors" that agrees with the number of errors in Lithuanian.
    pub fn error_word(&self) -> (w: &'static str)
        ensures
            w@ == error_word_spec(self@.len()),
    {
        let x = self.0.len();
        if (x % 100 > 10 && x % 100 < 20) || x % 10 == 0 {
            "klaidų"
        } else if x % 10 == 1 {
            "klaida"
        } else {
            "klaidos"
        }
    }

    /// The count of errors, the agreeing word and the list of positions, as in
    /// `3 klaidos: [2, 3, 4]`.
    pub fn to_string(&self) -> (s: String)
        ensures
            s@ == decimal(self@.len()) + seq![' '] + error_word_spec(self@.len()) + seq![':', ' ']
                + list_text(self@),
    {
        let mut s = String::new();
        let n = self.0.len();
        push_decimal(&mut s, n as u64);
        push_char(&mut s, ' ');
        let word = self.error_word();
        push_str(&mut s, word);
        push_char(&mut s, ':');
        push_char(&mut s, ' ');
        push_char(&mut s, '[');
        let ghost prefix = s@;
        for i in 0..n
            invariant
                n == self@.len(),
                s@ == prefix + list_items(self@.subrange(0, i as int)),
        {
            if i > 0 {
                push_char(&mut s, ',');
                push_char(&mut s, ' ');
            }
            push_decimal(&mut s, self.0[i] as u64);
            proof {
                let sub = self@.subrange(0, i + 1);
                assert(sub.drop_last() =~= self@.subrange(0, i as int));
                if i == 0 {
                    assert(list_items(self@.subrange(0, 0)) =~= Seq::<char>::empty());
                }
                assert(s@ =~= prefix + list_items(sub));
            }
        }
        push_char(&mut s, ']');
        proof {
            assert(self@.subrange(0, n as int) =~= self@);
        }
        s
    }
}

/// The bytes of `src` that are not ASCII whitespace.
fn keep_non_ws(src: &[u8]) -> (res: Vec<u8>)
    ensures
        res@ == without_ws(src@),
{
    let mut res: Vec<u8> = Vec::new();
    for i in 0..src.len()
        invariant
            res@ == without_ws(src@.subrange(0, i as int)),
    {
        proof {
            assert(src@.subrange(0, i + 1).drop_last() =~= src@.subrange(0, i as int));
        }
        let b = src[i];
        if !(b == 32u8 || b == 9u8 || b == 10u8 || b == 12u8 || b == 13u8) {
            res.push(b);
        }
    }
    proof {
        assert(src@.subrange(0, src@.len() as int) =~= src@);
    }
    res
}

} // verus!
