use vstd::prelude::*;

use crate::text::{decimal, push_decimal};
use vstd::arithmetic::power2::pow2;
use vstd::string::StringSliceAdditionalSpecFns;

verus! {

/// What made parsing a probability fail.
#[derive(Debug, Clone, Copy, PartialEq, Eq, Structural)]
pub enum ProbErrorKind {
    Invalid,
    Range,
}

/// The error returned when a probability literal cannot be parsed.
#[derive(Debug, Clone, Copy, PartialEq, Eq, Structural)]
pub struct ParseProbabilityError {
    kind: ProbErrorKind,
}

impl ParseProbabilityError {
    /// The cause of the failure.
    pub closed spec fn spec_kind(&self) -> ProbErrorKind {
        self.kind
    }

    /// Creates an error of the given kind.
    pub fn new(kind: ProbErrorKind) -> (res: Self)
        ensures
            res.spec_kind() == kind,
    {
        Self { kind }
    }

    /// Outputs the detailed cause of parsing a probability failing.
    pub fn kind(&self) -> (k: &ProbErrorKind)
        ensures
            *k == self.spec_kind(),
    {
        &self.kind
    }

    /// A short description of the error.
    pub fn description(&self) -> (d: &'static str)
        ensures
            self.spec_kind() == ProbErrorKind::Invalid ==> d@ == "invalid probability literal"@,
            self.spec_kind() == ProbErrorKind::Range ==> d@
                == "probability outside of [0; 1] range"@,
    {
        match self.kind {
            ProbErrorKind::Invalid => "invalid probability literal",
            ProbErrorKind::Range => "probability outside of [0; 1] range",
        }
    }
}

/// What made parsing a Muller parameter fail.
#[derive(Debug, Clone, Copy, PartialEq, Eq, Structural)]
pub enum MullerErrorKind {
    Invalid,
    Range,
}

/// The error returned when a Muller parameter literal cannot be parsed.
#[derive(Debug, Clone, Copy, PartialEq, Eq, Structural)]
pub struct ParseMullerError {
    kind: MullerErrorKind,
}

impl ParseMullerError {
    /// The cause of the failure.
    pub closed spec fn spec_kind(&self) -> MullerErrorKind {
        self.kind
    }

    /// Creates an error of the given kind.
    pub fn new(kind: MullerErrorKind) -> (res: Self)
        ensures
            res.spec_kind() == kind,
    {
        Self { kind }
    }

    /// Outputs the detailed cause of parsing an integer failing.
    pub fn kind(&self) -> (k: &MullerErrorKind)
        ensures
            *k == self.spec_kind(),
    {
        &self.kind
    }

    /// A short description of the error.
    pub fn description(&self) -> (d: &'static str)
        ensures
            self.spec_kind() == MullerErrorKind::Invalid ==> d@
                == "invalid muller parameter literal"@,
            self.spec_kind() == MullerErrorKind::Range ==> d@
                == "muller parameter outside of [1; 10] range"@,
    {
        match self.kind {
            MullerErrorKind::Invalid => "invalid muller parameter literal",
            MullerErrorKind::Range => "muller parameter outside of [1; 10] range",
        }
    }
}

/// `b` is an ASCII decimal digit.
pub open spec fn is_digit(b: u8) -> bool {
    48 <= b <= 57
}

/// Reads the decimal digits `d[i..]` onto `acc` as an 8-bit unsigned value, failing at the
/// first byte that is no digit (`Invalid`) or that makes the value exceed 255 (`Range`).
pub open spec fn scan_u8(d: Seq<u8>, i: nat, acc: nat) -> Result<nat, MullerErrorKind>
    decreases d.len() - i,
{
    if i >= d.len() {
        Ok(acc)
    } else if !is_digit(d[i as int]) {
        Err(MullerErrorKind::Invalid)
    } else if acc * 10 + (d[i as int] - 48) > 255 {
        Err(MullerErrorKind::Range)
    } else {
        scan_u8(d, i + 1, (acc * 10 + (d[i as int] - 48)) as nat)
    }
}

/// The outcome of reading a Muller parameter from the text `s`: an optional `+` and decimal
/// digits giving a value within \[1; 10]. Empty text, a lone sign and other bytes are
/// `Invalid`; values outside the range, also those too large for 8 bits, are `Range`.
pub open spec fn muller_parse(s: Seq<u8>) -> Result<nat, MullerErrorKind> {
    if s.len() == 0 {
        Err(MullerErrorKind::Invalid)
    } else if s.len() == 1 && (s[0] == 43 || s[0] == 45) {
        Err(MullerErrorKind::Invalid)
    } else {
        let digits = if s[0] == 43 {
            s.drop_first()
        } else {
            s
        };
        match scan_u8(digits, 0, 0) {
            Err(k) => Err(k),
            Ok(v) => if v == 0 || v > 10 {
                Err(MullerErrorKind::Range)
            } else {
                Ok(v)
            },
        }
    }
}

/// The parameter `m` of the Reed-Muller code RM(1, m); always within \[1-10].
#[derive(Debug, Clone, Copy, PartialEq, Eq, PartialOrd, Ord, Hash)]
pub struct Muller(u8);

impl View for Muller {
    type V = nat;

    closed spec fn view(&self) -> nat {
        self.0 as nat
    }
}

impl Muller {
    #[verifier::type_invariant]
    closed spec fn in_range(&self) -> bool {
        1 <= self.0 <= 10
    }

    /// Creates a `Muller` parameter from `val`.
    ///
    /// Returns `None` if `val` is outside of \[1-10] range.
    pub fn new(val: u8) -> (res: Option<Self>)
        ensures
            res is Some <==> 1 <= val <= 10,
            res matches Some(m) ==> m@ == val,
    {
        if val > 10 || val == 0 {
            None
        } else {
            Some(Self(val))
        }
    }

    /// Creates a `Muller` parameter from `val`, which the caller knows to be within \[1-10].
    pub fn new_unchecked(val: u8) -> (res: Self)
        requires
            1 <= val <= 10,
        ensures
            res@ == val,
    {
        Self(val)
    }

    /// Parses a `Muller` parameter from the text `src`.
    pub fn parse(src: &[u8]) -> (res: Result<Self, ParseMullerError>)
        ensures
            match muller_parse(src@) {
                Ok(v) => res matches Ok(m) && m@ == v,
                Err(k) => res matches Err(e) && e.spec_kind() == k,
            },
    {
        let len = src.len();
        if len == 0 {
            return Err(ParseMullerError { kind: MullerErrorKind::Invalid });
        }
        if len == 1 && (src[0] == 43u8 || src[0] == 45u8) {
            return Err(ParseMullerError { kind: MullerErrorKind::Invalid });
        }
        let start: usize = if src[0] == 43u8 { 1 } else { 0 };
        let ghost digits = if src@[0] == 43 { src@.drop_first() } else { src@ };
        proof {
            assert(digits =~= src@.subrange(start as int, len as int));
        }
        let mut acc: u16 = 0;
        let mut i = start;
        while i < len
            invariant
                start <= i <= len,
                len == src@.len(),
                len >= 1,
                !(len == 1 && (src@[0] == 43 || src@[0] == 45)),
                digits == (if src@[0] == 43 {
                    src@.drop_first()
                } else {
                    src@
                }),
                digits == src@.subrange(start as int, len as int),
                acc <= 255,
                scan_u8(digits, (i - start) as nat, acc as nat) == scan_u8(digits, 0, 0),
            decreases len - i,
        {
            let b = src[i];
            proof {
                assert(digits[i - start] == b);
            }
            if b < 48u8 || b > 57u8 {
                return Err(ParseMullerError { kind: MullerErrorKind::Invalid });
            }
            let next = acc * 10 + (b - 48u8) as u16;
            if next > 255 {
                return Err(ParseMullerError { kind: MullerErrorKind::Range });
            }
            acc = next;
            i += 1;
        }
        if acc == 0 || acc > 10 {
            return Err(ParseMullerError { kind: MullerErrorKind::Range });
        }
        Ok(Self(acc as u8))
    }

    /// The decimal notation of the parameter.
    pub fn to_string(&self) -> (s: String)
        ensures
            s@ == decimal(self@),
    {
        let mut s = String::new();
        push_decimal(&mut s, self.0 as u64);
        s
    }

    /// Returns the underlying `u8` value inside the `Muller` parameter.
    pub fn get(&self) -> (v: u8)
        ensures
            v == self@,
            1 <= v <= 10,
    {
        proof {
            use_type_invariant(self);
        }
        self.0
    }

    /// Returns the amount of rows a generation matrix with parameter `m` should have.
    pub fn rows(&self) -> (r: u32)
        ensures
            r == self@ + 1,
            2 <= r <= 11,
    {
        proof {
            use_type_invariant(self);
        }
        self.0 as u32 + 1
    }

    /// Returns the amount of columns a generation matrix with parameter `m` should have.
    pub fn cols(&self) -> (c: u32)
        ensures
            c == pow2(self@),
            2 <= c <= 1024,
    {
        proof {
            use_type_invariant(self);
        }
        let shift = (self.0 - 1) as u32;
        proof {
            vstd::arithmetic::power2::lemma2_to64();
            vstd::arithmetic::power2::lemma_pow2_adds(1, shift as nat);
            vstd::arithmetic::power2::lemma_pow2_pos(shift as nat);
            assert(pow2(shift as nat) <= 512) by {
                if shift < 9 {
                    vstd::arithmetic::power2::lemma_pow2_strictly_increases(shift as nat, 9);
                }
            }
            vstd::bits::lemma_u32_shl_is_mul(2, shift);
        }
        2u32 << shift
    }
}


impl core::str::FromStr for Muller {
    type Err = ParseMullerError;

    fn from_str(src: &str) -> (res: Result<Self, Self::Err>)
        ensures
            match muller_parse(src.spec_bytes()) {
                Ok(v) => res matches Ok(m) && m@ == v,
                Err(k) => res matches Err(e) && e.spec_kind() == k,
            },
    {
        Self::parse(src.as_bytes())
    }
}

/// Scenarios for showcasing `Reed-Muller` code.
#[derive(Debug, Clone, Copy, PartialEq, Eq, Structural)]
pub enum Scenario {
    SendingVector,
    SendingText,
    SendingImage,
}

} // verus!
