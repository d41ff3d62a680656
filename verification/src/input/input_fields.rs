use vstd::prelude::*;

verus! {

/// The kinds of input fields and the characters each of them takes.
#[derive(Debug, Clone, Copy, PartialEq, Eq)]
pub enum FieldKind {
    /// A binary vector: only `'0'` and `'1'`.
    Vector,
    /// An unsigned number: only ASCII digits.
    Unsigned,
    /// A decimal fraction: ASCII digits and the separators `'.'` and `','`.
    Float,
}

/// `ch` is a character that a field of `kind` takes.
pub open spec fn takes(kind: FieldKind, ch: char) -> bool {
    match kind {
        FieldKind::Vector => ch == '0' || ch == '1',
        FieldKind::Unsigned => '0' <= ch <= '9',
        FieldKind::Float => ('0' <= ch <= '9') || ch == '.' || ch == ',',
    }
}

/// Every character of `s` is one that a field of `kind` takes.
pub open spec fn takes_all(kind: FieldKind, s: Seq<char>) -> bool {
    forall|i: int| 0 <= i < s.len() ==> takes(kind, #[trigger] s[i])
}

/// Each kind of field takes what the one before it takes: a vector field takes only digits, an
/// unsigned field takes exactly the ten ASCII digits, and a fraction field takes every digit
/// together with the two decimal separators and nothing else.
pub proof fn lemma_field_kinds_nest(c: char)
    ensures
        takes(FieldKind::Vector, c) <==> (c as u32) == 48 || (c as u32) == 49,
        takes(FieldKind::Vector, c) ==> takes(FieldKind::Unsigned, c),
        takes(FieldKind::Unsigned, c) ==> takes(FieldKind::Float, c),
        takes(FieldKind::Unsigned, c) <==> 48 <= (c as u32) && (c as u32) <= 57,
        takes(FieldKind::Float, c) <==> (takes(FieldKind::Unsigned, c) || c == '.' || c == ','),
{
}

/// Whether a field of `kind` takes the typed character `ch`; other characters are ignored.
pub fn accepts(kind: FieldKind, ch: char) -> (r: bool)
    ensures
        r == takes(kind, ch),
{
    match kind {
        FieldKind::Vector => ch == '0' || ch == '1',
        FieldKind::Unsigned => '0' <= ch && ch <= '9',
        FieldKind::Float => ('0' <= ch && ch <= '9') || ch == '.' || ch == ',',
    }
}

/// Whether a field of `kind` takes `content` as its whole new content: it does exactly when
/// it takes every character of it.
pub fn accepts_content(kind: FieldKind, content: &str) -> (r: bool)
    ensures
        r == takes_all(kind, content@),
{
    broadcast use vstd::string::axiom_spec_iter;

    let mut all = true;
    for ch in it: content.chars()
        invariant
            it.seq() == content@,
            all == (forall|j: int| 0 <= j < it.index() ==> takes(kind, #[trigger] content@[j])),
    {
        if !accepts(kind, ch) {
            all = false;
        }
    }
    all
}

} // verus!
