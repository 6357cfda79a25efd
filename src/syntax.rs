use vstd::prelude::*;
use vstd::string::StringSliceAdditionalSpecFns;
use vstd::utf8::*;

verus! {

broadcast use vstd::utf8::encode_utf8_valid_utf8;

/// Why a directive string was refused.
#[derive(Debug, Clone, Copy, PartialEq, Eq, Structural)]
pub enum ParseError {
    /// The text breaks the directive grammar.
    BadSyntax,
    /// The text holds `"` or `/`, which are kept for a later extension.
    ReservedSyntax,
}

pub open spec fn is_lbrack(b: u8) -> bool { b == 0x5b }
pub open spec fn is_rbrack(b: u8) -> bool { b == 0x5d }
pub open spec fn is_lbrace(b: u8) -> bool { b == 0x7b }
pub open spec fn is_rbrace(b: u8) -> bool { b == 0x7d }
pub open spec fn is_equal(b: u8) -> bool { b == 0x3d }
pub open spec fn is_comma(b: u8) -> bool { b == 0x2c }

/// The bytes that structure a directive string.
pub open spec fn is_syntax(b: u8) -> bool {
    is_lbrack(b) || is_rbrack(b) || is_lbrace(b) || is_rbrace(b) || is_equal(b) || is_comma(b)
}

/// The bytes `"` and `/`.
pub open spec fn is_reserved(b: u8) -> bool {
    b == 0x22 || b == 0x2f
}

pub open spec fn has_reserved(s: Seq<u8>) -> bool {
    exists|i: int| 0 <= i < s.len() && #[trigger] is_reserved(s[i])
}

/// Position of the first structural byte of `s`, or its length when there is none.
pub open spec fn syntax_pos(s: Seq<u8>) -> nat
    decreases s.len(),
{
    if s.len() == 0 {
        0
    } else if is_syntax(s[0]) {
        0
    } else {
        1 + syntax_pos(s.drop_first())
    }
}

/// Position of the first byte `b` in `s`, or its length when there is none.
pub open spec fn byte_pos(s: Seq<u8>, b: u8) -> nat
    decreases s.len(),
{
    if s.len() == 0 {
        0
    } else if s[0] == b {
        0
    } else {
        1 + byte_pos(s.drop_first(), b)
    }
}

/// `s` from position `i` on.
pub open spec fn tail(s: Seq<u8>, i: int) -> Seq<u8> {
    s.subrange(i, s.len() as int)
}

/// Whether `s` starts with the byte `b`.
pub open spec fn starts(s: Seq<u8>, b: u8) -> bool {
    s.len() > 0 && s[0] == b
}

proof fn lemma_syntax_pos(s: Seq<u8>, i: int)
    requires
        0 <= i <= s.len(),
        forall|j: int| 0 <= j < i ==> !is_syntax(#[trigger] s[j]),
        i == s.len() || is_syntax(s[i]),
    ensures
        syntax_pos(s) == i,
    decreases i,
{
    if i > 0 {
        let t = s.drop_first();
        assert forall|j: int| 0 <= j < i - 1 implies !is_syntax(#[trigger] t[j]) by {
            assert(t[j] == s[j + 1]);
        }
        lemma_syntax_pos(t, i - 1);
    }
}

proof fn lemma_byte_pos(s: Seq<u8>, b: u8, i: int)
    requires
        0 <= i <= s.len(),
        forall|j: int| 0 <= j < i ==> #[trigger] s[j] != b,
        i == s.len() || s[i] == b,
    ensures
        byte_pos(s, b) == i,
    decreases i,
{
    if i > 0 {
        let t = s.drop_first();
        assert forall|j: int| 0 <= j < i - 1 implies #[trigger] t[j] != b by {
            assert(t[j] == s[j + 1]);
        }
        lemma_byte_pos(t, b, i - 1);
    }
}

/// Facts on the position of the first structural byte.
pub proof fn lemma_syntax_pos_facts(s: Seq<u8>)
    ensures
        syntax_pos(s) <= s.len(),
        syntax_pos(s) < s.len() ==> is_syntax(s[syntax_pos(s) as int]),
        forall|j: int| 0 <= j < syntax_pos(s) ==> !is_syntax(#[trigger] s[j]),
    decreases s.len(),
{
    if s.len() > 0 && !is_syntax(s[0]) {
        let t = s.drop_first();
        lemma_syntax_pos_facts(t);
        assert forall|j: int| 0 <= j < syntax_pos(s) implies !is_syntax(#[trigger] s[j]) by {
            if j > 0 {
                assert(s[j] == t[j - 1]);
            }
        }
    }
}

/// Facts on the position of the first occurrence of a byte.
pub proof fn lemma_byte_pos_facts(s: Seq<u8>, b: u8)
    ensures
        byte_pos(s, b) <= s.len(),
        byte_pos(s, b) < s.len() ==> s[byte_pos(s, b) as int] == b,
        forall|j: int| 0 <= j < byte_pos(s, b) ==> #[trigger] s[j] != b,
    decreases s.len(),
{
    if s.len() > 0 && s[0] != b {
        let t = s.drop_first();
        lemma_byte_pos_facts(t, b);
        assert forall|j: int| 0 <= j < byte_pos(s, b) implies #[trigger] s[j] != b by {
            if j > 0 {
                assert(s[j] == t[j - 1]);
            }
        }
    }
}

/// Scans `s` for the first structural byte.
pub fn find_any_syntax(s: &[u8]) -> (r: usize)
    ensures
        r == syntax_pos(s@),
        r <= s@.len(),
{
    let mut i: usize = 0;
    while i < s.len()
        invariant
            i <= s@.len(),
            forall|j: int| 0 <= j < i ==> !is_syntax(#[trigger] s@[j]),
        decreases s@.len() - i,
    {
        let b = s[i];
        if b == 0x5b || b == 0x5d || b == 0x7b || b == 0x7d || b == 0x3d || b == 0x2c {
            proof { lemma_syntax_pos(s@, i as int); }
            return i;
        }
        i = i + 1;
    }
    proof { lemma_syntax_pos(s@, i as int); }
    i
}

/// Scans `s` for the first byte `b`.
pub fn find_syntax(s: &[u8], b: u8) -> (r: Option<usize>)
    ensures
        match r {
            Some(i) => i == byte_pos(s@, b) && i < s@.len(),
            None => byte_pos(s@, b) == s@.len(),
        },
{
    let mut i: usize = 0;
    while i < s.len()
        invariant
            i <= s@.len(),
            forall|j: int| 0 <= j < i ==> #[trigger] s@[j] != b,
        decreases s@.len() - i,
    {
        if s[i] == b {
            proof { lemma_byte_pos(s@, b, i as int); }
            return Some(i);
        }
        i = i + 1;
    }
    proof { lemma_byte_pos(s@, b, i as int); }
    None
}

/// Scans `s` for `"` or `/`.
pub fn find_reserved(s: &[u8]) -> (r: bool)
    ensures
        r == has_reserved(s@),
{
    let mut i: usize = 0;
    while i < s.len()
        invariant
            i <= s@.len(),
            forall|j: int| 0 <= j < i ==> !is_reserved(#[trigger] s@[j]),
        decreases s@.len() - i,
    {
        if s[i] == 0x22 || s[i] == 0x2f {
            assert(is_reserved(s@[i as int]));
            return true;
        }
        i = i + 1;
    }
    false
}

proof fn lemma_after_ascii_is_boundary(b: Seq<u8>, i: int)
    requires
        valid_utf8(b),
        0 <= i < b.len(),
        b[i] < 0x80,
    ensures
        is_char_boundary(b, i + 1),
    decreases b.len(),
{
    is_char_boundary_iff_not_is_continuation_byte(b, i);
    let l = length_of_first_scalar(b);
    let p = pop_first_scalar(b);
    if i < l {
        if i > 0 {
            reveal_with_fuel(is_char_boundary, 2);
            assert(false);
        }
        reveal_with_fuel(is_char_boundary, 2);
    } else {
        assert(p[i - l] == b[i]);
        lemma_after_ascii_is_boundary(p, i - l);
        reveal_with_fuel(is_char_boundary, 2);
    }
}

/// Splits `s` at byte `i`, which stands at an ASCII byte, just after one, or at an end.
pub fn split_ascii<'a>(s: &'a str, i: usize) -> (r: (&'a str, &'a str))
    requires
        i <= s.spec_bytes().len(),
        i == 0 || i == s.spec_bytes().len() || s.spec_bytes()[i as int] < 0x80
            || s.spec_bytes()[i - 1] < 0x80,
    ensures
        r.0.spec_bytes() == s.spec_bytes().subrange(0, i as int),
        r.1.spec_bytes() == tail(s.spec_bytes(), i as int),
{
    let ghost b = s.spec_bytes();
    proof {
        is_char_boundary_start_end_of_seq(b);
        if 0 < i < b.len() {
            if b[i as int] < 0x80 {
                is_char_boundary_iff_not_is_continuation_byte(b, i as int);
            } else {
                lemma_after_ascii_is_boundary(b, i - 1);
            }
        }
    }
    s.split_at(i)
}

} // verus!
