//! Character classification, lower-casing, and lexicographic order on
//! character sequences.

use vstd::prelude::*;

verus! {

/// What `char::is_alphanumeric` returns: whether the character is a Unicode
/// letter or digit.
pub uninterp spec fn is_alnum(c: char) -> bool;

/// What `char::is_whitespace` returns: whether the character has the Unicode
/// white-space property.
pub uninterp spec fn is_wspace(c: char) -> bool;

/// A character survives normalization when it is alphanumeric or whitespace.
pub open spec fn keep(c: char) -> bool {
    is_alnum(c) || is_wspace(c)
}

/// ASCII lower-casing: `'A'..='Z'` map to `'a'..='z'`, everything else is
/// unchanged.
pub open spec fn ascii_lower(c: char) -> char {
    if 'A' as u32 <= c as u32 && c as u32 <= 'Z' as u32 {
        (((c as u32) + 32) as u32) as char
    } else {
        c
    }
}

/// The Unicode scalar values: exactly the `u32` values that are the code of
/// some `char`.
pub open spec fn is_scalar_u32(x: u32) -> bool {
    x < 0xD800 || (0xE000 <= x && x <= 0x10FFFF)
}

/// Relies on `char::is_alphanumeric`: on ASCII it holds exactly of the
/// letters and digits (all other ASCII characters are punctuation, symbols
/// or controls), and the ASCII lowercase of an alphanumeric character is
/// alphanumeric (lower-casing `'A'..='Z'` yields the letters `'a'..='z'`).
#[verifier::external_body]
pub fn exec_is_alnum(c: char) -> (r: bool)
    ensures
        r == is_alnum(c),
        (c as u32) < 0x80 ==> r == (('a' as u32 <= c as u32 && c as u32 <= 'z' as u32) || (
        'A' as u32 <= c as u32 && c as u32 <= 'Z' as u32) || ('0' as u32 <= c as u32 && c as u32
            <= '9' as u32)),
        r ==> is_alnum(ascii_lower(c)),
{
    c.is_alphanumeric()
}

/// Relies on `char::is_whitespace`: on ASCII it holds exactly of the six
/// characters with the Unicode `White_Space` property — space, horizontal
/// tab, line feed, vertical tab, form feed and carriage return.
#[verifier::external_body]
pub fn exec_is_wspace(c: char) -> (r: bool)
    ensures
        r == is_wspace(c),
        (c as u32) < 0x80 ==> r == (c == ' ' || c as u32 == 0x09 || c as u32 == 0x0A || c as u32
            == 0x0B || c as u32 == 0x0C || c as u32 == 0x0D),
{
    c.is_whitespace()
}

/// What `char::to_lowercase` yields: the full Unicode lowercase mapping of
/// the character, as its sequence of characters.
pub uninterp spec fn lower_of(c: char) -> Seq<char>;

/// Relies on `char::to_lowercase`: the lowercase mapping is never empty (a
/// character with no conversion yields itself), and on ASCII it is exactly
/// ASCII lower-casing, whose result (a lowercase letter, digit, punctuation
/// or control) has no further conversion and maps to itself.
#[verifier::external_body]
pub fn exec_lower(c: char) -> (r: String)
    ensures
        r@ == lower_of(c),
        r@.len() >= 1,
        (c as u32) < 0x80 ==> r@ == seq![ascii_lower(c)],
        (c as u32) < 0x80 ==> lower_of(ascii_lower(c)) == r@,
{
    c.to_lowercase().collect()
}

/// Relies on `char::from_u32`: it returns the character with the given code
/// exactly when the value is a Unicode scalar value.
#[verifier::external_body]
pub fn char_from_u32(x: u32) -> (r: Option<char>)
    ensures
        r is Some <==> is_scalar_u32(x),
        r is Some ==> r->0 as u32 == x,
{
    char::from_u32(x)
}

/// Relies on `String::push`: it appends the character at the end.
#[verifier::external_body]
pub fn push_char(s: &mut String, c: char)
    ensures
        final(s)@ == old(s)@.push(c),
{
    s.push(c)
}

/// Strict lexicographic order on character sequences, by Unicode code point.
pub open spec fn lex_lt(a: Seq<char>, b: Seq<char>) -> bool
    decreases a.len(),
{
    if b.len() == 0 {
        false
    } else if a.len() == 0 {
        true
    } else if (a[0] as u32) < (b[0] as u32) {
        true
    } else if (b[0] as u32) < (a[0] as u32) {
        false
    } else {
        lex_lt(a.drop_first(), b.drop_first())
    }
}

/// Two characters with equal codes are equal.
pub proof fn lemma_char_code_injective(a: char, b: char)
    requires
        a as u32 == b as u32,
    ensures
        a == b,
{
    vstd::utf8::char_u32_cast(a, a as u32);
    vstd::utf8::char_u32_cast(b, b as u32);
}

/// `lex_lt` is irreflexive.
pub proof fn lemma_lex_lt_irrefl(a: Seq<char>)
    ensures
        !lex_lt(a, a),
    decreases a.len(),
{
    if a.len() > 0 {
        lemma_lex_lt_irrefl(a.drop_first());
    }
}

/// `lex_lt` is transitive.
pub proof fn lemma_lex_lt_trans(a: Seq<char>, b: Seq<char>, c: Seq<char>)
    requires
        lex_lt(a, b),
        lex_lt(b, c),
    ensures
        lex_lt(a, c),
    decreases a.len(),
{
    if c.len() == 0 || b.len() == 0 || a.len() == 0 {
    } else if (a[0] as u32) < (b[0] as u32) {
        if (b[0] as u32) <= (c[0] as u32) {
        }
    } else if (b[0] as u32) < (c[0] as u32) {
    } else {
        lemma_lex_lt_trans(a.drop_first(), b.drop_first(), c.drop_first());
    }
}

/// Sequences that compare neither way under `lex_lt` are equal.
pub proof fn lemma_lex_lt_connex(a: Seq<char>, b: Seq<char>)
    requires
        !lex_lt(a, b),
        !lex_lt(b, a),
    ensures
        a == b,
    decreases a.len(),
{
    if a.len() == 0 || b.len() == 0 {
        assert(a =~= b);
    } else {
        lemma_char_code_injective(a[0], b[0]);
        lemma_lex_lt_connex(a.drop_first(), b.drop_first());
        assert(a =~= seq![a[0]] + a.drop_first());
        assert(b =~= seq![b[0]] + b.drop_first());
    }
}

/// Executable comparison of two strings under [`lex_lt`].
pub fn lex_lt_exec(a: &String, b: &String) -> (r: bool)
    ensures
        r == lex_lt(a@, b@),
{
    let alen = a.as_str().unicode_len();
    let blen = b.as_str().unicode_len();
    let mut i: usize = 0;
    proof {
        assert(a@.skip(0) =~= a@);
        assert(b@.skip(0) =~= b@);
    }
    loop
        invariant
            i <= alen,
            i <= blen,
            alen == a@.len(),
            blen == b@.len(),
            forall|k: int| 0 <= k < i ==> a@[k] == b@[k],
            lex_lt(a@, b@) == lex_lt(a@.skip(i as int), b@.skip(i as int)),
        decreases alen - i,
    {
        if i >= alen || i >= blen {
            proof {
                assert(a@.skip(i as int).len() == alen - i);
                assert(b@.skip(i as int).len() == blen - i);
            }
            return i >= alen && i < blen;
        }
        let ca = a.as_str().get_char(i);
        let cb = b.as_str().get_char(i);
        let ua = ca as u32;
        let ub = cb as u32;
        if ua < ub {
            assert(lex_lt(a@.skip(i as int), b@.skip(i as int)));
            return true;
        } else if ub < ua {
            assert(!lex_lt(a@.skip(i as int), b@.skip(i as int)));
            return false;
        } else {
            proof {
                lemma_char_code_injective(ca, cb);
                assert(a@.skip(i as int).drop_first() =~= a@.skip(i + 1));
                assert(b@.skip(i as int).drop_first() =~= b@.skip(i + 1));
            }
            i = i + 1;
        }
    }
}

} // verus!
