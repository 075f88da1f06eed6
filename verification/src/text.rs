//! Byte- and character-level facts shared by the checks.

use vstd::prelude::*;
use vstd::utf8::*;
use vstd::string::*;

verus! {

/// A byte below 0x80 encodes an ASCII character on its own.
pub open spec fn is_ascii_byte(b: u8) -> bool {
    b < 0x80
}

/// In valid UTF-8 an ASCII byte starts a character, and the position right
/// after it is a character boundary too.
pub proof fn lemma_ascii_boundary(b: Seq<u8>, i: int)
    requires
        valid_utf8(b),
        0 <= i < b.len(),
        is_ascii_byte(b[i]),
    ensures
        is_char_boundary(b, i),
        is_char_boundary(b, i + 1),
{
    is_char_boundary_iff_not_is_continuation_byte(b, i);
    valid_utf8_split(b, i);
    let s = b.subrange(i, b.len() as int);
    assert(s[0] == b[i]);
    assert(valid_first_scalar(s));
    assert(length_of_first_scalar(s) == 1);
    assert(pop_first_scalar(s) =~= b.subrange(i + 1, b.len() as int));
    if i + 1 == b.len() {
        is_char_boundary_start_end_of_seq(b);
    } else {
        let t = b.subrange(i + 1, b.len() as int);
        assert(valid_utf8(t));
        assert(valid_first_scalar(t));
        assert(t[0] == b[i + 1]);
        is_char_boundary_iff_not_is_continuation_byte(b, i + 1);
    }
}

/// Encoding distributes over concatenation.
pub proof fn lemma_encode_utf8_add(a: Seq<char>, c: Seq<char>)
    ensures
        encode_utf8(a + c) == encode_utf8(a) + encode_utf8(c),
    decreases a.len(),
{
    if a.len() == 0 {
        assert(a + c =~= c);
    } else {
        lemma_encode_utf8_add(a.drop_first(), c);
        assert((a + c).drop_first() =~= a.drop_first() + c);
        assert((a + c)[0] == a[0]);
        assert(encode_scalar(a[0] as u32) + (encode_utf8(a.drop_first()) + encode_utf8(c))
            =~= (encode_scalar(a[0] as u32) + encode_utf8(a.drop_first())) + encode_utf8(c));
    }
}

/// The bytes of a string slice are valid UTF-8.
pub proof fn lemma_str_valid(s: &str)
    ensures
        valid_utf8(s.spec_bytes()),
{
    encode_utf8_valid_utf8(s@);
}

/// The views of a sequence of strings.
pub open spec fn strings_view(v: Seq<String>) -> Seq<Seq<char>> {
    v.map_values(|s: String| s@)
}

/// Every backslash turned into a forward slash.
pub open spec fn forward_slashes(s: Seq<char>) -> Seq<char> {
    s.map_values(|c: char| if c == '\\' { '/' } else { c })
}

/// The characters of a string slice, in order (std's `str::chars`, collected).
#[verifier::external_body]
pub(crate) fn chars_of(s: &str) -> (v: Vec<char>)
    ensures
        v@ == s@,
{
    s.chars().collect()
}

/// A string holding exactly the given characters (std's `FromIterator<char>`
/// for `String`).
#[verifier::external_body]
pub(crate) fn string_of_chars(v: &Vec<char>) -> (s: String)
    ensures
        s@ == v@,
{
    v.iter().collect()
}

/// Replaces every `\` with `/`.
pub fn to_forward_slashes(s: &str) -> (r: String)
    ensures
        r@ == forward_slashes(s@),
{
    let cs = chars_of(s);
    let mut out: Vec<char> = Vec::new();
    let mut i: usize = 0;
    while i < cs.len()
        invariant
            i <= cs@.len(),
            cs@ == s@,
            out@ == forward_slashes(cs@.take(i as int)),
        decreases cs.len() - i,
    {
        let c = cs[i];
        if c == '\\' {
            out.push('/');
        } else {
            out.push(c);
        }
        assert(forward_slashes(cs@.take(i + 1)) =~= forward_slashes(cs@.take(i as int)).push(
            if c == '\\' { '/' } else { c },
        ));
        i = i + 1;
    }
    assert(cs@.take(cs@.len() as int) =~= cs@);
    string_of_chars(&out)
}

/// The decimal digit character for `d` (0 to 9).
pub open spec fn digit_char(d: nat) -> char {
    ((d + 48) as u8) as char
}

/// Decimal notation of a natural number, without leading zeros.
pub open spec fn decimal(n: nat) -> Seq<char>
    decreases n,
{
    if n < 10 {
        seq![digit_char(n)]
    } else {
        decimal(n / 10).push(digit_char(n % 10))
    }
}

fn push_decimal(n: usize, out: &mut Vec<char>)
    ensures
        final(out)@ == old(out)@ + decimal(n as nat),
    decreases n,
{
    if n >= 10 {
        push_decimal(n / 10, out);
    }
    let d: u8 = (n % 10) as u8;
    out.push((d + 48u8) as char);
    proof {
        if n >= 10 {
            assert(decimal(n as nat) == decimal((n / 10) as nat).push(digit_char((n % 10) as nat)));
        }
    }
}

/// Decimal notation of `n`, as `Display` for integers writes it.
pub fn decimal_string(n: usize) -> (r: String)
    ensures
        r@ == decimal(n as nat),
{
    let mut out: Vec<char> = Vec::new();
    push_decimal(n, &mut out);
    assert(out@ =~= decimal(n as nat));
    string_of_chars(&out)
}

/// The part of `text` between two character boundaries.
pub(crate) fn span_text(text: &str, start: usize, end: usize) -> (r: &str)
    requires
        start <= end <= text.spec_bytes().len(),
        is_char_boundary(text.spec_bytes(), start as int),
        is_char_boundary(text.spec_bytes(), end as int),
    ensures
        r.spec_bytes() == text.spec_bytes().subrange(start as int, end as int),
        r@ == decode_utf8(text.spec_bytes().subrange(start as int, end as int)),
{
    let ghost b = text.spec_bytes();
    let (ab, _) = text.split_at(end);
    proof {
        lemma_str_valid(text);
        let ab_b = ab.spec_bytes();
        if start < end {
            is_char_boundary_iff_not_is_continuation_byte(b, start as int);
            assert(ab_b[start as int] == b[start as int]);
            lemma_str_valid(ab);
            is_char_boundary_iff_not_is_continuation_byte(ab_b, start as int);
        } else {
            lemma_str_valid(ab);
            is_char_boundary_start_end_of_seq(ab_b);
        }
    }
    let (_, r) = ab.split_at(start);
    proof {
        assert(r.spec_bytes() =~= b.subrange(start as int, end as int));
        encode_utf8_decode_utf8(r@);
    }
    r
}

/// In UTF-8 text, the byte after a literal em dash (`E2 80 94`) that starts
/// on a character boundary is a character boundary too.
pub proof fn lemma_dash_end_boundary(b: Seq<u8>, i: int)
    requires
        valid_utf8(b),
        0 <= i,
        i + 3 <= b.len(),
        is_char_boundary(b, i),
        b[i] == 0xE2u8,
    ensures
        is_char_boundary(b, i + 3),
{
    valid_utf8_split(b, i);
    let s = b.subrange(i, b.len() as int);
    assert(s[0] == b[i]);
    assert(valid_first_scalar(s));
    assert(length_of_first_scalar(s) == 3);
    assert(pop_first_scalar(s) =~= b.subrange(i + 3, b.len() as int));
    if i + 3 == b.len() {
        is_char_boundary_start_end_of_seq(b);
    } else {
        let t = b.subrange(i + 3, b.len() as int);
        assert(valid_utf8(t));
        assert(valid_first_scalar(t));
        assert(t[0] == b[i + 3]);
        is_char_boundary_iff_not_is_continuation_byte(b, i + 3);
    }
}

} // verus!
