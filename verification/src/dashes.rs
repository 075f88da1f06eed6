//! Where an em dash (U+2014) is written in the source of a text or raw HTML
//! node, and the same source with each one turned into ` - `.
//!
//! In text the parser decodes character references, so an em dash may be
//! written as the character itself, as `&mdash;` (any HTML5 name that stands
//! for it), as `&#8212;` or as `&#x2014;`; a backslash before ASCII
//! punctuation escapes it, so `\&mdash;` is no dash. Raw HTML keeps its
//! source as it is, so there only the character itself counts.

use vstd::prelude::*;
use vstd::string::*;
use vstd::utf8::*;
use crate::markdown::{em_dash_at, is_ascii_alnum};
use crate::text::{lemma_ascii_boundary, lemma_dash_end_boundary, lemma_encode_utf8_add, lemma_str_valid, span_text};

verus! {

/// ASCII digit.
pub open spec fn is_ascii_digit(b: u8) -> bool {
    48u8 <= b <= 57u8
}

/// ASCII hexadecimal digit.
pub open spec fn is_ascii_hex(b: u8) -> bool {
    is_ascii_digit(b) || (65u8 <= b <= 70u8) || (97u8 <= b <= 102u8)
}

/// ASCII punctuation, the characters a backslash escapes.
pub open spec fn is_ascii_punct(b: u8) -> bool {
    (33u8 <= b <= 47u8) || (58u8 <= b <= 64u8) || (91u8 <= b <= 96u8) || (123u8 <= b <= 126u8)
}

/// The bytes a reference value may hold: letters and digits for a name
/// (class 0), digits for a decimal number (class 1), hexadecimal digits
/// (class 2).
pub open spec fn in_class(b: u8, class: u8) -> bool {
    if class == 0 {
        is_ascii_alnum(b)
    } else if class == 1 {
        is_ascii_digit(b)
    } else {
        is_ascii_hex(b)
    }
}

/// How many bytes of `class` follow from `from` on.
pub open spec fn run_len(v: Seq<u8>, from: int, class: u8) -> nat
    decreases v.len() - from,
{
    if 0 <= from < v.len() && in_class(v[from], class) {
        1 + run_len(v, from + 1, class)
    } else {
        0
    }
}

/// The value of a (decimal or hexadecimal) digit.
pub open spec fn digit_value(b: u8) -> nat {
    if is_ascii_digit(b) {
        (b - 48) as nat
    } else if 65u8 <= b <= 70u8 {
        (b - 55) as nat
    } else {
        (b - 87) as nat
    }
}

/// The number that the `n` digits of `v` from `from` on write in `radix`.
pub open spec fn digits_value(v: Seq<u8>, from: int, n: int, radix: nat) -> nat
    decreases n,
{
    if n <= 0 {
        0
    } else {
        digits_value(v, from, n - 1, radix) * radix + digit_value(v[from + n - 1])
    }
}

/// The em dash as text.
pub open spec fn em_dash_text() -> Seq<char> {
    seq!['\u{2014}']
}

/// What `markdown::decode_named(name, true)` returns: the text an HTML5
/// named character reference stands for, if `name` is one.
pub uninterp spec fn named_reference(name: Seq<char>) -> Option<Seq<char>>;

/// Calls `markdown::decode_named` with the HTML5 table, as the parser does
/// for text. Claims that the outcome is what `named_reference` names for
/// the name.
#[verifier::external_body]
fn decode_named_reference(name: &str) -> (r: Option<String>)
    ensures
        match r {
            Some(s) => named_reference(name@) == Some(s@),
            None => named_reference(name@) is None,
        },
{
    ::markdown::decode_named(name, true)
}

/// Length of a character reference for the em dash at `i`, else 0: `&#`
/// with 1 to 7 decimal digits, `&#x` or `&#X` with 1 to 6 hexadecimal
/// digits, or `&` with a name of 1 to 31 letters and digits, closed by `;`.
/// Numbers stand for the character with that code point, names for what
/// the HTML5 table gives them.
pub open spec fn ref_dash_len(v: Seq<u8>, i: int) -> nat {
    if !(0 <= i && i + 1 < v.len() && v[i] == 38u8) {
        0
    } else if v[i + 1] == 35u8 {
        if i + 2 < v.len() && (v[i + 2] == 120u8 || v[i + 2] == 88u8) {
            let n = run_len(v, i + 3, 2);
            if 1 <= n <= 6 && i + 3 + n < v.len() && v[i + 3 + n] == 59u8 && digits_value(v, i + 3, n as int, 16)
                == 0x2014 {
                n + 4
            } else {
                0
            }
        } else {
            let n = run_len(v, i + 2, 1);
            if 1 <= n <= 7 && i + 2 + n < v.len() && v[i + 2 + n] == 59u8 && digits_value(v, i + 2, n as int, 10)
                == 0x2014 {
                n + 3
            } else {
                0
            }
        }
    } else {
        let n = run_len(v, i + 1, 0);
        if 1 <= n <= 31 && i + 1 + n < v.len() && v[i + 1 + n] == 59u8 && named_reference(
            decode_utf8(v.subrange(i + 1, i + 1 + n)),
        ) == Some(em_dash_text()) {
            n + 2
        } else {
            0
        }
    }
}

/// Length of the em dash written at `i`, else 0. In raw HTML (`decoded`
/// false) only the character itself counts.
pub open spec fn dash_len(v: Seq<u8>, i: int, decoded: bool) -> nat {
    if em_dash_at(v, i) {
        3
    } else if decoded {
        ref_dash_len(v, i)
    } else {
        0
    }
}

/// A backslash escape of ASCII punctuation at `i`, in text.
pub open spec fn escape_at(v: Seq<u8>, i: int, decoded: bool) -> bool {
    decoded && 0 <= i && i + 1 < v.len() && v[i] == 92u8 && is_ascii_punct(v[i + 1])
}

/// Where the em dashes written in `v` from `i` on start, reading left to
/// right: an escape pair is skipped whole, a dash is skipped whole.
pub open spec fn dash_positions(v: Seq<u8>, i: int, decoded: bool) -> Seq<int>
    decreases v.len() - i,
{
    if i < 0 || i >= v.len() {
        seq![]
    } else if escape_at(v, i, decoded) {
        dash_positions(v, i + 2, decoded)
    } else if dash_len(v, i, decoded) > 0 {
        seq![i] + dash_positions(v, i + dash_len(v, i, decoded), decoded)
    } else {
        dash_positions(v, i + 1, decoded)
    }
}

/// The bytes ` - `.
pub open spec fn spaced_hyphen() -> Seq<u8> {
    seq![32u8, 45u8, 32u8]
}

/// `v` from `i` on with each em dash that `dash_positions` finds replaced
/// by ` - ` and every other byte kept.
pub open spec fn dash_fixed(v: Seq<u8>, i: int, decoded: bool) -> Seq<u8>
    decreases v.len() - i,
{
    if i < 0 || i >= v.len() {
        seq![]
    } else if escape_at(v, i, decoded) {
        v.subrange(i, i + 2) + dash_fixed(v, i + 2, decoded)
    } else if dash_len(v, i, decoded) > 0 {
        spaced_hyphen() + dash_fixed(v, i + dash_len(v, i, decoded), decoded)
    } else {
        seq![v[i]] + dash_fixed(v, i + 1, decoded)
    }
}

fn in_class_exec(b: u8, class: u8) -> (r: bool)
    ensures
        r == in_class(b, class),
{
    if class == 0 {
        (48u8 <= b && b <= 57u8) || (65u8 <= b && b <= 90u8) || (97u8 <= b && b <= 122u8)
    } else if class == 1 {
        48u8 <= b && b <= 57u8
    } else {
        (48u8 <= b && b <= 57u8) || (65u8 <= b && b <= 70u8) || (97u8 <= b && b <= 102u8)
    }
}

proof fn lemma_run_len_split(v: Seq<u8>, from: int, j: int, class: u8)
    requires
        0 <= from <= j <= v.len(),
        forall|k: int| from <= k < j ==> in_class(#[trigger] v[k], class),
    ensures
        run_len(v, from, class) == (j - from) + run_len(v, j, class),
    decreases j - from,
{
    if from < j {
        lemma_run_len_split(v, from + 1, j, class);
    }
}

/// The length of the run of `class` bytes from `from`, when it is at most
/// `max`; some number above `max` otherwise.
fn class_run(v: &[u8], from: usize, class: u8, max: usize) -> (n: usize)
    requires
        from <= v@.len(),
        max < 64,
    ensures
        n <= max ==> n == run_len(v@, from as int, class),
        n > max ==> run_len(v@, from as int, class) > max,
        n <= max + 1,
        from + n <= v@.len(),
{
    let mut j: usize = from;
    while j < v.len() && j - from <= max && in_class_exec(v[j], class)
        invariant
            from <= j <= v@.len(),
            j - from <= max + 1,
            max < 64,
            forall|k: int| from <= k < j ==> in_class(#[trigger] v@[k], class),
        decreases v@.len() - j,
    {
        j = j + 1;
    }
    proof {
        lemma_run_len_split(v@, from as int, j as int, class);
    }
    j - from
}

/// Past every code point: the cap of the running number.
pub open spec fn number_cap() -> nat {
    0x110000
}

/// The number the `n` digits from `from` write, or `number_cap()` when it
/// is at least that.
fn capped_number(v: &[u8], from: usize, n: usize, radix: u64) -> (r: u64)
    requires
        from + n <= v@.len(),
        radix == 10 || radix == 16,
        forall|k: int| from <= k < from + n ==> is_ascii_hex(#[trigger] v@[k]),
    ensures
        r == if digits_value(v@, from as int, n as int, radix as nat) < number_cap() {
            digits_value(v@, from as int, n as int, radix as nat)
        } else {
            number_cap()
        },
{
    let len = v.len();
    let mut acc: u64 = 0;
    let mut k: usize = 0;
    while k < n
        invariant
            len == v@.len(),
            k <= n,
            from + n <= v@.len(),
            radix == 10 || radix == 16,
            forall|q: int| from <= q < from + n ==> is_ascii_hex(#[trigger] v@[q]),
            acc == if digits_value(v@, from as int, k as int, radix as nat) < number_cap() {
                digits_value(v@, from as int, k as int, radix as nat)
            } else {
                number_cap()
            },
        decreases n - k,
    {
        let b = v[from + k];
        let d: u64 = if 48u8 <= b && b <= 57u8 {
            (b - 48u8) as u64
        } else if 65u8 <= b && b <= 70u8 {
            (b - 55u8) as u64
        } else {
            (b - 87u8) as u64
        };
        let ghost prev = digits_value(v@, from as int, k as int, radix as nat);
        assert(digits_value(v@, from as int, k + 1, radix as nat) == prev * radix + d);
        if acc == 0x110000 {
            assert(prev * radix + d >= prev) by (nonlinear_arith)
                requires
                    radix >= 1,
                    prev >= 0,
                    d >= 0,
            ;
        } else {
            assert(acc * radix + d < 0x1200000) by (nonlinear_arith)
                requires
                    acc < 0x110000,
                    radix <= 16,
                    d < 16,
            ;
            let next = acc * radix + d;
            acc = if next < 0x110000 { next } else { 0x110000 };
        }
        k = k + 1;
    }
    acc
}

/// The length of the em dash written at `i` of `text`, else 0.
fn dash_len_exec(text: &str, i: usize, decoded: bool) -> (r: usize)
    requires
        i < text.spec_bytes().len(),
    ensures
        r == dash_len(text.spec_bytes(), i as int, decoded),
{
    let v = text.as_bytes();
    if v.len() - i >= 3 && v[i] == 0xE2u8 && v[i + 1] == 0x80u8 && v[i + 2] == 0x94u8 {
        return 3;
    }
    if !decoded || v[i] != 38u8 || i + 1 >= v.len() {
        return 0;
    }
    if v[i + 1] == 35u8 {
        if i + 2 < v.len() && (v[i + 2] == 120u8 || v[i + 2] == 88u8) {
            let n = class_run(v, i + 3, 2, 6);
            if 1 <= n && n <= 6 && i + 3 + n < v.len() && v[i + 3 + n] == 59u8 {
                proof {
                    assert forall|k: int| i + 3 <= k < i + 3 + n implies is_ascii_hex(#[trigger] v@[k]) by {
                        lemma_run_len_prefix(v@, i + 3, k, 2);
                    }
                }
                let x = capped_number(v, i + 3, n, 16);
                if x == 0x2014 {
                    return n + 4;
                }
            }
            0
        } else {
            let n = class_run(v, i + 2, 1, 7);
            if 1 <= n && n <= 7 && i + 2 + n < v.len() && v[i + 2 + n] == 59u8 {
                proof {
                    assert forall|k: int| i + 2 <= k < i + 2 + n implies is_ascii_hex(#[trigger] v@[k]) by {
                        lemma_run_len_prefix(v@, i + 2, k, 1);
                    }
                }
                let x = capped_number(v, i + 2, n, 10);
                if x == 0x2014 {
                    return n + 3;
                }
            }
            0
        }
    } else {
        let n = class_run(v, i + 1, 0, 31);
        if 1 <= n && n <= 31 && i + 1 + n < v.len() && v[i + 1 + n] == 59u8 {
            proof {
                lemma_str_valid(text);
                lemma_ascii_boundary(v@, i as int);
                lemma_ascii_boundary(v@, (i + 1 + n) as int);
            }
            let name = span_text(text, i + 1, i + 1 + n);
            match decode_named_reference(name) {
                Some(s) => {
                    let dash = "\u{2014}".to_owned();
                    proof {
                        reveal_strlit("\u{2014}");
                        assert(dash@ =~= em_dash_text());
                    }
                    if s == dash {
                        return n + 2;
                    }
                    0
                },
                None => 0,
            }
        } else {
            0
        }
    }
}

proof fn lemma_run_len_prefix(v: Seq<u8>, from: int, k: int, class: u8)
    requires
        from <= k < from + run_len(v, from, class),
        0 <= from,
    ensures
        in_class(v[k], class),
        0 <= k < v.len(),
    decreases k - from,
{
    if from < k {
        lemma_run_len_prefix(v, from + 1, k, class);
    }
}

/// The byte offsets in `text` where the em dashes written in it start, in
/// order.
pub fn dash_offsets(text: &str, decoded: bool) -> (r: Vec<usize>)
    ensures
        r@.map_values(|x: usize| x as int) == dash_positions(text.spec_bytes(), 0, decoded),
{
    let v = text.as_bytes();
    let ghost all = dash_positions(v@, 0, decoded);
    let mut out: Vec<usize> = Vec::new();
    let mut i: usize = 0;
    while i < v.len()
        invariant
            i <= v@.len(),
            v@ == text.spec_bytes(),
            out@.map_values(|x: usize| x as int) + dash_positions(v@, i as int, decoded) == all,
        decreases v@.len() - i,
    {
        let ghost before = out@.map_values(|x: usize| x as int);
        if decoded && i + 1 < v.len() && v[i] == 92u8 && {
            let c = v[i + 1];
            (33u8 <= c && c <= 47u8) || (58u8 <= c && c <= 64u8) || (91u8 <= c && c <= 96u8) || (123u8 <= c
                && c <= 126u8)
        } {
            assert(escape_at(v@, i as int, decoded));
            i = i + 2;
        } else {
            assert(!escape_at(v@, i as int, decoded));
            let n = dash_len_exec(text, i, decoded);
            if n > 0 {
                out.push(i);
                assert(out@.map_values(|x: usize| x as int) =~= before.push(i as int));
                assert(before.push(i as int) + dash_positions(v@, i + n, decoded) =~= before + (seq![i as int]
                    + dash_positions(v@, i + n, decoded)));
                proof {
                    lemma_dash_len_bound(v@, i as int, decoded);
                }
                i = i + n;
            } else {
                i = i + 1;
            }
        }
    }
    assert(dash_positions(v@, i as int, decoded) =~= Seq::<int>::empty());
    assert(out@.map_values(|x: usize| x as int) =~= all);
    out
}

proof fn lemma_dash_len_bound(v: Seq<u8>, i: int, decoded: bool)
    requires
        0 <= i < v.len(),
    ensures
        i + dash_len(v, i, decoded) <= v.len(),
{
}

proof fn lemma_dash_bounds(v: Seq<u8>, i: int, decoded: bool)
    requires
        valid_utf8(v),
        0 <= i < v.len(),
        dash_len(v, i, decoded) > 0,
    ensures
        is_char_boundary(v, i),
        is_char_boundary(v, i + dash_len(v, i, decoded)),
{
    if em_dash_at(v, i) {
        is_char_boundary_iff_not_is_continuation_byte(v, i);
        lemma_dash_end_boundary(v, i);
    } else {
        let n = dash_len(v, i, decoded);
        lemma_ascii_boundary(v, i);
        lemma_ascii_boundary(v, i + n - 1);
    }
}

/// `text` with each em dash written in it turned into ` - `, every other
/// byte kept as it was.
pub fn fix_dashes(text: &str, decoded: bool) -> (r: String)
    ensures
        encode_utf8(r@) == dash_fixed(text.spec_bytes(), 0, decoded),
{
    let v = text.as_bytes();
    let ghost all = dash_fixed(v@, 0, decoded);
    proof {
        lemma_str_valid(text);
        is_char_boundary_start_end_of_seq(v@);
    }
    let hyphen = " - ";
    proof {
        reveal_strlit(" - ");
        assert(is_ascii_chars(hyphen@));
        is_ascii_chars_encode_utf8(hyphen@);
        assert(encode_utf8(hyphen@) =~= spaced_hyphen());
    }
    let mut out = String::new();
    let mut seg: usize = 0;
    let mut i: usize = 0;
    assert(encode_utf8(out@) =~= Seq::<u8>::empty());
    while i < v.len()
        invariant
            seg <= i <= v@.len(),
            v@ == text.spec_bytes(),
            valid_utf8(v@),
            is_char_boundary(v@, seg as int),
            encode_utf8(hyphen@) == spaced_hyphen(),
            encode_utf8(out@) + v@.subrange(seg as int, i as int) + dash_fixed(v@, i as int, decoded) == all,
        decreases v@.len() - i,
    {
        let ghost o = encode_utf8(out@);
        let ghost oc = out@;
        if decoded && i + 1 < v.len() && v[i] == 92u8 && {
            let c = v[i + 1];
            (33u8 <= c && c <= 47u8) || (58u8 <= c && c <= 64u8) || (91u8 <= c && c <= 96u8) || (123u8 <= c
                && c <= 126u8)
        } {
            assert(escape_at(v@, i as int, decoded));
            assert(v@.subrange(seg as int, i as int) + v@.subrange(i as int, i + 2) =~= v@.subrange(
                seg as int,
                i + 2,
            ));
            assert(o + v@.subrange(seg as int, i as int) + dash_fixed(v@, i as int, decoded) =~= o + v@.subrange(
                seg as int,
                i + 2,
            ) + dash_fixed(v@, i + 2, decoded));
            i = i + 2;
        } else {
            assert(!escape_at(v@, i as int, decoded));
            let n = dash_len_exec(text, i, decoded);
            if n > 0 {
                proof {
                    lemma_dash_len_bound(v@, i as int, decoded);
                    lemma_dash_bounds(v@, i as int, decoded);
                }
                let piece = span_text(text, seg, i);
                out.append(piece);
                out.append(hyphen);
                proof {
                    lemma_encode_utf8_add(oc, piece@);
                    lemma_encode_utf8_add(oc + piece@, hyphen@);
                    assert(out@ =~= oc + piece@ + hyphen@);
                    assert(v@.subrange(i + n, i + n) =~= Seq::<u8>::empty());
                    assert(o + v@.subrange(seg as int, i as int) + dash_fixed(v@, i as int, decoded) =~= o
                        + v@.subrange(seg as int, i as int) + spaced_hyphen() + v@.subrange(i + n, i + n)
                        + dash_fixed(v@, i + n, decoded));
                }
                seg = i + n;
                i = i + n;
            } else {
                assert(v@.subrange(seg as int, i as int).push(v@[i as int]) =~= v@.subrange(seg as int, i + 1));
                assert(o + v@.subrange(seg as int, i as int) + dash_fixed(v@, i as int, decoded) =~= o + v@.subrange(
                    seg as int,
                    i + 1,
                ) + dash_fixed(v@, i + 1, decoded));
                i = i + 1;
            }
        }
    }
    let ghost oc = out@;
    let piece = span_text(text, seg, v.len());
    out.append(piece);
    proof {
        lemma_encode_utf8_add(oc, piece@);
        assert(dash_fixed(v@, i as int, decoded) =~= Seq::<u8>::empty());
    }
    out
}

/// Every position `dash_positions` finds lies in `v`, from `i` on.
pub proof fn lemma_dash_positions_range(v: Seq<u8>, i: int, decoded: bool)
    requires
        0 <= i,
    ensures
        forall|q: int|
            0 <= q < dash_positions(v, i, decoded).len() ==> i <= #[trigger] dash_positions(v, i, decoded)[q]
                < v.len(),
    decreases v.len() - i,
{
    if i < v.len() {
        if escape_at(v, i, decoded) {
            lemma_dash_positions_range(v, i + 2, decoded);
            assert(dash_positions(v, i, decoded) == dash_positions(v, i + 2, decoded));
        } else if dash_len(v, i, decoded) > 0 {
            let n = dash_len(v, i, decoded);
            lemma_dash_positions_range(v, i + n, decoded);
            let rest = dash_positions(v, i + n, decoded);
            assert(dash_positions(v, i, decoded) == seq![i] + rest);
            assert forall|q: int| 0 <= q < (seq![i] + rest).len() implies i <= #[trigger] (seq![i] + rest)[q] < v.len() by {
                if q > 0 {
                    assert((seq![i] + rest)[q] == rest[q - 1]);
                }
            }
        } else {
            lemma_dash_positions_range(v, i + 1, decoded);
            assert(dash_positions(v, i, decoded) == dash_positions(v, i + 1, decoded));
        }
    }
}

/// Bytes that never start an escape, an em dash or a reference: letters,
/// digits, `#`, `;` and UTF-8 continuation bytes.
pub open spec fn is_inert(b: u8) -> bool {
    is_ascii_alnum(b) || b == 35u8 || b == 59u8 || (0x80u8 <= b <= 0xBFu8)
}

proof fn lemma_run_len_local(v: Seq<u8>, p: int, w: Seq<u8>, q: int, class: u8)
    requires
        0 <= p,
        0 <= q,
        p + run_len(v, p, class) < v.len(),
        q + run_len(v, p, class) < w.len(),
        forall|m: int| 0 <= m <= run_len(v, p, class) ==> w[q + m] == #[trigger] v[p + m],
    ensures
        run_len(w, q, class) == run_len(v, p, class),
    decreases run_len(v, p, class),
{
    if run_len(v, p, class) > 0 {
        assert forall|m: int| 0 <= m <= run_len(v, p + 1, class) implies w[q + 1 + m] == #[trigger] v[p + 1 + m] by {
            assert(w[q + (m + 1)] == v[p + (m + 1)]);
        }
        lemma_run_len_local(v, p + 1, w, q + 1, class);
        assert(w[q + 0] == v[p + 0]);
    } else {
        assert(w[q + 0] == v[p + 0]);
    }
}

proof fn lemma_digits_local(v: Seq<u8>, p: int, w: Seq<u8>, q: int, n: int, radix: nat)
    requires
        forall|m: int| 0 <= m < n ==> w[q + m] == #[trigger] v[p + m],
    ensures
        digits_value(w, q, n, radix) == digits_value(v, p, n, radix),
    decreases n,
{
    if n > 0 {
        lemma_digits_local(v, p, w, q, n - 1, radix);
        assert(w[q + (n - 1)] == v[p + (n - 1)]);
    }
}

/// Whether an em dash is written at a position depends only on the bytes
/// that write it.
proof fn lemma_dash_len_local(v: Seq<u8>, p: int, w: Seq<u8>, q: int, decoded: bool)
    requires
        0 <= p,
        0 <= q,
        dash_len(v, p, decoded) > 0,
        q + dash_len(v, p, decoded) <= w.len(),
        forall|m: int| 0 <= m < dash_len(v, p, decoded) ==> w[q + m] == #[trigger] v[p + m],
    ensures
        dash_len(w, q, decoded) == dash_len(v, p, decoded),
{
    let l = dash_len(v, p, decoded);
    assert(w[q + 0] == v[p + 0]);
    if em_dash_at(v, p) {
        assert(w[q + 1] == v[p + 1]);
        assert(w[q + 2] == v[p + 2]);
    } else {
        assert(w[q + 1] == v[p + 1]);
        if v[p + 1] == 35u8 {
            if p + 2 < v.len() && (v[p + 2] == 120u8 || v[p + 2] == 88u8) {
                assert(w[q + 2] == v[p + 2]);
                let n = run_len(v, p + 3, 2);
                assert forall|m: int| 0 <= m <= n implies w[q + 3 + m] == #[trigger] v[p + 3 + m] by {
                    assert(w[q + (3 + m)] == v[p + (3 + m)]);
                }
                lemma_run_len_local(v, p + 3, w, q + 3, 2);
                assert forall|m: int| 0 <= m < n implies w[q + 3 + m] == #[trigger] v[p + 3 + m] by {
                    assert(w[q + (3 + m)] == v[p + (3 + m)]);
                }
                lemma_digits_local(v, p + 3, w, q + 3, n as int, 16);
            } else {
                if q + 2 < w.len() {
                    assert(w[q + 2] == v[p + 2]);
                }
                let n = run_len(v, p + 2, 1);
                assert forall|m: int| 0 <= m <= n implies w[q + 2 + m] == #[trigger] v[p + 2 + m] by {
                    assert(w[q + (2 + m)] == v[p + (2 + m)]);
                }
                lemma_run_len_local(v, p + 2, w, q + 2, 1);
                assert forall|m: int| 0 <= m < n implies w[q + 2 + m] == #[trigger] v[p + 2 + m] by {
                    assert(w[q + (2 + m)] == v[p + (2 + m)]);
                }
                lemma_digits_local(v, p + 2, w, q + 2, n as int, 10);
            }
        } else {
            let n = run_len(v, p + 1, 0);
            assert forall|m: int| 0 <= m <= n implies w[q + 1 + m] == #[trigger] v[p + 1 + m] by {
                assert(w[q + (1 + m)] == v[p + (1 + m)]);
            }
            lemma_run_len_local(v, p + 1, w, q + 1, 0);
            assert forall|k: int| 0 <= k < n implies #[trigger] w.subrange(q + 1, q + 1 + n)[k] == v.subrange(p + 1, p + 1 + n)[k] by {
                assert(w[q + 1 + k] == v[p + 1 + k]);
            }
            assert(w.subrange(q + 1, q + 1 + n) =~= v.subrange(p + 1, p + 1 + n));
        }
    }
}

/// Every byte of an em dash written at `p`, after the first, is inert.
proof fn lemma_dash_tail_inert(v: Seq<u8>, p: int, decoded: bool)
    requires
        0 <= p,
        dash_len(v, p, decoded) > 0,
    ensures
        p + dash_len(v, p, decoded) <= v.len(),
        forall|m: int| 1 <= m < dash_len(v, p, decoded) ==> is_inert(#[trigger] v[p + m]),
{
    if !em_dash_at(v, p) {
        if v[p + 1] == 35u8 {
            if p + 2 < v.len() && (v[p + 2] == 120u8 || v[p + 2] == 88u8) {
                assert forall|m: int| 1 <= m < dash_len(v, p, decoded) implies is_inert(#[trigger] v[p + m]) by {
                    if 3 <= m < 3 + run_len(v, p + 3, 2) {
                        lemma_run_len_prefix(v, p + 3, p + m, 2);
                    }
                }
            } else {
                assert forall|m: int| 1 <= m < dash_len(v, p, decoded) implies is_inert(#[trigger] v[p + m]) by {
                    if 2 <= m < 2 + run_len(v, p + 2, 1) {
                        lemma_run_len_prefix(v, p + 2, p + m, 1);
                    }
                }
            }
        } else {
            assert forall|m: int| 1 <= m < dash_len(v, p, decoded) implies is_inert(#[trigger] v[p + m]) by {
                if 1 <= m < 1 + run_len(v, p + 1, 0) {
                    lemma_run_len_prefix(v, p + 1, p + m, 0);
                }
            }
        }
    }
}

pub(crate) proof fn lemma_fixed_first(v: Seq<u8>, p: int, decoded: bool)
    requires
        0 <= p < v.len(),
    ensures
        dash_fixed(v, p, decoded).len() > 0,
        dash_fixed(v, p, decoded)[0] == if !escape_at(v, p, decoded) && dash_len(v, p, decoded) > 0 {
            32u8
        } else {
            v[p]
        },
{
}

/// Inert bytes at the start of a fixed text were copied from the source.
proof fn lemma_inert_prefix(v: Seq<u8>, p: int, m: int, decoded: bool)
    requires
        0 <= p <= v.len(),
        0 <= m <= dash_fixed(v, p, decoded).len(),
        forall|j: int| 0 <= j < m ==> is_inert(#[trigger] dash_fixed(v, p, decoded)[j]),
    ensures
        p + m <= v.len(),
        forall|j: int| 0 <= j < m ==> v[p + j] == #[trigger] dash_fixed(v, p, decoded)[j],
    decreases m,
{
    if m > 0 {
        let out = dash_fixed(v, p, decoded);
        assert(is_inert(out[0]));
        assert(p < v.len());
        lemma_fixed_first(v, p, decoded);
        assert(!escape_at(v, p, decoded));
        assert(dash_len(v, p, decoded) == 0);
        let rest = dash_fixed(v, p + 1, decoded);
        assert(out == seq![v[p]] + rest);
        assert forall|j: int| 0 <= j < m - 1 implies is_inert(#[trigger] rest[j]) by {
            assert(out[j + 1] == rest[j]);
        }
        lemma_inert_prefix(v, p + 1, m - 1, decoded);
        assert forall|j: int| 0 <= j < m implies v[p + j] == #[trigger] out[j] by {
            if j > 0 {
                assert(out[j] == rest[j - 1]);
                assert(v[p + 1 + (j - 1)] == rest[j - 1]);
            }
        }
    }
}

/// Scanning behind a prefix that is passed whole finds what scanning the
/// rest alone finds.
proof fn lemma_positions_shift(a: Seq<u8>, b: Seq<u8>, k: int, decoded: bool)
    requires
        0 <= k,
    ensures
        dash_positions(a + b, a.len() + k, decoded).len() == dash_positions(b, k, decoded).len(),
    decreases b.len() - k,
{
    let w = a + b;
    let q = a.len() + k;
    if k < b.len() {
        assert(w[q] == b[k]);
        if k + 1 < b.len() {
            assert(w[q + 1] == b[k + 1]);
        }
        assert(escape_at(w, q, decoded) == escape_at(b, k, decoded));
        if dash_len(b, k, decoded) > 0 {
            lemma_dash_tail_inert(b, k, decoded);
            assert forall|m: int| 0 <= m < dash_len(b, k, decoded) implies w[q + m] == #[trigger] b[k + m] by {}
            lemma_dash_len_local(b, k, w, q, decoded);
        }
        if dash_len(w, q, decoded) > 0 {
            lemma_dash_tail_inert(w, q, decoded);
            assert forall|m: int| 0 <= m < dash_len(w, q, decoded) implies b[k + m] == #[trigger] w[q + m] by {
                assert(w[q + m] == b[k + m]);
            }
            lemma_dash_len_local(w, q, b, k, decoded);
        }
        if escape_at(b, k, decoded) {
            lemma_positions_shift(a, b, k + 2, decoded);
        } else if dash_len(b, k, decoded) > 0 {
            lemma_positions_shift(a, b, k + dash_len(b, k, decoded), decoded);
        } else {
            lemma_positions_shift(a, b, k + 1, decoded);
        }
    }
}

/// The fixed text has no em dash left for the rule to find.
pub(crate) proof fn lemma_fixed_has_no_dash(v: Seq<u8>, i: int, decoded: bool)
    requires
        0 <= i,
    ensures
        dash_positions(dash_fixed(v, i, decoded), 0, decoded).len() == 0,
    decreases v.len() - i,
{
    let out = dash_fixed(v, i, decoded);
    if i >= v.len() {
    } else if escape_at(v, i, decoded) {
        let a = v.subrange(i, i + 2);
        let rest = dash_fixed(v, i + 2, decoded);
        lemma_fixed_has_no_dash(v, i + 2, decoded);
        lemma_positions_shift(a, rest, 0, decoded);
        assert(out[0] == v[i] && out[1] == v[i + 1]);
        assert(escape_at(out, 0, decoded));
    } else if dash_len(v, i, decoded) > 0 {
        let rest = dash_fixed(v, i + dash_len(v, i, decoded), decoded);
        lemma_fixed_has_no_dash(v, i + dash_len(v, i, decoded), decoded);
        lemma_positions_shift(spaced_hyphen(), rest, 0, decoded);
        assert(out == spaced_hyphen() + rest);
        assert(out[0] == 32u8 && out[1] == 45u8 && out[2] == 32u8);
        assert(!escape_at(out, 0, decoded) && dash_len(out, 0, decoded) == 0);
        assert(!escape_at(out, 1, decoded) && dash_len(out, 1, decoded) == 0);
        assert(!escape_at(out, 2, decoded) && dash_len(out, 2, decoded) == 0);
        assert(dash_positions(out, 0, decoded) == dash_positions(out, 1, decoded));
        assert(dash_positions(out, 1, decoded) == dash_positions(out, 2, decoded));
        assert(dash_positions(out, 2, decoded) == dash_positions(out, 3, decoded));
    } else {
        let rest = dash_fixed(v, i + 1, decoded);
        lemma_fixed_has_no_dash(v, i + 1, decoded);
        lemma_positions_shift(seq![v[i]], rest, 0, decoded);
        assert(out == seq![v[i]] + rest);
        assert(out[0] == v[i]);
        if rest.len() > 0 {
            lemma_fixed_first(v, i + 1, decoded);
            assert(out[1] == rest[0]);
        }
        assert(!escape_at(out, 0, decoded));
        if dash_len(out, 0, decoded) > 0 {
            let l = dash_len(out, 0, decoded);
            lemma_dash_tail_inert(out, 0, decoded);
            assert forall|j: int| 0 <= j < l - 1 implies is_inert(#[trigger] rest[j]) by {
                assert(is_inert(out[0 + (j + 1)]));
                assert(out[1 + j] == rest[j]);
            }
            lemma_inert_prefix(v, i + 1, l - 1, decoded);
            assert forall|m: int| 0 <= m < l implies v[i + m] == #[trigger] out[0 + m] by {
                if m > 0 {
                    assert(out[m] == rest[m - 1]);
                    assert(v[i + 1 + (m - 1)] == rest[m - 1]);
                }
            }
            lemma_dash_len_local(out, 0, v, i, decoded);
        }
        assert(dash_positions(out, 0, decoded) == dash_positions(out, 1, decoded));
    }
}

proof fn lemma_ascii_valid(a: Seq<u8>)
    requires
        forall|k: int| 0 <= k < a.len() ==> #[trigger] a[k] < 0x80u8,
    ensures
        valid_utf8(a),
    decreases a.len(),
{
    if a.len() > 0 {
        assert(valid_first_scalar(a));
        assert(pop_first_scalar(a) =~= a.drop_first());
        assert forall|k: int| 0 <= k < a.drop_first().len() implies #[trigger] a.drop_first()[k] < 0x80u8 by {
            assert(a.drop_first()[k] == a[k + 1]);
        }
        lemma_ascii_valid(a.drop_first());
    }
}

proof fn lemma_ascii_run_valid(v: Seq<u8>, i: int, j: int)
    requires
        0 <= i <= j <= v.len(),
        valid_utf8(v.subrange(i, v.len() as int)),
        forall|k: int| i <= k < j ==> #[trigger] v[k] < 0x80u8,
    ensures
        valid_utf8(v.subrange(j, v.len() as int)),
    decreases j - i,
{
    if i < j {
        let w = v.subrange(i, v.len() as int);
        assert(w[0] == v[i]);
        assert(valid_first_scalar(w));
        assert(length_of_first_scalar(w) == 1);
        assert(pop_first_scalar(w) =~= v.subrange(i + 1, v.len() as int));
        lemma_ascii_run_valid(v, i + 1, j);
    }
}

/// Every byte of a character reference written at `p` is ASCII.
proof fn lemma_ref_ascii(v: Seq<u8>, p: int, decoded: bool)
    requires
        0 <= p,
        dash_len(v, p, decoded) > 0,
        !em_dash_at(v, p),
    ensures
        p + dash_len(v, p, decoded) <= v.len(),
        forall|m: int| p <= m < p + dash_len(v, p, decoded) ==> #[trigger] v[m] < 0x80u8,
{
    let l = dash_len(v, p, decoded);
    if v[p + 1] == 35u8 {
        if p + 2 < v.len() && (v[p + 2] == 120u8 || v[p + 2] == 88u8) {
            assert forall|m: int| p <= m < p + l implies #[trigger] v[m] < 0x80u8 by {
                if p + 3 <= m < p + 3 + run_len(v, p + 3, 2) {
                    lemma_run_len_prefix(v, p + 3, m, 2);
                }
            }
        } else {
            assert forall|m: int| p <= m < p + l implies #[trigger] v[m] < 0x80u8 by {
                if p + 2 <= m < p + 2 + run_len(v, p + 2, 1) {
                    lemma_run_len_prefix(v, p + 2, m, 1);
                }
            }
        }
    } else {
        assert forall|m: int| p <= m < p + l implies #[trigger] v[m] < 0x80u8 by {
            if p + 1 <= m < p + 1 + run_len(v, p + 1, 0) {
                lemma_run_len_prefix(v, p + 1, m, 0);
            }
        }
    }
}

/// Bytes that are copied one by one are kept as they are.
proof fn lemma_fixed_copy(v: Seq<u8>, i: int, j: int, decoded: bool)
    requires
        0 <= i <= j <= v.len(),
        forall|k: int| i <= k < j ==> !escape_at(v, k, decoded) && #[trigger] dash_len(v, k, decoded) == 0,
    ensures
        dash_fixed(v, i, decoded) == v.subrange(i, j) + dash_fixed(v, j, decoded),
    decreases j - i,
{
    if i < j {
        assert(dash_len(v, i, decoded) == 0);
        assert forall|k: int| i + 1 <= k < j implies !escape_at(v, k, decoded) && #[trigger] dash_len(v, k, decoded) == 0 by {
            assert(dash_len(v, k, decoded) == 0);
        }
        lemma_fixed_copy(v, i + 1, j, decoded);
        assert(v.subrange(i, j) =~= seq![v[i]] + v.subrange(i + 1, j));
    } else {
        assert(v.subrange(i, j) =~= Seq::<u8>::empty());
    }
}

/// Fixing valid UTF-8 text gives valid UTF-8 text.
pub(crate) proof fn lemma_fixed_valid(v: Seq<u8>, i: int, decoded: bool)
    requires
        0 <= i <= v.len(),
        valid_utf8(v.subrange(i, v.len() as int)),
    ensures
        valid_utf8(dash_fixed(v, i, decoded)),
    decreases v.len() - i,
{
    if i < v.len() {
        let w = v.subrange(i, v.len() as int);
        assert(w[0] == v[i]);
        assert(valid_first_scalar(w));
        if escape_at(v, i, decoded) {
            assert(v[i] < 0x80u8 && v[i + 1] < 0x80u8);
            lemma_ascii_run_valid(v, i, i + 2);
            lemma_fixed_valid(v, i + 2, decoded);
            let pre = v.subrange(i, i + 2);
            assert forall|k: int| 0 <= k < pre.len() implies #[trigger] pre[k] < 0x80u8 by {
                assert(pre[k] == v[i + k]);
            }
            lemma_ascii_valid(pre);
            valid_utf8_concat(pre, dash_fixed(v, i + 2, decoded));
        } else if dash_len(v, i, decoded) > 0 {
            let l = dash_len(v, i, decoded);
            if em_dash_at(v, i) {
                assert(length_of_first_scalar(w) == 3);
                assert(pop_first_scalar(w) =~= v.subrange(i + 3, v.len() as int));
            } else {
                lemma_ref_ascii(v, i, decoded);
                lemma_ascii_run_valid(v, i, i + l);
            }
            lemma_fixed_valid(v, i + l, decoded);
            assert forall|k: int| 0 <= k < spaced_hyphen().len() implies #[trigger] spaced_hyphen()[k] < 0x80u8 by {}
            lemma_ascii_valid(spaced_hyphen());
            valid_utf8_concat(spaced_hyphen(), dash_fixed(v, i + l, decoded));
        } else {
            let l = length_of_first_scalar(w);
            assert(1 <= l <= 4);
            assert(i + l <= v.len());
            assert forall|k: int| i < k < i + l implies is_continuation_byte(#[trigger] v[k]) by {
                assert(v[k] == w[k - i]);
            }
            assert forall|k: int| i <= k < i + l implies !escape_at(v, k, decoded) && #[trigger] dash_len(v, k, decoded) == 0 by {
                if k > i {
                    assert(is_continuation_byte(v[k]));
                }
            }
            lemma_fixed_copy(v, i, i + l, decoded);
            let t = v.subrange(i, i + l);
            assert(pop_first_scalar(w) =~= v.subrange(i + l, v.len() as int));
            lemma_fixed_valid(v, i + l, decoded);
            assert(valid_utf8(t)) by {
                assert forall|k: int| 0 <= k < l implies #[trigger] t[k] == w[k] by {}
                assert(t.len() == l);
                assert(valid_first_scalar(t));
                assert(pop_first_scalar(t) =~= Seq::<u8>::empty());
                assert(valid_utf8(Seq::<u8>::empty()));
                assert(valid_utf8(pop_first_scalar(t)));
            }
            valid_utf8_concat(t, dash_fixed(v, i + l, decoded));
        }
    }
}

} // verus!
