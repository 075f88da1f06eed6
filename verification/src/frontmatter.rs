//! The YAML frontmatter block at the head of a page, and positions in a page.

use vstd::prelude::*;
use vstd::utf8::*;
use vstd::string::*;
use crate::text::{lemma_ascii_boundary, lemma_str_valid};
use crate::finding::{Finding, FindingView, Severity, findings_view, normalize_repo_path, repo_path};

verus! {

/// `\r?\n` starting at `j`: the index just past it, or -1.
pub open spec fn line_break_end(b: Seq<u8>, j: int) -> int {
    if 0 <= j && j + 1 < b.len() && b[j] == 13u8 && b[j + 1] == 10u8 {
        j + 2
    } else if 0 <= j && j < b.len() && b[j] == 10u8 {
        j + 1
    } else {
        -1
    }
}

/// `---` at `j`.
pub open spec fn dashes_at(b: Seq<u8>, j: int) -> bool {
    0 <= j && j + 3 <= b.len() && b[j] == 45u8 && b[j + 1] == 45u8 && b[j + 2] == 45u8
}

/// Length of the opening delimiter `---\r?\n` at the very start, or 0 when
/// the page does not open with one.
pub open spec fn opening_len(b: Seq<u8>) -> int {
    if dashes_at(b, 0) && line_break_end(b, 3) >= 0 {
        line_break_end(b, 3)
    } else {
        0
    }
}

/// The closing delimiter `\r?\n---\r?\n` starting at `e`: the index just
/// past it, or -1.
pub open spec fn closing_end(b: Seq<u8>, e: int) -> int {
    let k = line_break_end(b, e);
    if k >= 0 && dashes_at(b, k) {
        line_break_end(b, k + 3)
    } else {
        -1
    }
}

/// The first position at or after `e` where a closing delimiter starts, or -1.
pub open spec fn first_closing(b: Seq<u8>, e: int) -> int
    decreases b.len() - e,
{
    if e < 0 || e >= b.len() {
        -1
    } else if closing_end(b, e) >= 0 {
        e
    } else {
        first_closing(b, e + 1)
    }
}

/// Where the frontmatter lies: (start of the YAML text, end of the YAML text,
/// start of the body). The YAML text is the shortest run after the opening
/// delimiter that is followed by a closing delimiter.
pub open spec fn frontmatter_span(b: Seq<u8>) -> Option<(int, int, int)> {
    let o = opening_len(b);
    if o == 0 {
        None
    } else {
        let c = first_closing(b, o);
        if c < 0 {
            None
        } else {
            Some((o, c, closing_end(b, c)))
        }
    }
}

/// Byte offset where the body starts: after the closing delimiter, or 0.
pub open spec fn body_start(b: Seq<u8>) -> int {
    match frontmatter_span(b) {
        Some((_, _, be)) => be,
        None => 0,
    }
}

/// Number of newline bytes in `h`.
pub open spec fn count_newlines(h: Seq<u8>) -> nat
    decreases h.len(),
{
    if h.len() == 0 {
        0
    } else {
        count_newlines(h.drop_last()) + if h.last() == 10u8 { 1nat } else { 0nat }
    }
}

/// Number of bytes after the last newline of `h` (all of `h` if it has none).
pub open spec fn bytes_since_newline(h: Seq<u8>) -> nat
    decreases h.len(),
{
    if h.len() == 0 {
        0
    } else if h.last() == 10u8 {
        0
    } else {
        bytes_since_newline(h.drop_last()) + 1
    }
}

/// The offset clamped to the text.
pub open spec fn clamp_offset(b: Seq<u8>, off: int) -> int {
    if off < b.len() { off } else { b.len() as int }
}

/// 1-based line of a byte offset: one more than the newlines before it.
pub open spec fn line_at(b: Seq<u8>, off: int) -> int {
    count_newlines(b.take(clamp_offset(b, off))) as int + 1
}

/// 1-based column of a byte offset, counted in bytes from the line start.
pub open spec fn column_at(b: Seq<u8>, off: int) -> int {
    bytes_since_newline(b.take(clamp_offset(b, off))) as int + 1
}

proof fn lemma_first_closing_skip(b: Seq<u8>, o: int, e: int)
    requires
        0 <= o <= e <= b.len(),
        forall|k: int| o <= k < e ==> #[trigger] closing_end(b, k) < 0,
    ensures
        first_closing(b, o) == first_closing(b, e),
    decreases e - o,
{
    if o < e {
        assert(closing_end(b, o) < 0);
        assert(first_closing(b, o) == first_closing(b, o + 1));
        lemma_first_closing_skip(b, o + 1, e);
    }
}

fn line_break_end_exec(b: &[u8], j: usize) -> (r: Option<usize>)
    ensures
        match r {
            Some(k) => k as int == line_break_end(b@, j as int),
            None => line_break_end(b@, j as int) < 0,
        },
{
    if j < b.len() && b[j] == 13u8 && b.len() - j > 1 && b[j + 1] == 10u8 {
        Some(j + 2)
    } else if j < b.len() && b[j] == 10u8 {
        Some(j + 1)
    } else {
        None
    }
}

fn dashes_at_exec(b: &[u8], j: usize) -> (r: bool)
    ensures
        r == dashes_at(b@, j as int),
        r ==> j + 3 <= b.len(),
{
    j < b.len() && b.len() - j >= 3 && b[j] == 45u8 && b[j + 1] == 45u8 && b[j + 2] == 45u8
}

fn closing_end_exec(b: &[u8], e: usize) -> (r: Option<usize>)
    ensures
        match r {
            Some(k) => k as int == closing_end(b@, e as int),
            None => closing_end(b@, e as int) < 0,
        },
{
    match line_break_end_exec(b, e) {
        Some(k) => {
            if dashes_at_exec(b, k) {
                line_break_end_exec(b, k + 3)
            } else {
                None
            }
        },
        None => None,
    }
}

/// Byte positions of the frontmatter block, as `frontmatter_span` defines them.
pub fn frontmatter_bounds(b: &[u8]) -> (r: Option<(usize, usize, usize)>)
    ensures
        match r {
            None => frontmatter_span(b@) is None,
            Some((ys, ye, be)) => frontmatter_span(b@) == Some((ys as int, ye as int, be as int)),
        },
{
    if !dashes_at_exec(b, 0) {
        return None;
    }
    let o = match line_break_end_exec(b, 3) {
        Some(o) => o,
        None => return None,
    };
    assert(opening_len(b@) == o);
    let mut e = o;
    while e < b.len()
        invariant
            4 <= o <= e <= b.len(),
            opening_len(b@) == o as int,
            forall|k: int| o <= k < e ==> #[trigger] closing_end(b@, k) < 0,
        decreases b.len() - e,
    {
        match closing_end_exec(b, e) {
            Some(end) => {
                proof {
                    lemma_first_closing_skip(b@, o as int, e as int);
                    assert(first_closing(b@, e as int) == e as int);
                }
                return Some((o, e, end));
            },
            None => {},
        }
        e = e + 1;
    }
    proof {
        lemma_first_closing_skip(b@, o as int, e as int);
    }
    None
}

/// Facts about a closing delimiter found by `first_closing`.
proof fn lemma_first_closing_found(b: Seq<u8>, e: int)
    requires
        first_closing(b, e) >= 0,
    ensures
        e <= first_closing(b, e) < b.len(),
        closing_end(b, first_closing(b, e)) >= 0,
    decreases b.len() - e,
{
    if e < 0 || e >= b.len() {
    } else if closing_end(b, e) >= 0 {
    } else {
        lemma_first_closing_found(b, e + 1);
    }
}

/// The shape of a frontmatter span: the YAML text sits between two line
/// breaks, each delimiter ends with a newline byte, and the closing one
/// starts with a line-break byte.
pub proof fn lemma_span_shape(b: Seq<u8>)
    requires
        frontmatter_span(b) is Some,
    ensures
        ({
            let (ys, ye, be) = frontmatter_span(b).unwrap();
            &&& 4 <= ys <= ye < be <= b.len()
            &&& b[ys - 1] == 10u8
            &&& (b[ye] == 10u8 || b[ye] == 13u8)
            &&& b[be - 1] == 10u8
        }),
{
    let o = opening_len(b);
    lemma_first_closing_found(b, o);
}

/// Splits a page into its YAML frontmatter text and the rest of the page.
/// The page must open with `---` and a line break; the YAML text runs to the
/// first line that is exactly `---` (a trailing `\r` allowed) and that is
/// itself followed by a line break. Without such a block the result is `None`.
pub fn split_frontmatter(src: &str) -> (r: Option<(&str, &str)>)
    ensures
        match frontmatter_span(src.spec_bytes()) {
            None => r is None,
            Some((ys, ye, be)) => r matches Some((yaml, body)) && yaml.spec_bytes()
                == src.spec_bytes().subrange(ys, ye) && body.spec_bytes()
                == src.spec_bytes().subrange(be, src.spec_bytes().len() as int),
        },
{
    let b = src.as_bytes();
    match frontmatter_bounds(b) {
        None => None,
        Some((ys, ye, be)) => {
            let ghost bs = src.spec_bytes();
            proof {
                lemma_span_shape(bs);
                lemma_str_valid(src);
                lemma_ascii_boundary(bs, ys - 1);
                lemma_ascii_boundary(bs, be - 1);
            }
            let (_, rest) = src.split_at(ys);
            proof {
                let rb = rest.spec_bytes();
                valid_utf8_split(bs, ys as int);
                assert(rb[ye - ys] == bs[ye as int]);
                lemma_ascii_boundary(rb, ye - ys);
            }
            let (yaml, _) = rest.split_at(ye - ys);
            let (_, body) = src.split_at(be);
            proof {
                assert(yaml.spec_bytes() =~= bs.subrange(ys as int, ye as int));
            }
            Some((yaml, body))
        },
    }
}

/// Byte offset in `full_source` where the markdown body starts (just past
/// the closing `---` line), or 0 when there is no frontmatter block.
pub fn body_start_byte(full_source: &str) -> (r: usize)
    ensures
        r as int == body_start(full_source.spec_bytes()),
{
    match frontmatter_bounds(full_source.as_bytes()) {
        Some((_, _, be)) => be,
        None => 0,
    }
}

proof fn lemma_line_counts_bounded(h: Seq<u8>)
    ensures
        count_newlines(h) <= h.len(),
        bytes_since_newline(h) <= h.len(),
    decreases h.len(),
{
    if h.len() > 0 {
        lemma_line_counts_bounded(h.drop_last());
    }
}

/// Line and column of a byte offset, with no demand on where the offset falls.
pub(crate) fn line_col_of_bytes(b: &[u8], byte_off: usize) -> (r: (usize, usize))
    requires
        b@.len() < usize::MAX,
    ensures
        r.0 as int == line_at(b@, byte_off as int),
        r.1 as int == column_at(b@, byte_off as int),
{
    let end = if byte_off < b.len() { byte_off } else { b.len() };
    let mut line: usize = 1;
    let mut run: usize = 0;
    let mut i: usize = 0;
    while i < end
        invariant
            i <= end <= b@.len(),
            end as int == clamp_offset(b@, byte_off as int),
            b@.len() < usize::MAX,
            line == count_newlines(b@.take(i as int)) + 1,
            run == bytes_since_newline(b@.take(i as int)),
        decreases end - i,
    {
        proof {
            lemma_line_counts_bounded(b@.take(i as int));
            assert(b@.take(i + 1).drop_last() =~= b@.take(i as int));
        }
        if b[i] == 10u8 {
            line = line + 1;
            run = 0;
        } else {
            run = run + 1;
        }
        i = i + 1;
    }
    proof {
        lemma_line_counts_bounded(b@.take(i as int));
    }
    (line, run + 1)
}

/// 1-based line and column (in bytes) of `byte_off` in `s`; offsets past the
/// end count as the end. The clamped offset must fall on a character
/// boundary, since the text before it is taken as a slice.
pub fn line_col_at_byte(s: &str, byte_off: usize) -> (r: (usize, usize))
    requires
        s.spec_bytes().len() < usize::MAX,
        is_char_boundary(s.spec_bytes(), clamp_offset(s.spec_bytes(), byte_off as int)),
    ensures
        r.0 as int == line_at(s.spec_bytes(), byte_off as int),
        r.1 as int == column_at(s.spec_bytes(), byte_off as int),
{
    line_col_of_bytes(s.as_bytes(), byte_off)
}

/// The body always starts on a character boundary of the page.
pub proof fn lemma_body_start_boundary(b: Seq<u8>)
    requires
        valid_utf8(b),
    ensures
        0 <= body_start(b) <= b.len(),
        is_char_boundary(b, body_start(b)),
{
    is_char_boundary_start_end_of_seq(b);
    if frontmatter_span(b) is Some {
        lemma_span_shape(b);
        let (_, _, be) = frontmatter_span(b).unwrap();
        lemma_ascii_boundary(b, be - 1);
    }
}

/// What `serde_yaml::from_str::<serde_yaml::Value>` makes of a text: `None`
/// when it parses, else the error as its `Display` writes it.
pub uninterp spec fn yaml_error_text(text: Seq<char>) -> Option<Seq<char>>;

/// Calls `serde_yaml::from_str::<serde_yaml::Value>` and returns the error's
/// `Display` text, if any. Claims that this is what `yaml_error_text` names
/// for the text.
#[verifier::external_body]
pub(crate) fn yaml_parse_error(text: &str) -> (r: Option<String>)
    ensures
        match r {
            Some(m) => yaml_error_text(text@) == Some(m@),
            None => yaml_error_text(text@) is None,
        },
{
    serde_yaml::from_str::<serde_yaml::Value>(text).err().map(|e| e.to_string())
}

/// The message of a `frontmatter_yaml` finding, ahead of the parser's own.
pub open spec fn yaml_message_head() -> Seq<char> {
    "frontmatter is not valid YAML (inner quotes in double-quoted scalars often cause this): "@
}

/// The YAML text of a page's frontmatter block, if it has one.
pub open spec fn frontmatter_text(page: Seq<char>) -> Option<Seq<char>> {
    let b = encode_utf8(page);
    match frontmatter_span(b) {
        Some((ys, ye, _)) => Some(decode_utf8(b.subrange(ys, ye))),
        None => None,
    }
}

/// What the `frontmatter_yaml` rule reports for a page: one finding at line
/// 2, column 1 when its frontmatter text is not valid YAML, else nothing.
pub open spec fn yaml_findings(root: Seq<char>, file: Seq<char>, page: Seq<char>, level: Severity) -> Seq<FindingView> {
    match frontmatter_text(page) {
        Some(y) => match yaml_error_text(y) {
            Some(e) => seq![FindingView {
                rule_id: "frontmatter_yaml"@,
                severity: level,
                path: repo_path(root, file),
                line: 2,
                column: 1,
                message: yaml_message_head() + e,
            }],
            None => seq![],
        },
        None => seq![],
    }
}

/// Checks that the frontmatter block, when there is one, is valid YAML.
pub fn check_frontmatter_yaml(root: &str, file: &str, full_source: &str, level: Severity) -> (r: Vec<Finding>)
    ensures
        findings_view(r@) == yaml_findings(root@, file@, full_source@, level),
{
    let mut out: Vec<Finding> = Vec::new();
    let (yaml_blob, _body) = match split_frontmatter(full_source) {
        Some(parts) => parts,
        None => {
            assert(findings_view(out@) =~= Seq::<FindingView>::empty());
            return out;
        },
    };
    proof {
        encode_utf8_decode_utf8(yaml_blob@);
    }
    match yaml_parse_error(yaml_blob) {
        Some(e) => {
            let path = normalize_repo_path(root, file);
            let mut message = "frontmatter is not valid YAML (inner quotes in double-quoted scalars often cause this): ".to_owned();
            message.append(e.as_str());
            out.push(Finding {
                rule_id: "frontmatter_yaml",
                severity: level,
                path,
                line: 2,
                column: 1,
                message,
            });
            assert(findings_view(out@) =~= yaml_findings(root@, file@, full_source@, level));
        },
        None => {
            assert(findings_view(out@) =~= Seq::<FindingView>::empty());
        },
    }
    out
}

proof fn lemma_first_closing_minimal(b: Seq<u8>, e: int, k: int)
    requires
        first_closing(b, e) >= 0,
        e <= k < first_closing(b, e),
    ensures
        closing_end(b, k) < 0,
    decreases b.len() - e,
{
    if e < k {
        lemma_first_closing_minimal(b, e + 1, k);
    }
}

/// A frontmatter split takes the page apart without loss: opening `---`
/// line, YAML text, closing `---` line, body. The YAML text is the shortest
/// possible: no closing delimiter starts inside it, and it ends where one
/// starts.
pub proof fn law_frontmatter_split(b: Seq<u8>)
    requires
        frontmatter_span(b) is Some,
    ensures
        ({
            let (ys, ye, be) = frontmatter_span(b).unwrap();
            &&& b == b.take(ys) + b.subrange(ys, ye) + b.subrange(ye, be) + b.skip(be)
            &&& b.take(ys) == "---\n"@.map_values(|c: char| c as u8)
                || b.take(ys) == "---\r\n"@.map_values(|c: char| c as u8)
            &&& closing_end(b, ye) == be
            &&& forall|k: int| ys <= k < ye ==> closing_end(b, k) < 0
        }),
{
    let (ys, ye, be) = frontmatter_span(b).unwrap();
    lemma_span_shape(b);
    lemma_first_closing_found(b, ys);
    assert(b =~= b.take(ys) + b.subrange(ys, ye) + b.subrange(ye, be) + b.skip(be));
    reveal_strlit("---\n");
    reveal_strlit("---\r\n");
    if ys == 4 {
        assert(b.take(ys) =~= "---\n"@.map_values(|c: char| c as u8));
    } else {
        assert(b.take(ys) =~= "---\r\n"@.map_values(|c: char| c as u8));
    }
    assert forall|k: int| ys <= k < ye implies closing_end(b, k) < 0 by {
        lemma_first_closing_minimal(b, ys, k);
    }
}

/// The body starts past the frontmatter exactly when the page has a
/// frontmatter block; then the split's body is the page from that offset on.
pub proof fn law_body_start_agrees_with_split(b: Seq<u8>)
    ensures
        body_start(b) > 0 <==> frontmatter_span(b) is Some,
        frontmatter_span(b) is None ==> body_start(b) == 0,
        frontmatter_span(b) matches Some((_, _, be)) ==> body_start(b) == be && be <= b.len(),
{
    if frontmatter_span(b) is Some {
        lemma_span_shape(b);
    }
}

/// Only `\n` bytes count toward the line: the line of an offset is one more
/// than the number of `\n` (0x0A) bytes before it, so a `\r` or any other
/// byte adds no line.
pub proof fn law_line_counts_newline_bytes(b: Seq<u8>, off: int)
    ensures
        line_at(b, off) == b.take(clamp_offset(b, off)).filter(|x: u8| x == 10u8).len() + 1,
{
    lemma_count_newlines_filter(b.take(clamp_offset(b, off)));
}

proof fn lemma_count_newlines_filter(h: Seq<u8>)
    ensures
        count_newlines(h) == h.filter(|x: u8| x == 10u8).len(),
    decreases h.len(),
{
    reveal(Seq::filter);
    if h.len() > 0 {
        lemma_count_newlines_filter(h.drop_last());
    }
}

/// The column of an offset is one more than the number of bytes since the
/// last `\n` before it (or since the start of the text): those bytes hold
/// no `\n`, and the byte before them is a `\n` unless they start the text.
pub proof fn law_column_counts_from_last_newline(b: Seq<u8>, off: int)
    ensures
        ({
            let h = b.take(clamp_offset(b, off));
            let c = column_at(b, off) - 1;
            &&& 0 <= c <= h.len()
            &&& forall|k: int| h.len() - c <= k < h.len() ==> #[trigger] h[k] != 10u8
            &&& (c == h.len() || h[h.len() - c - 1] == 10u8)
        }),
{
    lemma_since_newline(b.take(clamp_offset(b, off)));
}

proof fn lemma_since_newline(h: Seq<u8>)
    ensures
        bytes_since_newline(h) <= h.len(),
        forall|k: int| h.len() - bytes_since_newline(h) <= k < h.len() ==> #[trigger] h[k] != 10u8,
        bytes_since_newline(h) == h.len() || h[h.len() - bytes_since_newline(h) - 1] == 10u8,
    decreases h.len(),
{
    if h.len() > 0 && h.last() != 10u8 {
        let t = h.drop_last();
        lemma_since_newline(t);
        assert forall|k: int| h.len() - bytes_since_newline(h) <= k < h.len() implies #[trigger] h[k] != 10u8 by {
            if k < h.len() - 1 {
                assert(h[k] == t[k]);
            }
        }
        if bytes_since_newline(h) < h.len() {
            assert(h[h.len() - bytes_since_newline(h) - 1] == t[t.len() - bytes_since_newline(t) - 1]);
        }
    }
}

} // verus!
