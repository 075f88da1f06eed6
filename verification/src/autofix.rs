//! Safe, deterministic rewrites that mirror the lint rules. Each applies in
//! the same places as its rule: the em dash fix rewrites prose only, never
//! code.

use vstd::prelude::*;
use vstd::string::*;
use vstd::utf8::*;
use crate::frontmatter::body_start;
use crate::markdown::{
    ScanParams, em_dash_at, em_dash_message, hit_findings, leaf_findings, MdNode, MdText, body_bytes, body_chars, body_of,
    gfm_tree, list_leaves, node_leaves, node_span, parse_gfm,
};
use crate::dashes::{dash_fixed, dash_offsets, dash_positions, fix_dashes, lemma_fixed_first, lemma_fixed_has_no_dash, lemma_fixed_valid};
use crate::finding::FindingView;
use crate::config::ResolvedConfig;
use crate::globs::{glob_set_is_match, glob_set_match, glob_set_patterns};
use crate::finding::{normalize_repo_path, repo_path};
use crate::lint::{is_markdown_doc_file, is_markdown_path};
use crate::text::{lemma_encode_utf8_add, lemma_str_valid, span_text};

verus! {

/// A rewrite of the body: replace bytes `start..end` with the text.
pub type Patch = (usize, usize, String);

/// A rewrite as plain values: the range and the bytes of the new text.
pub open spec fn patch_view(p: Patch) -> (int, int, Seq<u8>) {
    (p.0 as int, p.1 as int, encode_utf8(p.2@))
}

pub open spec fn patches_view(v: Seq<Patch>) -> Seq<(int, int, Seq<u8>)> {
    v.map_values(|p: Patch| patch_view(p))
}

/// U+2014, the em dash.
pub open spec fn em_dash() -> char {
    '\u{2014}'
}

/// The rewrite for one text (`l.1` true) or raw HTML node of `body`: when
/// an em dash is written in its source span, the span is replaced by the
/// same source with each such dash turned into ` - `. Everything else in the
/// span, escapes and other references among it, stays as written.
pub open spec fn leaf_patches(body: Seq<u8>, l: (MdText, bool)) -> Seq<(int, int, Seq<u8>)> {
    match node_span(body, l.0) {
        Some((s, e)) => if dash_positions(body.subrange(s, e), 0, l.1).len() > 0 {
            seq![(s, e, dash_fixed(body.subrange(s, e), 0, l.1))]
        } else {
            seq![]
        },
        None => seq![],
    }
}

/// The rewrites for a sequence of nodes of `body`, in order.
pub open spec fn leaves_patches(body: Seq<u8>, ls: Seq<(MdText, bool)>) -> Seq<(int, int, Seq<u8>)>
    decreases ls.len(),
{
    if ls.len() == 0 {
        seq![]
    } else {
        leaves_patches(body, ls.drop_last()) + leaf_patches(body, ls.last())
    }
}

proof fn lemma_leaves_patches_add(body: Seq<u8>, a: Seq<(MdText, bool)>, b: Seq<(MdText, bool)>)
    ensures
        leaves_patches(body, a + b) == leaves_patches(body, a) + leaves_patches(body, b),
    decreases b.len(),
{
    if b.len() == 0 {
        assert(a + b =~= a);
    } else {
        lemma_leaves_patches_add(body, a, b.drop_last());
        assert((a + b).drop_last() =~= a + b.drop_last());
    }
}

proof fn lemma_leaf_seq(body: Seq<u8>, t: (MdText, bool))
    ensures
        leaves_patches(body, seq![t]) == leaf_patches(body, t),
{
    assert(seq![t].drop_last() =~= Seq::<(MdText, bool)>::empty());
    assert(leaves_patches(body, Seq::<(MdText, bool)>::empty()) =~= Seq::empty());
    assert(leaf_patches(body, t) =~= Seq::<(int, int, Seq<u8>)>::empty() + leaf_patches(body, t));
}

fn collect_leaf_patch(body: &str, t: &MdText, decoded: bool, patches: &mut Vec<Patch>)
    ensures
        patches_view(final(patches)@) == patches_view(old(patches)@) + leaf_patches(body.spec_bytes(), (*t, decoded)),
{
    let (start, end) = match t.span {
        Some(sp) => sp,
        None => {
            assert(patches_view(patches@) =~= patches_view(old(patches)@) + leaf_patches(body.spec_bytes(), (*t, decoded)));
            return;
        },
    };
    if !(start <= end && end <= body.as_bytes().len() && body.is_char_boundary(start) && body.is_char_boundary(end)) {
        assert(patches_view(patches@) =~= patches_view(old(patches)@) + leaf_patches(body.spec_bytes(), (*t, decoded)));
        return;
    }
    let text = span_text(body, start, end);
    let offs = dash_offsets(text, decoded);
    if offs.len() == 0 {
        assert(offs@.map_values(|x: usize| x as int).len() == 0);
        assert(patches_view(patches@) =~= patches_view(old(patches)@) + leaf_patches(body.spec_bytes(), (*t, decoded)));
        return;
    }
    assert(offs@.map_values(|x: usize| x as int).len() > 0);
    let new_val = fix_dashes(text, decoded);
    patches.push((start, end, new_val));
    assert(patches_view(patches@) =~= patches_view(old(patches)@) + leaf_patches(body.spec_bytes(), (*t, decoded)));
}

/// Collects, in document order, the em dash rewrites of every text and HTML
/// node under `node`; code, math and the other literal nodes are left
/// alone.
fn collect_em_dash_patches(body: &str, node: &MdNode, patches: &mut Vec<Patch>)
    ensures
        patches_view(final(patches)@) == patches_view(old(patches)@) + leaves_patches(body.spec_bytes(), node_leaves(*node)),
    decreases node, 1nat,
{
    match node {
        MdNode::Text(t) => {
            collect_leaf_patch(body, t, true, patches);
            proof {
                lemma_leaf_seq(body.spec_bytes(), (*t, true));
            }
        },
        MdNode::Html(t) => {
            collect_leaf_patch(body, t, false, patches);
            proof {
                lemma_leaf_seq(body.spec_bytes(), (*t, false));
            }
        },
        MdNode::Code | MdNode::InlineCode | MdNode::Math | MdNode::InlineMath | MdNode::Break
        | MdNode::FootnoteReference | MdNode::Image | MdNode::ImageReference | MdNode::Definition
        | MdNode::ThematicBreak | MdNode::Toml | MdNode::Yaml | MdNode::MdxjsEsm
        | MdNode::MdxFlowExpression | MdNode::MdxTextExpression => {
            assert(patches_view(patches@) =~= patches_view(old(patches)@) + leaves_patches(body.spec_bytes(), seq![]));
        },
        MdNode::Root(cs) | MdNode::Blockquote(cs) | MdNode::FootnoteDefinition(cs)
        | MdNode::MdxJsxFlowElement(cs) | MdNode::List(cs) | MdNode::Delete(cs) | MdNode::Emphasis(cs)
        | MdNode::MdxJsxTextElement(cs) | MdNode::Link(cs) | MdNode::LinkReference(cs) | MdNode::Strong(cs)
        | MdNode::Heading(cs) | MdNode::Table(cs) | MdNode::TableRow(cs) | MdNode::TableCell(cs)
        | MdNode::ListItem(cs) | MdNode::Paragraph(cs) => collect_children_patches(body, cs, patches),
    }
}

fn collect_children_patches(body: &str, children: &Vec<MdNode>, patches: &mut Vec<Patch>)
    ensures
        patches_view(final(patches)@) == patches_view(old(patches)@) + leaves_patches(
            body.spec_bytes(),
            list_leaves(children@, children@.len()),
        ),
    decreases children, 0nat,
{
    let ghost b = body.spec_bytes();
    let ghost start = patches_view(patches@);
    let mut i: usize = 0;
    assert(patches_view(patches@) =~= start + leaves_patches(b, list_leaves(children@, 0)));
    while i < children.len()
        invariant
            i <= children@.len(),
            b == body.spec_bytes(),
            patches_view(patches@) == start + leaves_patches(b, list_leaves(children@, i as nat)),
        decreases children.len() - i,
    {
        let ghost prev = list_leaves(children@, i as nat);
        collect_em_dash_patches(body, &children[i], patches);
        proof {
            assert(list_leaves(children@, (i + 1) as nat) == prev + node_leaves(children@[i as int]));
            lemma_leaves_patches_add(b, prev, node_leaves(children@[i as int]));
        }
        i = i + 1;
    }
}

/// Where a rewrite starting at `start` goes in a list ordered by descending
/// start: after every rewrite that starts at or after it.
pub open spec fn insert_pos(sorted: Seq<(int, int, Seq<u8>)>, start: int) -> int
    decreases sorted.len(),
{
    if sorted.len() == 0 {
        0
    } else if sorted[0].0 < start {
        0
    } else {
        1 + insert_pos(sorted.drop_first(), start)
    }
}

/// The rewrites ordered by descending start, rewrites with equal starts kept
/// in the order they were collected (a stable sort).
pub open spec fn sort_by_start_desc(ps: Seq<(int, int, Seq<u8>)>) -> Seq<(int, int, Seq<u8>)>
    decreases ps.len(),
{
    if ps.len() == 0 {
        seq![]
    } else {
        let s = sort_by_start_desc(ps.drop_last());
        s.insert(insert_pos(s, ps.last().0), ps.last())
    }
}

proof fn lemma_insert_pos_is(sorted: Seq<(int, int, Seq<u8>)>, start: int, j: int)
    requires
        0 <= j <= sorted.len(),
        forall|k: int| 0 <= k < j ==> #[trigger] sorted[k].0 >= start,
        j < sorted.len() ==> sorted[j].0 < start,
    ensures
        insert_pos(sorted, start) == j,
    decreases sorted.len(),
{
    if sorted.len() > 0 && j > 0 {
        assert(sorted[0].0 >= start);
        assert forall|k: int| 0 <= k < j - 1 implies #[trigger] sorted.drop_first()[k].0 >= start by {
            assert(sorted.drop_first()[k] == sorted[k + 1]);
        }
        if j - 1 < sorted.len() - 1 {
            assert(sorted.drop_first()[j - 1] == sorted[j]);
        }
        lemma_insert_pos_is(sorted.drop_first(), start, j - 1);
    }
}

/// Orders rewrites by descending start, keeping rewrites with equal starts
/// in the order they were collected.
fn sort_patches_desc(patches: &Vec<Patch>) -> (r: Vec<Patch>)
    ensures
        patches_view(r@) == sort_by_start_desc(patches_view(patches@)),
{
    let mut out: Vec<Patch> = Vec::new();
    let mut i: usize = 0;
    while i < patches.len()
        invariant
            i <= patches@.len(),
            patches_view(out@) == sort_by_start_desc(patches_view(patches@).take(i as int)),
        decreases patches.len() - i,
    {
        let start = patches[i].0;
        let mut j: usize = 0;
        while j < out.len() && out[j].0 >= start
            invariant
                j <= out@.len(),
                forall|k: int| 0 <= k < j ==> #[trigger] out@[k].0 >= start,
            decreases out.len() - j,
        {
            j = j + 1;
        }
        let p = (patches[i].0, patches[i].1, patches[i].2.clone());
        let ghost before = patches_view(out@);
        proof {
            let pv = patches_view(patches@);
            assert(pv.take(i + 1).drop_last() =~= pv.take(i as int));
            assert(pv.take(i + 1).last() == patch_view(p));
            assert forall|k: int| 0 <= k < j implies #[trigger] before[k].0 >= start as int by {
                assert(before[k] == patch_view(out@[k]));
            }
            if j < before.len() {
                assert(before[j as int] == patch_view(out@[j as int]));
            }
            lemma_insert_pos_is(before, start as int, j as int);
        }
        out.insert(j, p);
        assert(patches_view(out@) =~= before.insert(j as int, patch_view(p)));
        i = i + 1;
    }
    assert(patches_view(patches@).take(patches@.len() as int) =~= patches_view(patches@));
    out
}

/// `start..end` can be replaced in `b`: in order, in bounds, and on
/// character boundaries.
pub open spec fn patch_fits(b: Seq<u8>, p: (int, int, Seq<u8>)) -> bool {
    &&& 0 <= p.0 <= p.1 <= b.len()
    &&& is_char_boundary(b, p.0)
    &&& is_char_boundary(b, p.1)
}

/// `b` with bytes `start..end` replaced by `r`.
pub open spec fn splice(b: Seq<u8>, start: int, end: int, r: Seq<u8>) -> Seq<u8> {
    b.take(start) + r + b.skip(end)
}

/// Applies rewrites one after the other; `None` as soon as one does not fit
/// the text it is applied to.
pub open spec fn apply_patches(b: Seq<u8>, ps: Seq<(int, int, Seq<u8>)>) -> Option<Seq<u8>>
    decreases ps.len(),
{
    if ps.len() == 0 {
        Some(b)
    } else if patch_fits(b, ps[0]) {
        apply_patches(splice(b, ps[0].0, ps[0].1, ps[0].2), ps.drop_first())
    } else {
        None
    }
}

/// Replaces `start..end` of `text` with `replacement`, when that range is
/// in order, in bounds and on character boundaries.
fn replace_range_checked(text: &str, start: usize, end: usize, replacement: &str) -> (r: Option<String>)
    ensures
        match r {
            Some(s) => patch_fits(text.spec_bytes(), (start as int, end as int, replacement.spec_bytes()))
                && encode_utf8(s@) == splice(text.spec_bytes(), start as int, end as int, replacement.spec_bytes()),
            None => !patch_fits(text.spec_bytes(), (start as int, end as int, replacement.spec_bytes())),
        },
{
    if start > end || end > text.as_bytes().len() {
        return None;
    }
    let sb = text.is_char_boundary(start);
    let eb = text.is_char_boundary(end);
    if !sb || !eb {
        return None;
    }
    let ghost b = text.spec_bytes();
    let (ab, c) = text.split_at(end);
    proof {
        lemma_str_valid(text);
        valid_utf8_split(b, end as int);
        let ab_b = ab.spec_bytes();
        if start < end {
            is_char_boundary_iff_not_is_continuation_byte(b, start as int);
            assert(ab_b[start as int] == b[start as int]);
            is_char_boundary_iff_not_is_continuation_byte(ab_b, start as int);
        } else {
            is_char_boundary_start_end_of_seq(ab_b);
        }
    }
    let (a, _) = ab.split_at(start);
    let mut out = a.to_owned();
    out.append(replacement);
    out.append(c);
    proof {
        lemma_encode_utf8_add(a@ + replacement@, c@);
        lemma_encode_utf8_add(a@, replacement@);
        assert(a.spec_bytes() =~= b.take(start as int));
        assert(c.spec_bytes() =~= b.skip(end as int));
    }
    Some(out)
}

/// Applies the rewrites in order to `body`; `None` when one does not fit.
fn apply_patches_exec(body: &str, ps: &Vec<Patch>) -> (r: Option<String>)
    ensures
        match r {
            Some(s) => apply_patches(body.spec_bytes(), patches_view(ps@)) == Some(encode_utf8(s@)),
            None => apply_patches(body.spec_bytes(), patches_view(ps@)) is None,
        },
{
    let mut cur = body.to_owned();
    let mut i: usize = 0;
    let ghost pv = patches_view(ps@);
    assert(pv.skip(0) =~= pv);
    while i < ps.len()
        invariant
            i <= ps@.len(),
            pv == patches_view(ps@),
            apply_patches(body.spec_bytes(), pv) == apply_patches(encode_utf8(cur@), pv.skip(i as int)),
        decreases ps.len() - i,
    {
        let (start, end, ref repl) = ps[i];
        proof {
            assert(pv.skip(i as int)[0] == pv[i as int]);
            assert(pv.skip(i as int).drop_first() =~= pv.skip(i + 1));
            assert(pv[i as int] == patch_view(ps@[i as int]));
        }
        match replace_range_checked(cur.as_str(), start, end, repl.as_str()) {
            Some(next) => {
                cur = next;
            },
            None => {
                return None;
            },
        }
        i = i + 1;
    }
    assert(pv.skip(ps@.len() as int) =~= Seq::<(int, int, Seq<u8>)>::empty());
    Some(cur)
}

/// The page with its prose em dashes rewritten, as `replace_prose_em_dashes_in_body`
/// computes it: `None` when there is nothing to rewrite or a rewrite does
/// not fit, else the bytes of the new page.
pub open spec fn em_dash_fix(page: Seq<char>) -> Option<Seq<u8>> {
    let b = encode_utf8(page);
    let off = body_start(b);
    let ps = leaves_patches(b.skip(off), node_leaves(gfm_tree(body_chars(page))));
    if ps.len() == 0 {
        None
    } else {
        match apply_patches(b.skip(off), sort_by_start_desc(ps)) {
            Some(nb) => Some(b.take(off) + nb),
            None => None,
        }
    }
}

/// Replaces each em dash with ` - ` in the source of the text and raw HTML
/// nodes of the body (the places the `prose_em_dash` rule checks), leaving
/// the frontmatter, code and other literal nodes alone. Only the dashes
/// change, whether written as the character or (in text) as a character
/// reference; escapes and other references stay as written. Spans are
/// rewritten from the last to the first. `None` when there is nothing to
/// rewrite; also `None` when a rewrite does not fit the text it is applied
/// to (out of order, out of bounds or inside a character).
pub fn replace_prose_em_dashes_in_body(full_source: &str) -> (r: Option<String>)
    ensures
        match r {
            Some(s) => em_dash_fix(full_source@) == Some(encode_utf8(s@)),
            None => em_dash_fix(full_source@) is None,
        },
{
    let ghost b = full_source.spec_bytes();
    let body = body_of(full_source);
    let tree = parse_gfm(body);
    let mut patches: Vec<Patch> = Vec::new();
    collect_em_dash_patches(body, &tree, &mut patches);
    assert(patches_view(Seq::<Patch>::empty()) =~= Seq::<(int, int, Seq<u8>)>::empty());
    assert(body.spec_bytes() =~= b.skip(body_start(b)));
    assert(patches_view(patches@) =~= leaves_patches(b.skip(body_start(b)), node_leaves(tree)));
    if patches.len() == 0 {
        return None;
    }
    let sorted = sort_patches_desc(&patches);
    let body_off = crate::frontmatter::body_start_byte(full_source);
    let new_body = match apply_patches_exec(body, &sorted) {
        Some(nb) => nb,
        None => return None,
    };
    proof {
        lemma_str_valid(full_source);
        crate::frontmatter::lemma_body_start_boundary(b);
    }
    let (head, _) = full_source.split_at(body_off);
    let mut out = head.to_owned();
    out.append(new_body.as_str());
    proof {
        lemma_encode_utf8_add(head@, new_body@);
        assert(head.spec_bytes() =~= b.take(body_off as int));
        assert(body.spec_bytes() =~= b.skip(body_off as int));
    }
    Some(out)
}

/// The rule ids that have an automatic fix.
pub fn autofix_rule_ids() -> (r: Vec<&'static str>)
    ensures
        r@.len() == 1,
        r@[0]@ == "prose_em_dash"@,
{
    let mut v: Vec<&'static str> = Vec::new();
    v.push("prose_em_dash");
    v
}

/// Applies every enabled fix to a page. The result is the new page text
/// when some fix changed it, else `None`.
pub fn apply_markdown_autofixes(full_source: &str, cfg: &ResolvedConfig) -> (r: Option<String>)
    ensures
        r matches Some(s) ==> s@ != full_source@,
        !cfg.prose_em_dash.enabled ==> r is None,
        cfg.prose_em_dash.enabled ==> match r {
            Some(s) => em_dash_fix(full_source@) == Some(encode_utf8(s@)),
            None => em_dash_fix(full_source@) is None || em_dash_fix(full_source@) == Some(
                encode_utf8(full_source@),
            ),
        },
{
    if cfg.prose_em_dash.enabled {
        match replace_prose_em_dashes_in_body(full_source) {
            Some(patched) => {
                if patched == full_source.to_owned() {
                    return None;
                }
                return Some(patched);
            },
            None => {},
        }
    }
    None
}

/// Whether the fixes apply to a file found under the docs directory: a
/// markdown page whose project path no exclude pattern matches.
pub open spec fn fix_selected(cfg: ResolvedConfig, path: Seq<char>) -> bool {
    is_markdown_path(path) && !glob_set_match(glob_set_patterns(cfg.exclude), repo_path(cfg.root@, path))
}

/// Whether the fixes apply to a file found under the docs directory.
pub fn should_autofix_file(cfg: &ResolvedConfig, path: &str) -> (r: bool)
    ensures
        r == fix_selected(*cfg, path@),
{
    if !is_markdown_doc_file(path) {
        return false;
    }
    let key = normalize_repo_path(cfg.root.as_str(), path);
    !glob_set_is_match(&cfg.exclude, key.as_str())
}

proof fn lemma_scalar_bytes(c: u32)
    requires
        is_scalar(c),
    ensures
        encode_scalar(c).len() >= 1,
        encode_scalar(c)[0] == 0xE2u8 ==> has_width_3_encoding(c),
        forall|j: int| 1 <= j < encode_scalar(c).len() ==> 0x80u8 <= #[trigger] encode_scalar(c)[j] <= 0xBFu8,
        has_width_3_encoding(c) ==> encode_scalar(c).len() == 3,
        (has_width_3_encoding(c) && encode_scalar(c)[0] == 0xE2u8 && encode_scalar(c)[1] == 0x80u8
            && encode_scalar(c)[2] == 0x94u8) ==> c == 0x2014u32,
        c == 0x2014u32 ==> encode_scalar(c) == seq![0xE2u8, 0x80u8, 0x94u8],
{
    if has_width_1_encoding(c) {
        assert(((c & 0x7F) as u8) < 0x80u8) by (bit_vector)
            requires
                c <= 0x7F,
        ;
    } else if has_width_2_encoding(c) {
        let b0 = 0xC0u8 | ((c >> 6) & 0x1F) as u8;
        assert(0xC0u8 <= (0xC0u8 | ((c >> 6) & 0x1F) as u8) <= 0xDFu8) by (bit_vector);
        assert(0x80u8 <= (0x80u8 | (c & 0x3F) as u8) <= 0xBFu8) by (bit_vector);
    } else if has_width_3_encoding(c) {
        assert(0x80u8 <= (0x80u8 | ((c >> 6) & 0x3F) as u8) <= 0xBFu8) by (bit_vector);
        assert(0x80u8 <= (0x80u8 | (c & 0x3F) as u8) <= 0xBFu8) by (bit_vector);
        assert(((0xE0u8 | ((c >> 12) & 0x0F) as u8) == 0xE2u8 && (0x80u8 | ((c >> 6) & 0x3F) as u8)
            == 0x80u8 && (0x80u8 | (c & 0x3F) as u8) == 0x94u8) ==> c == 0x2014u32) by (bit_vector)
            requires
                0x800 <= c <= 0xFFFF,
        ;
        assert(c == 0x2014u32 ==> (0xE0u8 | ((c >> 12) & 0x0F) as u8) == 0xE2u8 && (0x80u8 | ((c
            >> 6) & 0x3F) as u8) == 0x80u8 && (0x80u8 | (c & 0x3F) as u8) == 0x94u8) by (bit_vector);
        if c == 0x2014u32 {
            assert(encode_scalar(c) =~= seq![0xE2u8, 0x80u8, 0x94u8]);
        }
    } else {
        assert(0xF0u8 <= (0xF0u8 | ((c >> 18) & 0x7) as u8) <= 0xF7u8) by (bit_vector);
        assert(0x80u8 <= (0x80u8 | ((c >> 12) & 0x3F) as u8) <= 0xBFu8) by (bit_vector);
        assert(0x80u8 <= (0x80u8 | ((c >> 6) & 0x3F) as u8) <= 0xBFu8) by (bit_vector);
        assert(0x80u8 <= (0x80u8 | (c & 0x3F) as u8) <= 0xBFu8) by (bit_vector);
    }
}

/// The em dash fix rewrites a text or raw HTML node exactly when the
/// `prose_em_dash` rule reports it: both read the em dashes written in the
/// node's source span (the character itself, or in text a character
/// reference for it), and every em dash the rule reports there is turned
/// into ` - ` in the rewrite.
pub proof fn law_fix_where_rule_reports(cx: ScanParams, l: (MdText, bool))
    requires
        cx.prose_em_dash,
        !cx.unescaped_lt,
    ensures
        leaf_patches(body_bytes(cx), l).len() > 0 <==> leaf_findings(cx, l).len() > 0,
        leaf_patches(body_bytes(cx), l).len() <= 1,
        forall|k: int| 0 <= k < leaf_patches(body_bytes(cx), l).len() ==> {
            let p = #[trigger] leaf_patches(body_bytes(cx), l)[k];
            &&& node_span(body_bytes(cx), l.0) == Some((p.0, p.1))
            &&& p.2 == dash_fixed(body_bytes(cx).subrange(p.0, p.1), 0, l.1)
            &&& leaf_findings(cx, l).len() == dash_positions(body_bytes(cx).subrange(p.0, p.1), 0, l.1).len()
        },
{
    match node_span(body_bytes(cx), l.0) {
        Some((s, e)) => {
            let v = body_bytes(cx).subrange(s, e);
            assert(leaf_findings(cx, l) =~= Seq::<FindingView>::empty() + hit_findings(
                cx,
                s,
                dash_positions(v, 0, l.1),
                "prose_em_dash"@,
                cx.em_dash_level,
                em_dash_message(),
            ));
        },
        None => {},
    }
}

/// What the em dash fix writes in place of a node's span has no em dash
/// left for the rule to find there: every dash written in the span, as the
/// character or as a reference, became ` - `.
pub proof fn law_fix_leaves_no_em_dash(body: Seq<u8>, l: (MdText, bool))
    ensures
        forall|k: int| 0 <= k < leaf_patches(body, l).len() ==> dash_positions(
            (#[trigger] leaf_patches(body, l)[k]).2,
            0,
            l.1,
        ).len() == 0,
{
    match node_span(body, l.0) {
        Some((s, e)) => {
            lemma_fixed_has_no_dash(body.subrange(s, e), 0, l.1);
        },
        None => {},
    }
}

/// The em dash fix never touches the frontmatter: the fixed page starts
/// with the same bytes, up to where the body starts.
pub proof fn law_fix_keeps_frontmatter(page: Seq<char>)
    ensures
        em_dash_fix(page) matches Some(fixed) ==> {
            let b = encode_utf8(page);
            fixed.take(body_start(b)) == b.take(body_start(b))
        },
{
    let b = encode_utf8(page);
    let off = body_start(b);
    crate::frontmatter::law_body_start_agrees_with_split(b);
    if em_dash_fix(page) is Some {
        let fixed = em_dash_fix(page).unwrap();
        assert(0 <= off <= b.len());
        assert(b.take(off).len() == off);
        assert(fixed.take(off) =~= b.take(off));
    }
}

proof fn lemma_insert_pos_props(sorted: Seq<(int, int, Seq<u8>)>, start: int)
    ensures
        0 <= insert_pos(sorted, start) <= sorted.len(),
        forall|k: int| 0 <= k < insert_pos(sorted, start) ==> #[trigger] sorted[k].0 >= start,
        insert_pos(sorted, start) < sorted.len() ==> sorted[insert_pos(sorted, start)].0 < start,
    decreases sorted.len(),
{
    if sorted.len() > 0 && sorted[0].0 >= start {
        let t = sorted.drop_first();
        lemma_insert_pos_props(t, start);
        assert forall|k: int| 0 <= k < insert_pos(sorted, start) implies #[trigger] sorted[k].0 >= start by {
            if k > 0 {
                assert(sorted[k] == t[k - 1]);
            }
        }
        if insert_pos(sorted, start) < sorted.len() {
            assert(sorted[insert_pos(sorted, start)] == t[insert_pos(t, start)]);
        }
    }
}

/// Rewrites ordered by `sort_by_start_desc` are the same rewrites, with
/// starts that never increase.
pub proof fn law_sort_by_start_desc(ps: Seq<(int, int, Seq<u8>)>)
    ensures
        sort_by_start_desc(ps).to_multiset() == ps.to_multiset(),
        forall|i: int| 1 <= i < sort_by_start_desc(ps).len() ==> (#[trigger] sort_by_start_desc(ps)[i]).0
            <= sort_by_start_desc(ps)[i - 1].0,
    decreases ps.len(),
{
    broadcast use vstd::seq_lib::group_to_multiset_ensures;

    if ps.len() == 0 {
        assert(sort_by_start_desc(ps) =~= ps);
    } else {
        let init = ps.drop_last();
        let x = ps.last();
        let s = sort_by_start_desc(init);
        law_sort_by_start_desc(init);
        let p = insert_pos(s, x.0);
        lemma_insert_pos_props(s, x.0);
        let r = s.insert(p, x);
        assert(sort_by_start_desc(ps) == r);
        vstd::seq_lib::to_multiset_insert(s, p, x);
        assert(ps =~= init.push(x));
        vstd::seq_lib::to_multiset_build(init, x);
        assert forall|i: int| 1 <= i < r.len() implies (#[trigger] r[i]).0 <= r[i - 1].0 by {
            if i < p {
                assert(r[i] == s[i] && r[i - 1] == s[i - 1]);
            } else if i == p {
                assert(r[i] == x && r[i - 1] == s[i - 1]);
            } else if i == p + 1 {
                assert(r[i] == s[i - 1] && r[i - 1] == x);
            } else {
                assert(r[i] == s[i - 1] && r[i - 1] == s[i - 2]);
            }
        }
    }
}

/// The byte positions where the `prose_em_dash` rule sees the em dash
/// character itself are exactly the byte offsets of the em dash characters
/// of the text (what `char_indices` yields for them).
pub proof fn law_em_dash_byte_positions(s: Seq<char>, i: int)
    ensures
        em_dash_at(encode_utf8(s), i) <==> exists|k: int|
            0 <= k < s.len() && s[k] == em_dash() && i == #[trigger] encode_utf8(s.take(k)).len(),
    decreases s.len(),
{
    if s.len() > 0 {
        let c = s[0];
        let rest = s.drop_first();
        let e0 = encode_scalar(c as u32);
        let b = encode_utf8(s);
        let br = encode_utf8(rest);
        assert(b == e0 + br);
        char_is_scalar(c);
        lemma_scalar_bytes(c as u32);
        assert(s.take(0) =~= Seq::<char>::empty());
        assert(encode_utf8(s.take(0)).len() == 0);
        assert forall|k: int| 1 <= k <= s.len() implies #[trigger] encode_utf8(s.take(k)).len() == e0.len()
            + encode_utf8(rest.take(k - 1)).len() by {
            assert(s.take(k)[0] == c);
            assert(s.take(k).drop_first() =~= rest.take(k - 1));
        }
        if em_dash_at(b, i) {
            if i >= e0.len() {
                assert(em_dash_at(br, i - e0.len()));
                law_em_dash_byte_positions(rest, i - e0.len());
                let k = choose|k: int|
                    0 <= k < rest.len() && rest[k] == em_dash() && i - e0.len()
                        == #[trigger] encode_utf8(rest.take(k)).len();
                assert(s[k + 1] == em_dash());
                assert(encode_utf8(s.take(k + 1)).len() == e0.len() + encode_utf8(rest.take(k)).len());
            } else if i == 0 {
                assert(c as u32 == 0x2014u32);
                char_u32_cast(c, c as u32);
                assert(s[0] == em_dash());
                assert(encode_utf8(s.take(0)).len() == i);
            } else {
                assert(b[i] == e0[i]);
            }
        }
        if exists|k: int| 0 <= k < s.len() && s[k] == em_dash() && i == #[trigger] encode_utf8(s.take(k)).len() {
            let k = choose|k: int|
                0 <= k < s.len() && s[k] == em_dash() && i == #[trigger] encode_utf8(s.take(k)).len();
            if k == 0 {
                assert(c as u32 == 0x2014u32);
                assert(em_dash_at(b, 0));
            } else {
                assert(rest[k - 1] == em_dash());
                law_em_dash_byte_positions(rest, i - e0.len());
                assert(em_dash_at(br, i - e0.len()));
                assert(em_dash_at(b, i));
            }
        }
    }
}

/// The rewrites the em dash fix makes in a page's body, in document order.
pub open spec fn em_dash_patches(page: Seq<char>) -> Seq<(int, int, Seq<u8>)> {
    let b = encode_utf8(page);
    leaves_patches(b.skip(body_start(b)), node_leaves(gfm_tree(body_chars(page))))
}

/// `x` from `pos` on, with each rewrite of `ps` (in order, not overlapping,
/// none before `pos`) put in place of its range at its original offsets,
/// and every other byte kept.
pub open spec fn spliced_from(x: Seq<u8>, ps: Seq<(int, int, Seq<u8>)>, pos: int) -> Seq<u8>
    decreases ps.len(),
{
    if ps.len() == 0 {
        x.subrange(pos, x.len() as int)
    } else {
        x.subrange(pos, ps[0].0) + ps[0].2 + spliced_from(x, ps.drop_first(), ps[0].1)
    }
}

/// Ranges in order, none overlapping the next.
pub open spec fn in_document_order(ps: Seq<(int, int, Seq<u8>)>) -> bool {
    forall|i: int, j: int| #![trigger ps[i], ps[j]] 0 <= i < j < ps.len() ==> ps[i].1 <= ps[j].0
}

/// A rewrite that replaces a non-empty range of `body` between character
/// boundaries by valid UTF-8 text that starts a character.
pub open spec fn patch_ok(body: Seq<u8>, p: (int, int, Seq<u8>)) -> bool {
    &&& 0 <= p.0 < p.1 <= body.len()
    &&& is_char_boundary(body, p.0)
    &&& is_char_boundary(body, p.1)
    &&& valid_utf8(p.2)
    &&& p.2.len() > 0
    &&& !is_continuation_byte(p.2[0])
}

proof fn lemma_spliced_take(x: Seq<u8>, ps: Seq<(int, int, Seq<u8>)>, pos: int, n: int)
    requires
        0 <= pos <= n <= x.len(),
        forall|k: int| 0 <= k < ps.len() ==> pos <= (#[trigger] ps[k]).0 <= ps[k].1 <= n,
        in_document_order(ps),
    ensures
        spliced_from(x, ps, pos) == spliced_from(x.take(n), ps, pos) + x.skip(n),
    decreases ps.len(),
{
    if ps.len() == 0 {
        assert(x.subrange(pos, x.len() as int) =~= x.take(n).subrange(pos, n) + x.skip(n));
    } else {
        let p0 = ps[0];
        let rest = ps.drop_first();
        assert forall|k: int| 0 <= k < rest.len() implies p0.1 <= (#[trigger] rest[k]).0 <= rest[k].1 <= n by {
            assert(rest[k] == ps[k + 1]);
            assert(ps[0].1 <= ps[k + 1].0);
        }
        assert forall|i: int, j: int| #![trigger rest[i], rest[j]] 0 <= i < j < rest.len() implies rest[i].1 <= rest[j].0 by {
            assert(rest[i] == ps[i + 1] && rest[j] == ps[j + 1]);
        }
        lemma_spliced_take(x, rest, p0.1, n);
        assert(x.subrange(pos, p0.0) =~= x.take(n).subrange(pos, p0.0));
        assert(spliced_from(x, ps, pos) =~= x.take(n).subrange(pos, p0.0) + p0.2 + (spliced_from(x.take(n), rest, p0.1) + x.skip(n)));
    }
}

proof fn lemma_spliced_last(x: Seq<u8>, ps: Seq<(int, int, Seq<u8>)>, pos: int)
    requires
        ps.len() > 0,
        0 <= pos,
        forall|k: int| 0 <= k < ps.len() ==> pos <= (#[trigger] ps[k]).0 <= ps[k].1 <= x.len(),
        in_document_order(ps),
    ensures
        spliced_from(x, ps, pos) == spliced_from(x.take(ps.last().0), ps.drop_last(), pos) + ps.last().2 + x.skip(ps.last().1),
    decreases ps.len(),
{
    let l = ps.last();
    if ps.len() == 1 {
        assert(ps.drop_first() =~= Seq::<(int, int, Seq<u8>)>::empty());
        assert(ps.drop_last() =~= Seq::<(int, int, Seq<u8>)>::empty());
        assert(x.subrange(pos, l.0) =~= x.take(l.0).subrange(pos, l.0));
        assert(x.subrange(l.1, x.len() as int) =~= x.skip(l.1));
        assert(ps[0] == l);
        assert(spliced_from(x, ps, pos) == x.subrange(pos, l.0) + l.2 + spliced_from(x, ps.drop_first(), l.1));
        assert(spliced_from(x.take(l.0), ps.drop_last(), pos) == x.take(l.0).subrange(pos, l.0));
    } else {
        let p0 = ps[0];
        let rest = ps.drop_first();
        assert(rest.last() == l);
        assert forall|k: int| 0 <= k < rest.len() implies p0.1 <= (#[trigger] rest[k]).0 <= rest[k].1 <= x.len() by {
            assert(rest[k] == ps[k + 1]);
            assert(ps[0].1 <= ps[k + 1].0);
        }
        assert forall|i: int, j: int| #![trigger rest[i], rest[j]] 0 <= i < j < rest.len() implies rest[i].1 <= rest[j].0 by {
            assert(rest[i] == ps[i + 1] && rest[j] == ps[j + 1]);
        }
        lemma_spliced_last(x, rest, p0.1);
        assert(rest.drop_last() =~= ps.drop_last().drop_first());
        assert(ps.drop_last()[0] == p0);
        assert(ps[0].1 <= ps[ps.len() - 1].0);
        assert(x.subrange(pos, p0.0) =~= x.take(l.0).subrange(pos, p0.0));
        let xt = x.take(l.0);
        let mid = spliced_from(xt, rest.drop_last(), p0.1);
        assert(spliced_from(xt, ps.drop_last(), pos) == xt.subrange(pos, p0.0) + p0.2 + mid);
        assert(spliced_from(x, ps, pos) == x.subrange(pos, p0.0) + p0.2 + (mid + l.2 + x.skip(l.1)));
        assert(spliced_from(x, ps, pos) =~= xt.subrange(pos, p0.0) + p0.2 + mid + l.2 + x.skip(l.1));
    }
}

proof fn lemma_patches_ok(body: Seq<u8>, ls: Seq<(MdText, bool)>)
    requires
        valid_utf8(body),
    ensures
        forall|k: int| 0 <= k < leaves_patches(body, ls).len() ==> patch_ok(body, #[trigger] leaves_patches(body, ls)[k]),
    decreases ls.len(),
{
    if ls.len() > 0 {
        lemma_patches_ok(body, ls.drop_last());
        let a = leaves_patches(body, ls.drop_last());
        let b = leaf_patches(body, ls.last());
        let l = ls.last();
        match node_span(body, l.0) {
            Some((s, e)) => {
                let v = body.subrange(s, e);
                if dash_positions(v, 0, l.1).len() > 0 {
                    assert(v.len() > 0);
                    valid_utf8_split(body, e);
                    let p = body.subrange(0, e);
                    if s < e {
                        is_char_boundary_iff_not_is_continuation_byte(body, s);
                        assert(p[s] == body[s]);
                        is_char_boundary_iff_not_is_continuation_byte(p, s);
                    }
                    valid_utf8_split(p, s);
                    assert(p.subrange(s, e) =~= v);
                    assert(v.subrange(0, v.len() as int) =~= v);
                    lemma_fixed_valid(v, 0, l.1);
                    lemma_fixed_first(v, 0, l.1);
                    is_char_boundary_start_end_of_seq(v);
                    is_char_boundary_iff_not_is_continuation_byte(v, 0);
                    assert(patch_ok(body, b[0]));
                }
            },
            None => {},
        }
        assert forall|k: int| 0 <= k < (a + b).len() implies patch_ok(body, #[trigger] (a + b)[k]) by {
            if k < a.len() {
                assert((a + b)[k] == a[k]);
            } else {
                assert((a + b)[k] == b[k - a.len()]);
            }
        }
    }
}

/// Applying rewrites that fit, in order and not overlapping, from the last
/// to the first gives the text with each one in place at its original
/// offsets.
proof fn lemma_apply_from_the_end(body: Seq<u8>, ps: Seq<(int, int, Seq<u8>)>)
    requires
        valid_utf8(body),
        forall|k: int| 0 <= k < ps.len() ==> patch_ok(body, #[trigger] ps[k]),
        in_document_order(ps),
    ensures
        apply_patches(body, sort_by_start_desc(ps)) == Some(spliced_from(body, ps, 0)),
    decreases ps.len(),
{
    broadcast use vstd::seq_lib::to_multiset_contains;

    if ps.len() == 0 {
        assert(body.subrange(0, body.len() as int) =~= body);
    } else {
        let init = ps.drop_last();
        let l = ps.last();
        assert(patch_ok(body, ps[ps.len() - 1]));
        let s = sort_by_start_desc(init);
        law_sort_by_start_desc(init);
        if s.len() > 0 {
            assert(s.contains(s[0]));
            assert(s.to_multiset().count(s[0]) > 0);
            assert(init.contains(s[0]));
            let k = choose|k: int| 0 <= k < init.len() && init[k] == s[0];
            assert(patch_ok(body, ps[k]));
            assert(ps[k].1 <= ps[ps.len() - 1].0);
        }
        assert(insert_pos(s, l.0) == 0);
        assert(sort_by_start_desc(ps) == s.insert(0, l));
        let sorted = s.insert(0, l);
        assert(sorted[0] == l);
        assert(sorted.drop_first() =~= s);
        let body2 = splice(body, l.0, l.1, l.2);
        assert(apply_patches(body, sorted) == apply_patches(body2, s));
        // the spliced text is valid UTF-8
        valid_utf8_split(body, l.0);
        valid_utf8_split(body, l.1);
        assert(body.subrange(0, l.0) =~= body.take(l.0));
        assert(body.subrange(l.1, body.len() as int) =~= body.skip(l.1));
        valid_utf8_concat(body.take(l.0), l.2);
        valid_utf8_concat(body.take(l.0) + l.2, body.skip(l.1));
        assert(body2 == body.take(l.0) + l.2 + body.skip(l.1));
        assert forall|k: int| 0 <= k < init.len() implies patch_ok(body2, #[trigger] init[k]) by {
            let q = init[k];
            assert(patch_ok(body, ps[k]));
            assert(ps[k].1 <= ps[ps.len() - 1].0);
            assert(q == ps[k]);
            assert(body2.len() > l.0);
            assert forall|x: int| x == q.0 || x == q.1 implies is_char_boundary(body2, x) by {
                is_char_boundary_iff_not_is_continuation_byte(body2, x);
                if x < l.0 {
                    is_char_boundary_iff_not_is_continuation_byte(body, x);
                    assert(body2[x] == body[x]);
                } else {
                    assert(body2[x] == l.2[0]);
                }
            }
        }
        assert forall|i: int, j: int| #![trigger init[i], init[j]] 0 <= i < j < init.len() implies init[i].1 <= init[j].0 by {
            assert(init[i] == ps[i] && init[j] == ps[j]);
        }
        lemma_apply_from_the_end(body2, init);
        assert forall|k: int| 0 <= k < init.len() implies 0 <= (#[trigger] init[k]).0 <= init[k].1 <= l.0 by {
            assert(patch_ok(body, ps[k]));
            assert(ps[k].1 <= ps[ps.len() - 1].0);
            assert(init[k] == ps[k]);
        }
        lemma_spliced_take(body2, init, 0, l.0);
        assert(body2.take(l.0) =~= body.take(l.0));
        assert(body2.skip(l.0) =~= l.2 + body.skip(l.1));
        assert forall|k: int| 0 <= k < ps.len() implies 0 <= (#[trigger] ps[k]).0 <= ps[k].1 <= body.len() by {
            assert(patch_ok(body, ps[k]));
        }
        lemma_spliced_last(body, ps, 0);
    }
}

/// When the rewritten nodes come in document order without overlapping (as
/// the parser's text and HTML nodes do), the em dash fix gives back the page
/// with every rewrite put in place of its node's source span at the span's
/// original offsets and every other byte kept, whatever the number of
/// rewrites and however they change the length of the text. With no
/// rewrite there is no fix.
pub proof fn law_fix_applies_every_rewrite(page: Seq<char>)
    requires
        in_document_order(em_dash_patches(page)),
    ensures
        em_dash_patches(page).len() == 0 ==> em_dash_fix(page) is None,
        em_dash_patches(page).len() > 0 ==> em_dash_fix(page) == Some(
            encode_utf8(page).take(body_start(encode_utf8(page))) + spliced_from(
                encode_utf8(page).skip(body_start(encode_utf8(page))),
                em_dash_patches(page),
                0,
            ),
        ),
{
    let b = encode_utf8(page);
    let off = body_start(b);
    let body = b.skip(off);
    encode_utf8_valid_utf8(page);
    crate::frontmatter::lemma_body_start_boundary(b);
    crate::frontmatter::law_body_start_agrees_with_split(b);
    valid_utf8_split(b, off);
    assert(b.subrange(off, b.len() as int) =~= body);
    lemma_patches_ok(body, node_leaves(gfm_tree(body_chars(page))));
    if em_dash_patches(page).len() > 0 {
        lemma_apply_from_the_end(body, em_dash_patches(page));
    }
}

} // verus!
