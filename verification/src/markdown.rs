//! Prose checks on the markdown body: raw `<` before a letter or digit, and
//! the Unicode em dash. They read the source text of text and raw HTML
//! nodes, where an em dash may also be written as a character reference in
//! text (see `dashes`); code, math and the other literal nodes are skipped.

use vstd::prelude::*;
use vstd::string::*;
use vstd::utf8::{decode_utf8, encode_utf8, encode_utf8_decode_utf8, is_char_boundary};
use crate::finding::{Finding, FindingView, Severity, findings_view, normalize_repo_path, repo_path};
use crate::frontmatter::{body_start, body_start_byte, column_at, line_at, line_col_of_bytes, lemma_body_start_boundary};
use crate::text::{lemma_str_valid, span_text};
use crate::dashes::{dash_offsets, dash_positions, lemma_dash_positions_range};

verus! {

/// A text or raw HTML node: where the parser placed it in the body.
pub struct MdText {
    /// Start and end byte offsets in the body.
    pub span: Option<(usize, usize)>,
}

/// A markdown syntax tree, one variant per node kind of the parser. Text
/// and raw HTML keep their position, nodes with children keep them in
/// order, and the other nodes keep nothing the checks read.
pub enum MdNode {
    Root(Vec<MdNode>),
    Blockquote(Vec<MdNode>),
    FootnoteDefinition(Vec<MdNode>),
    MdxJsxFlowElement(Vec<MdNode>),
    List(Vec<MdNode>),
    MdxjsEsm,
    Toml,
    Yaml,
    Break,
    InlineCode,
    InlineMath,
    Delete(Vec<MdNode>),
    Emphasis(Vec<MdNode>),
    MdxTextExpression,
    FootnoteReference,
    Html(MdText),
    Image,
    ImageReference,
    MdxJsxTextElement(Vec<MdNode>),
    Link(Vec<MdNode>),
    LinkReference(Vec<MdNode>),
    Strong(Vec<MdNode>),
    Text(MdText),
    Code,
    Math,
    MdxFlowExpression,
    Heading(Vec<MdNode>),
    Table(Vec<MdNode>),
    ThematicBreak,
    TableRow(Vec<MdNode>),
    TableCell(Vec<MdNode>),
    ListItem(Vec<MdNode>),
    Definition,
    Paragraph(Vec<MdNode>),
}

#[verifier::external_type_specification]
#[verifier::external_body]
pub struct ExMdastNode(::markdown::mdast::Node);

/// The tree that `markdown::to_mdast` builds for `body` with GitHub
/// flavoured markdown options.
pub uninterp spec fn gfm_tree(body: Seq<char>) -> MdNode;

/// The children of an mdast node, converted in order.
#[verifier::external_body]
fn kids(cs: &Vec<::markdown::mdast::Node>) -> Vec<MdNode> {
    cs.iter().map(MdNode::from_mdast).collect()
}

impl MdNode {
    /// One node of the markdown crate's tree, and its subtree, in the
    /// library's form: each kind to the variant of the same name. Every
    /// kind of `markdown::mdast::Node` is taken by exactly one of the
    /// helpers below. Used only by `parse_gfm`, whose contract covers the
    /// conversion.
    #[verifier::external_body]
    fn from_mdast(n: &::markdown::mdast::Node) -> MdNode {
        MdNode::text_node(n)
            .or_else(|| MdNode::container_node(n))
            .or_else(|| MdNode::phrasing_parent(n))
            .or_else(|| MdNode::flow_parent(n))
            .or_else(|| MdNode::code_or_media(n))
            .or_else(|| MdNode::definition_or_meta(n))
            .expect("every mdast node kind converts")
    }

    /// Text and raw HTML, with their start and end offsets.
    #[verifier::external_body]
    fn text_node(n: &::markdown::mdast::Node) -> Option<MdNode> {
        match n {
            ::markdown::mdast::Node::Text(x) => Some(MdNode::Text(MdText { span: x.position.as_ref().map(|p| (p.start.offset, p.end.offset)) })),
            ::markdown::mdast::Node::Html(x) => Some(MdNode::Html(MdText { span: x.position.as_ref().map(|p| (p.start.offset, p.end.offset)) })),
            _ => None,
        }
    }

    /// The root, containers, lists and list items, with their children.
    #[verifier::external_body]
    fn container_node(n: &::markdown::mdast::Node) -> Option<MdNode> {
        match n {
            ::markdown::mdast::Node::Root(x) => Some(MdNode::Root(kids(&x.children))),
            ::markdown::mdast::Node::Blockquote(x) => Some(MdNode::Blockquote(kids(&x.children))),
            ::markdown::mdast::Node::FootnoteDefinition(x) => Some(MdNode::FootnoteDefinition(kids(&x.children))),
            ::markdown::mdast::Node::MdxJsxFlowElement(x) => Some(MdNode::MdxJsxFlowElement(kids(&x.children))),
            ::markdown::mdast::Node::List(x) => Some(MdNode::List(kids(&x.children))),
            ::markdown::mdast::Node::ListItem(x) => Some(MdNode::ListItem(kids(&x.children))),
            _ => None,
        }
    }

    /// The phrasing kinds that hold other nodes, with their children.
    #[verifier::external_body]
    fn phrasing_parent(n: &::markdown::mdast::Node) -> Option<MdNode> {
        match n {
            ::markdown::mdast::Node::Delete(x) => Some(MdNode::Delete(kids(&x.children))),
            ::markdown::mdast::Node::Emphasis(x) => Some(MdNode::Emphasis(kids(&x.children))),
            ::markdown::mdast::Node::MdxJsxTextElement(x) => Some(MdNode::MdxJsxTextElement(kids(&x.children))),
            ::markdown::mdast::Node::Link(x) => Some(MdNode::Link(kids(&x.children))),
            ::markdown::mdast::Node::LinkReference(x) => Some(MdNode::LinkReference(kids(&x.children))),
            ::markdown::mdast::Node::Strong(x) => Some(MdNode::Strong(kids(&x.children))),
            _ => None,
        }
    }

    /// Headings, paragraphs, tables, rows and cells, with their children.
    #[verifier::external_body]
    fn flow_parent(n: &::markdown::mdast::Node) -> Option<MdNode> {
        match n {
            ::markdown::mdast::Node::Heading(x) => Some(MdNode::Heading(kids(&x.children))),
            ::markdown::mdast::Node::Paragraph(x) => Some(MdNode::Paragraph(kids(&x.children))),
            ::markdown::mdast::Node::Table(x) => Some(MdNode::Table(kids(&x.children))),
            ::markdown::mdast::Node::TableRow(x) => Some(MdNode::TableRow(kids(&x.children))),
            ::markdown::mdast::Node::TableCell(x) => Some(MdNode::TableCell(kids(&x.children))),
            _ => None,
        }
    }

    /// Code, math, breaks, footnote references and images.
    #[verifier::external_body]
    fn code_or_media(n: &::markdown::mdast::Node) -> Option<MdNode> {
        match n {
            ::markdown::mdast::Node::Code(_) => Some(MdNode::Code),
            ::markdown::mdast::Node::InlineCode(_) => Some(MdNode::InlineCode),
            ::markdown::mdast::Node::Math(_) => Some(MdNode::Math),
            ::markdown::mdast::Node::InlineMath(_) => Some(MdNode::InlineMath),
            ::markdown::mdast::Node::Break(_) => Some(MdNode::Break),
            ::markdown::mdast::Node::FootnoteReference(_) => Some(MdNode::FootnoteReference),
            ::markdown::mdast::Node::Image(_) => Some(MdNode::Image),
            ::markdown::mdast::Node::ImageReference(_) => Some(MdNode::ImageReference),
            _ => None,
        }
    }

    /// Definitions, thematic breaks, frontmatter and MDX expressions.
    #[verifier::external_body]
    fn definition_or_meta(n: &::markdown::mdast::Node) -> Option<MdNode> {
        match n {
            ::markdown::mdast::Node::Definition(_) => Some(MdNode::Definition),
            ::markdown::mdast::Node::ThematicBreak(_) => Some(MdNode::ThematicBreak),
            ::markdown::mdast::Node::Toml(_) => Some(MdNode::Toml),
            ::markdown::mdast::Node::Yaml(_) => Some(MdNode::Yaml),
            ::markdown::mdast::Node::MdxjsEsm(_) => Some(MdNode::MdxjsEsm),
            ::markdown::mdast::Node::MdxFlowExpression(_) => Some(MdNode::MdxFlowExpression),
            ::markdown::mdast::Node::MdxTextExpression(_) => Some(MdNode::MdxTextExpression),
            _ => None,
        }
    }
}

/// Calls `markdown::to_mdast(body, &ParseOptions::gfm())` and converts the
/// tree with `from_mdast`. Claims that the converted tree is what `gfm_tree`
/// names for the body; the crate documents that without MDX the call never
/// fails.
#[verifier::external_body]
pub(crate) fn parse_gfm(body: &str) -> (t: MdNode)
    ensures
        t == gfm_tree(body@),
{
    MdNode::from_mdast(&::markdown::to_mdast(body, &::markdown::ParseOptions::gfm()).expect("GFM mdast parse"))
}

/// The text and raw HTML nodes of a tree, in document order, each with
/// whether the parser decodes character references in it (text) or keeps
/// its source as it is (raw HTML). Literal nodes
/// (code, math, images, definitions, breaks, frontmatter and MDX
/// expressions) contribute none; every other node contributes those of its
/// children.
pub open spec fn node_leaves(n: MdNode) -> Seq<(MdText, bool)>
    decreases n, 0nat,
{
    match n {
        MdNode::Text(t) => seq![(t, true)],
        MdNode::Html(t) => seq![(t, false)],
        MdNode::Code | MdNode::InlineCode | MdNode::Math | MdNode::InlineMath | MdNode::Break
        | MdNode::FootnoteReference | MdNode::Image | MdNode::ImageReference | MdNode::Definition
        | MdNode::ThematicBreak | MdNode::Toml | MdNode::Yaml | MdNode::MdxjsEsm
        | MdNode::MdxFlowExpression | MdNode::MdxTextExpression => seq![],
        MdNode::Root(cs) | MdNode::Blockquote(cs) | MdNode::FootnoteDefinition(cs)
        | MdNode::MdxJsxFlowElement(cs) | MdNode::List(cs) | MdNode::Delete(cs) | MdNode::Emphasis(cs)
        | MdNode::MdxJsxTextElement(cs) | MdNode::Link(cs) | MdNode::LinkReference(cs) | MdNode::Strong(cs)
        | MdNode::Heading(cs) | MdNode::Table(cs) | MdNode::TableRow(cs) | MdNode::TableCell(cs)
        | MdNode::ListItem(cs) | MdNode::Paragraph(cs) => list_leaves(cs@, cs@.len()),
    }
}

/// The text and HTML nodes under the first `k` of `cs`, in document order.
pub open spec fn list_leaves(cs: Seq<MdNode>, k: nat) -> Seq<(MdText, bool)>
    decreases cs, k,
{
    if k == 0 || k > cs.len() {
        seq![]
    } else {
        list_leaves(cs, (k - 1) as nat) + node_leaves(cs[k - 1])
    }
}

/// What a walk over one page needs: where findings point, the page and its
/// body, where the body starts, and which prose rules are on at which level.
pub struct WalkCtx<'a> {
    /// The page's path as reports show it.
    pub path: String,
    pub full_source: &'a str,
    /// The page from `body_off` on.
    pub body: &'a str,
    pub body_off: usize,
    pub unescaped_lt: bool,
    pub unescaped_level: Severity,
    pub prose_em_dash: bool,
    pub em_dash_level: Severity,
}

impl<'a> WalkCtx<'a> {
    /// The body is the page from `body_off` on, and the page's length fits
    /// below `usize::MAX`.
    pub open spec fn wf(&self) -> bool {
        &&& self.body_off <= self.full_source.spec_bytes().len() < usize::MAX
        &&& self.body.spec_bytes() == self.full_source.spec_bytes().skip(self.body_off as int)
    }
}

/// The walk's context as plain values.
pub struct ScanParams {
    pub path: Seq<char>,
    pub page: Seq<u8>,
    pub body_off: int,
    pub unescaped_lt: bool,
    pub unescaped_level: Severity,
    pub prose_em_dash: bool,
    pub em_dash_level: Severity,
}

impl<'a> View for WalkCtx<'a> {
    type V = ScanParams;

    open spec fn view(&self) -> ScanParams {
        ScanParams {
            path: self.path@,
            page: self.full_source.spec_bytes(),
            body_off: self.body_off as int,
            unescaped_lt: self.unescaped_lt,
            unescaped_level: self.unescaped_level,
            prose_em_dash: self.prose_em_dash,
            em_dash_level: self.em_dash_level,
        }
    }
}

/// The bytes of the body: the page from `body_off` on.
pub open spec fn body_bytes(cx: ScanParams) -> Seq<u8> {
    cx.page.skip(cx.body_off)
}

/// ASCII letter or digit.
pub open spec fn is_ascii_alnum(b: u8) -> bool {
    (48u8 <= b <= 57u8) || (65u8 <= b <= 90u8) || (97u8 <= b <= 122u8)
}

/// A raw `<` at `i` that is followed by an ASCII letter or digit.
pub open spec fn lt_hit(v: Seq<u8>, i: int) -> bool {
    0 <= i && i + 1 < v.len() && v[i] == 60u8 && is_ascii_alnum(v[i + 1])
}

/// The UTF-8 encoding of U+2014 (em dash) starts at `i`.
pub open spec fn em_dash_at(v: Seq<u8>, i: int) -> bool {
    0 <= i && i + 3 <= v.len() && v[i] == 0xE2u8 && v[i + 1] == 0x80u8 && v[i + 2] == 0x94u8
}

/// Positions below `n` with a raw `<` before a letter or digit, ascending.
pub open spec fn lt_hits(v: Seq<u8>, n: nat) -> Seq<int>
    decreases n,
{
    if n == 0 {
        seq![]
    } else {
        lt_hits(v, (n - 1) as nat) + if lt_hit(v, n - 1) { seq![n - 1] } else { seq![] }
    }
}

/// The message of an `unescaped_lt` finding.
pub open spec fn lt_message() -> Seq<char> {
    "raw `<` before a letter or digit; escape as `&lt;` outside code fences"@
}

/// The message of a `prose_em_dash` finding.
pub open spec fn em_dash_message() -> Seq<char> {
    "Unicode em dash (U+2014) in prose; use ASCII hyphen spacing instead"@
}

/// Offset in the page of byte `i` of a stretch of the body that starts at
/// `base`.
pub open spec fn page_offset(cx: ScanParams, base: int, i: int) -> int {
    cx.body_off + base + i
}

/// The finding a rule reports at a page offset.
pub open spec fn finding_at(
    cx: ScanParams,
    rule: Seq<char>,
    level: Severity,
    off: int,
    message: Seq<char>,
) -> FindingView {
    FindingView {
        rule_id: rule,
        severity: level,
        path: cx.path,
        line: line_at(cx.page, off),
        column: column_at(cx.page, off),
        message: message,
    }
}

/// Findings of one rule at the given hit positions of a stretch of the body.
pub open spec fn hit_findings(
    cx: ScanParams,
    base: int,
    hits: Seq<int>,
    rule: Seq<char>,
    level: Severity,
    message: Seq<char>,
) -> Seq<FindingView> {
    hits.map_values(|i: int| finding_at(cx, rule, level, page_offset(cx, base, i), message))
}

/// What the prose rules report for the source text `v` of a node that
/// starts at `base` in the body: first each raw `<` hit, then each em dash
/// written there (as the character, or in text as a character reference),
/// in order.
pub open spec fn slice_findings(cx: ScanParams, v: Seq<u8>, base: int, decoded: bool) -> Seq<FindingView> {
    (if cx.unescaped_lt {
        hit_findings(cx, base, lt_hits(v, v.len()), "unescaped_lt"@, cx.unescaped_level, lt_message())
    } else {
        seq![]
    }) + (if cx.prose_em_dash {
        hit_findings(cx, base, dash_positions(v, 0, decoded), "prose_em_dash"@, cx.em_dash_level, em_dash_message())
    } else {
        seq![]
    })
}

/// The source span of a text or HTML node in `body`, when the parser gave
/// it a position that lies in the body on character boundaries.
pub open spec fn node_span(body: Seq<u8>, t: MdText) -> Option<(int, int)> {
    match t.span {
        Some((s, e)) => if s <= e && e <= body.len() && is_char_boundary(body, s as int)
            && is_char_boundary(body, e as int) {
            Some((s as int, e as int))
        } else {
            None
        },
        None => None,
    }
}

/// What the rules report for one text or HTML node (with whether its
/// references are decoded): the hits in its source span. A node without a
/// usable span reports nothing.
pub open spec fn leaf_findings(cx: ScanParams, l: (MdText, bool)) -> Seq<FindingView> {
    match node_span(body_bytes(cx), l.0) {
        Some((s, e)) => slice_findings(cx, body_bytes(cx).subrange(s, e), s, l.1),
        None => seq![],
    }
}

/// What the rules report for a sequence of text and HTML nodes, in order.
pub open spec fn leaves_findings(cx: ScanParams, ls: Seq<(MdText, bool)>) -> Seq<FindingView>
    decreases ls.len(),
{
    if ls.len() == 0 {
        seq![]
    } else {
        leaves_findings(cx, ls.drop_last()) + leaf_findings(cx, ls.last())
    }
}

/// What the rules report for a node and everything under it.
pub open spec fn node_findings(cx: ScanParams, n: MdNode) -> Seq<FindingView> {
    leaves_findings(cx, node_leaves(n))
}

/// What the rules report for the first `k` of `cs`, one node after the
/// other.
pub open spec fn children_findings(cx: ScanParams, cs: Seq<MdNode>, k: nat) -> Seq<FindingView>
    decreases k,
{
    if k == 0 || k > cs.len() {
        seq![]
    } else {
        children_findings(cx, cs, (k - 1) as nat) + node_findings(cx, cs[k - 1])
    }
}

proof fn lemma_leaves_findings_add(cx: ScanParams, a: Seq<(MdText, bool)>, b: Seq<(MdText, bool)>)
    ensures
        leaves_findings(cx, a + b) == leaves_findings(cx, a) + leaves_findings(cx, b),
    decreases b.len(),
{
    if b.len() == 0 {
        assert(a + b =~= a);
    } else {
        lemma_leaves_findings_add(cx, a, b.drop_last());
        assert((a + b).drop_last() =~= a + b.drop_last());
        assert((a + b).last() == b.last());
    }
}

proof fn lemma_single_leaf(cx: ScanParams, t: (MdText, bool))
    ensures
        leaves_findings(cx, seq![t]) == leaf_findings(cx, t),
{
    assert(seq![t].drop_last() =~= Seq::<(MdText, bool)>::empty());
    assert(seq![t].last() == t);
    assert(leaves_findings(cx, Seq::<(MdText, bool)>::empty()) =~= Seq::<FindingView>::empty());
    assert(leaves_findings(cx, seq![t]) =~= leaf_findings(cx, t));
}

proof fn lemma_children_findings(cx: ScanParams, cs: Seq<MdNode>, k: nat)
    requires
        k <= cs.len(),
    ensures
        leaves_findings(cx, list_leaves(cs, k)) == children_findings(cx, cs, k),
    decreases k,
{
    if k == 0 {
        assert(leaves_findings(cx, Seq::<(MdText, bool)>::empty()) =~= Seq::<FindingView>::empty());
    } else {
        lemma_children_findings(cx, cs, (k - 1) as nat);
        lemma_leaves_findings_add(cx, list_leaves(cs, (k - 1) as nat), node_leaves(cs[k - 1]));
    }
}

/// What the prose rules report for each kind of node: a text or raw HTML
/// node reports the hits in its own source span; code, math, images,
/// definitions, breaks, frontmatter and MDX expressions report nothing;
/// every other node reports what its children report, child after child.
pub proof fn law_node_findings(cx: ScanParams, n: MdNode)
    ensures
        node_findings(cx, n) == match n {
            MdNode::Text(t) => leaf_findings(cx, (t, true)),
            MdNode::Html(t) => leaf_findings(cx, (t, false)),
            MdNode::Code | MdNode::InlineCode | MdNode::Math | MdNode::InlineMath | MdNode::Break
            | MdNode::FootnoteReference | MdNode::Image | MdNode::ImageReference | MdNode::Definition
            | MdNode::ThematicBreak | MdNode::Toml | MdNode::Yaml | MdNode::MdxjsEsm
            | MdNode::MdxFlowExpression | MdNode::MdxTextExpression => Seq::<FindingView>::empty(),
            MdNode::Root(cs) | MdNode::Blockquote(cs) | MdNode::FootnoteDefinition(cs)
            | MdNode::MdxJsxFlowElement(cs) | MdNode::List(cs) | MdNode::Delete(cs) | MdNode::Emphasis(cs)
            | MdNode::MdxJsxTextElement(cs) | MdNode::Link(cs) | MdNode::LinkReference(cs) | MdNode::Strong(cs)
            | MdNode::Heading(cs) | MdNode::Table(cs) | MdNode::TableRow(cs) | MdNode::TableCell(cs)
            | MdNode::ListItem(cs) | MdNode::Paragraph(cs) => children_findings(cx, cs@, cs@.len()),
        },
{
    match n {
        MdNode::Text(t) => lemma_single_leaf(cx, (t, true)),
        MdNode::Html(t) => lemma_single_leaf(cx, (t, false)),
        MdNode::Root(cs) | MdNode::Blockquote(cs) | MdNode::FootnoteDefinition(cs)
        | MdNode::MdxJsxFlowElement(cs) | MdNode::List(cs) | MdNode::Delete(cs) | MdNode::Emphasis(cs)
        | MdNode::MdxJsxTextElement(cs) | MdNode::Link(cs) | MdNode::LinkReference(cs) | MdNode::Strong(cs)
        | MdNode::Heading(cs) | MdNode::Table(cs) | MdNode::TableRow(cs) | MdNode::TableCell(cs)
        | MdNode::ListItem(cs) | MdNode::Paragraph(cs) => lemma_children_findings(cx, cs@, cs@.len()),
        _ => {
            assert(leaves_findings(cx, Seq::<(MdText, bool)>::empty()) =~= Seq::<FindingView>::empty());
        },
    }
}

/// Appends the finding a rule reports at a page offset.
fn push_hit(cx: &WalkCtx, off: usize, rule: &'static str, level: Severity, message: &str, out: &mut Vec<Finding>)
    requires
        cx.wf(),
    ensures
        findings_view(final(out)@) == findings_view(old(out)@).push(finding_at(cx@, rule@, level, off as int, message@)),
{
    let (line, column) = line_col_of_bytes(cx.full_source.as_bytes(), off);
    out.push(Finding {
        rule_id: rule,
        severity: level,
        path: cx.path.clone(),
        line: line,
        column: column,
        message: message.to_owned(),
    });
    proof {
        assert(findings_view(out@) =~= findings_view(old(out)@).push(out@.last()@));
    }
}

proof fn lemma_hit_step(cx: ScanParams, base: int, hs: Seq<int>, i: int, rule: Seq<char>, level: Severity, message: Seq<char>)
    ensures
        hit_findings(cx, base, hs.push(i), rule, level, message) == hit_findings(cx, base, hs, rule, level, message).push(
            finding_at(cx, rule, level, page_offset(cx, base, i), message),
        ),
{
    assert(hit_findings(cx, base, hs.push(i), rule, level, message) =~= hit_findings(cx, base, hs, rule, level, message).push(
        finding_at(cx, rule, level, page_offset(cx, base, i), message),
    ));
}

/// Scans the source text of the body between `start` and `end` (character
/// boundaries) for the enabled prose rules and appends what it finds.
fn scan_slice(cx: &WalkCtx, start: usize, end: usize, decoded: bool, out: &mut Vec<Finding>)
    requires
        cx.wf(),
        start <= end <= cx.body.spec_bytes().len(),
        is_char_boundary(cx.body.spec_bytes(), start as int),
        is_char_boundary(cx.body.spec_bytes(), end as int),
    ensures
        findings_view(final(out)@) == findings_view(old(out)@) + slice_findings(
            cx@,
            cx.body.spec_bytes().subrange(start as int, end as int),
            start as int,
            decoded,
        ),
{
    let bytes = cx.body.as_bytes();
    let n = end - start;
    let ghost v = bytes@.subrange(start as int, end as int);
    let ghost before = findings_view(out@);
    proof {
        assert(cx.body.spec_bytes().len() == cx.full_source.spec_bytes().len() - cx.body_off);
    }
    if cx.unescaped_lt {
        let mut i: usize = 0;
        while i < n
            invariant
                i <= n,
                n == end - start,
                start <= end <= bytes@.len(),
                v == bytes@.subrange(start as int, end as int),
                bytes@ == cx.body.spec_bytes(),
                cx.wf(),
                cx.body_off + bytes@.len() == cx.full_source.spec_bytes().len(),
                findings_view(out@) == before + hit_findings(cx@, start as int, lt_hits(v, i as nat), "unescaped_lt"@, cx.unescaped_level, lt_message()),
            decreases n - i,
        {
            let ghost hs = lt_hits(v, i as nat);
            if bytes[start + i] == 60u8 && i + 1 < n && {
                let c = bytes[start + i + 1];
                (48u8 <= c && c <= 57u8) || (65u8 <= c && c <= 90u8) || (97u8 <= c && c <= 122u8)
            } {
                push_hit(
                    cx,
                    cx.body_off + start + i,
                    "unescaped_lt",
                    cx.unescaped_level,
                    "raw `<` before a letter or digit; escape as `&lt;` outside code fences",
                    out,
                );
                proof {
                    assert(lt_hit(v, i as int));
                    assert(lt_hits(v, (i + 1) as nat) =~= hs.push(i as int));
                    lemma_hit_step(cx@, start as int, hs, i as int, "unescaped_lt"@, cx.unescaped_level, lt_message());
                }
            } else {
                proof {
                    assert(!lt_hit(v, i as int));
                    assert(lt_hits(v, (i + 1) as nat) =~= hs);
                }
            }
            i = i + 1;
        }
    }
    let ghost mid = findings_view(out@);
    if cx.prose_em_dash {
        let span = span_text(cx.body, start, end);
        let offs = dash_offsets(span, decoded);
        let ghost hs_all = dash_positions(v, 0, decoded);
        proof {
            lemma_dash_positions_range(v, 0, decoded);
            assert(offs@.map_values(|x: usize| x as int) == hs_all);
        }
        let mut k: usize = 0;
        while k < offs.len()
            invariant
                k <= offs@.len(),
                offs@.map_values(|x: usize| x as int) == hs_all,
                forall|q: int| 0 <= q < hs_all.len() ==> 0 <= #[trigger] hs_all[q] < v.len(),
                n == end - start,
                start <= end <= bytes@.len(),
                v.len() == n,
                bytes@ == cx.body.spec_bytes(),
                cx.wf(),
                cx.body_off + bytes@.len() == cx.full_source.spec_bytes().len(),
                findings_view(out@) == mid + hit_findings(cx@, start as int, hs_all.take(k as int), "prose_em_dash"@, cx.em_dash_level, em_dash_message()),
            decreases offs@.len() - k,
        {
            let o = offs[k];
            proof {
                assert(hs_all[k as int] == o as int);
            }
            push_hit(
                cx,
                cx.body_off + start + o,
                "prose_em_dash",
                cx.em_dash_level,
                "Unicode em dash (U+2014) in prose; use ASCII hyphen spacing instead",
                out,
            );
            proof {
                assert(hs_all.take(k + 1) =~= hs_all.take(k as int).push(o as int));
                lemma_hit_step(cx@, start as int, hs_all.take(k as int), o as int, "prose_em_dash"@, cx.em_dash_level, em_dash_message());
            }
            k = k + 1;
        }
        assert(hs_all.take(offs@.len() as int) =~= hs_all);
    }
    proof {
        let lt_part = if cx.unescaped_lt {
            hit_findings(cx@, start as int, lt_hits(v, v.len()), "unescaped_lt"@, cx.unescaped_level, lt_message())
        } else {
            seq![]
        };
        let em_part = if cx.prose_em_dash {
            hit_findings(cx@, start as int, dash_positions(v, 0, decoded), "prose_em_dash"@, cx.em_dash_level, em_dash_message())
        } else {
            seq![]
        };
        assert(mid =~= before + lt_part);
        assert(findings_view(out@) =~= before + (lt_part + em_part));
    }
}

/// Scans the source span of one text (`decoded`) or raw HTML node.
fn scan_leaf(cx: &WalkCtx, t: &MdText, decoded: bool, out: &mut Vec<Finding>)
    requires
        cx.wf(),
    ensures
        findings_view(final(out)@) == findings_view(old(out)@) + leaf_findings(cx@, (*t, decoded)),
{
    let ghost body = cx.body.spec_bytes();
    assert(body_bytes(cx@) == body);
    match t.span {
        Some((s, e)) => {
            if s <= e && e <= cx.body.len() && cx.body.is_char_boundary(s) && cx.body.is_char_boundary(e) {
                scan_slice(cx, s, e, decoded, out);
            } else {
                assert(findings_view(out@) =~= findings_view(old(out)@) + leaf_findings(cx@, (*t, decoded)));
            }
        },
        None => {
            assert(findings_view(out@) =~= findings_view(old(out)@) + leaf_findings(cx@, (*t, decoded)));
        },
    }
}

proof fn lemma_list_leaves_step(cs: Seq<MdNode>, k: nat)
    requires
        k < cs.len(),
    ensures
        list_leaves(cs, k + 1) == list_leaves(cs, k) + node_leaves(cs[k as int]),
{
}

/// Walks one node: scans the source of text and HTML nodes, skips literal
/// nodes and descends into the others.
fn walk_node(node: &MdNode, cx: &WalkCtx, out: &mut Vec<Finding>)
    requires
        cx.wf(),
    ensures
        findings_view(final(out)@) == findings_view(old(out)@) + node_findings(cx@, *node),
    decreases node, 1nat,
{
    match node {
        MdNode::Text(t) => {
            scan_leaf(cx, t, true, out);
            proof {
                lemma_single_leaf(cx@, (*t, true));
            }
        },
        MdNode::Html(t) => {
            scan_leaf(cx, t, false, out);
            proof {
                lemma_single_leaf(cx@, (*t, false));
            }
        },
        MdNode::Code | MdNode::InlineCode | MdNode::Math | MdNode::InlineMath | MdNode::Break
        | MdNode::FootnoteReference | MdNode::Image | MdNode::ImageReference | MdNode::Definition
        | MdNode::ThematicBreak | MdNode::Toml | MdNode::Yaml | MdNode::MdxjsEsm
        | MdNode::MdxFlowExpression | MdNode::MdxTextExpression => {
            assert(findings_view(out@) =~= findings_view(old(out)@) + leaves_findings(cx@, seq![]));
        },
        MdNode::Root(cs) | MdNode::Blockquote(cs) | MdNode::FootnoteDefinition(cs)
        | MdNode::MdxJsxFlowElement(cs) | MdNode::List(cs) | MdNode::Delete(cs) | MdNode::Emphasis(cs)
        | MdNode::MdxJsxTextElement(cs) | MdNode::Link(cs) | MdNode::LinkReference(cs) | MdNode::Strong(cs)
        | MdNode::Heading(cs) | MdNode::Table(cs) | MdNode::TableRow(cs) | MdNode::TableCell(cs)
        | MdNode::ListItem(cs) | MdNode::Paragraph(cs) => walk_children(cs, cx, out),
    }
}

/// Walks the children of a node in order.
fn walk_children(children: &Vec<MdNode>, cx: &WalkCtx, out: &mut Vec<Finding>)
    requires
        cx.wf(),
    ensures
        findings_view(final(out)@) == findings_view(old(out)@) + leaves_findings(
            cx@,
            list_leaves(children@, children@.len()),
        ),
    decreases children, 0nat,
{
    let ghost start = findings_view(out@);
    let mut i: usize = 0;
    proof {
        assert(findings_view(out@) =~= start + leaves_findings(cx@, list_leaves(children@, 0)));
    }
    while i < children.len()
        invariant
            i <= children@.len(),
            cx.wf(),
            findings_view(out@) == start + leaves_findings(cx@, list_leaves(children@, i as nat)),
        decreases children.len() - i,
    {
        let ghost prev = list_leaves(children@, i as nat);
        walk_node(&children[i], cx, out);
        proof {
            lemma_list_leaves_step(children@, i as nat);
            lemma_leaves_findings_add(cx@, prev, node_leaves(children@[i as int]));
        }
        i = i + 1;
    }
}

/// Runs the prose rules over a parsed body: every finding, in document
/// order.
pub fn scan_markdown_tree(cx: &WalkCtx, tree: &MdNode) -> (r: Vec<Finding>)
    requires
        cx.wf(),
    ensures
        findings_view(r@) == node_findings(cx@, *tree),
{
    let mut out: Vec<Finding> = Vec::new();
    walk_node(tree, cx, &mut out);
    assert(findings_view(Seq::<Finding>::empty()) =~= Seq::<FindingView>::empty());
    assert(findings_view(out@) =~= node_findings(cx@, *tree));
    out
}

/// The body of a page, after its frontmatter block, as characters.
pub open spec fn body_chars(page: Seq<char>) -> Seq<char> {
    let b = encode_utf8(page);
    decode_utf8(b.subrange(body_start(b), b.len() as int))
}

/// The walk's context for a page.
pub open spec fn scan_params(
    root: Seq<char>,
    file: Seq<char>,
    page: Seq<char>,
    unescaped_lt: bool,
    unescaped_level: Severity,
    prose_em_dash: bool,
    em_dash_level: Severity,
) -> ScanParams {
    ScanParams {
        path: repo_path(root, file),
        page: encode_utf8(page),
        body_off: body_start(encode_utf8(page)),
        unescaped_lt,
        unescaped_level,
        prose_em_dash,
        em_dash_level,
    }
}

/// What the prose rules report for a page: the findings of every text and
/// raw HTML node of its parsed body, in document order.
pub open spec fn markdown_findings(
    root: Seq<char>,
    file: Seq<char>,
    page: Seq<char>,
    unescaped_lt: bool,
    unescaped_level: Severity,
    prose_em_dash: bool,
    em_dash_level: Severity,
) -> Seq<FindingView> {
    node_findings(
        scan_params(root, file, page, unescaped_lt, unescaped_level, prose_em_dash, em_dash_level),
        gfm_tree(body_chars(page)),
    )
}

/// The body of a page as a slice of it.
pub fn body_of(full_source: &str) -> (body: &str)
    ensures
        body@ == body_chars(full_source@),
        body.spec_bytes() == full_source.spec_bytes().subrange(
            body_start(full_source.spec_bytes()),
            full_source.spec_bytes().len() as int,
        ),
{
    let body_off = body_start_byte(full_source);
    proof {
        lemma_str_valid(full_source);
        lemma_body_start_boundary(full_source.spec_bytes());
    }
    let (_, body) = full_source.split_at(body_off);
    proof {
        encode_utf8_decode_utf8(body@);
    }
    body
}

/// Runs the `unescaped_lt` and `prose_em_dash` rules over the body of a page
/// (after its frontmatter), on the source text of text and raw HTML nodes
/// only: an escaped `&lt;` is not a raw `<`, while an em dash counts however
/// the parser reads one in text (the character, `&mdash;`, `&#8212;`,
/// `&#x2014;`). Each finding points at the line and byte column where its
/// hit is written in the page.
pub fn check_markdown_body(
    root: &str,
    file: &str,
    full_source: &str,
    unescaped_lt: bool,
    unescaped_level: Severity,
    prose_em_dash: bool,
    em_dash_level: Severity,
) -> (r: Vec<Finding>)
    requires
        full_source.spec_bytes().len() < usize::MAX,
    ensures
        findings_view(r@) == markdown_findings(
            root@,
            file@,
            full_source@,
            unescaped_lt,
            unescaped_level,
            prose_em_dash,
            em_dash_level,
        ),
{
    let body_off = body_start_byte(full_source);
    let body = body_of(full_source);
    let tree = parse_gfm(body);
    proof {
        lemma_str_valid(full_source);
        lemma_body_start_boundary(full_source.spec_bytes());
    }
    let cx = WalkCtx {
        path: normalize_repo_path(root, file),
        full_source,
        body,
        body_off,
        unescaped_lt,
        unescaped_level,
        prose_em_dash,
        em_dash_level,
    };
    assert(body.spec_bytes() =~= full_source.spec_bytes().skip(body_off as int));
    scan_markdown_tree(&cx, &tree)
}

proof fn lemma_leaf_rules_split(cx: ScanParams, t: (MdText, bool))
    ensures
        leaf_findings(cx, t) == leaf_findings(ScanParams { prose_em_dash: false, ..cx }, t)
            + leaf_findings(ScanParams { unescaped_lt: false, ..cx }, t),
        forall|k: int| 0 <= k < leaf_findings(ScanParams { prose_em_dash: false, ..cx }, t).len()
            ==> (#[trigger] leaf_findings(ScanParams { prose_em_dash: false, ..cx }, t)[k]).rule_id == "unescaped_lt"@,
        forall|k: int| 0 <= k < leaf_findings(ScanParams { unescaped_lt: false, ..cx }, t).len()
            ==> (#[trigger] leaf_findings(ScanParams { unescaped_lt: false, ..cx }, t)[k]).rule_id == "prose_em_dash"@,
{
    let a = ScanParams { prose_em_dash: false, ..cx };
    let b = ScanParams { unescaped_lt: false, ..cx };
    match node_span(body_bytes(cx), t.0) {
        Some((s, e)) => {
            let v = body_bytes(cx).subrange(s, e);
            let lt = hit_findings(cx, s, lt_hits(v, v.len()), "unescaped_lt"@, cx.unescaped_level, lt_message());
            let em = hit_findings(cx, s, dash_positions(v, 0, t.1), "prose_em_dash"@, cx.em_dash_level, em_dash_message());
            assert(hit_findings(a, s, lt_hits(v, v.len()), "unescaped_lt"@, cx.unescaped_level, lt_message()) =~= lt);
            assert(hit_findings(b, s, dash_positions(v, 0, t.1), "prose_em_dash"@, cx.em_dash_level, em_dash_message()) =~= em);
            assert(leaf_findings(a, t) =~= if cx.unescaped_lt { lt } else { seq![] });
            assert(leaf_findings(b, t) =~= if cx.prose_em_dash { em } else { seq![] });
            assert(leaf_findings(cx, t) =~= leaf_findings(a, t) + leaf_findings(b, t));
        },
        None => {
            assert(leaf_findings(cx, t) =~= leaf_findings(a, t) + leaf_findings(b, t));
        },
    }
}

proof fn lemma_leaves_rules_split(cx: ScanParams, ls: Seq<(MdText, bool)>)
    ensures
        leaves_findings(cx, ls).to_multiset() == leaves_findings(ScanParams { prose_em_dash: false, ..cx }, ls).to_multiset().add(
            leaves_findings(ScanParams { unescaped_lt: false, ..cx }, ls).to_multiset(),
        ),
        forall|k: int| 0 <= k < leaves_findings(ScanParams { prose_em_dash: false, ..cx }, ls).len()
            ==> (#[trigger] leaves_findings(ScanParams { prose_em_dash: false, ..cx }, ls)[k]).rule_id == "unescaped_lt"@,
        forall|k: int| 0 <= k < leaves_findings(ScanParams { unescaped_lt: false, ..cx }, ls).len()
            ==> (#[trigger] leaves_findings(ScanParams { unescaped_lt: false, ..cx }, ls)[k]).rule_id == "prose_em_dash"@,
    decreases ls.len(),
{
    broadcast use vstd::seq_lib::lemma_multiset_commutative;
    broadcast use vstd::seq_lib::group_to_multiset_ensures;
    broadcast use vstd::multiset::group_multiset_axioms;

    let a = ScanParams { prose_em_dash: false, ..cx };
    let b = ScanParams { unescaped_lt: false, ..cx };
    if ls.len() == 0 {
        assert(leaves_findings(cx, ls) =~= Seq::<FindingView>::empty());
        assert(leaves_findings(a, ls) =~= Seq::<FindingView>::empty());
        assert(leaves_findings(b, ls) =~= Seq::<FindingView>::empty());
        assert(leaves_findings(cx, ls).to_multiset() =~= leaves_findings(a, ls).to_multiset().add(
            leaves_findings(b, ls).to_multiset(),
        ));
    } else {
        let init = ls.drop_last();
        let t = ls.last();
        lemma_leaves_rules_split(cx, init);
        lemma_leaf_rules_split(cx, t);
        let pa = leaves_findings(a, init);
        let pb = leaves_findings(b, init);
        let la = leaf_findings(a, t);
        let lb = leaf_findings(b, t);
        assert(leaves_findings(cx, ls) == leaves_findings(cx, init) + (la + lb));
        assert(leaves_findings(cx, ls).to_multiset() =~= (pa + la).to_multiset().add((pb + lb).to_multiset()));
        assert forall|k: int| 0 <= k < (pa + la).len() implies (#[trigger] (pa + la)[k]).rule_id == "unescaped_lt"@ by {
            if k < pa.len() {
                assert((pa + la)[k] == pa[k]);
            } else {
                assert((pa + la)[k] == la[k - pa.len()]);
            }
        }
        assert forall|k: int| 0 <= k < (pb + lb).len() implies (#[trigger] (pb + lb)[k]).rule_id == "prose_em_dash"@ by {
            if k < pb.len() {
                assert((pb + lb)[k] == pb[k]);
            } else {
                assert((pb + lb)[k] == lb[k - pb.len()]);
            }
        }
    }
}

/// The two prose rules report independently: with both on, a page gets
/// exactly the findings of `unescaped_lt` alone together with those of
/// `prose_em_dash` alone (as multisets). With `prose_em_dash` off every
/// finding is an `unescaped_lt` one, with `unescaped_lt` off every finding
/// is a `prose_em_dash` one, and with both off there are none.
pub proof fn law_prose_rules_combine(
    root: Seq<char>,
    file: Seq<char>,
    page: Seq<char>,
    unescaped_lt: bool,
    unescaped_level: Severity,
    prose_em_dash: bool,
    em_dash_level: Severity,
)
    ensures
        markdown_findings(root, file, page, unescaped_lt, unescaped_level, prose_em_dash, em_dash_level).to_multiset()
            == markdown_findings(root, file, page, unescaped_lt, unescaped_level, false, em_dash_level).to_multiset().add(
            markdown_findings(root, file, page, false, unescaped_level, prose_em_dash, em_dash_level).to_multiset(),
        ),
        forall|k: int| 0 <= k < markdown_findings(root, file, page, unescaped_lt, unescaped_level, false, em_dash_level).len()
            ==> (#[trigger] markdown_findings(root, file, page, unescaped_lt, unescaped_level, false, em_dash_level)[k]).rule_id
            == "unescaped_lt"@,
        forall|k: int| 0 <= k < markdown_findings(root, file, page, false, unescaped_level, prose_em_dash, em_dash_level).len()
            ==> (#[trigger] markdown_findings(root, file, page, false, unescaped_level, prose_em_dash, em_dash_level)[k]).rule_id
            == "prose_em_dash"@,
        markdown_findings(root, file, page, false, unescaped_level, false, em_dash_level).len() == 0,
{
    let cx = scan_params(root, file, page, unescaped_lt, unescaped_level, prose_em_dash, em_dash_level);
    let ls = node_leaves(gfm_tree(body_chars(page)));
    lemma_leaves_rules_split(cx, ls);
    assert(ScanParams { prose_em_dash: false, ..cx } == scan_params(root, file, page, unescaped_lt, unescaped_level, false, em_dash_level));
    assert(ScanParams { unescaped_lt: false, ..cx } == scan_params(root, file, page, false, unescaped_level, prose_em_dash, em_dash_level));
    let none = scan_params(root, file, page, false, unescaped_level, false, em_dash_level);
    lemma_leaves_rules_split(none, ls);
    let n = leaves_findings(none, ls);
    assert(ScanParams { prose_em_dash: false, ..none } == none);
    assert(ScanParams { unescaped_lt: false, ..none } == none);
    if n.len() > 0 {
        reveal_strlit("unescaped_lt");
        reveal_strlit("prose_em_dash");
        assert(n[0].rule_id == "unescaped_lt"@);
        assert(n[0].rule_id == "prose_em_dash"@);
        assert("unescaped_lt"@[0] == "prose_em_dash"@[0]);
    }
}

proof fn lemma_lt_hits_contains(v: Seq<u8>, n: nat, i: int)
    ensures
        lt_hits(v, n).contains(i) <==> (0 <= i < n && lt_hit(v, i)),
    decreases n,
{
    if n > 0 {
        lemma_lt_hits_contains(v, (n - 1) as nat, i);
        let prev = lt_hits(v, (n - 1) as nat);
        let tail: Seq<int> = if lt_hit(v, n - 1) { seq![n - 1] } else { seq![] };
        assert(lt_hits(v, n) == prev + tail);
        if (prev + tail).contains(i) {
            let q = choose|q: int| 0 <= q < (prev + tail).len() && (prev + tail)[q] == i;
            if q < prev.len() {
                assert(prev[q] == i);
            } else {
                assert(tail[q - prev.len()] == i);
            }
        }
        if 0 <= i < n && lt_hit(v, i) {
            if i < n - 1 {
                let q = choose|q: int| 0 <= q < prev.len() && prev[q] == i;
                assert((prev + tail)[q] == i);
            } else {
                assert((prev + tail)[prev.len() as int] == i);
            }
        }
    }
}

/// The `unescaped_lt` rule hits exactly where a `<` is followed by an ASCII
/// digit or letter, lower or upper case.
pub proof fn law_lt_hits_exact(v: Seq<u8>, i: int)
    ensures
        lt_hits(v, v.len()).contains(i) <==> (0 <= i && i + 1 < v.len() && v[i] == 60u8 && ((48u8 <= v[i + 1]
            <= 57u8) || (65u8 <= v[i + 1] <= 90u8) || (97u8 <= v[i + 1] <= 122u8))),
{
    lemma_lt_hits_contains(v, v.len(), i);
}

/// With `unescaped_lt` on, a text or raw HTML node reports a finding at every
/// `<` of its source span that is followed by an ASCII digit or letter, at
/// that byte's place in the page.
pub proof fn law_lt_reported_where_written(cx: ScanParams, l: (MdText, bool), s: int, e: int, i: int)
    requires
        cx.unescaped_lt,
        node_span(body_bytes(cx), l.0) == Some((s, e)),
        s <= s + i,
        s + i + 1 < e,
        body_bytes(cx)[s + i] == 60u8,
        (48u8 <= body_bytes(cx)[s + i + 1] <= 57u8) || (65u8 <= body_bytes(cx)[s + i + 1] <= 90u8) || (97u8
            <= body_bytes(cx)[s + i + 1] <= 122u8),
    ensures
        leaf_findings(cx, l).contains(
            finding_at(cx, "unescaped_lt"@, cx.unescaped_level, cx.body_off + s + i, lt_message()),
        ),
{
    let v = body_bytes(cx).subrange(s, e);
    assert(v[i] == body_bytes(cx)[s + i]);
    assert(v[i + 1] == body_bytes(cx)[s + i + 1]);
    law_lt_hits_exact(v, i);
    let hs = lt_hits(v, v.len());
    let q = choose|q: int| 0 <= q < hs.len() && hs[q] == i;
    let lt = hit_findings(cx, s, hs, "unescaped_lt"@, cx.unescaped_level, lt_message());
    assert(lt[q] == finding_at(cx, "unescaped_lt"@, cx.unescaped_level, cx.body_off + s + i, lt_message()));
    let all = leaf_findings(cx, l);
    assert(all == slice_findings(cx, v, s, l.1));
    assert(all[q] == lt[q]);
}

} // verus!
