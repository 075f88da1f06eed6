//! Findings: what a check reports, how a finding reads, and their order.

use vstd::prelude::*;
use vstd::string::*;
use crate::text::{decimal, decimal_string, forward_slashes, to_forward_slashes};
use crate::pathx::{stripped_path, strip_path_prefix};

verus! {

/// How serious a finding is.
#[derive(Clone, Copy, Debug, PartialEq, Eq, Structural)]
pub enum Severity {
    Error,
    Warn,
}

impl Default for Severity {
    /// A rule without a configured level reports errors.
    fn default() -> (s: Self)
        ensures
            s == Severity::Error,
    {
        Severity::Error
    }
}

/// One problem found in one file.
#[derive(Clone, Debug, PartialEq, Eq)]
pub struct Finding {
    pub rule_id: &'static str,
    pub severity: Severity,
    pub path: String,
    pub line: usize,
    pub column: usize,
    pub message: String,
}

/// A finding as plain values.
pub struct FindingView {
    pub rule_id: Seq<char>,
    pub severity: Severity,
    pub path: Seq<char>,
    pub line: int,
    pub column: int,
    pub message: Seq<char>,
}

impl View for Finding {
    type V = FindingView;

    open spec fn view(&self) -> FindingView {
        FindingView {
            rule_id: self.rule_id@,
            severity: self.severity,
            path: self.path@,
            line: self.line as int,
            column: self.column as int,
            message: self.message@,
        }
    }
}

/// The views of a sequence of findings.
pub open spec fn findings_view(v: Seq<Finding>) -> Seq<FindingView> {
    v.map_values(|f: Finding| f@)
}

/// The path of `file` shown in reports: relative to `root` when `root` is a
/// component prefix of it, with `/` as the separator.
pub open spec fn repo_path(root: Seq<char>, file: Seq<char>) -> Seq<char> {
    forward_slashes(
        match stripped_path(file, root) {
            Some(rel) => rel,
            None => file,
        },
    )
}

/// The path of `file` relative to `root` (or `file` itself when it does not
/// lie under `root`), with backslashes turned into forward slashes.
pub fn normalize_repo_path(root: &str, file: &str) -> (r: String)
    ensures
        r@ == repo_path(root@, file@),
{
    match strip_path_prefix(file, root) {
        Some(rel) => to_forward_slashes(rel.as_str()),
        None => to_forward_slashes(file),
    }
}

/// The word a report line starts with.
pub open spec fn severity_word(s: Severity) -> Seq<char> {
    match s {
        Severity::Error => "error"@,
        Severity::Warn => "warning"@,
    }
}

/// A finding as one report line: `severity: rule [message] path:line:column`.
pub open spec fn human_line(f: FindingView) -> Seq<char> {
    severity_word(f.severity) + ": "@ + f.rule_id + " ["@ + f.message + "] "@ + f.path + ":"@
        + decimal(f.line as nat) + ":"@ + decimal(f.column as nat)
}

/// The report line for one finding (without the trailing newline).
pub fn format_finding_human(f: &Finding) -> (r: String)
    ensures
        r@ == human_line(f@),
{
    let mut s = String::new();
    match f.severity {
        Severity::Error => s.append("error"),
        Severity::Warn => s.append("warning"),
    }
    s.append(": ");
    s.append(f.rule_id);
    s.append(" [");
    s.append(f.message.as_str());
    s.append("] ");
    s.append(f.path.as_str());
    s.append(":");
    let line = decimal_string(f.line);
    s.append(line.as_str());
    s.append(":");
    let col = decimal_string(f.column);
    s.append(col.as_str());
    s
}

/// Strict lexicographic order on byte strings, as `str` and `String` compare.
pub open spec fn bytes_lt(a: Seq<u8>, b: Seq<u8>) -> bool
    decreases a.len(),
{
    if a.len() == 0 {
        b.len() > 0
    } else if b.len() == 0 {
        false
    } else if a[0] < b[0] {
        true
    } else if a[0] > b[0] {
        false
    } else {
        bytes_lt(a.drop_first(), b.drop_first())
    }
}

/// The order in which findings are reported: by path, line, column, rule id
/// and message, each compared as std compares it.
pub open spec fn finding_lt(a: FindingView, b: FindingView) -> bool {
    let pa = vstd::utf8::encode_utf8(a.path);
    let pb = vstd::utf8::encode_utf8(b.path);
    let ra = vstd::utf8::encode_utf8(a.rule_id);
    let rb = vstd::utf8::encode_utf8(b.rule_id);
    let ma = vstd::utf8::encode_utf8(a.message);
    let mb = vstd::utf8::encode_utf8(b.message);
    ||| bytes_lt(pa, pb)
    ||| pa == pb && a.line < b.line
    ||| pa == pb && a.line == b.line && a.column < b.column
    ||| pa == pb && a.line == b.line && a.column == b.column && bytes_lt(ra, rb)
    ||| pa == pb && a.line == b.line && a.column == b.column && ra == rb && bytes_lt(ma, mb)
}

/// Findings in report order: no finding is before the one ahead of it.
pub open spec fn findings_sorted(v: Seq<FindingView>) -> bool {
    forall|i: int| 1 <= i < v.len() ==> !finding_lt(#[trigger] v[i], v[i - 1])
}

pub proof fn lemma_bytes_lt_asymmetric(a: Seq<u8>, b: Seq<u8>)
    ensures
        bytes_lt(a, b) ==> !bytes_lt(b, a),
        !bytes_lt(a, a),
    decreases a.len(),
{
    if a.len() > 0 && b.len() > 0 {
        lemma_bytes_lt_asymmetric(a.drop_first(), b.drop_first());
    }
    if a.len() > 0 {
        lemma_bytes_lt_asymmetric(a.drop_first(), a.drop_first());
    }
}

pub proof fn lemma_finding_lt_asymmetric(a: FindingView, b: FindingView)
    ensures
        finding_lt(a, b) ==> !finding_lt(b, a),
{
    let pa = vstd::utf8::encode_utf8(a.path);
    let pb = vstd::utf8::encode_utf8(b.path);
    let ra = vstd::utf8::encode_utf8(a.rule_id);
    let rb = vstd::utf8::encode_utf8(b.rule_id);
    let ma = vstd::utf8::encode_utf8(a.message);
    let mb = vstd::utf8::encode_utf8(b.message);
    lemma_bytes_lt_asymmetric(pa, pb);
    lemma_bytes_lt_asymmetric(ra, rb);
    lemma_bytes_lt_asymmetric(ma, mb);
    lemma_bytes_lt_asymmetric(pa, pa);
    lemma_bytes_lt_asymmetric(ra, ra);
    lemma_bytes_lt_asymmetric(ma, ma);
}

/// Outcome of comparing two values.
pub enum Order {
    Less,
    Equal,
    Greater,
}

/// Compares two byte strings lexicographically.
pub fn compare_bytes(a: &[u8], b: &[u8]) -> (r: Order)
    ensures
        r is Less <==> bytes_lt(a@, b@),
        r is Equal <==> a@ == b@,
        r is Greater <==> bytes_lt(b@, a@),
{
    let mut i: usize = 0;
    assert(a@.skip(0) =~= a@);
    assert(b@.skip(0) =~= b@);
    while i < a.len() && i < b.len()
        invariant
            i <= a@.len(),
            i <= b@.len(),
            a@.take(i as int) == b@.take(i as int),
            bytes_lt(a@, b@) == bytes_lt(a@.skip(i as int), b@.skip(i as int)),
            bytes_lt(b@, a@) == bytes_lt(b@.skip(i as int), a@.skip(i as int)),
        decreases a.len() - i,
    {
        if a[i] < b[i] {
            proof {
                lemma_bytes_lt_asymmetric(a@.skip(i as int), b@.skip(i as int));
                assert(a@.skip(i as int)[0] == a@[i as int]);
                assert(b@.skip(i as int)[0] == b@[i as int]);
                assert(a@[i as int] != b@[i as int]);
            }
            return Order::Less;
        }
        if a[i] > b[i] {
            proof {
                lemma_bytes_lt_asymmetric(a@.skip(i as int), b@.skip(i as int));
                assert(a@.skip(i as int)[0] == a@[i as int]);
                assert(b@.skip(i as int)[0] == b@[i as int]);
                assert(a@[i as int] != b@[i as int]);
            }
            return Order::Greater;
        }
        proof {
            assert(a@.skip(i as int).drop_first() =~= a@.skip(i + 1));
            assert(b@.skip(i as int).drop_first() =~= b@.skip(i + 1));
            assert(a@.take(i + 1) =~= a@.take(i as int).push(a@[i as int]));
            assert(b@.take(i + 1) =~= b@.take(i as int).push(b@[i as int]));
        }
        i = i + 1;
    }
    if a.len() == b.len() {
        proof {
            assert(a@ =~= a@.take(i as int));
            assert(b@ =~= b@.take(i as int));
        }
        Order::Equal
    } else if a.len() < b.len() {
        proof {
            assert(a@ != b@);
        }
        Order::Less
    } else {
        proof {
            assert(a@ != b@);
        }
        Order::Greater
    }
}

/// Whether `a` comes strictly before `b` in report order.
pub fn finding_before(a: &Finding, b: &Finding) -> (r: bool)
    ensures
        r == finding_lt(a@, b@),
{
    match compare_bytes(a.path.as_str().as_bytes(), b.path.as_str().as_bytes()) {
        Order::Less => true,
        Order::Greater => false,
        Order::Equal => {
            if a.line != b.line {
                a.line < b.line
            } else if a.column != b.column {
                a.column < b.column
            } else {
                match compare_bytes(a.rule_id.as_bytes(), b.rule_id.as_bytes()) {
                    Order::Less => true,
                    Order::Greater => false,
                    Order::Equal => {
                        match compare_bytes(
                            a.message.as_str().as_bytes(),
                            b.message.as_str().as_bytes(),
                        ) {
                            Order::Less => true,
                            _ => false,
                        }
                    },
                }
            }
        },
    }
}

/// Puts findings in report order (by path, line, column, rule id, message).
/// The result holds the same findings.
pub fn sort_findings(findings: Vec<Finding>) -> (r: Vec<Finding>)
    ensures
        findings_view(r@).to_multiset() == findings_view(findings@).to_multiset(),
        findings_sorted(findings_view(r@)),
{
    broadcast use vstd::seq_lib::group_to_multiset_ensures, vstd::multiset::group_multiset_axioms;

    let mut rest = findings;
    let mut out: Vec<Finding> = Vec::new();
    proof {
        assert(findings_view(out@).to_multiset() =~= vstd::multiset::Multiset::empty());
        assert(findings_view(out@).to_multiset().add(findings_view(rest@).to_multiset())
            =~= findings_view(findings@).to_multiset());
    }
    while rest.len() > 0
        invariant
            findings_view(out@).to_multiset().add(findings_view(rest@).to_multiset())
                == findings_view(findings@).to_multiset(),
            findings_sorted(findings_view(out@)),
        decreases rest.len(),
    {
        let ghost before_rest = rest@;
        let x = rest.pop().unwrap();
        proof {
            assert(before_rest =~= rest@.push(x));
            assert(findings_view(before_rest) =~= findings_view(rest@).push(x@));
            vstd::seq_lib::to_multiset_build(findings_view(rest@), x@);
        }
        let mut p: usize = 0;
        while p < out.len() && finding_before(&out[p], &x)
            invariant
                p <= out@.len(),
                forall|k: int| 0 <= k < p ==> finding_lt(#[trigger] out@[k]@, x@),
            decreases out.len() - p,
        {
            p = p + 1;
        }
        let ghost old_out = out@;
        out.insert(p, x);
        proof {
            let v = findings_view(out@);
            let w = findings_view(old_out);
            assert(v =~= w.insert(p as int, x@));
            vstd::seq_lib::to_multiset_insert(w, p as int, x@);
            assert(out@ =~= old_out.insert(p as int, x));
            assert forall|j: int| 1 <= j < v.len() implies !finding_lt(#[trigger] v[j], v[j - 1]) by {
                let i = j - 1;
                assert(v[i] == out@[i]@ && v[i + 1] == out@[i + 1]@);
                if i + 1 < p {
                    assert(out@[i] == old_out[i] && out@[i + 1] == old_out[i + 1]);
                    assert(w[i + 1] == old_out[i + 1]@ && w[i] == old_out[i]@);
                    assert(!finding_lt(w[i + 1], w[i]));
                } else if i + 1 == p {
                    assert(out@[i] == old_out[i] && out@[i + 1] == x);
                    assert(finding_lt(old_out[i]@, x@));
                    lemma_finding_lt_asymmetric(old_out[i]@, x@);
                } else if i == p {
                    assert(out@[i] == x && out@[i + 1] == old_out[i]);
                    assert(!finding_lt(old_out[i]@, x@));
                } else {
                    assert(out@[i] == old_out[i - 1] && out@[i + 1] == old_out[i]);
                    assert(w[i] == old_out[i]@ && w[i - 1] == old_out[i - 1]@);
                    assert(!finding_lt(w[i], w[i - 1]));
                }
            }
            assert(findings_view(out@).to_multiset().add(findings_view(rest@).to_multiset())
                =~= findings_view(findings@).to_multiset());
        }
    }
    proof {
        assert(findings_view(rest@).to_multiset() =~= vstd::multiset::Multiset::empty());
    }
    out
}

/// Some finding has the given severity.
pub open spec fn any_with_severity(v: Seq<FindingView>, s: Severity) -> bool {
    exists|i: int| 0 <= i < v.len() && (#[trigger] v[i]).severity == s
}

/// Whether a run with these findings fails: on any error, and with
/// `deny_warnings` also on any warning.
pub open spec fn run_fails(v: Seq<FindingView>, deny_warnings: bool) -> bool {
    any_with_severity(v, Severity::Error) || (deny_warnings && any_with_severity(v, Severity::Warn))
}

fn has_severity(findings: &Vec<Finding>, s: Severity) -> (r: bool)
    ensures
        r == any_with_severity(findings_view(findings@), s),
{
    let ghost v = findings_view(findings@);
    let mut i: usize = 0;
    while i < findings.len()
        invariant
            i <= findings@.len(),
            v == findings_view(findings@),
            forall|k: int| 0 <= k < i ==> (#[trigger] v[k]).severity != s,
        decreases findings.len() - i,
    {
        if findings[i].severity == s {
            assert(v[i as int].severity == s);
            return true;
        }
        i = i + 1;
    }
    false
}

/// Whether the run fails (non-zero exit): any error, or with `deny_warnings`
/// any warning as well.
pub fn check_fails(findings: &Vec<Finding>, deny_warnings: bool) -> (r: bool)
    ensures
        r == run_fails(findings_view(findings@), deny_warnings),
{
    let has_error = has_severity(findings, Severity::Error);
    let has_warn = has_severity(findings, Severity::Warn);
    has_error || (deny_warnings && has_warn)
}

/// Denying warnings never turns a failing run into a passing one, and a run
/// fails with warnings denied exactly when it has any finding.
pub proof fn law_deny_warnings(v: Seq<FindingView>)
    ensures
        run_fails(v, false) ==> run_fails(v, true),
        run_fails(v, true) <==> v.len() > 0,
        !run_fails(v, false) <==> (forall|i: int| 0 <= i < v.len() ==> (#[trigger] v[i]).severity == Severity::Warn),
{
    if v.len() > 0 {
        let s = v[0].severity;
        assert(v[0].severity == s);
    }
    assert forall|i: int| 0 <= i < v.len() && !run_fails(v, false) implies (#[trigger] v[i]).severity == Severity::Warn by {
        if v[i].severity == Severity::Error {
            assert(any_with_severity(v, Severity::Error));
        }
    }
}

/// Report order goes by path (bytewise), then line, then column, then rule
/// id, then message: of two findings in one file, the one on an earlier
/// line comes first, and on one line the one at a smaller column comes
/// first, whatever their rule ids and messages.
pub proof fn law_report_order_by_position(a: FindingView, b: FindingView)
    ensures
        bytes_lt(vstd::utf8::encode_utf8(a.path), vstd::utf8::encode_utf8(b.path)) ==> finding_lt(a, b) && !finding_lt(b, a),
        a.path == b.path && a.line < b.line ==> finding_lt(a, b) && !finding_lt(b, a),
        a.path == b.path && a.line == b.line && a.column < b.column ==> finding_lt(a, b) && !finding_lt(b, a),
        a.path == b.path && a.line == b.line && a.column == b.column && bytes_lt(
            vstd::utf8::encode_utf8(a.rule_id),
            vstd::utf8::encode_utf8(b.rule_id),
        ) ==> finding_lt(a, b) && !finding_lt(b, a),
        a.path == b.path && a.line == b.line && a.column == b.column && a.rule_id == b.rule_id && bytes_lt(
            vstd::utf8::encode_utf8(a.message),
            vstd::utf8::encode_utf8(b.message),
        ) ==> finding_lt(a, b) && !finding_lt(b, a),
        a == b ==> !finding_lt(a, b),
{
    lemma_finding_lt_asymmetric(a, b);
}

/// In report order, findings next to each other in one file never go back
/// a line, and on one line never go back a column.
pub proof fn law_sorted_positions(v: Seq<FindingView>, i: int)
    requires
        findings_sorted(v),
        1 <= i < v.len(),
        v[i].path == v[i - 1].path,
    ensures
        v[i - 1].line <= v[i].line,
        v[i - 1].line == v[i].line ==> v[i - 1].column <= v[i].column,
{
    law_report_order_by_position(v[i], v[i - 1]);
}

} // verus!
