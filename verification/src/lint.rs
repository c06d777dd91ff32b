//! Linter for protocol description sources: tabs-only indentation, depth
//! checks, one field per line, closing braces alone, no trailing whitespace.

use vstd::prelude::*;
use vstd::string::StringExecFns;
use vstd::string::StringSliceAdditionalSpecFns;

verus! {

/// Severity of a lint finding.
#[derive(Debug, Clone, Copy, PartialEq, Eq, Structural)]
pub enum Severity {
    Error,
    Warning,
}

/// Which rule produced a finding.
#[derive(Debug, Clone, Copy, PartialEq, Eq, Structural)]
pub enum LintRule {
    /// Indentation must use tabs only, no spaces.
    IndentationTabsOnly,
    /// Indentation must be exactly one tab per nesting level; lines that
    /// start with a closing brace are exempt, which both the one-level-in
    /// and the flush-left closing style satisfy.
    IndentationDepth,
    /// At most one field or statement per line.
    OneFieldPerLine,
    /// A closing brace should stand alone on its line.
    ClosingBraceAlone,
    /// Trailing whitespace is not allowed.
    NoTrailingWhitespace,
}

/// A single lint finding with its location.
#[derive(Debug)]
pub struct LintMessage {
    pub line: usize,
    pub column: usize,
    pub rule: LintRule,
    pub severity: Severity,
    pub message: String,
}

/// The location-and-rule part of a finding, which the contract pins down;
/// the human-readable text is free.
pub ghost struct Finding {
    pub line: int,
    pub column: int,
    pub rule: LintRule,
    pub severity: Severity,
}

impl View for LintMessage {
    type V = Finding;

    open spec fn view(&self) -> Finding {
        Finding {
            line: self.line as int,
            column: self.column as int,
            rule: self.rule,
            severity: self.severity,
        }
    }
}

/// ASCII whitespace, as trimming sees it.
pub open spec fn is_ws(b: u8) -> bool {
    b == 32 || (9 <= b <= 13)
}

/// The line's length once trailing whitespace is dropped.
pub open spec fn trim_end_len(l: Seq<u8>) -> nat
    decreases l.len(),
{
    if l.len() > 0 && is_ws(l.last()) {
        trim_end_len(l.drop_last())
    } else {
        l.len()
    }
}

/// The length of the line's leading whitespace.
pub open spec fn lead_ws_len(l: Seq<u8>) -> nat
    decreases l.len(),
{
    if l.len() > 0 && is_ws(l.first()) {
        1 + lead_ws_len(l.drop_first())
    } else {
        0
    }
}

/// Whether the leading whitespace holds a space character.
pub open spec fn lead_has_space(l: Seq<u8>) -> bool {
    exists|i: int| 0 <= i < lead_ws_len(l) && l[i] == 32
}

/// How many tabs the leading whitespace holds.
pub open spec fn lead_tabs(l: Seq<u8>, i: nat) -> nat
    decreases lead_ws_len(l) - i,
{
    if i < lead_ws_len(l) && i < l.len() {
        if l[i as int] == 9 {
            1 + lead_tabs(l, i + 1)
        } else {
            lead_tabs(l, i + 1)
        }
    } else {
        0
    }
}

/// Index of the first `//` in the trimmed line, or its length.
pub open spec fn comment_pos(t: Seq<u8>, i: nat) -> nat
    decreases t.len() - i,
{
    if i + 1 < t.len() {
        if t[i as int] == 47 && t[i as int + 1] == 47 {
            i
        } else {
            comment_pos(t, i + 1)
        }
    } else {
        t.len()
    }
}

/// Number of semicolons in a byte run.
pub open spec fn semi_count(c: Seq<u8>) -> nat
    decreases c.len(),
{
    if c.len() == 0 {
        0
    } else if c.last() == 59 {
        1 + semi_count(c.drop_last())
    } else {
        semi_count(c.drop_last())
    }
}

/// Whether a byte occurs in a run.
pub open spec fn has_byte(c: Seq<u8>, b: u8) -> bool {
    exists|i: int| 0 <= i < c.len() && c[i] == b
}

/// The nesting depth after the line's braces, each step saturating.
pub open spec fn depth_step(c: Seq<u8>, d: i64) -> i64
    decreases c.len(),
{
    if c.len() == 0 {
        d
    } else {
        let d2 = depth_step(c.drop_last(), d);
        if c.last() == 123 {
            if d2 == i64::MAX {
                d2
            } else {
                (d2 + 1) as i64
            }
        } else if c.last() == 125 {
            if d2 == i64::MIN {
                d2
            } else {
                (d2 - 1) as i64
            }
        } else {
            d2
        }
    }
}

/// The trimmed line: leading whitespace removed.
pub open spec fn trimmed_of(l: Seq<u8>) -> Seq<u8> {
    l.skip(lead_ws_len(l) as int)
}

/// The line's content: trimmed, the line comment removed, and trailing
/// whitespace dropped.
pub open spec fn content_of(l: Seq<u8>) -> Seq<u8> {
    let t = trimmed_of(l);
    let c = t.take(comment_pos(t, 0) as int);
    c.take(trim_end_len(c) as int)
}

/// The findings one line contributes, in reporting order.
pub open spec fn line_findings(l: Seq<u8>, lineno: int, depth: i64) -> Seq<Finding> {
    let t = trimmed_of(l);
    let c = content_of(l);
    let f1: Seq<Finding> = if trim_end_len(l) != l.len() {
        seq![
            Finding {
                line: lineno,
                column: if l.len() - trim_end_len(l) >= 1 {
                    l.len() - trim_end_len(l)
                } else {
                    1
                },
                rule: LintRule::NoTrailingWhitespace,
                severity: Severity::Warning,
            },
        ]
    } else {
        Seq::empty()
    };
    let f2: Seq<Finding> = if lead_ws_len(l) > 0 && lead_has_space(l) {
        seq![
            Finding {
                line: lineno,
                column: 1,
                rule: LintRule::IndentationTabsOnly,
                severity: Severity::Error,
            },
        ]
    } else {
        Seq::empty()
    };
    let starts_comment = (t.len() >= 2 && t[0] == 47 && (t[1] == 47 || t[1] == 42));
    let starts_closing = t.len() >= 1 && t[0] == 125;
    let expected: int = if depth >= 0 {
        depth as int
    } else {
        0
    };
    let f3: Seq<Finding> = if t.len() > 0 && !starts_comment && !starts_closing && lead_tabs(l, 0)
        != expected {
        seq![
            Finding {
                line: lineno,
                column: 1,
                rule: LintRule::IndentationDepth,
                severity: Severity::Error,
            },
        ]
    } else {
        Seq::empty()
    };
    let f4: Seq<Finding> = if semi_count(c) > 1 {
        seq![
            Finding {
                line: lineno,
                column: 1,
                rule: LintRule::OneFieldPerLine,
                severity: Severity::Error,
            },
        ]
    } else {
        Seq::empty()
    };
    let f5: Seq<Finding> = if has_byte(c, 125) && has_byte(c, 59) {
        seq![
            Finding {
                line: lineno,
                column: 1,
                rule: LintRule::ClosingBraceAlone,
                severity: Severity::Warning,
            },
        ]
    } else {
        Seq::empty()
    };
    f1 + f2 + f3 + f4 + f5
}

/// The source split into lines at newline bytes, each line's trailing
/// carriage return removed, with no final empty line after a trailing
/// newline.
pub open spec fn lines_of(s: Seq<u8>) -> Seq<Seq<u8>> {
    lines_from(s, 0)
}

/// The lines of the source from byte position `start` on.
pub open spec fn lines_from(s: Seq<u8>, start: nat) -> Seq<Seq<u8>>
    decreases s.len() - start,
    via lines_from_dec
{
    if start >= s.len() {
        Seq::empty()
    } else {
        let e = nl_pos(s, start);
        if e == s.len() {
            seq![strip_cr(s.subrange(start as int, s.len() as int))]
        } else {
            seq![strip_cr(s.subrange(start as int, e as int))] + lines_from(s, e + 1)
        }
    }
}

pub proof fn lemma_nl_pos_bounds(s: Seq<u8>, i: nat)
    requires
        i <= s.len(),
    ensures
        i <= nl_pos(s, i) <= s.len(),
    decreases s.len() - i,
{
    if i < s.len() && s[i as int] != 10 {
        lemma_nl_pos_bounds(s, i + 1);
    }
}

#[via_fn]
proof fn lines_from_dec(s: Seq<u8>, start: nat) {
    if start < s.len() {
        lemma_nl_pos_bounds(s, start);
    }
}

/// Index of the first newline byte at or after `i`, or the length.
pub open spec fn nl_pos(s: Seq<u8>, i: nat) -> nat
    decreases s.len() - i,
{
    if i < s.len() {
        if s[i as int] == 10 {
            i
        } else {
            nl_pos(s, i + 1)
        }
    } else {
        s.len()
    }
}

/// A line with its trailing carriage return removed.
pub open spec fn strip_cr(l: Seq<u8>) -> Seq<u8> {
    if l.len() > 0 && l.last() == 13 {
        l.drop_last()
    } else {
        l
    }
}

/// All findings of the source from line index `i` on, threading the depth.
pub open spec fn lint_findings(lines: Seq<Seq<u8>>, i: nat, depth: i64) -> Seq<Finding>
    decreases lines.len() - i,
{
    if i >= lines.len() {
        Seq::empty()
    } else {
        line_findings(lines[i as int], i + 1 as int, depth) + lint_findings(
            lines,
            i + 1,
            depth_step(content_of(lines[i as int]), depth),
        )
    }
}

/// Model of a vector of lines.
pub open spec fn lmodel(v: Seq<Vec<u8>>) -> Seq<Seq<u8>> {
    Seq::new(v.len(), |i: int| v[i]@)
}

/// Model of a vector of findings.
pub open spec fn fmodel(v: Seq<LintMessage>) -> Seq<Finding> {
    Seq::new(v.len(), |i: int| v[i]@)
}

/// ASCII whitespace test.
fn ws8(b: u8) -> (r: bool)
    ensures
        r == is_ws(b),
{
    b == 32 || (9 <= b && b <= 13)
}

/// The line's length once trailing whitespace is dropped.
fn trim_end_len_exec(l: &Vec<u8>) -> (r: usize)
    ensures
        r == trim_end_len(l@),
{
    let mut i = l.len();
    proof {
        assert(l@.take(i as int) =~= l@);
    }
    loop
        invariant
            i <= l@.len(),
            trim_end_len(l@) == trim_end_len(l@.take(i as int)),
        decreases i,
    {
        if i == 0 {
            proof {
                assert(l@.take(0) =~= Seq::<u8>::empty());
            }
            return 0;
        }
        if !ws8(l[i - 1]) {
            proof {
                assert(l@.take(i as int).last() == l@[i - 1]);
            }
            return i;
        }
        proof {
            assert(l@.take(i as int).drop_last() =~= l@.take(i - 1));
            assert(l@.take(i as int).last() == l@[i - 1]);
        }
        i = i - 1;
    }
}

/// The length of the line's leading whitespace.
fn lead_ws_len_exec(l: &Vec<u8>) -> (r: usize)
    ensures
        r == lead_ws_len(l@),
{
    let n = l.len();
    let mut i: usize = 0;
    proof {
        assert(l@.skip(0) =~= l@);
    }
    loop
        invariant
            i <= n,
            n == l@.len(),
            lead_ws_len(l@) == i + lead_ws_len(l@.skip(i as int)),
        decreases n - i,
    {
        if i == n {
            return i;
        }
        if !ws8(l[i]) {
            proof {
                assert(l@.skip(i as int).first() == l@[i as int]);
            }
            return i;
        }
        proof {
            assert(l@.skip(i as int).first() == l@[i as int]);
            assert(l@.skip(i as int).drop_first() =~= l@.skip(i + 1));
        }
        i = i + 1;
    }
}

/// Whether the leading whitespace holds a space.
fn lead_has_space_exec(l: &Vec<u8>, lead: usize) -> (r: bool)
    requires
        lead == lead_ws_len(l@),
        lead <= l@.len(),
    ensures
        r == lead_has_space(l@),
{
    let mut i: usize = 0;
    while i < lead
        invariant
            i <= lead,
            lead == lead_ws_len(l@),
            lead <= l@.len(),
            forall|k: int| 0 <= k < i ==> l@[k] != 32,
        decreases lead - i,
    {
        if l[i] == 32 {
            proof {
                assert(0 <= i < lead_ws_len(l@) && l@[i as int] == 32);
            }
            return true;
        }
        i = i + 1;
    }
    false
}

/// How many tabs the leading whitespace holds.
fn lead_tabs_exec(l: &Vec<u8>, lead: usize) -> (r: usize)
    requires
        lead == lead_ws_len(l@),
        lead <= l@.len(),
    ensures
        r == lead_tabs(l@, 0),
{
    let mut cnt: usize = 0;
    let mut i: usize = 0;
    while i < lead
        invariant
            i <= lead,
            lead == lead_ws_len(l@),
            lead <= l@.len(),
            cnt <= i,
            lead_tabs(l@, 0) == cnt + lead_tabs(l@, i as nat),
        decreases lead - i,
    {
        if l[i] == 9 {
            cnt = cnt + 1;
        }
        i = i + 1;
    }
    cnt
}

/// Index of the first `//` in a byte run, or its length.
fn comment_pos_exec(t: &Vec<u8>) -> (r: usize)
    ensures
        r == comment_pos(t@, 0),
{
    let n = t.len();
    let mut i: usize = 0;
    loop
        invariant
            i <= n,
            n == t@.len(),
            comment_pos(t@, 0) == comment_pos(t@, i as nat),
        decreases n - i + 1,
    {
        if i >= n || i == n - 1 {
            return n;
        }
        if t[i] == 47 && t[i + 1] == 47 {
            return i;
        }
        i = i + 1;
    }
}

/// Number of semicolons in a byte run.
fn semi_count_exec(c: &Vec<u8>) -> (r: usize)
    ensures
        r == semi_count(c@),
{
    let n = c.len();
    let mut cnt: usize = 0;
    let mut i: usize = 0;
    proof {
        assert(c@.take(0) =~= Seq::<u8>::empty());
    }
    while i < n
        invariant
            i <= n,
            n == c@.len(),
            cnt <= i,
            cnt == semi_count(c@.take(i as int)),
        decreases n - i,
    {
        proof {
            assert(c@.take(i + 1).drop_last() =~= c@.take(i as int));
            assert(c@.take(i + 1).last() == c@[i as int]);
        }
        if c[i] == 59 {
            cnt = cnt + 1;
        }
        i = i + 1;
    }
    proof {
        assert(c@.take(n as int) =~= c@);
    }
    cnt
}

/// Whether a byte occurs in a run.
fn has_byte_exec(c: &Vec<u8>, b: u8) -> (r: bool)
    ensures
        r == has_byte(c@, b),
{
    let n = c.len();
    let mut i: usize = 0;
    while i < n
        invariant
            i <= n,
            n == c@.len(),
            forall|k: int| 0 <= k < i ==> c@[k] != b,
        decreases n - i,
    {
        if c[i] == b {
            proof {
                assert(0 <= i < c@.len() && c@[i as int] == b);
            }
            return true;
        }
        i = i + 1;
    }
    false
}

/// The nesting depth after a line's braces.
fn depth_step_exec(c: &Vec<u8>, d: i64) -> (r: i64)
    ensures
        r == depth_step(c@, d),
{
    let n = c.len();
    let mut cur = d;
    let mut i: usize = 0;
    proof {
        assert(c@.take(0) =~= Seq::<u8>::empty());
    }
    while i < n
        invariant
            i <= n,
            n == c@.len(),
            cur == depth_step(c@.take(i as int), d),
        decreases n - i,
    {
        proof {
            assert(c@.take(i + 1).drop_last() =~= c@.take(i as int));
            assert(c@.take(i + 1).last() == c@[i as int]);
        }
        if c[i] == 123 {
            if cur != i64::MAX {
                cur = cur + 1;
            }
        } else if c[i] == 125 {
            if cur != i64::MIN {
                cur = cur - 1;
            }
        }
        i = i + 1;
    }
    proof {
        assert(c@.take(n as int) =~= c@);
    }
    cur
}

/// Splits the source bytes into lines.
fn split_lines(data: &[u8]) -> (r: Vec<Vec<u8>>)
    ensures
        lmodel(r@) == lines_of(data@),
{
    let n = data.len();
    let mut lines: Vec<Vec<u8>> = Vec::new();
    let mut start: usize = 0;
    proof {
        assert(lmodel(lines@) + lines_from(data@, 0) =~= lines_from(data@, 0));
    }
    loop
        invariant
            start <= n || start == n + 1,
            n == data@.len(),
            lines_of(data@) == lmodel(lines@) + lines_from(data@, start as nat),
        decreases n + 1 - start,
    {
        if start >= n {
            proof {
                assert(lmodel(lines@) + lines_from(data@, start as nat) =~= lmodel(lines@));
            }
            return lines;
        }
        let mut p = start;
        while p < n && data[p] != 10
            invariant
                start <= p <= n,
                n == data@.len(),
                nl_pos(data@, start as nat) == nl_pos(data@, p as nat),
            decreases n - p,
        {
            p = p + 1;
        }
        proof {
            assert(nl_pos(data@, start as nat) == p);
        }
        let mut line = crate::walk::slice_range_to_vec(data, start, p - start);
        if line.len() > 0 && line[line.len() - 1] == 13 {
            proof {
                assert(line@.take(line@.len() - 1) =~= strip_cr(line@));
            }
            let _ = line.pop();
            proof {
                assert(line@ =~= strip_cr(data@.subrange(start as int, p as int)));
            }
        } else {
            proof {
                assert(line@ =~= strip_cr(data@.subrange(start as int, p as int)));
            }
        }
        proof {
            let cur = lines_from(data@, start as nat);
            if p < n {
                assert(cur == seq![strip_cr(data@.subrange(start as int, p as int))]
                    + lines_from(data@, (p + 1) as nat));
            } else {
                assert(cur =~= seq![strip_cr(data@.subrange(start as int, p as int))]
                    + lines_from(data@, (p + 1) as nat));
            }
            assert(lmodel(lines@.push(line)) =~= lmodel(lines@) + seq![line@]);
            assert((lmodel(lines@) + seq![line@]) + lines_from(data@, (p + 1) as nat)
                =~= lmodel(lines@) + (seq![line@] + lines_from(data@, (p + 1) as nat)));
        }
        lines.push(line);
        if p >= n {
            proof {
                assert(lines_from(data@, (p + 1) as nat) =~= Seq::<Seq<u8>>::empty());
                assert(lmodel(lines@) + lines_from(data@, (p + 1) as nat) =~= lmodel(lines@));
            }
            return lines;
        }
        start = p + 1;
    }
}

/// Appends the findings of one line, in rule order.
#[verifier::rlimit(100)]
fn line_check(l: &Vec<u8>, lineno: usize, depth: i64, out: &mut Vec<LintMessage>)
    ensures
        fmodel(final(out)@) == fmodel(old(out)@) + line_findings(l@, lineno as int, depth),
{
    let ghost out_pre = fmodel(out@);
    let te = trim_end_len_exec(l);
    let lead = lead_ws_len_exec(l);
    proof {
        lemma_lead_ws_le(l@);
        lemma_trim_end_le(l@);
    }
    if te != l.len() {
        let col = if l.len() - te >= 1 {
            l.len() - te
        } else {
            1
        };
        out.push(
            LintMessage {
                line: lineno,
                column: col,
                rule: LintRule::NoTrailingWhitespace,
                severity: Severity::Warning,
                message: String::from_str("trailing whitespace not allowed"),
            },
        );
    }
    if lead > 0 && lead_has_space_exec(l, lead) {
        out.push(
            LintMessage {
                line: lineno,
                column: 1,
                rule: LintRule::IndentationTabsOnly,
                severity: Severity::Error,
                message: String::from_str("indentation must use tabs only (no spaces)"),
            },
        );
    }
    let tl = l.len() - lead;
    let starts_comment = tl >= 2 && l[lead] == 47 && (l[lead + 1] == 47 || l[lead + 1] == 42);
    let starts_closing = tl >= 1 && l[lead] == 125;
    proof {
        let t = trimmed_of(l@);
        assert(t.len() == tl);
        if tl >= 1 {
            assert(t[0] == l@[lead as int]);
        }
        if tl >= 2 {
            assert(t[1] == l@[lead as int + 1]);
        }
    }
    let expected: i64 = if depth >= 0 {
        depth
    } else {
        0
    };
    let tabs = lead_tabs_exec(l, lead);
    let tabs_match = (tabs as u64) == (expected as u64);
    proof {
        assert(tabs_match == (lead_tabs(l@, 0) == (if depth >= 0 { depth as int } else { 0 })));
    }
    if tl > 0 && !starts_comment && !starts_closing && !tabs_match {
        out.push(
            LintMessage {
                line: lineno,
                column: 1,
                rule: LintRule::IndentationDepth,
                severity: Severity::Error,
                message: String::from_str("indentation does not match nesting depth"),
            },
        );
    }
    let trimmed = crate::walk::slice_range_to_vec(l.as_slice(), lead, tl);
    proof {
        assert(trimmed@ =~= trimmed_of(l@));
    }
    let cp = comment_pos_exec(&trimmed);
    proof {
        lemma_comment_pos_le(trimmed@, 0);
    }
    let before = crate::walk::slice_range_to_vec(trimmed.as_slice(), 0, cp);
    proof {
        assert(before@ =~= trimmed_of(l@).take(comment_pos(trimmed_of(l@), 0) as int));
    }
    let bte = trim_end_len_exec(&before);
    proof {
        lemma_trim_end_le(before@);
    }
    let content = crate::walk::slice_range_to_vec(before.as_slice(), 0, bte);
    proof {
        assert(content@ =~= content_of(l@));
    }
    if semi_count_exec(&content) > 1 {
        out.push(
            LintMessage {
                line: lineno,
                column: 1,
                rule: LintRule::OneFieldPerLine,
                severity: Severity::Error,
                message: String::from_str("one field per line"),
            },
        );
    }
    if has_byte_exec(&content, 125) && has_byte_exec(&content, 59) {
        out.push(
            LintMessage {
                line: lineno,
                column: 1,
                rule: LintRule::ClosingBraceAlone,
                severity: Severity::Warning,
                message: String::from_str("closing brace should be the only content on its line"),
            },
        );
    }
    proof {
        assert(fmodel(out@) =~= out_pre + line_findings(l@, lineno as int, depth));
    }
}

/// The line's content, for the depth bookkeeping of the caller.
fn content_exec(l: &Vec<u8>) -> (r: Vec<u8>)
    ensures
        r@ == content_of(l@),
{
    let lead = lead_ws_len_exec(l);
    proof {
        lemma_lead_ws_le(l@);
    }
    let tl = l.len() - lead;
    let trimmed = crate::walk::slice_range_to_vec(l.as_slice(), lead, tl);
    proof {
        assert(trimmed@ =~= trimmed_of(l@));
    }
    let cp = comment_pos_exec(&trimmed);
    proof {
        lemma_comment_pos_le(trimmed@, 0);
    }
    let before = crate::walk::slice_range_to_vec(trimmed.as_slice(), 0, cp);
    let bte = trim_end_len_exec(&before);
    proof {
        lemma_trim_end_le(before@);
    }
    let content = crate::walk::slice_range_to_vec(before.as_slice(), 0, bte);
    proof {
        assert(before@ =~= trimmed_of(l@).take(comment_pos(trimmed_of(l@), 0) as int));
        assert(content@ =~= content_of(l@));
    }
    content
}

/// Runs every lint rule over the source and returns the findings in line
/// order, exactly the findings the rules define.
pub fn lint(source: &str) -> (r: Vec<LintMessage>)
    ensures
        fmodel(r@) == lint_findings(lines_of(source.spec_bytes()), 0, 0),
{
    let data = source.as_bytes();
    let lines = split_lines(data);
    let ghost lseq = lines_of(source.spec_bytes());
    let mut out: Vec<LintMessage> = Vec::new();
    let mut depth: i64 = 0;
    let n = lines.len();
    let mut i: usize = 0;
    proof {
        assert(fmodel(out@) + lint_findings(lseq, 0, 0) =~= lint_findings(lseq, 0, 0));
    }
    while i < n
        invariant
            i <= n,
            n == lines@.len(),
            lseq == lines_of(source.spec_bytes()),
            lseq == lmodel(lines@),
            lint_findings(lseq, 0, 0) == fmodel(out@) + lint_findings(lseq, i as nat, depth),
        decreases n - i,
    {
        let l = &lines[i];
        let ghost out_pre = fmodel(out@);
        line_check(l, i + 1, depth, &mut out);
        proof {
            assert(lint_findings(lseq, i as nat, depth) == line_findings(l@, i + 1 as int, depth)
                + lint_findings(lseq, (i + 1) as nat, depth_step(content_of(l@), depth)));
            assert(out_pre + (line_findings(l@, i + 1 as int, depth) + lint_findings(
                lseq,
                (i + 1) as nat,
                depth_step(content_of(l@), depth),
            )) =~= (out_pre + line_findings(l@, i + 1 as int, depth)) + lint_findings(
                lseq,
                (i + 1) as nat,
                depth_step(content_of(l@), depth),
            ));
        }
        let content = content_exec(l);
        depth = depth_step_exec(&content, depth);
        i = i + 1;
    }
    proof {
        assert(fmodel(out@) + lint_findings(lseq, n as nat, depth) =~= fmodel(out@));
    }
    out
}

pub proof fn lemma_trim_end_le(l: Seq<u8>)
    ensures
        trim_end_len(l) <= l.len(),
    decreases l.len(),
{
    if l.len() > 0 && is_ws(l.last()) {
        lemma_trim_end_le(l.drop_last());
    }
}

pub proof fn lemma_lead_ws_le(l: Seq<u8>)
    ensures
        lead_ws_len(l) <= l.len(),
    decreases l.len(),
{
    if l.len() > 0 && is_ws(l.first()) {
        lemma_lead_ws_le(l.drop_first());
    }
}

pub proof fn lemma_comment_pos_le(t: Seq<u8>, i: nat)
    ensures
        comment_pos(t, i) <= t.len(),
    decreases t.len() - i,
{
    if i + 1 < t.len() && !(t[i as int] == 47 && t[i as int + 1] == 47) {
        lemma_comment_pos_le(t, i + 1);
    }
}

} // verus!
