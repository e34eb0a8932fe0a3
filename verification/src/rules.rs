//! The ignore rule engine: pattern sources are compiled into a single
//! ordered rule set, built-in exclusions first, and a path is ignored
//! exactly when some rule in the set matches it.

use vstd::prelude::*;
use crate::bytes::{
    contains_seq, starts_with_seq, ends_with_seq, trimmed,
    contains_bytes, starts_with_bytes, ends_with_bytes, trim, copy_range,
};

verus! {

/// How one compiled pattern is interpreted against a path.
///
/// The matching is deliberately coarse: a `Substring` rule is a plain
/// substring test, not a glob, and can over-match short patterns.
#[derive(Clone, Copy, Debug, PartialEq, Eq, Structural)]
pub enum RuleKind {
    /// Pattern began with `*`: matches paths ending with the remainder.
    SuffixWildcard,
    /// Pattern ended with `/`: matches paths starting with the pattern
    /// minus its trailing slash.
    DirectoryPrefix,
    /// Any other pattern: matches paths that contain it anywhere or
    /// start with it.
    Substring,
}

/// The mathematical content of one compiled rule.
pub struct RuleV {
    pub kind: RuleKind,
    pub text: Seq<u8>,
}

/// One normalized pattern: the kind tag plus the pattern text with the
/// syntactic cue (`*`, trailing `/`) stripped.
pub struct CompiledRule {
    pub kind: RuleKind,
    pub text: Vec<u8>,
}

impl View for CompiledRule {
    type V = RuleV;

    open spec fn view(&self) -> RuleV {
        RuleV { kind: self.kind, text: self.text@ }
    }
}

impl DeepView for CompiledRule {
    type V = RuleV;

    open spec fn deep_view(&self) -> RuleV {
        self@
    }
}

/// Whether one rule matches a path.
pub open spec fn rule_matches(r: RuleV, path: Seq<u8>) -> bool {
    match r.kind {
        RuleKind::SuffixWildcard => ends_with_seq(path, r.text),
        RuleKind::DirectoryPrefix => starts_with_seq(path, r.text),
        RuleKind::Substring => contains_seq(path, r.text) || starts_with_seq(path, r.text),
    }
}

impl CompiledRule {
    /// Evaluates this rule against a path.
    pub fn matches(&self, path: &Vec<u8>) -> (r: bool)
        ensures
            r == rule_matches(self@, path@),
    {
        match self.kind {
            RuleKind::SuffixWildcard => ends_with_bytes(path, &self.text),
            RuleKind::DirectoryPrefix => starts_with_bytes(path, &self.text),
            RuleKind::Substring => {
                let c = contains_bytes(path, &self.text);
                if c {
                    true
                } else {
                    starts_with_bytes(path, &self.text)
                }
            },
        }
    }
}

/// Index of the first newline byte in `s`, or -1 if there is none.
pub open spec fn first_nl(s: Seq<u8>) -> int
    decreases s.len(),
{
    if s.len() == 0 {
        -1
    } else if s[0] == 10 {
        0
    } else {
        let r = first_nl(s.drop_first());
        if r < 0 {
            -1
        } else {
            1 + r
        }
    }
}

pub proof fn lemma_first_nl_bounds(s: Seq<u8>)
    ensures
        -1 <= first_nl(s),
        first_nl(s) < s.len(),
    decreases s.len(),
{
    if s.len() > 0 && s[0] != 10 {
        lemma_first_nl_bounds(s.drop_first());
    }
}

/// The newline-separated segments of `s`, in order. A trailing newline
/// yields a final empty segment, which compiles to no rule.
pub open spec fn split_nl(s: Seq<u8>) -> Seq<Seq<u8>>
    decreases s.len(),
    via split_nl_decreases
{
    if first_nl(s) < 0 {
        seq![s]
    } else {
        seq![s.subrange(0, first_nl(s))] + split_nl(
            s.subrange(first_nl(s) + 1, s.len() as int),
        )
    }
}

#[via_fn]
proof fn split_nl_decreases(s: Seq<u8>) {
    lemma_first_nl_bounds(s);
}

/// If the first `m` bytes of `s` are not newlines and, unless `m` is the
/// length of `s`, byte `m` is one, then `first_nl` is pinned.
proof fn lemma_first_nl_at(s: Seq<u8>, m: int)
    requires
        0 <= m <= s.len(),
        forall|k: int| 0 <= k < m ==> s[k] != 10,
        m < s.len() ==> s[m] == 10,
    ensures
        m == s.len() ==> first_nl(s) == -1,
        m < s.len() ==> first_nl(s) == m,
    decreases m,
{
    if m == 0 {
    } else {
        assert forall|k: int| 0 <= k < m - 1 implies s.drop_first()[k] != 10 by {
            assert(s.drop_first()[k] == s[k + 1]);
        }
        assert(m - 1 < s.drop_first().len() ==> s.drop_first()[m - 1] == 10);
        lemma_first_nl_at(s.drop_first(), m - 1);
    }
}

/// Splits file contents into lines at each newline byte.
pub fn split_lines(s: &Vec<u8>) -> (r: Vec<Vec<u8>>)
    ensures
        r.deep_view() == split_nl(s@),
{
    let n = s.len();
    let mut r: Vec<Vec<u8>> = Vec::new();
    let mut start: usize = 0;
    assert(s@.subrange(0, n as int) =~= s@);
    assert(r.deep_view() =~= Seq::<Seq<u8>>::empty());
    loop
        invariant_except_break
            0 <= start <= n,
            s@.len() == n,
            split_nl(s@) == r.deep_view() + split_nl(s@.subrange(start as int, n as int)),
        ensures
            r.deep_view() == split_nl(s@),
        decreases n - start,
    {
        let ghost suffix = s@.subrange(start as int, n as int);
        let mut j: usize = start;
        while j < n && s[j] != 10
            invariant
                start <= j <= n,
                s@.len() == n,
                forall|k: int| start <= k < j ==> s@[k] != 10,
            decreases n - j,
        {
            j += 1;
        }
        proof {
            assert forall|k: int| 0 <= k < j - start implies suffix[k] != 10 by {
                assert(suffix[k] == s@[start + k]);
            }
            if j < n {
                assert(suffix[j - start] == s@[j as int]);
            }
            lemma_first_nl_at(suffix, j - start);
        }
        let line = copy_range(s, start, j);
        let ghost old_dv = r.deep_view();
        r.push(line);
        proof {
            assert(line.deep_view() =~= line@);
            assert(r.deep_view() =~= old_dv.push(line@));
        }
        if j == n {
            proof {
                assert(split_nl(suffix) == seq![suffix]);
                assert(line@ == suffix);
                assert(r.deep_view() =~= old_dv + seq![suffix]);
            }
            break;
        }
        proof {
            assert(suffix.subrange(0, j - start) =~= s@.subrange(start as int, j as int));
            assert(suffix.subrange(j - start + 1, suffix.len() as int) =~= s@.subrange(
                j + 1 as int,
                n as int,
            ));
            assert(split_nl(suffix) == seq![line@] + split_nl(
                s@.subrange(j + 1 as int, n as int),
            ));
            assert(old_dv + split_nl(suffix) =~= r.deep_view() + split_nl(
                s@.subrange(j + 1 as int, n as int),
            ));
        }
        start = j + 1;
    }
    r
}

/// The rule compiled from one raw pattern line, if any: the line is
/// trimmed, and blank lines and `#` comments yield no rule.
pub open spec fn compile_line_spec(line: Seq<u8>) -> Option<RuleV> {
    let t = trimmed(line);
    if t.len() == 0 {
        None
    } else if t[0] == 35 {  // '#'
        None
    } else if t[0] == 42 && t.len() > 1 {  // '*'
        Some(RuleV { kind: RuleKind::SuffixWildcard, text: t.drop_first() })
    } else if t[t.len() - 1] == 47 {  // '/'
        Some(RuleV { kind: RuleKind::DirectoryPrefix, text: t.drop_last() })
    } else {
        Some(RuleV { kind: RuleKind::Substring, text: t })
    }
}

/// Compiles one pattern line.
pub fn compile_line(line: &Vec<u8>) -> (r: Option<CompiledRule>)
    ensures
        r.deep_view() == compile_line_spec(line@),
{
    let t = trim(line);
    let tl = t.len();
    if tl == 0 {
        return None;
    }
    if t[0] == 35 {  // '#'
        return None;
    }
    if t[0] == 42 && tl > 1 {  // '*'
        let text = copy_range(&t, 1, tl);
        return Some(CompiledRule { kind: RuleKind::SuffixWildcard, text });
    }
    if t[tl - 1] == 47 {  // '/'
        let text = copy_range(&t, 0, tl - 1);
        return Some(CompiledRule { kind: RuleKind::DirectoryPrefix, text });
    }
    Some(CompiledRule { kind: RuleKind::Substring, text: t })
}

/// The rules compiled from a sequence of lines, in line order.
pub open spec fn compile_lines_spec(lines: Seq<Seq<u8>>) -> Seq<RuleV>
    decreases lines.len(),
{
    if lines.len() == 0 {
        seq![]
    } else {
        compile_lines_spec(lines.drop_last()) + match compile_line_spec(lines.last()) {
            Some(r) => seq![r],
            None => seq![],
        }
    }
}

/// Compiles every line of one pattern source, keeping line order.
pub fn compile_lines(lines: &Vec<Vec<u8>>) -> (r: Vec<CompiledRule>)
    ensures
        r.deep_view() == compile_lines_spec(lines.deep_view()),
{
    let n = lines.len();
    let mut r: Vec<CompiledRule> = Vec::new();
    let mut i: usize = 0;
    assert(lines.deep_view().subrange(0, 0) =~= Seq::<Seq<u8>>::empty());
    assert(r.deep_view() =~= Seq::<RuleV>::empty());
    while i < n
        invariant
            0 <= i <= n,
            lines@.len() == n,
            lines.deep_view().len() == n,
            r.deep_view() == compile_lines_spec(lines.deep_view().subrange(0, i as int)),
        decreases n - i,
    {
        let ghost prefix = lines.deep_view().subrange(0, i as int);
        let ghost prefix1 = lines.deep_view().subrange(0, i + 1 as int);
        proof {
            assert(prefix1.drop_last() =~= prefix);
            assert(prefix1.last() == lines.deep_view()[i as int]);
            assert(lines.deep_view()[i as int] == lines@[i as int].deep_view());
            assert(lines@[i as int].deep_view() =~= lines@[i as int]@);
        }
        let ghost old_dv = r.deep_view();
        match compile_line(&lines[i]) {
            Some(rule) => {
                r.push(rule);
                proof {
                    assert(r.deep_view() =~= old_dv.push(rule@));
                    assert(old_dv.push(rule@) =~= old_dv + seq![rule@]);
                }
            },
            None => {
                proof {
                    assert(compile_lines_spec(prefix1) == compile_lines_spec(prefix)
                        + Seq::<RuleV>::empty());
                    assert(compile_lines_spec(prefix) + Seq::<RuleV>::empty()
                        =~= compile_lines_spec(prefix));
                }
            },
        }
        i += 1;
    }
    assert(lines.deep_view().subrange(0, n as int) =~= lines.deep_view());
    r
}

/// The internal metadata directory, as a path segment: `.rit/`.
pub open spec fn rit_dir() -> Seq<u8> {
    seq![46u8, 114u8, 105u8, 116u8, 47u8]
}

/// The version-control internal directory, as a path segment: `.git/`.
pub open spec fn git_dir() -> Seq<u8> {
    seq![46u8, 103u8, 105u8, 116u8, 47u8]
}

/// The conventional build-output directory, as a path segment: `target/`.
pub open spec fn target_dir() -> Seq<u8> {
    seq![116u8, 97u8, 114u8, 103u8, 101u8, 116u8, 47u8]
}

/// The conventional dependency directory, as a path segment:
/// `node_modules/`.
pub open spec fn node_modules_dir() -> Seq<u8> {
    seq![110u8, 111u8, 100u8, 101u8, 95u8, 109u8, 111u8, 100u8, 117u8, 108u8, 101u8, 115u8, 47u8]
}

/// The built-in unconditional exclusions, evaluated before any
/// file-supplied pattern: the internal metadata directory, the
/// version-control internal directory, and the conventional build and
/// dependency directories, each matched as a substring so that the
/// segment is caught anywhere in the path.
pub open spec fn builtin_rules() -> Seq<RuleV> {
    seq![
        RuleV { kind: RuleKind::Substring, text: rit_dir() },
        RuleV { kind: RuleKind::Substring, text: git_dir() },
        RuleV { kind: RuleKind::Substring, text: target_dir() },
        RuleV { kind: RuleKind::Substring, text: node_modules_dir() },
    ]
}

fn builtin_rules_vec() -> (r: Vec<CompiledRule>)
    ensures
        r.deep_view() == builtin_rules(),
{
    let mut r: Vec<CompiledRule> = Vec::new();
    let rit: Vec<u8> = vec![46u8, 114u8, 105u8, 116u8, 47u8];
    let git: Vec<u8> = vec![46u8, 103u8, 105u8, 116u8, 47u8];
    let target: Vec<u8> = vec![116u8, 97u8, 114u8, 103u8, 101u8, 116u8, 47u8];
    let node_modules: Vec<u8> = vec![
        110u8, 111u8, 100u8, 101u8, 95u8, 109u8, 111u8, 100u8, 117u8, 108u8, 101u8, 115u8, 47u8,
    ];
    assert(rit@ =~= rit_dir());
    assert(git@ =~= git_dir());
    assert(target@ =~= target_dir());
    assert(node_modules@ =~= node_modules_dir());
    r.push(CompiledRule { kind: RuleKind::Substring, text: rit });
    r.push(CompiledRule { kind: RuleKind::Substring, text: git });
    r.push(CompiledRule { kind: RuleKind::Substring, text: target });
    r.push(CompiledRule { kind: RuleKind::Substring, text: node_modules });
    assert(r.deep_view() =~= builtin_rules());
    r
}

/// The rules contributed by one optional pattern source: none when the
/// file is absent or unreadable, else its lines compiled in order.
pub open spec fn compiled_source(src: Option<Seq<u8>>) -> Seq<RuleV> {
    match src {
        None => seq![],
        Some(s) => compile_lines_spec(split_nl(s)),
    }
}

/// A path is ignored exactly when some rule in the set matches it.
pub open spec fn ruleset_matches(rules: Seq<RuleV>, path: Seq<u8>) -> bool {
    exists|i: int| 0 <= i < rules.len() && rule_matches(rules[i], path)
}

/// An immutable, ordered rule set: built-in exclusions first, then the
/// general-purpose ignore file's rules, then the tool-specific ignore
/// file's rules. First match wins; with no negation support a match
/// from any source is final, so evaluation order only affects which
/// rule fires, never whether one does.
pub struct RuleSet {
    pub rules: Vec<CompiledRule>,
}

impl View for RuleSet {
    type V = Seq<RuleV>;

    open spec fn view(&self) -> Seq<RuleV> {
        self.rules.deep_view()
    }
}

impl RuleSet {
    /// Compiles a rule set from the contents of the two recognized
    /// ignore files; `None` stands for a file that is absent or could
    /// not be read, which contributes no rules.
    pub fn from_sources(general: &Option<Vec<u8>>, tool: &Option<Vec<u8>>) -> (r: RuleSet)
        ensures
            r@ == builtin_rules() + compiled_source(general.deep_view()) + compiled_source(
                tool.deep_view(),
            ),
    {
        let mut rules = builtin_rules_vec();
        let ghost dv0 = rules.deep_view();
        match general {
            Some(g) => {
                proof {
                    assert(g.deep_view() =~= g@);
                }
                let lines = split_lines(g);
                let mut src = compile_lines(&lines);
                let ghost src_dv = src.deep_view();
                rules.append(&mut src);
                proof {
                    assert(rules.deep_view() =~= dv0 + src_dv);
                }
            },
            None => {
                proof {
                    assert(rules.deep_view() =~= dv0 + Seq::<RuleV>::empty());
                }
            },
        }
        let ghost dv1 = rules.deep_view();
        match tool {
            Some(t) => {
                proof {
                    assert(t.deep_view() =~= t@);
                }
                let lines = split_lines(t);
                let mut src = compile_lines(&lines);
                let ghost src_dv = src.deep_view();
                rules.append(&mut src);
                proof {
                    assert(rules.deep_view() =~= dv1 + src_dv);
                }
            },
            None => {
                proof {
                    assert(rules.deep_view() =~= dv1 + Seq::<RuleV>::empty());
                }
            },
        }
        RuleSet { rules }
    }

    /// Evaluates every rule in source order and returns true on the
    /// first match; false when no rule matches.
    pub fn matches(&self, path: &Vec<u8>) -> (r: bool)
        ensures
            r == ruleset_matches(self@, path@),
    {
        let n = self.rules.len();
        let mut i: usize = 0;
        while i < n
            invariant
                0 <= i <= n,
                self.rules@.len() == n,
                self@.len() == n,
                forall|k: int| 0 <= k < i ==> !rule_matches(self@[k], path@),
            decreases n - i,
        {
            let matched = self.rules[i].matches(path);
            proof {
                assert(self.rules[i as int]@ == self@[i as int]);
            }
            if matched {
                assert(rule_matches(self@[i as int], path@));
                return true;
            }
            i += 1;
        }
        false
    }
}

/// Matching is stateless: a rule set is immutable and `matches` returns
/// exactly `ruleset_matches` of its inputs, so any two evaluations on
/// the same rule set and path yield the same boolean.
pub proof fn lemma_matches_idempotent(rules: Seq<RuleV>, path: Seq<u8>, r1: bool, r2: bool)
    requires
        r1 == ruleset_matches(rules, path),
        r2 == ruleset_matches(rules, path),
    ensures
        r1 == r2,
{
}

/// Built-in exclusions always win: whatever the two pattern files hold
/// (present or absent, empty or not), a path that contains the internal
/// metadata directory segment is matched by the compiled rule set.
pub proof fn lemma_builtins_always_win(
    general: Option<Seq<u8>>,
    tool: Option<Seq<u8>>,
    path: Seq<u8>,
)
    requires
        contains_seq(path, rit_dir()),
    ensures
        ruleset_matches(
            builtin_rules() + compiled_source(general) + compiled_source(tool),
            path,
        ),
{
    let rules = builtin_rules() + compiled_source(general) + compiled_source(tool);
    assert(rules[0] == builtin_rules()[0]);
    assert(rule_matches(rules[0], path));
}

} // verus!
