use rit::bytes::{bytes_eq, contains_bytes, ends_with_bytes, lex_lt_bytes, starts_with_bytes, trim};
use rit::rules::{compile_line, split_lines, RuleKind, RuleSet};

fn b(s: &str) -> Vec<u8> {
    s.as_bytes().to_vec()
}

#[test]
fn trim_strips_both_ends() {
    assert_eq!(trim(&b("  *.log\t\r\n")), b("*.log"));
    assert_eq!(trim(&b("plain")), b("plain"));
    assert_eq!(trim(&b("   ")), b(""));
    assert_eq!(trim(&b("")), b(""));
}

#[test]
fn byte_tests_behave() {
    assert!(contains_bytes(&b("a/target/b"), &b("target/")));
    assert!(!contains_bytes(&b("ab"), &b("abc")));
    assert!(contains_bytes(&b("anything"), &b("")));
    assert!(starts_with_bytes(&b("src/main.rs"), &b("src/")));
    assert!(!starts_with_bytes(&b("rsrc"), &b("src")));
    assert!(ends_with_bytes(&b("server.log"), &b(".log")));
    assert!(!ends_with_bytes(&b("log"), &b(".log")));
    assert!(bytes_eq(&b("abc"), &b("abc")));
    assert!(!bytes_eq(&b("abc"), &b("abd")));
}

#[test]
fn lex_order_is_strict_and_by_first_difference() {
    assert!(lex_lt_bytes(&b("."), &b("sub")));
    assert!(lex_lt_bytes(&b("a"), &b("ab")));
    assert!(!lex_lt_bytes(&b("ab"), &b("a")));
    assert!(!lex_lt_bytes(&b("same"), &b("same")));
    assert!(lex_lt_bytes(&b("abc"), &b("abd")));
}

#[test]
fn split_lines_keeps_every_segment() {
    let ls = split_lines(&b("a\nb\n"));
    assert_eq!(ls, vec![b("a"), b("b"), b("")]);
    let one = split_lines(&b("solo"));
    assert_eq!(one, vec![b("solo")]);
    let empty = split_lines(&b(""));
    assert_eq!(empty, vec![b("")]);
}

#[test]
fn compile_line_classifies_the_three_kinds() {
    let r = compile_line(&b("  *.log  ")).unwrap();
    assert_eq!(r.kind, RuleKind::SuffixWildcard);
    assert_eq!(r.text, b(".log"));

    let r = compile_line(&b("build/")).unwrap();
    assert_eq!(r.kind, RuleKind::DirectoryPrefix);
    assert_eq!(r.text, b("build"));

    let r = compile_line(&b("temp")).unwrap();
    assert_eq!(r.kind, RuleKind::Substring);
    assert_eq!(r.text, b("temp"));
}

#[test]
fn compile_line_skips_blanks_and_comments() {
    assert!(compile_line(&b("")).is_none());
    assert!(compile_line(&b("   ")).is_none());
    assert!(compile_line(&b("# a comment")).is_none());
}

#[test]
fn lone_star_is_a_substring_pattern() {
    let r = compile_line(&b("*")).unwrap();
    assert_eq!(r.kind, RuleKind::Substring);
    assert_eq!(r.text, b("*"));
}

#[test]
fn ruleset_matches_suffix_prefix_and_substring() {
    let tool = b("*.log\nbuild/\ntemp\n");
    let rs = RuleSet::from_sources(&None, &Some(tool));
    assert!(rs.matches(&b("server.log")));
    assert!(!rs.matches(&b("server.txt")));
    assert!(rs.matches(&b("build/out.o")));
    assert!(rs.matches(&b("notes/temporary.md")));
}

#[test]
fn matching_twice_gives_the_same_answer() {
    let general = b("*.tmp\n");
    let rs = RuleSet::from_sources(&Some(general), &None);
    let p = b("work/file.tmp");
    let first = rs.matches(&p);
    let second = rs.matches(&p);
    assert_eq!(first, second);
    assert!(first);
    let q = b("work/file.txt");
    assert_eq!(rs.matches(&q), rs.matches(&q));
    assert!(!rs.matches(&q));
}

#[test]
fn builtin_exclusions_win_over_any_pattern_files() {
    let empty = RuleSet::from_sources(&None, &None);
    assert!(empty.matches(&b(".rit/HEAD")));
    assert!(empty.matches(&b("x/.rit/config")));
    let with_files = RuleSet::from_sources(&Some(b("only.this\n")), &Some(b("")));
    assert!(with_files.matches(&b("deep/.rit/objects/ab")));
    assert!(with_files.matches(&b(".git/config")));
    assert!(with_files.matches(&b("target/debug/bin")));
    assert!(with_files.matches(&b("web/node_modules/x/y.js")));
}

#[test]
fn plain_files_are_not_builtin_excluded() {
    let rs = RuleSet::from_sources(&None, &None);
    assert!(!rs.matches(&b(".gitignore")));
    assert!(!rs.matches(&b("a.txt")));
    assert!(!rs.matches(&b("sub/b.txt")));
}

#[test]
fn unreadable_sources_contribute_no_rules() {
    let absent = RuleSet::from_sources(&None, &None);
    let present_empty = RuleSet::from_sources(&Some(b("")), &Some(b("")));
    for p in ["keep.me", "some/dir/file.rs", "server.log"] {
        assert_eq!(absent.matches(&b(p)), present_empty.matches(&b(p)));
    }
}
