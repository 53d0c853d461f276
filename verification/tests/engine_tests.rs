use redgex::compile::compile_pattern;
use redgex::world::World;
use redgex::RedGex;

fn chars(s: &str) -> Vec<char> {
    s.chars().collect()
}

#[test]
fn first_match_is_first_of_all_matches() {
    let r = RedGex::new("[a-z]+");
    let all = r.all_matchs_vec("ab1");
    assert_eq!(vec![vec!["a"], vec!["b"], vec!["ab"]], all);
    assert_eq!(Some(vec!["a"]), r.first_match("ab1"));
    assert_eq!(all, r.all_matchs("ab1"));
    let none = RedGex::new("a\\Wb");
    assert!(none.all_matchs_vec("aXb").is_empty());
    assert_eq!(None, none.first_match("aXb"));
}

#[test]
fn matches_are_not_repeated() {
    let all = World::all_matchs("aaa", "a*");
    for i in 0..all.len() {
        for j in (i + 1)..all.len() {
            assert_ne!(all[i], all[j]);
        }
    }
    assert_eq!(vec![vec![""], vec!["a"], vec!["aa"], vec!["aaa"]], all);
}

#[test]
fn one_capture_per_group_and_pieces_of_text() {
    assert_eq!(vec![vec!["b", "", "b"]], World::all_matchs("b", "(a)|(b)"));
    assert_eq!(Some(vec!["abab", "ab"]), World::first_match("abab", "(ab)\\1"));
    for m in World::all_matchs("hello world", "(\\w)(\\w+)") {
        assert_eq!(3, m.len());
        for piece in m {
            assert!("hello world".contains(piece));
        }
    }
}

#[test]
fn empty_text_and_empty_pattern() {
    assert_eq!(vec![vec![""]], World::all_matchs("", "a*"));
    assert_eq!(vec![vec!["", ""]], World::all_matchs("", "(x)?"));
    assert_eq!(vec![vec![""]], World::all_matchs("abc", ""));
    assert!(World::all_matchs("", "a").is_empty());
}

#[test]
fn anchors() {
    assert!(World::all_matchs("abc", "$").is_empty());
    assert_eq!(vec![vec![""]], World::all_matchs("abc", "^"));
}

#[test]
fn repetitions() {
    assert_eq!(vec![vec!["a"], vec!["aa"], vec!["aaa"]], World::all_matchs("aaa", "a+?"));
    assert_eq!(vec![vec!["aa"]], World::all_matchs("aaa", "a{2}"));
    assert_eq!(vec![vec!["aa"], vec!["aaa"]], World::all_matchs("aaa", "a{2,}"));
    assert_eq!(Some(vec!["aa"]), World::first_match("aaa", "a{2,}"));
}

#[test]
fn classes_and_escapes() {
    assert_eq!(vec![vec!["a.b"]], World::all_matchs("a.b", "a\\.b"));
    assert_eq!(vec![vec!["axb"]], World::all_matchs("axb", "a.b"));
    assert_eq!(vec![vec!["y"], vec!["z"]], World::all_matchs("xyz", "[^x]"));
    assert_eq!(vec![vec!["1"], vec!["2"]], World::all_matchs("a1 b2", "\\d"));
    assert!(World::all_matchs("aXb", "a\\sb").is_empty());
}

#[test]
fn alternatives_are_tried_last_first() {
    assert_eq!(vec![vec!["ab"], vec!["a"], vec!["b"]], World::all_matchs("ab", "a|b|ab"));
}

#[test]
fn construct_starts_at_node_zero() {
    let (nodes, w) = World::construct("a(b)");
    assert!(nodes.len() > 0);
    assert_eq!(0, w.current_node);
    assert_eq!(0, w.current_idx);
    assert_eq!(2, w.groups.len());
}

#[test]
fn unreadable_patterns_do_not_compile() {
    // a non-capturing group
    assert!(compile_pattern(&chars("(?:a)")).is_none());
    // a repetition with nothing before it
    assert!(compile_pattern(&chars("*a")).is_none());
    // a third question mark
    assert!(compile_pattern(&chars("a???")).is_none());
    // a closing brace that starts no repetition
    assert!(compile_pattern(&chars("a}")).is_none());
    // a repetition after a group whose skip edge closes a cycle
    assert!(compile_pattern(&chars("(a)b*")).is_none());
    // a group or a class that is not closed
    assert!(compile_pattern(&chars("(a")).is_none());
    assert!(compile_pattern(&chars("[a")).is_none());
    // a closing parenthesis without an opening one
    assert!(compile_pattern(&chars("a)")).is_none());
    // a count of zero, and counts that are not numbers
    assert!(compile_pattern(&chars("a{0}")).is_none());
    assert!(compile_pattern(&chars("a{x}")).is_none());
    assert!(compile_pattern(&chars("a{1,2,3}")).is_none());
    // an escape that means nothing
    assert!(compile_pattern(&chars("\\q")).is_none());
    // a negated shorthand inside brackets
    assert!(compile_pattern(&chars("[\\W]")).is_none());
    assert!(compile_pattern(&chars("a?")).is_some());
    assert!(compile_pattern(&chars("a??")).is_some());
    assert!(compile_pattern(&chars("(a)\\1")).is_some());
}

#[test]
fn missing_group_reference_is_built_and_matches_where_unreached() {
    let r = RedGex::new("(a)\\2");
    assert!(r.all_matchs_vec("b").is_empty());
    assert_eq!(None, r.first_match("b"));
    assert!(World::all_matchs("b", "(a)\\2").is_empty());
    assert!(compile_pattern(&chars("\\5")).is_some());
    assert_eq!(Some(vec!["b"]), World::first_match("b", "x\\3|b"));
}

#[test]
fn escaped_punctuation_is_a_literal() {
    assert_eq!(4, redgex::parse::get_end_of_static("a\\.b"));
    assert_eq!(vec![vec!["a.b"]], World::all_matchs("xa.b", "a\\.b"));
}

#[test]
fn try_new_refuses_what_cannot_compile() {
    assert!(RedGex::try_new("(a").is_none());
    assert!(RedGex::try_new("*a").is_none());
    let r = RedGex::try_new("ab").unwrap();
    assert_eq!(vec![vec!["ab"]], r.all_matchs_vec("xab"));
}

#[test]
fn known_back_references_are_reported() {
    assert!(RedGex::try_new("(a)\\1").unwrap().refs_known());
    assert!(!RedGex::try_new("(a)\\2").unwrap().refs_known());
    assert!(RedGex::try_new("[a-z]+").unwrap().refs_known());
}
