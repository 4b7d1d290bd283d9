use toolkit::lsystem::expand_with_rules;
use toolkit::weld::{drop_degenerate, weld_remap};

fn chars(s: &str) -> Vec<char> {
    s.chars().collect()
}

fn expand(initial: &str, rules: &[(char, &str)], iterations: u32) -> String {
    let rules: Vec<(char, Vec<char>)> = rules.iter().map(|&(c, s)| (c, chars(s))).collect();
    expand_with_rules(&chars(initial), &rules, iterations).into_iter().collect()
}

#[test]
fn algae_classic_growth() {
    let rules = [('A', "AB"), ('B', "A")];
    assert_eq!(expand("A", &rules, 0), "A");
    assert_eq!(expand("A", &rules, 1), "AB");
    assert_eq!(expand("A", &rules, 2), "ABA");
    assert_eq!(expand("A", &rules, 3), "ABAAB");
    assert_eq!(expand("A", &rules, 4), "ABAABABA");
    assert_eq!(expand("A", &rules, 5).len(), 13);
}

#[test]
fn symbols_without_rules_pass_through() {
    assert_eq!(expand("F+F", &[('F', "FF")], 1), "FF+FF");
}

#[test]
fn first_rule_for_a_symbol_wins() {
    assert_eq!(expand("X", &[('X', "a"), ('X', "b")], 1), "a");
}

#[test]
fn no_rules_is_identity() {
    assert_eq!(expand("F[+F]-F", &[], 4), "F[+F]-F");
}

#[test]
fn koch_like_rule() {
    assert_eq!(expand("F", &[('F', "F+F-F")], 2), "F+F-F+F+F-F-F+F-F");
}

#[test]
fn weld_merges_equal_keys() {
    let keys = vec![(0, 0, 0), (1, 0, 0), (0, 0, 0), (0, 1, 0), (1, 0, 0)];
    let (firsts, remap) = weld_remap(&keys);
    assert_eq!(firsts, vec![0, 1, 3]);
    assert_eq!(remap, vec![0, 1, 0, 2, 1]);
}

#[test]
fn weld_drops_collapsed_triangles() {
    // Vertices 0 and 2 weld together, so triangle (0, 1, 2) collapses.
    let remap = vec![0, 1, 0, 2, 1];
    let indices = vec![0, 1, 2, 0, 1, 3, 3, 4, 1, 9];
    let out = drop_degenerate(&indices, &remap);
    assert_eq!(out, vec![0, 1, 2]);
}

#[test]
fn weld_keeps_distinct_triangles_in_order() {
    let remap = vec![0, 1, 2, 3];
    let indices = vec![0, 1, 2, 2, 1, 3];
    assert_eq!(drop_degenerate(&indices, &remap), vec![0, 1, 2, 2, 1, 3]);
}
