//! L-system string rewriting: every symbol of the current string is replaced
//! by its successor (or kept when it has none), for a number of iterations.
//!
//! Which of several weighted productions a symbol uses is chosen by the
//! caller (the weights are floating point); the library applies the chosen
//! successors.

use vstd::prelude::*;

verus! {

/// The rules as symbol / successor pairs.
pub open spec fn rules_view(rules: Seq<(char, Vec<char>)>) -> Seq<(char, Seq<char>)> {
    rules.map_values(|r: (char, Vec<char>)| (r.0, r.1@))
}

/// The successor of `c`: that of the first rule for `c`, or `c` itself when
/// no rule rewrites it.
pub open spec fn successor(rules: Seq<(char, Seq<char>)>, c: char) -> Seq<char>
    decreases rules.len(),
{
    if rules.len() == 0 {
        seq![c]
    } else if rules[0].0 == c {
        rules[0].1
    } else {
        successor(rules.drop_first(), c)
    }
}

/// One rewriting pass: each symbol replaced by its successor, in order.
pub open spec fn rewrite_once(s: Seq<char>, rules: Seq<(char, Seq<char>)>) -> Seq<char>
    decreases s.len(),
{
    if s.len() == 0 {
        Seq::empty()
    } else {
        rewrite_once(s.drop_last(), rules) + successor(rules, s.last())
    }
}

/// `n` rewriting passes starting from `s`.
pub open spec fn rewrite_n(s: Seq<char>, rules: Seq<(char, Seq<char>)>, n: nat) -> Seq<char>
    decreases n,
{
    if n == 0 {
        s
    } else {
        rewrite_once(rewrite_n(s, rules, (n - 1) as nat), rules)
    }
}

/// The successor of `c`, computed.
fn successor_of(rules: &Vec<(char, Vec<char>)>, c: char) -> (r: Vec<char>)
    ensures
        r@ == successor(rules_view(rules@), c),
{
    let ghost rv = rules_view(rules@);
    let mut i: usize = 0;
    assert(rv.subrange(0, rv.len() as int) =~= rv);
    while i < rules.len()
        invariant
            0 <= i <= rules@.len(),
            rv == rules_view(rules@),
            successor(rv, c) == successor(rv.subrange(i as int, rv.len() as int), c),
        decreases rules.len() - i,
    {
        let ghost rest = rv.subrange(i as int, rv.len() as int);
        if rules[i].0 == c {
            assert(rest[0] == (c, rules@[i as int].1@));
            return vstd::slice::slice_to_vec(rules[i].1.as_slice());
        }
        assert(rest.drop_first() =~= rv.subrange(i + 1, rv.len() as int));
        i = i + 1;
    }
    assert(rv.subrange(i as int, rv.len() as int).len() == 0);
    let mut r: Vec<char> = Vec::new();
    r.push(c);
    assert(r@ =~= seq![c]);
    r
}

/// One rewriting pass, computed.
fn rewrite_pass(current: &Vec<char>, rules: &Vec<(char, Vec<char>)>) -> (next: Vec<char>)
    ensures
        next@ == rewrite_once(current@, rules_view(rules@)),
{
    let ghost rv = rules_view(rules@);
    let mut next: Vec<char> = Vec::new();
    let mut i: usize = 0;
    while i < current.len()
        invariant
            0 <= i <= current@.len(),
            rv == rules_view(rules@),
            next@ == rewrite_once(current@.subrange(0, i as int), rv),
        decreases current.len() - i,
    {
        let succ = successor_of(rules, current[i]);
        let mut k: usize = 0;
        let ghost base = next@;
        while k < succ.len()
            invariant
                0 <= k <= succ@.len(),
                next@ == base + succ@.subrange(0, k as int),
            decreases succ.len() - k,
        {
            next.push(succ[k]);
            assert(base + succ@.subrange(0, k + 1) =~= (base + succ@.subrange(0, k as int)).push(succ@[k as int]));
            k = k + 1;
        }
        proof {
            let pre = current@.subrange(0, i + 1);
            assert(pre.drop_last() =~= current@.subrange(0, i as int));
            assert(succ@.subrange(0, k as int) =~= succ@);
        }
        i = i + 1;
    }
    assert(current@.subrange(0, current@.len() as int) =~= current@);
    next
}

/// Expand `initial` for `iterations` passes, each symbol replaced by the
/// successor of the first rule for it and kept when it has no rule.
pub fn expand_with_rules(initial: &Vec<char>, rules: &Vec<(char, Vec<char>)>, iterations: u32) -> (r: Vec<char>)
    ensures
        r@ == rewrite_n(initial@, rules_view(rules@), iterations as nat),
{
    let mut current = vstd::slice::slice_to_vec(initial.as_slice());
    let mut n: u32 = 0;
    while n < iterations
        invariant
            0 <= n <= iterations,
            current@ == rewrite_n(initial@, rules_view(rules@), n as nat),
        decreases iterations - n,
    {
        current = rewrite_pass(&current, rules);
        n = n + 1;
    }
    current
}

/// Symbols without a rule pass through unchanged: a string none of whose
/// symbols has a rule is its own rewrite.
pub proof fn lemma_unruled_symbols_pass_through(s: Seq<char>, rules: Seq<(char, Seq<char>)>)
    requires
        forall|i: int, j: int| 0 <= i < s.len() && 0 <= j < rules.len() ==> rules[j].0 != s[i],
    ensures
        rewrite_once(s, rules) == s,
    decreases s.len(),
{
    if s.len() > 0 {
        lemma_unruled_symbols_pass_through(s.drop_last(), rules);
        lemma_successor_without_rule(rules, s.last());
        assert(s.drop_last() + seq![s.last()] =~= s);
    } else {
        assert(s =~= Seq::<char>::empty());
    }
}

/// A symbol that no rule rewrites is its own successor.
pub proof fn lemma_successor_without_rule(rules: Seq<(char, Seq<char>)>, c: char)
    requires
        forall|j: int| 0 <= j < rules.len() ==> rules[j].0 != c,
    ensures
        successor(rules, c) == seq![c],
    decreases rules.len(),
{
    if rules.len() > 0 {
        assert(rules[0].0 != c);
        assert forall|j: int| 0 <= j < rules.drop_first().len() implies rules.drop_first()[j].0 != c by {
            assert(rules.drop_first()[j] == rules[j + 1]);
        }
        lemma_successor_without_rule(rules.drop_first(), c);
    }
}

/// A symbol that has a rule is replaced by the successor of its first rule,
/// whatever that successor's length (an empty successor erases the symbol).
pub proof fn lemma_first_rule_applies(rules: Seq<(char, Seq<char>)>, c: char, j: int)
    requires
        0 <= j < rules.len(),
        rules[j].0 == c,
        forall|i: int| 0 <= i < j ==> rules[i].0 != c,
    ensures
        successor(rules, c) == rules[j].1,
        rewrite_once(seq![c], rules) == rules[j].1,
    decreases j,
{
    if j > 0 {
        let rest = rules.drop_first();
        assert(rules[0].0 != c);
        assert forall|i: int| 0 <= i < j - 1 implies rest[i].0 != c by {
            assert(rest[i] == rules[i + 1]);
        }
        assert(rest[j - 1] == rules[j]);
        lemma_first_rule_applies(rest, c, j - 1);
    }
    let s = seq![c];
    assert(s.drop_last() =~= Seq::<char>::empty());
    assert(rewrite_once(s.drop_last(), rules) =~= Seq::<char>::empty());
    assert(Seq::<char>::empty() + successor(rules, c) =~= successor(rules, c));
}

/// Rewriting works symbol by symbol: the rewrite of two strings joined is
/// the two rewrites joined.
pub proof fn lemma_rewrite_concat(s: Seq<char>, t: Seq<char>, rules: Seq<(char, Seq<char>)>)
    ensures
        rewrite_once(s + t, rules) == rewrite_once(s, rules) + rewrite_once(t, rules),
    decreases t.len(),
{
    if t.len() == 0 {
        assert(s + t =~= s);
        assert(rewrite_once(s, rules) + rewrite_once(t, rules) =~= rewrite_once(s, rules));
    } else {
        lemma_rewrite_concat(s, t.drop_last(), rules);
        assert((s + t).drop_last() =~= s + t.drop_last());
        assert((s + t).last() == t.last());
        assert(rewrite_once(s, rules) + rewrite_once(t.drop_last(), rules) + successor(rules, t.last()) =~= rewrite_once(s, rules)
            + (rewrite_once(t.drop_last(), rules) + successor(rules, t.last())));
    }
}

} // verus!
