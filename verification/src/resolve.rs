//! Resolution of named rules: depth-first expansion of rule unions into flat
//! rule sets, with detection of cyclic inheritance.

use vstd::prelude::*;

use crate::config::clone_names;
use crate::config::clone_rules;
use crate::config::names_contain;
use crate::config::names_view;
use crate::config::rules_view;
use crate::config::skips_view;
use crate::config::ConfigError;
use crate::config::Directory;
use crate::config::Rule;
use crate::config::RuleView;
use crate::config::WalkConfig;
use crate::path::AbsPath;

verus! {

/// The mathematical content of a [`PreRule`].
pub ghost enum PreRuleView {
    /// A concrete rule.
    Concrete(RuleView),
    /// The union of the rules that the named entries resolve to.
    Union(Seq<Seq<char>>),
}

/// A raw rule as configured: either a concrete rule, or a sequence of other
/// rule names whose resolved rules are unioned.
#[derive(Debug)]
pub enum PreRule {
    /// A concrete rule.
    Concrete(Rule),
    /// The union of the rules that the named entries resolve to.
    Union(Vec<String>),
}

impl View for PreRule {
    type V = PreRuleView;

    open spec fn view(&self) -> PreRuleView {
        match self {
            PreRule::Concrete(r) => PreRuleView::Concrete(r@),
            PreRule::Union(ns) => PreRuleView::Union(names_view(ns@)),
        }
    }
}

impl Clone for PreRule {
    /// Cloning preserves the content.
    fn clone(&self) -> (r: Self)
        ensures
            r@ == self@,
    {
        match self {
            PreRule::Concrete(rule) => PreRule::Concrete(rule.clone()),
            PreRule::Union(ns) => {
                let r = PreRule::Union(clone_names(ns));
                proof {
                    assert(r@ =~= self@);
                }
                r
            },
        }
    }
}

/// The name-to-rule mapping of a rule list; a later entry shadows an earlier
/// one of the same name.
pub open spec fn rules_map(s: Seq<(String, PreRule)>) -> Map<Seq<char>, PreRuleView>
    decreases s.len(),
{
    if s.len() == 0 {
        Map::empty()
    } else {
        rules_map(s.drop_last()).insert(s.last().0@, s.last().1@)
    }
}

/// The domain of the rule mapping is finite and bounded by the list length.
pub proof fn lemma_rules_map_finite(s: Seq<(String, PreRule)>)
    ensures
        rules_map(s).dom().finite(),
        rules_map(s).dom().len() <= s.len(),
    decreases s.len(),
{
    if s.len() > 0 {
        lemma_rules_map_finite(s.drop_last());
    }
}

/// `a` names `b` directly: `a` is a union holding the name `b`.
pub open spec fn ref_edge(rules: Map<Seq<char>, PreRuleView>, a: Seq<char>, b: Seq<char>) -> bool {
    rules.dom().contains(a) && (rules[a] matches PreRuleView::Union(ns) && ns.contains(b))
}

/// `c` is a walk through the reference graph: every step is a direct
/// reference. The endpoint itself need not be defined.
pub open spec fn is_ref_chain(rules: Map<Seq<char>, PreRuleView>, c: Seq<Seq<char>>) -> bool {
    c.len() >= 1 && forall|i: int| #![trigger c[i]] 0 <= i < c.len() - 1 ==> ref_edge(
        rules,
        c[i],
        c[i + 1],
    )
}

/// `b` can be reached from `a` by following references, in zero or more
/// steps.
pub open spec fn reaches(rules: Map<Seq<char>, PreRuleView>, a: Seq<char>, b: Seq<char>) -> bool {
    exists|c: Seq<Seq<char>>| #[trigger] is_ref_chain(rules, c) && c.first() == a && c.last() == b
}

/// The set of concrete rules reachable from `n`: what resolving `n` yields.
pub open spec fn resolved_rules(rules: Map<Seq<char>, PreRuleView>, n: Seq<char>) -> Set<RuleView> {
    Set::new(
        |r: RuleView|
            exists|m: Seq<char>| #[trigger] reaches(rules, n, m) && rules.dom().contains(m)
                && rules[m] == PreRuleView::Concrete(r),
    )
}

/// A reference cycle passes through `m`.
pub open spec fn cycle_at(rules: Map<Seq<char>, PreRuleView>, m: Seq<char>) -> bool {
    exists|c: Seq<Seq<char>>| #[trigger] is_ref_chain(rules, c) && c.len() >= 2 && c.first() == m
        && c.last() == m
}

/// Some cycle is reachable from `n`.
pub open spec fn has_cycle_from(rules: Map<Seq<char>, PreRuleView>, n: Seq<char>) -> bool {
    exists|m: Seq<char>| #[trigger] reaches(rules, n, m) && cycle_at(rules, m)
}

/// Some undefined name is reachable from `n`.
pub open spec fn missing_from(rules: Map<Seq<char>, PreRuleView>, n: Seq<char>) -> bool {
    exists|m: Seq<char>| #[trigger] reaches(rules, n, m) && !rules.dom().contains(m)
}

/// Every name reaches itself.
pub proof fn lemma_reaches_self(rules: Map<Seq<char>, PreRuleView>, n: Seq<char>)
    ensures
        reaches(rules, n, n),
{
    let c = seq![n];
    assert(is_ref_chain(rules, c));
    assert(c.first() == n && c.last() == n);
}

/// A direct reference is a reach.
pub proof fn lemma_reaches_step(rules: Map<Seq<char>, PreRuleView>, a: Seq<char>, b: Seq<char>)
    requires
        ref_edge(rules, a, b),
    ensures
        reaches(rules, a, b),
{
    let c = seq![a, b];
    assert(c.len() - 1 == 1);
    assert(c[0] == a && c[1] == b);
    assert(is_ref_chain(rules, c));
    assert(c.first() == a && c.last() == b);
}

/// Reaches composes across a leading edge.
pub proof fn lemma_edge_then_reaches(
    rules: Map<Seq<char>, PreRuleView>,
    a: Seq<char>,
    b: Seq<char>,
    d: Seq<char>,
)
    requires
        ref_edge(rules, a, b),
        reaches(rules, b, d),
    ensures
        reaches(rules, a, d),
{
    let c = choose|c: Seq<Seq<char>>|
        #[trigger] is_ref_chain(rules, c) && c.first() == b && c.last() == d;
    let c2 = seq![a] + c;
    assert forall|i: int| #![trigger c2[i]] 0 <= i < c2.len() - 1 implies ref_edge(
        rules,
        c2[i],
        c2[i + 1],
    ) by {
        if i == 0 {
            assert(c[0] == c.first());
            assert(c2[0] == a && c2[1] == c[0]);
        } else {
            assert(c[i - 1] == c[(i - 1) as int]);
            assert(c2[i] == c[i - 1] && c2[i + 1] == c[i]);
            assert(ref_edge(rules, c[i - 1], c[i - 1 + 1]));
        }
    }
    assert(is_ref_chain(rules, c2));
    assert(c2.first() == a && c2.last() == d);
}

/// A reach of at least one step starts with an edge.
pub proof fn lemma_reaches_decompose(rules: Map<Seq<char>, PreRuleView>, a: Seq<char>, d: Seq<char>)
    requires
        reaches(rules, a, d),
        a != d,
    ensures
        exists|b: Seq<char>| #[trigger] ref_edge(rules, a, b) && reaches(rules, b, d),
{
    let c = choose|c: Seq<Seq<char>>|
        #[trigger] is_ref_chain(rules, c) && c.first() == a && c.last() == d;
    if c.len() == 1 {
        assert(a == d);
    } else {
        let b = c[1];
        assert(c[0] == c.first());
        assert(ref_edge(rules, c[0], c[0int + 1]));
        let tail = c.drop_first();
        assert forall|i: int| #![trigger tail[i]] 0 <= i < tail.len() - 1 implies ref_edge(
            rules,
            tail[i],
            tail[i + 1],
        ) by {
            assert(tail[i] == c[i + 1] && tail[i + 1] == c[i + 2]);
            assert(ref_edge(rules, c[i + 1], c[i + 1 + 1]));
        }
        assert(is_ref_chain(rules, tail));
        assert(tail.first() == b && tail.last() == d);
        assert(reaches(rules, b, d));
    }
}

/// A reference back to the start of an edge closes a cycle.
pub proof fn lemma_edge_back_cycle(rules: Map<Seq<char>, PreRuleView>, a: Seq<char>, b: Seq<char>)
    requires
        ref_edge(rules, a, b),
        reaches(rules, b, a),
    ensures
        cycle_at(rules, a),
{
    let c = choose|c: Seq<Seq<char>>|
        #[trigger] is_ref_chain(rules, c) && c.first() == b && c.last() == a;
    let c2 = seq![a] + c;
    assert forall|i: int| #![trigger c2[i]] 0 <= i < c2.len() - 1 implies ref_edge(
        rules,
        c2[i],
        c2[i + 1],
    ) by {
        if i == 0 {
            assert(c[0] == c.first());
            assert(c2[0] == a && c2[1] == c[0]);
        } else {
            assert(c2[i] == c[i - 1] && c2[i + 1] == c[i]);
            assert(ref_edge(rules, c[i - 1], c[i - 1 + 1]));
        }
    }
    assert(is_ref_chain(rules, c2));
    assert(c2.len() >= 2 && c2.first() == a && c2.last() == a);
}

/// A cycle through `a` starts with an edge out of `a` that reaches back.
pub proof fn lemma_cycle_decompose(rules: Map<Seq<char>, PreRuleView>, a: Seq<char>)
    requires
        cycle_at(rules, a),
    ensures
        exists|b: Seq<char>| #[trigger] ref_edge(rules, a, b) && reaches(rules, b, a),
{
    let c = choose|c: Seq<Seq<char>>|
        #[trigger] is_ref_chain(rules, c) && c.len() >= 2 && c.first() == a && c.last() == a;
    let b = c[1];
    assert(c[0] == c.first());
    assert(ref_edge(rules, c[0], c[0int + 1]));
    let tail = c.drop_first();
    assert forall|i: int| #![trigger tail[i]] 0 <= i < tail.len() - 1 implies ref_edge(
        rules,
        tail[i],
        tail[i + 1],
    ) by {
        assert(tail[i] == c[i + 1] && tail[i + 1] == c[i + 2]);
        assert(ref_edge(rules, c[i + 1], c[i + 1 + 1]));
    }
    assert(is_ref_chain(rules, tail));
    assert(tail.first() == b && tail.last() == a);
    assert(reaches(rules, b, a));
}

/// Chains compose: a walk to `b` continued by a walk from `b` is a walk.
pub proof fn lemma_reaches_trans(
    rules: Map<Seq<char>, PreRuleView>,
    a: Seq<char>,
    b: Seq<char>,
    c: Seq<char>,
)
    requires
        reaches(rules, a, b),
        reaches(rules, b, c),
    ensures
        reaches(rules, a, c),
{
    let c1 = choose|ch: Seq<Seq<char>>|
        #[trigger] is_ref_chain(rules, ch) && ch.first() == a && ch.last() == b;
    let c2 = choose|ch: Seq<Seq<char>>|
        #[trigger] is_ref_chain(rules, ch) && ch.first() == b && ch.last() == c;
    let joined = c1 + c2.drop_first();
    assert forall|i: int| #![trigger joined[i]] 0 <= i < joined.len() - 1 implies ref_edge(
        rules,
        joined[i],
        joined[i + 1],
    ) by {
        if i < c1.len() - 1 {
            assert(joined[i] == c1[i] && joined[i + 1] == c1[i + 1]);
            assert(ref_edge(rules, c1[i], c1[i + 1]));
        } else if i == c1.len() - 1 {
            if c2.len() >= 2 {
                assert(joined[i] == c1[i]);
                assert(c1[i] == c1.last());
                assert(joined[i + 1] == c2.drop_first()[0]);
                assert(c2.drop_first()[0] == c2[1]);
                assert(c2[0] == c2.first());
                assert(ref_edge(rules, c2[0], c2[0int + 1]));
            }
        } else {
            let j = i - c1.len();
            assert(joined[i] == c2.drop_first()[j] && joined[i + 1] == c2.drop_first()[j + 1]);
            assert(c2.drop_first()[j] == c2[j + 1] && c2.drop_first()[j + 1] == c2[j + 2]);
            assert(ref_edge(rules, c2[j + 1], c2[j + 1 + 1]));
        }
    }
    assert(is_ref_chain(rules, joined));
    assert(joined.first() == a);
    assert(joined.last() == c) by {
        if c2.len() == 1 {
            assert(joined =~= c1);
            assert(b == c);
        } else {
            assert(joined.last() == c2.drop_first().last());
            assert(c2.drop_first().last() == c2.last());
        }
    }
}

/// Two names that reach each other lie on a cycle.
pub proof fn lemma_mutual_reach_cycle(
    rules: Map<Seq<char>, PreRuleView>,
    a: Seq<char>,
    b: Seq<char>,
)
    requires
        reaches(rules, a, b),
        reaches(rules, b, a),
        a != b,
    ensures
        cycle_at(rules, a),
{
    lemma_reaches_decompose(rules, a, b);
    let step = choose|s: Seq<char>| #[trigger] ref_edge(rules, a, s) && reaches(rules, s, b);
    lemma_reaches_trans(rules, step, b, a);
    lemma_edge_back_cycle(rules, a, step);
}

/// From a name bound to a concrete rule, nothing else is reachable.
pub proof fn lemma_concrete_reaches_only_self(
    rules: Map<Seq<char>, PreRuleView>,
    n: Seq<char>,
    m: Seq<char>,
)
    requires
        rules.dom().contains(n),
        rules[n] is Concrete,
        reaches(rules, n, m),
    ensures
        m == n,
{
    if m != n {
        lemma_reaches_decompose(rules, n, m);
        let b = choose|b: Seq<char>| #[trigger] ref_edge(rules, n, b) && reaches(rules, b, m);
        assert(rules[n] is Union);
    }
}

/// The set of rule views in a resolved rule list.
pub open spec fn rule_set(s: Seq<Rule>) -> Set<RuleView> {
    rules_view(s).to_set()
}

/// Concatenating rule lists unions their rule sets.
pub proof fn lemma_rule_set_concat(a: Seq<Rule>, b: Seq<Rule>)
    ensures
        rule_set(a + b) == rule_set(a).union(rule_set(b)),
{
    assert forall|r: RuleView| #[trigger] rule_set(a + b).contains(r) implies rule_set(a).union(
        rule_set(b),
    ).contains(r) by {
        let i = choose|i: int| 0 <= i < rules_view(a + b).len() && rules_view(a + b)[i] == r;
        if i < a.len() {
            assert(rules_view(a)[i] == (a + b)[i]@);
            assert(rules_view(a).contains(r));
        } else {
            assert(rules_view(b)[i - a.len()] == (a + b)[i]@);
            assert(rules_view(b).contains(r));
        }
    }
    assert forall|r: RuleView| rule_set(a).union(rule_set(b)).contains(r) implies #[trigger] rule_set(
        a + b,
    ).contains(r) by {
        if rule_set(a).contains(r) {
            let i = choose|i: int| 0 <= i < rules_view(a).len() && rules_view(a)[i] == r;
            assert(rules_view(a + b)[i] == (a + b)[i]@);
            assert(rules_view(a + b)[i] == r);
        } else {
            let i = choose|i: int| 0 <= i < rules_view(b).len() && rules_view(b)[i] == r;
            assert(rules_view(a + b)[a.len() + i] == (a + b)[a.len() + i]@);
            assert(rules_view(a + b)[a.len() + i] == r);
        }
    }
    assert(rule_set(a + b) =~= rule_set(a).union(rule_set(b)));
}

/// The union of the rules resolved by the first `k` of the given names.
pub open spec fn union_resolved(
    rules: Map<Seq<char>, PreRuleView>,
    names: Seq<Seq<char>>,
    k: int,
) -> Set<RuleView> {
    Set::new(
        |r: RuleView|
            exists|j: int| 0 <= j < k && #[trigger] resolved_rules(rules, names[j]).contains(r),
    )
}

/// A list of distinct names drawn from the rule mapping is no longer than
/// the rule list itself.
proof fn lemma_visited_bound(rules: Seq<(String, PreRule)>, visited: Seq<Seq<char>>)
    requires
        visited.no_duplicates(),
        forall|i: int| 0 <= i < visited.len() ==> rules_map(rules).dom().contains(
            #[trigger] visited[i],
        ),
    ensures
        visited.len() <= rules.len(),
{
    broadcast use vstd::seq_lib::seq_to_set_is_finite;

    lemma_rules_map_finite(rules);
    visited.unique_seq_to_set();
    assert forall|w: Seq<char>| visited.to_set().contains(w) implies rules_map(
        rules,
    ).dom().contains(w) by {
        let i = choose|i: int| 0 <= i < visited.len() && visited[i] == w;
    }
    assert(visited.to_set().subset_of(rules_map(rules).dom()));
    vstd::set_lib::lemma_len_subset(visited.to_set(), rules_map(rules).dom());
}

/// Looks a name up in the raw rule list; the last binding wins, as it does
/// in the name-to-rule mapping.
fn find_rule<'a>(rules: &'a Vec<(String, PreRule)>, name: &String) -> (r: Option<&'a PreRule>)
    ensures
        match r {
            Some(pr) => rules_map(rules@).dom().contains(name@) && pr@ == rules_map(rules@)[name@],
            None => !rules_map(rules@).dom().contains(name@),
        },
{
    let ghost full = rules@;
    let mut i: usize = rules.len();
    proof {
        assert(full.take(full.len() as int) =~= full);
    }
    while i > 0
        invariant
            0 <= i <= full.len(),
            full == rules@,
            rules_map(full).dom().contains(name@) == rules_map(full.take(i as int)).dom().contains(
                name@,
            ),
            rules_map(full).dom().contains(name@) ==> rules_map(full.take(i as int))[name@]
                == rules_map(full)[name@],
        decreases i,
    {
        i = i - 1;
        proof {
            assert(full.take(i + 1).drop_last() =~= full.take(i as int));
            assert(full.take(i + 1).last() == full[i as int]);
        }
        if rules[i].0 == *name {
            proof {
                assert(rules_map(full.take(i + 1)).dom().contains(name@));
                assert(rules_map(full.take(i + 1))[name@] == full[i as int].1@);
            }
            return Some(&rules[i].1);
        }
        proof {
            assert(rules_map(full.take(i + 1)).dom().contains(name@) == rules_map(
                full.take(i as int),
            ).dom().contains(name@));
            assert(rules_map(full.take(i as int)).dom().contains(name@) ==> rules_map(
                full.take(i + 1),
            )[name@] == rules_map(full.take(i as int))[name@]);
        }
    }
    proof {
        assert(full.take(0) =~= Seq::<(String, PreRule)>::empty());
    }
    None
}

/// The error a depth-first expansion reports, in the mathematical model.
pub ghost enum ResolveErr {
    /// A loop; the payload is the first name re-entered on the expansion
    /// path.
    LoopAt(Seq<char>),
    /// An undefined name; the payload is the first one referenced.
    MissingAt(Seq<char>),
}

/// The first error a depth-first expansion of `node` meets, with `visited`
/// already on the path — or nothing when the expansion goes through. This
/// pins which error, and which name, the resolver reports.
pub open spec fn spec_resolve_err(
    rules: Map<Seq<char>, PreRuleView>,
    node: Seq<char>,
    visited: Set<Seq<char>>,
) -> Option<ResolveErr>
    decreases rules.dom().len() - visited.len(), 0int, 0int,
        when visited.finite() && visited.subset_of(rules.dom()) && rules.dom().finite()
    via spec_resolve_err_decreases
{
    if visited.contains(node) {
        Some(ResolveErr::LoopAt(node))
    } else if !rules.dom().contains(node) {
        Some(ResolveErr::MissingAt(node))
    } else {
        match rules[node] {
            PreRuleView::Concrete(_) => None,
            PreRuleView::Union(ns) => spec_resolve_err_list(rules, ns, 0, visited.insert(node)),
        }
    }
}

/// The first error among the referenced names from position `k` on.
pub open spec fn spec_resolve_err_list(
    rules: Map<Seq<char>, PreRuleView>,
    ns: Seq<Seq<char>>,
    k: int,
    visited: Set<Seq<char>>,
) -> Option<ResolveErr>
    decreases rules.dom().len() - visited.len(), 1int, ns.len() - k,
        when visited.finite() && visited.subset_of(rules.dom()) && rules.dom().finite() && 0 <= k
            <= ns.len()
    via spec_resolve_err_list_decreases
{
    if k >= ns.len() {
        None
    } else {
        match spec_resolve_err(rules, ns[k], visited) {
            Some(e) => Some(e),
            None => spec_resolve_err_list(rules, ns, k + 1, visited),
        }
    }
}

#[via_fn]
proof fn spec_resolve_err_decreases(
    rules: Map<Seq<char>, PreRuleView>,
    node: Seq<char>,
    visited: Set<Seq<char>>,
) {
    if !visited.contains(node) && rules.dom().contains(node) {
        vstd::set_lib::lemma_len_subset(visited, rules.dom());
        assert(visited.insert(node).len() == visited.len() + 1);
        assert(visited.insert(node).subset_of(rules.dom()));
        vstd::set_lib::lemma_len_subset(visited.insert(node), rules.dom());
    }
}

#[via_fn]
proof fn spec_resolve_err_list_decreases(
    rules: Map<Seq<char>, PreRuleView>,
    ns: Seq<Seq<char>>,
    k: int,
    visited: Set<Seq<char>>,
) {
    vstd::set_lib::lemma_len_subset(visited, rules.dom());
}

/// A name from which every reachable name is defined and off the path, and
/// from which no cycle is reachable, expands without error.
proof fn lemma_clean_resolves(
    rules: Map<Seq<char>, PreRuleView>,
    node: Seq<char>,
    visited: Set<Seq<char>>,
)
    requires
        rules.dom().finite(),
        visited.finite(),
        visited.subset_of(rules.dom()),
        forall|w: Seq<char>| #[trigger] reaches(rules, node, w) ==> rules.dom().contains(w)
            && !visited.contains(w),
        !has_cycle_from(rules, node),
    ensures
        spec_resolve_err(rules, node, visited) is None,
    decreases rules.dom().len() - visited.len(), 0int, 0int,
{
    lemma_reaches_self(rules, node);
    assert(!visited.contains(node));
    assert(rules.dom().contains(node));
    match rules[node] {
        PreRuleView::Concrete(_) => {},
        PreRuleView::Union(ns) => {
            let visited2 = visited.insert(node);
            vstd::set_lib::lemma_len_subset(visited, rules.dom());
            assert forall|j: int, w: Seq<char>|
                0 <= j < ns.len() && #[trigger] reaches(rules, ns[j], w) implies
                rules.dom().contains(w) && !visited2.contains(w) by {
                assert(ns.contains(ns[j]));
                assert(ref_edge(rules, node, ns[j]));
                lemma_edge_then_reaches(rules, node, ns[j], w);
                if w == node {
                    lemma_edge_back_cycle(rules, node, ns[j]);
                    assert(reaches(rules, node, node) && cycle_at(rules, node));
                }
            }
            assert forall|j: int| 0 <= j < ns.len() implies !has_cycle_from(
                rules,
                #[trigger] ns[j],
            ) by {
                if has_cycle_from(rules, ns[j]) {
                    let m = choose|m: Seq<char>|
                        #[trigger] reaches(rules, ns[j], m) && cycle_at(rules, m);
                    assert(ns.contains(ns[j]));
                    assert(ref_edge(rules, node, ns[j]));
                    lemma_edge_then_reaches(rules, node, ns[j], m);
                }
            }
            assert(visited2.len() == visited.len() + 1);
            assert(visited2.subset_of(rules.dom()));
            vstd::set_lib::lemma_len_subset(visited2, rules.dom());
            lemma_clean_resolves_list(rules, ns, 0, visited2);
        },
    }
}

/// The list form of [`lemma_clean_resolves`].
proof fn lemma_clean_resolves_list(
    rules: Map<Seq<char>, PreRuleView>,
    ns: Seq<Seq<char>>,
    k: int,
    visited: Set<Seq<char>>,
)
    requires
        rules.dom().finite(),
        visited.finite(),
        visited.subset_of(rules.dom()),
        0 <= k <= ns.len(),
        forall|j: int, w: Seq<char>|
            0 <= j < ns.len() && #[trigger] reaches(rules, ns[j], w) ==> rules.dom().contains(w)
                && !visited.contains(w),
        forall|j: int| 0 <= j < ns.len() ==> !has_cycle_from(rules, #[trigger] ns[j]),
    ensures
        spec_resolve_err_list(rules, ns, k, visited) is None,
    decreases rules.dom().len() - visited.len(), 1int, ns.len() - k,
{
    if k < ns.len() {
        lemma_clean_resolves(rules, ns[k], visited);
        lemma_clean_resolves_list(rules, ns, k + 1, visited);
    }
}

/// Whether the cache holds an entry for `n`.
pub open spec fn cache_has(cache: Seq<(String, Vec<Rule>)>, n: Seq<char>) -> bool {
    exists|i: int| 0 <= i < cache.len() && #[trigger] cache[i].0@ == n
}

/// Every cache entry records a finished resolution: its rule list carries
/// exactly the rules its name resolves to, every name reachable from it is
/// defined, and no cycle is reachable from it.
pub open spec fn cache_ok(
    cache: Seq<(String, Vec<Rule>)>,
    rm: Map<Seq<char>, PreRuleView>,
) -> bool {
    forall|i: int|
        #![trigger cache[i]]
        0 <= i < cache.len() ==> {
            &&& rule_set(cache[i].1@) == resolved_rules(rm, cache[i].0@)
            &&& (forall|w: Seq<char>| #[trigger] reaches(rm, cache[i].0@, w)
                ==> rm.dom().contains(w))
            &&& !has_cycle_from(rm, cache[i].0@)
        }
}

/// Looks a finished resolution up in the cache.
fn find_cached(cache: &Vec<(String, Vec<Rule>)>, node: &String) -> (r: Option<Vec<Rule>>)
    ensures
        match r {
            Some(rs) => cache_has(cache@, node@) && exists|i: int|
                0 <= i < cache@.len() && #[trigger] cache@[i].0@ == node@ && rule_set(rs@)
                    == rule_set(cache@[i].1@),
            None => !cache_has(cache@, node@),
        },
{
    let mut i: usize = 0;
    while i < cache.len()
        invariant
            0 <= i <= cache@.len(),
            forall|j: int| 0 <= j < i ==> #[trigger] cache@[j].0@ != node@,
        decreases cache@.len() - i,
    {
        if cache[i].0 == *node {
            let rs = clone_rules(&cache[i].1);
            proof {
                assert(rules_view(rs@) =~= rules_view(cache@[i as int].1@));
                assert(rule_set(rs@) =~= rule_set(cache@[i as int].1@));
                assert(cache@[i as int].0@ == node@);
            }
            return Some(rs);
        }
        i = i + 1;
    }
    proof {
        if cache_has(cache@, node@) {
            let j = choose|j: int| 0 <= j < cache@.len() && #[trigger] cache@[j].0@ == node@;
        }
    }
    None
}

/// Resolves the named rule to its flat set of concrete rules by depth-first
/// expansion, memoizing each finished name globally so that no name is
/// resolved twice. `visited` holds the names on the current expansion path;
/// a re-entered name is reported as a loop.
///
/// On success the result is exactly the set of concrete rules reachable from
/// `node`, every name reachable from `node` is defined and off the current
/// path, and no reference cycle is reachable. A `Loop` error names a node on
/// the current path or on an actual cycle, reachable from `node`; a `Rule`
/// error names a reachable undefined name.
pub fn dfs_union_rules(
    cache: &mut Vec<(String, Vec<Rule>)>,
    rules: &Vec<(String, PreRule)>,
    node: &String,
    visited: &Vec<String>,
) -> (r: Result<Vec<Rule>, ConfigError>)
    requires
        names_view(visited@).no_duplicates(),
        forall|i: int| 0 <= i < visited@.len() ==> rules_map(rules@).dom().contains(
            #[trigger] names_view(visited@)[i],
        ),
        cache_ok(old(cache)@, rules_map(rules@)),
        forall|i: int| 0 <= i < visited@.len() ==> reaches(
            rules_map(rules@),
            #[trigger] names_view(visited@)[i],
            node@,
        ),
        forall|i: int| 0 <= i < visited@.len() ==> !cache_has(
            old(cache)@,
            #[trigger] names_view(visited@)[i],
        ),
    ensures
        cache_ok(final(cache)@, rules_map(rules@)),
        forall|n: Seq<char>|
            #[trigger] cache_has(final(cache)@, n) && !cache_has(old(cache)@, n) ==> reaches(
                rules_map(rules@),
                node@,
                n,
            ) && !names_view(visited@).contains(n),
        ({
            let rm = rules_map(rules@);
            let vset = names_view(visited@).to_set();
            match r {
                Ok(_) => spec_resolve_err(rm, node@, vset) is None,
                Err(e) => match e {
                    ConfigError::Loop(m) => spec_resolve_err(rm, node@, vset) == Some(
                        ResolveErr::LoopAt(m@),
                    ),
                    ConfigError::Rule(m) => spec_resolve_err(rm, node@, vset) == Some(
                        ResolveErr::MissingAt(m@),
                    ),
                    _ => false,
                },
            }
        }),
        ({
            let rm = rules_map(rules@);
            match r {
                Ok(s) => {
                    &&& rule_set(s@) == resolved_rules(rm, node@)
                    &&& forall|w: Seq<char>| #[trigger] reaches(rm, node@, w) ==> rm.dom().contains(
                        w,
                    ) && !names_view(visited@).contains(w)
                    &&& !has_cycle_from(rm, node@)
                },
                Err(e) => match e {
                    ConfigError::Loop(m) => reaches(rm, node@, m@) && (names_view(
                        visited@,
                    ).contains(m@) || cycle_at(rm, m@)),
                    ConfigError::Rule(m) => reaches(rm, node@, m@) && !rm.dom().contains(m@),
                    _ => false,
                },
            }
        }),
    decreases rules@.len() - visited@.len(),
{
    let ghost rm = rules_map(rules@);
    let ghost vv = names_view(visited@);
    let ghost vset = vv.to_set();
    let ghost cache0 = cache@;
    proof {
        broadcast use vstd::seq_lib::seq_to_set_is_finite;

        lemma_rules_map_finite(rules@);
        assert(vset.finite());
        assert forall|w: Seq<char>| vset.contains(w) implies rm.dom().contains(w) by {
            let k = choose|k: int| 0 <= k < vv.len() && vv[k] == w;
        }
        assert(vset.subset_of(rm.dom()));
    }
    let hit = find_cached(cache, node);
    match hit {
        Some(rs) => {
            proof {
                let i = choose|i: int|
                    0 <= i < cache0.len() && #[trigger] cache0[i].0@ == node@ && rule_set(rs@)
                        == rule_set(cache0[i].1@);
                assert(rule_set(cache0[i].1@) == resolved_rules(rm, node@));
                assert forall|w: Seq<char>| #[trigger] reaches(rm, node@, w) implies
                    rm.dom().contains(w) && !vv.contains(w) by {
                    assert(reaches(rm, cache0[i].0@, w));
                    if vv.contains(w) {
                        let k = choose|k: int| 0 <= k < vv.len() && vv[k] == w;
                        assert(reaches(rm, vv[k], node@));
                        assert(!cache_has(cache0, vv[k]));
                        if w == node@ {
                            assert(cache_has(cache0, w));
                        } else {
                            lemma_mutual_reach_cycle(rm, w, node@);
                            assert(reaches(rm, cache0[i].0@, w) && cycle_at(rm, w));
                            assert(has_cycle_from(rm, node@));
                        }
                    }
                }
                assert(!has_cycle_from(rm, node@)) by {
                    assert(cache0[i].0@ == node@);
                }
                assert forall|w: Seq<char>| #[trigger] reaches(rm, node@, w) implies
                    rm.dom().contains(w) && !vset.contains(w) by {
                    if vset.contains(w) {
                        assert(vv.contains(w));
                    }
                }
                lemma_clean_resolves(rm, node@, vset);
            }
            return Ok(rs);
        },
        None => {},
    }
    if names_contain(visited, node) {
        proof {
            lemma_reaches_self(rm, node@);
            assert(vset.contains(node@));
            assert(spec_resolve_err(rm, node@, vset) == Some(ResolveErr::LoopAt(node@)));
        }
        return Err(ConfigError::Loop(node.clone()));
    }
    proof {
        assert(!vset.contains(node@)) by {
            if vset.contains(node@) {
                assert(vv.contains(node@));
            }
        }
    }
    let looked_up = find_rule(rules, node);
    match looked_up {
        None => {
            proof {
                lemma_reaches_self(rm, node@);
                assert(spec_resolve_err(rm, node@, vset) == Some(ResolveErr::MissingAt(node@)));
            }
            Err(ConfigError::Rule(node.clone()))
        },
        Some(pr) => match pr {
            PreRule::Concrete(rule) => {
                let mut out: Vec<Rule> = Vec::new();
                out.push(rule.clone());
                proof {
                    lemma_reaches_self(rm, node@);
                    assert(rm[node@] == PreRuleView::Concrete(rule@));
                    assert(spec_resolve_err(rm, node@, vset) is None);
                    assert forall|r: RuleView| #[trigger] rule_set(out@).contains(r) implies
                        resolved_rules(rm, node@).contains(r) by {
                        assert(rules_view(out@)[0] == rule@);
                        assert(r == rule@);
                        assert(reaches(rm, node@, node@) && rm.dom().contains(node@)
                            && rm[node@] == PreRuleView::Concrete(r));
                    }
                    assert forall|r: RuleView| resolved_rules(rm, node@).contains(r) implies
                        #[trigger] rule_set(out@).contains(r) by {
                        let m = choose|m: Seq<char>|
                            #[trigger] reaches(rm, node@, m) && rm.dom().contains(m)
                                && rm[m] == PreRuleView::Concrete(r);
                        lemma_concrete_reaches_only_self(rm, node@, m);
                        assert(r == rule@);
                        assert(rules_view(out@)[0] == rule@);
                        assert(rules_view(out@).contains(r));
                    }
                    assert(rule_set(out@) =~= resolved_rules(rm, node@));
                    assert forall|w: Seq<char>| #[trigger] reaches(rm, node@, w) implies
                        rm.dom().contains(w) && !vv.contains(w) by {
                        lemma_concrete_reaches_only_self(rm, node@, w);
                    }
                    assert(!has_cycle_from(rm, node@)) by {
                        if has_cycle_from(rm, node@) {
                            let m = choose|m: Seq<char>|
                                #[trigger] reaches(rm, node@, m) && cycle_at(rm, m);
                            lemma_concrete_reaches_only_self(rm, node@, m);
                            lemma_cycle_decompose(rm, node@);
                            let b = choose|b: Seq<char>|
                                #[trigger] ref_edge(rm, node@, b) && reaches(rm, b, node@);
                            assert(rm[node@] is Union);
                        }
                    }
                }
                let entry = clone_rules(&out);
                cache.push((node.clone(), entry));
                proof {
                    assert forall|i: int|
                        #![trigger cache@[i]]
                        0 <= i < cache@.len() implies {
                        &&& rule_set(cache@[i].1@) == resolved_rules(rm, cache@[i].0@)
                        &&& (forall|w: Seq<char>| #[trigger] reaches(rm, cache@[i].0@, w)
                            ==> rm.dom().contains(w))
                        &&& !has_cycle_from(rm, cache@[i].0@)
                    } by {
                        if i < cache0.len() {
                            assert(cache@[i] == cache0[i]);
                        } else {
                            assert(cache@[i].0@ == node@);
                            assert(rule_set(cache@[i].1@) =~= rule_set(out@));
                        }
                    }
                    assert forall|n: Seq<char>|
                        #[trigger] cache_has(cache@, n) && !cache_has(cache0, n) implies reaches(
                        rm,
                        node@,
                        n,
                    ) && !vv.contains(n) by {
                        let j = choose|j: int|
                            0 <= j < cache@.len() && #[trigger] cache@[j].0@ == n;
                        if j < cache0.len() {
                            assert(cache0[j].0@ == n);
                        } else {
                            assert(n == node@);
                        }
                    }
                }
                Ok(out)
            },
            PreRule::Union(names) => {
                let ghost nv = names_view(names@);
                proof {
                    assert(rm[node@] == PreRuleView::Union(nv));
                }
                let mut visited2 = clone_names(visited);
                visited2.push(node.clone());
                let ghost v2v = names_view(visited2@);
                let ghost v2set = v2v.to_set();
                proof {
                    assert(v2v =~= vv.push(node@));
                    assert forall|w: Seq<char>| v2set.contains(w) implies vset.insert(
                        node@,
                    ).contains(w) by {
                        let k = choose|k: int| 0 <= k < v2v.len() && v2v[k] == w;
                        if k < vv.len() {
                            assert(vv[k] == w);
                            assert(vv.contains(w));
                        } else {
                            assert(w == node@);
                        }
                    }
                    assert forall|w: Seq<char>| vset.insert(node@).contains(w) implies
                        v2set.contains(w) by {
                        if w == node@ {
                            assert(v2v[v2v.len() - 1] == w);
                            assert(v2v.contains(w));
                        } else {
                            assert(vset.contains(w));
                            assert(vv.contains(w));
                            let k = choose|k: int| 0 <= k < vv.len() && vv[k] == w;
                            assert(v2v[k] == w);
                            assert(v2v.contains(w));
                        }
                    }
                    assert(v2set =~= vset.insert(node@));
                    assert forall|i: int, j: int| 0 <= i < j < v2v.len() implies v2v[i] != v2v[j] by {
                        if j < vv.len() {
                            assert(vv.no_duplicates());
                        } else {
                            assert(v2v[j] == node@);
                            assert(v2v[i] == vv[i]);
                            assert(!vv.contains(node@));
                        }
                    }
                    assert(v2v.no_duplicates());
                    assert forall|i: int| 0 <= i < v2v.len() implies rm.dom().contains(
                        #[trigger] v2v[i],
                    ) by {
                        if i < vv.len() {
                            assert(v2v[i] == vv[i]);
                        } else {
                            assert(v2v[i] == node@);
                        }
                    }
                    lemma_visited_bound(rules@, v2v);
                }
                let mut out: Vec<Rule> = Vec::new();
                let mut i: usize = 0;
                proof {
                    broadcast use vstd::seq_lib::seq_to_set_is_finite;

                    assert(rule_set(out@) =~= union_resolved(rm, nv, 0));
                    assert forall|k: int| 0 <= k < v2v.len() implies !cache_has(
                        cache@,
                        #[trigger] v2v[k],
                    ) by {
                        if k < vv.len() {
                            assert(v2v[k] == vv[k]);
                        } else {
                            assert(v2v[k] == node@);
                        }
                    }
                    assert(v2set.finite());
                    assert(v2set.subset_of(rm.dom()));
                }
                while i < names.len()
                    invariant
                        0 <= i <= names@.len(),
                        nv == names_view(names@),
                        nv.len() == names@.len(),
                        rm == rules_map(rules@),
                        vv == names_view(visited@),
                        v2v == names_view(visited2@),
                        v2v == vv.push(node@),
                        v2v.no_duplicates(),
                        forall|k: int| 0 <= k < v2v.len() ==> rm.dom().contains(
                            #[trigger] v2v[k],
                        ),
                        rm.dom().contains(node@),
                        !vv.contains(node@),
                        v2v.len() <= rules@.len(),
                        visited2@.len() == visited@.len() + 1,
                        rm[node@] == PreRuleView::Union(nv),
                        vset == names_view(visited@).to_set(),
                        v2set == names_view(visited2@).to_set(),
                        v2set == vset.insert(node@),
                        vset.finite(),
                        vset.subset_of(rm.dom()),
                        v2set.finite(),
                        v2set.subset_of(rm.dom()),
                        rm.dom().finite(),
                        spec_resolve_err_list(rm, nv, 0, v2set) == spec_resolve_err_list(
                            rm,
                            nv,
                            i as int,
                            v2set,
                        ),
                        rule_set(out@) == union_resolved(rm, nv, i as int),
                        forall|j: int, w: Seq<char>|
                            0 <= j < i && #[trigger] reaches(rm, nv[j], w) ==> rm.dom().contains(
                                w,
                            ) && !v2v.contains(w),
                        forall|j: int| 0 <= j < i ==> !has_cycle_from(rm, #[trigger] nv[j]),
                        cache_ok(cache@, rm),
                        cache0 == old(cache)@,
                        forall|n: Seq<char>|
                            #[trigger] cache_has(cache@, n) && !cache_has(cache0, n) ==> reaches(
                                rm,
                                node@,
                                n,
                            ) && !v2v.contains(n),
                        forall|k: int| 0 <= k < v2v.len() ==> !cache_has(
                            cache@,
                            #[trigger] v2v[k],
                        ),
                        forall|k: int| 0 <= k < vv.len() ==> reaches(rm, #[trigger] vv[k], node@),
                    decreases names@.len() - i,
                {
                    proof {
                        assert(nv[i as int] == names@[i as int]@);
                        assert(nv.contains(nv[i as int]));
                        assert(ref_edge(rm, node@, nv[i as int]));
                        lemma_reaches_step(rm, node@, nv[i as int]);
                        assert forall|k: int| 0 <= k < v2v.len() implies reaches(
                            rm,
                            #[trigger] v2v[k],
                            names@[i as int]@,
                        ) by {
                            if k < vv.len() {
                                assert(v2v[k] == vv[k]);
                                lemma_reaches_trans(rm, vv[k], node@, nv[i as int]);
                            } else {
                                assert(v2v[k] == node@);
                            }
                        }
                    }
                    let ghost cache_pre = cache@;
                    let sub = dfs_union_rules(cache, rules, &names[i], &visited2);
                    match sub {
                        Err(e) => {
                            proof {
                                let b = nv[i as int];
                                match &e {
                                    ConfigError::Loop(m) => {
                                        lemma_edge_then_reaches(rm, node@, b, m@);
                                        if v2v.contains(m@) && !vv.contains(m@) {
                                            assert(m@ == node@);
                                            lemma_edge_back_cycle(rm, node@, b);
                                        }
                                    },
                                    ConfigError::Rule(m) => {
                                        lemma_edge_then_reaches(rm, node@, b, m@);
                                    },
                                    _ => {},
                                }
                                assert forall|n: Seq<char>|
                                    #[trigger] cache_has(cache@, n) && !cache_has(
                                        cache0,
                                        n,
                                    ) implies reaches(rm, node@, n) && !vv.contains(n) by {
                                    if cache_has(cache_pre, n) {
                                        assert(!v2v.contains(n));
                                    } else {
                                        assert(reaches(rm, nv[i as int], n) && !v2v.contains(
                                            n,
                                        ));
                                        lemma_edge_then_reaches(rm, node@, nv[i as int], n);
                                    }
                                    if vv.contains(n) {
                                        let k = choose|k: int|
                                            0 <= k < vv.len() && vv[k] == n;
                                        assert(v2v[k] == n);
                                        assert(v2v.contains(n));
                                    }
                                }
                                // The mirror reports this very error.
                                assert(spec_resolve_err_list(rm, nv, i as int, v2set)
                                    == spec_resolve_err(rm, nv[i as int], v2set));
                                assert(!vset.contains(node@)) by {
                                    if vset.contains(node@) {
                                        assert(vv.contains(node@));
                                    }
                                }
                                assert(spec_resolve_err(rm, node@, vset)
                                    == spec_resolve_err_list(rm, nv, 0, v2set));
                            }
                            return Err(e);
                        },
                        Ok(mut sub_rules) => {
                            let ghost old_out = out@;
                            let ghost sub_seq = sub_rules@;
                            out.append(&mut sub_rules);
                            proof {
                                lemma_rule_set_concat(old_out, sub_seq);
                                assert(out@ == old_out + sub_seq);
                                assert forall|r: RuleView|
                                    #[trigger] rule_set(out@).contains(r) implies union_resolved(
                                    rm,
                                    nv,
                                    i + 1,
                                ).contains(r) by {
                                    if rule_set(old_out).contains(r) {
                                        assert(union_resolved(rm, nv, i as int).contains(r));
                                        let j = choose|j: int|
                                            0 <= j < i && #[trigger] resolved_rules(
                                                rm,
                                                nv[j],
                                            ).contains(r);
                                    } else {
                                        assert(resolved_rules(rm, nv[i as int]).contains(r));
                                    }
                                }
                                assert forall|r: RuleView|
                                    union_resolved(rm, nv, i + 1).contains(r) implies #[trigger] rule_set(
                                    out@,
                                ).contains(r) by {
                                    let j = choose|j: int|
                                        0 <= j < i + 1 && #[trigger] resolved_rules(
                                            rm,
                                            nv[j],
                                        ).contains(r);
                                    if j < i {
                                        assert(union_resolved(rm, nv, i as int).contains(r));
                                        assert(rule_set(old_out).contains(r));
                                    } else {
                                        assert(rule_set(sub_seq).contains(r));
                                    }
                                }
                                assert(rule_set(out@) =~= union_resolved(rm, nv, i + 1));
                                assert forall|n: Seq<char>|
                                    #[trigger] cache_has(cache@, n) && !cache_has(
                                        cache0,
                                        n,
                                    ) implies reaches(rm, node@, n) && !v2v.contains(n) by {
                                    if cache_has(cache_pre, n) {
                                    } else {
                                        assert(reaches(rm, nv[i as int], n) && !v2v.contains(
                                            n,
                                        ));
                                        lemma_edge_then_reaches(rm, node@, nv[i as int], n);
                                    }
                                }
                                assert forall|k: int| 0 <= k < v2v.len() implies !cache_has(
                                    cache@,
                                    #[trigger] v2v[k],
                                ) by {
                                    if cache_has(cache@, v2v[k]) && !cache_has(
                                        cache_pre,
                                        v2v[k],
                                    ) {
                                        assert(!v2v.contains(v2v[k]));
                                        assert(v2v.contains(v2v[k]));
                                    }
                                }
                                // The mirror walks past this errless child.
                                assert(spec_resolve_err(rm, nv[i as int], v2set) is None);
                                assert(spec_resolve_err_list(rm, nv, i as int, v2set)
                                    == spec_resolve_err_list(rm, nv, i + 1, v2set));
                            }
                        },
                    }
                    i = i + 1;
                }
                proof {
                    // The resolved set of a union is the union of the
                    // resolved sets of its members.
                    assert forall|r: RuleView|
                        #[trigger] resolved_rules(rm, node@).contains(r) implies union_resolved(
                        rm,
                        nv,
                        nv.len() as int,
                    ).contains(r) by {
                        let m = choose|m: Seq<char>|
                            #[trigger] reaches(rm, node@, m) && rm.dom().contains(m)
                                && rm[m] == PreRuleView::Concrete(r);
                        assert(m != node@);
                        lemma_reaches_decompose(rm, node@, m);
                        let b = choose|b: Seq<char>|
                            #[trigger] ref_edge(rm, node@, b) && reaches(rm, b, m);
                        assert(nv.contains(b));
                        let j = choose|j: int| 0 <= j < nv.len() && nv[j] == b;
                        assert(resolved_rules(rm, nv[j]).contains(r));
                    }
                    assert forall|r: RuleView|
                        union_resolved(rm, nv, nv.len() as int).contains(r) implies
                        #[trigger] resolved_rules(rm, node@).contains(r) by {
                        let j = choose|j: int|
                            0 <= j < nv.len() && #[trigger] resolved_rules(rm, nv[j]).contains(
                                r,
                            );
                        let m = choose|m: Seq<char>|
                            #[trigger] reaches(rm, nv[j], m) && rm.dom().contains(m)
                                && rm[m] == PreRuleView::Concrete(r);
                        assert(ref_edge(rm, node@, nv[j]));
                        lemma_edge_then_reaches(rm, node@, nv[j], m);
                    }
                    assert(rule_set(out@) =~= resolved_rules(rm, node@));
                    // Every reachable name is defined and off the caller's
                    // path.
                    assert forall|w: Seq<char>| #[trigger] reaches(rm, node@, w) implies
                        rm.dom().contains(w) && !vv.contains(w) by {
                        if w == node@ {
                        } else {
                            lemma_reaches_decompose(rm, node@, w);
                            let b = choose|b: Seq<char>|
                                #[trigger] ref_edge(rm, node@, b) && reaches(rm, b, w);
                            assert(nv.contains(b));
                            let j = choose|j: int| 0 <= j < nv.len() && nv[j] == b;
                            assert(reaches(rm, nv[j], w));
                            assert(!v2v.contains(w));
                            if vv.contains(w) {
                                let k = choose|k: int| 0 <= k < vv.len() && vv[k] == w;
                                assert(v2v[k] == w);
                            }
                        }
                    }
                    // No cycle is reachable.
                    assert(!has_cycle_from(rm, node@)) by {
                        if has_cycle_from(rm, node@) {
                            let m = choose|m: Seq<char>|
                                #[trigger] reaches(rm, node@, m) && cycle_at(rm, m);
                            if m == node@ {
                                lemma_cycle_decompose(rm, node@);
                                let b = choose|b: Seq<char>|
                                    #[trigger] ref_edge(rm, node@, b) && reaches(rm, b, node@);
                                assert(nv.contains(b));
                                let j = choose|j: int| 0 <= j < nv.len() && nv[j] == b;
                                assert(reaches(rm, nv[j], node@));
                                assert(!v2v.contains(node@));
                                assert(v2v[v2v.len() - 1] == node@);
                            } else {
                                lemma_reaches_decompose(rm, node@, m);
                                let b = choose|b: Seq<char>|
                                    #[trigger] ref_edge(rm, node@, b) && reaches(rm, b, m);
                                assert(nv.contains(b));
                                let j = choose|j: int| 0 <= j < nv.len() && nv[j] == b;
                                assert(reaches(rm, nv[j], m));
                                assert(has_cycle_from(rm, nv[j]));
                            }
                        }
                    }
                }
                proof {
                    assert(spec_resolve_err_list(rm, nv, nv.len() as int, v2set) is None);
                    assert(!vset.contains(node@)) by {
                        if vset.contains(node@) {
                            assert(vv.contains(node@));
                        }
                    }
                    assert(spec_resolve_err(rm, node@, vset) == spec_resolve_err_list(
                        rm,
                        nv,
                        0,
                        v2set,
                    ));
                    assert(spec_resolve_err(rm, node@, vset) is None);
                }
                let ghost cache_loop = cache@;
                let entry = clone_rules(&out);
                cache.push((node.clone(), entry));
                proof {
                    lemma_reaches_self(rm, node@);
                    assert forall|j: int|
                        #![trigger cache@[j]]
                        0 <= j < cache@.len() implies {
                        &&& rule_set(cache@[j].1@) == resolved_rules(rm, cache@[j].0@)
                        &&& (forall|w: Seq<char>| #[trigger] reaches(rm, cache@[j].0@, w)
                            ==> rm.dom().contains(w))
                        &&& !has_cycle_from(rm, cache@[j].0@)
                    } by {
                        if j < cache_loop.len() {
                            assert(cache@[j] == cache_loop[j]);
                        } else {
                            assert(cache@[j].0@ == node@);
                            assert(rule_set(cache@[j].1@) =~= rule_set(out@));
                        }
                    }
                    assert forall|n: Seq<char>|
                        #[trigger] cache_has(cache@, n) && !cache_has(cache0, n) implies reaches(
                        rm,
                        node@,
                        n,
                    ) && !vv.contains(n) by {
                        let j = choose|j: int|
                            0 <= j < cache@.len() && #[trigger] cache@[j].0@ == n;
                        if j < cache_loop.len() {
                            assert(cache_loop[j].0@ == n);
                            assert(cache_has(cache_loop, n));
                            assert(reaches(rm, node@, n) && !v2v.contains(n));
                        } else {
                            assert(n == node@);
                        }
                        if vv.contains(n) {
                            let k = choose|k: int| 0 <= k < vv.len() && vv[k] == n;
                            assert(v2v[k] == n);
                            assert(v2v.contains(n));
                        }
                    }
                }
                Ok(out)
            },
        },
    }
}

/// Resolves the rule names bound to one directory into the flat list of
/// their concrete rules.
///
/// On success the list's rule set is exactly the union of the rules
/// reachable from each name, and no name reaches an undefined name or a
/// cycle. A `Loop` error names a node on a cycle reachable from one of the
/// names; a `Rule` error names a reachable undefined name.
pub fn resolve_directory_rules(
    cache: &mut Vec<(String, Vec<Rule>)>,
    rules: &Vec<(String, PreRule)>,
    names: &Vec<String>,
) -> (r: Result<Vec<Rule>, ConfigError>)
    requires
        cache_ok(old(cache)@, rules_map(rules@)),
    ensures
        cache_ok(final(cache)@, rules_map(rules@)),
        ({
            let rm = rules_map(rules@);
            let nv = names_view(names@);
            match r {
                Ok(_) => spec_resolve_err_list(rm, nv, 0, Set::empty()) is None,
                Err(e) => match e {
                    ConfigError::Loop(m) => spec_resolve_err_list(rm, nv, 0, Set::empty())
                        == Some(ResolveErr::LoopAt(m@)),
                    ConfigError::Rule(m) => spec_resolve_err_list(rm, nv, 0, Set::empty())
                        == Some(ResolveErr::MissingAt(m@)),
                    _ => false,
                },
            }
        }),
        ({
            let rm = rules_map(rules@);
            let nv = names_view(names@);
            match r {
                Ok(s) => {
                    &&& rule_set(s@) == union_resolved(rm, nv, nv.len() as int)
                    &&& forall|j: int| 0 <= j < nv.len() ==> !missing_from(rm, #[trigger] nv[j])
                        && !has_cycle_from(rm, nv[j])
                },
                Err(e) => match e {
                    ConfigError::Loop(m) => exists|j: int|
                        0 <= j < nv.len() && #[trigger] reaches(rm, nv[j], m@) && cycle_at(
                            rm,
                            m@,
                        ),
                    ConfigError::Rule(m) => exists|j: int|
                        0 <= j < nv.len() && #[trigger] reaches(rm, nv[j], m@)
                            && !rm.dom().contains(m@),
                    _ => false,
                },
            }
        }),
{
    let ghost rm = rules_map(rules@);
    let ghost nv = names_view(names@);
    let visited: Vec<String> = Vec::new();
    proof {
        broadcast use vstd::seq_lib::seq_to_set_is_finite;

        assert(names_view(visited@) =~= Seq::<Seq<char>>::empty());
        assert(names_view(visited@).to_set() =~= Set::<Seq<char>>::empty());
        lemma_rules_map_finite(rules@);
    }
    let mut out: Vec<Rule> = Vec::new();
    let mut i: usize = 0;
    proof {
        assert(rule_set(out@) =~= union_resolved(rm, nv, 0));
    }
    while i < names.len()
        invariant
            0 <= i <= names@.len(),
            nv == names_view(names@),
            nv.len() == names@.len(),
            rm == rules_map(rules@),
            rm.dom().finite(),
            visited@.len() == 0,
            names_view(visited@).to_set() == Set::<Seq<char>>::empty(),
            cache_ok(cache@, rm),
            spec_resolve_err_list(rm, nv, 0, Set::empty()) == spec_resolve_err_list(
                rm,
                nv,
                i as int,
                Set::empty(),
            ),
            rule_set(out@) == union_resolved(rm, nv, i as int),
            forall|j: int| 0 <= j < i ==> !missing_from(rm, #[trigger] nv[j]) && !has_cycle_from(
                rm,
                nv[j],
            ),
        decreases names@.len() - i,
    {
        proof {
            assert(nv[i as int] == names@[i as int]@);
            assert(names_view(visited@) =~= Seq::<Seq<char>>::empty());
        }
        let sub = dfs_union_rules(cache, rules, &names[i], &visited);
        match sub {
            Err(e) => {
                proof {
                    match &e {
                        ConfigError::Loop(m) => {
                            assert(!names_view(visited@).contains(m@));
                            assert(reaches(rm, nv[i as int], m@) && cycle_at(rm, m@));
                        },
                        ConfigError::Rule(m) => {
                            assert(reaches(rm, nv[i as int], m@) && !rm.dom().contains(m@));
                        },
                        _ => {},
                    }
                    // The mirror reports this very error.
                    assert(Set::<Seq<char>>::empty().subset_of(rm.dom()));
                    assert(spec_resolve_err_list(rm, nv, i as int, Set::empty())
                        == spec_resolve_err(rm, nv[i as int], Set::empty()));
                }
                return Err(e);
            },
            Ok(mut sub_rules) => {
                let ghost old_out = out@;
                let ghost sub_seq = sub_rules@;
                out.append(&mut sub_rules);
                proof {
                    // The mirror walks past this errless name.
                    assert(Set::<Seq<char>>::empty().subset_of(rm.dom()));
                    assert(spec_resolve_err(rm, nv[i as int], Set::empty()) is None);
                    assert(spec_resolve_err_list(rm, nv, i as int, Set::empty())
                        == spec_resolve_err_list(rm, nv, i + 1, Set::empty()));
                    // Clean facts for this name.
                    assert(!missing_from(rm, nv[i as int])) by {
                        if missing_from(rm, nv[i as int]) {
                            let m = choose|m: Seq<char>|
                                #[trigger] reaches(rm, nv[i as int], m) && !rm.dom().contains(
                                    m,
                                );
                        }
                    }
                    lemma_rule_set_concat(old_out, sub_seq);
                    assert(out@ == old_out + sub_seq);
                    assert forall|r: RuleView| #[trigger] rule_set(out@).contains(r) implies
                        union_resolved(rm, nv, i + 1).contains(r) by {
                        if rule_set(old_out).contains(r) {
                            let j = choose|j: int|
                                0 <= j < i && #[trigger] resolved_rules(rm, nv[j]).contains(r);
                        } else {
                            assert(resolved_rules(rm, nv[i as int]).contains(r));
                        }
                    }
                    assert forall|r: RuleView|
                        union_resolved(rm, nv, i + 1).contains(r) implies #[trigger] rule_set(
                        out@,
                    ).contains(r) by {
                        let j = choose|j: int|
                            0 <= j < i + 1 && #[trigger] resolved_rules(rm, nv[j]).contains(r);
                        if j < i {
                            assert(union_resolved(rm, nv, i as int).contains(r));
                            assert(rule_set(old_out).contains(r));
                        } else {
                            assert(rule_set(sub_seq).contains(r));
                        }
                    }
                    assert(rule_set(out@) =~= union_resolved(rm, nv, i + 1));
                }
            },
        }
        i = i + 1;
    }
    Ok(out)
}

/// A raw directory descriptor: the configured path string and the names of
/// the rules bound to it.
#[derive(Debug)]
pub struct PreDirectory {
    /// The configured path, before tilde expansion and canonicalization.
    pub path: String,
    /// The names of the rules bound to this directory.
    pub rules: Vec<String>,
}

/// The raw configuration, as read from the configuration file.
#[derive(Debug)]
pub struct PreConfig {
    /// When true, the system may add exclusions but never un-exclude.
    pub no_include: bool,
    /// The raw directory descriptors, in file order.
    pub directories: Vec<PreDirectory>,
    /// The raw skip path strings.
    pub skips: Vec<String>,
    /// The named rules.
    pub rules: Vec<(String, PreRule)>,
}

/// What the filesystem says about one configured directory path: its
/// canonical form and whether it is a directory, or why it could not be
/// resolved.
#[derive(Debug)]
pub enum PathLookup {
    /// The path resolved to a canonical absolute path.
    Canonical {
        /// The canonical absolute path.
        path: AbsPath,
        /// Whether the path names a directory.
        is_dir: bool,
    },
    /// The path could not be resolved; the payload is the reason.
    Failed {
        /// The reason, as reported by the filesystem.
        cause: String,
    },
}

/// The first error the directory's bound rule names meet, if any: which
/// error a resolution of this directory reports, and with which name.
pub open spec fn dir_rules_err(
    rm: Map<Seq<char>, PreRuleView>,
    pre: PreDirectory,
) -> Option<ResolveErr> {
    spec_resolve_err_list(rm, names_view(pre.rules@), 0, Set::empty())
}

/// The directory resolves in full: its rule names without error, its path
/// to something that is a directory.
pub open spec fn dir_resolves(
    rm: Map<Seq<char>, PreRuleView>,
    pre: PreDirectory,
    probe: PathLookup,
) -> bool {
    dir_rules_err(rm, pre) is None && (probe matches PathLookup::Canonical { is_dir, .. }
        && is_dir)
}

/// The union of the rules resolved by every name bound to the directory.
pub open spec fn dir_rule_union(
    rm: Map<Seq<char>, PreRuleView>,
    pre: PreDirectory,
) -> Set<RuleView> {
    union_resolved(rm, names_view(pre.rules@), names_view(pre.rules@).len() as int)
}

/// Whether every rule name bound to the directory resolves cleanly.
pub open spec fn dir_rules_clean(rm: Map<Seq<char>, PreRuleView>, pre: PreDirectory) -> bool {
    forall|j: int| 0 <= j < pre.rules@.len() ==> !missing_from(
        rm,
        #[trigger] names_view(pre.rules@)[j],
    ) && !has_cycle_from(rm, names_view(pre.rules@)[j])
}

/// Resolves the raw directory descriptors against the named rules and the
/// filesystem's answers, producing the walk configuration.
///
/// Succeeds exactly when every rule name resolves without loops or missing
/// names and every directory path canonicalized to a directory; the
/// resulting entries keep configuration order, each carrying its canonical
/// path and the union of its resolved rules. The skip paths are taken as
/// given. On failure the error names the offence: a node on a reachable
/// reference cycle, a reachable undefined rule name, or the offending raw
/// path with its cause.
pub fn resolve_walk_config(
    directories: &Vec<PreDirectory>,
    probes: &Vec<PathLookup>,
    rules: &Vec<(String, PreRule)>,
    skips: Vec<AbsPath>,
) -> (r: Result<WalkConfig, ConfigError>)
    requires
        probes@.len() == directories@.len(),
    ensures
        ({
            let rm = rules_map(rules@);
            match r {
                Ok(w) => {
                    &&& w@.skips == skips_view(skips@)
                    &&& w@.directories.len() == directories@.len()
                    &&& forall|i: int| 0 <= i < directories@.len()
                        ==> (#[trigger] probes@[i] matches PathLookup::Canonical { path, is_dir }
                        && is_dir && w@.directories[i].path == path@)
                    &&& forall|i: int| 0 <= i < directories@.len()
                        ==> #[trigger] w@.directories[i].rules.to_set() == dir_rule_union(
                        rm,
                        directories@[i],
                    )
                    &&& forall|i: int| 0 <= i < directories@.len() ==> dir_rules_clean(
                        rm,
                        #[trigger] directories@[i],
                    )
                },
                Err(e) => match e {
                    ConfigError::Loop(m) => exists|i: int, j: int|
                        0 <= i < directories@.len() && 0 <= j < directories@[i].rules@.len()
                            && #[trigger] reaches(
                            rm,
                            names_view(directories@[i].rules@)[j],
                            m@,
                        ) && cycle_at(rm, m@),
                    ConfigError::Rule(m) => exists|i: int, j: int|
                        0 <= i < directories@.len() && 0 <= j < directories@[i].rules@.len()
                            && #[trigger] reaches(
                            rm,
                            names_view(directories@[i].rules@)[j],
                            m@,
                        ) && !rm.dom().contains(m@),
                    ConfigError::InvalidPath { path, cause } => exists|i: int|
                        0 <= i < directories@.len() && #[trigger] directories@[i].path@ == path@
                            && ((probes@[i] matches PathLookup::Failed { cause: c } && cause@
                            == c@) || (probes@[i] matches PathLookup::Canonical { is_dir, .. }
                            && !is_dir && cause@ == "not a directory"@)),
                    _ => false,
                },
            }
        }),
        ({
            let rm = rules_map(rules@);
            r matches Err(e) ==> exists|i: int|
                #![trigger directories@[i]]
                {
                    &&& 0 <= i < directories@.len()
                    &&& (forall|i2: int| 0 <= i2 < i ==> dir_resolves(
                        rm,
                        #[trigger] directories@[i2],
                        probes@[i2],
                    ))
                    &&& match e {
                        ConfigError::Loop(m) => dir_rules_err(rm, directories@[i]) == Some(
                            ResolveErr::LoopAt(m@),
                        ),
                        ConfigError::Rule(m) => dir_rules_err(rm, directories@[i]) == Some(
                            ResolveErr::MissingAt(m@),
                        ),
                        ConfigError::InvalidPath { path, cause } => dir_rules_err(
                            rm,
                            directories@[i],
                        ) is None && directories@[i].path@ == path@ && ((
                        probes@[i] matches PathLookup::Failed { cause: c } && cause@ == c@) || (
                        probes@[i] matches PathLookup::Canonical { is_dir, .. } && !is_dir
                            && cause@ == "not a directory"@)),
                        _ => false,
                    }
                }
        }),
{
    let ghost rm = rules_map(rules@);
    let mut cache: Vec<(String, Vec<Rule>)> = Vec::new();
    let mut out_dirs: Vec<Directory> = Vec::new();
    let mut i: usize = 0;
    while i < directories.len()
        invariant
            0 <= i <= directories@.len(),
            probes@.len() == directories@.len(),
            rm == rules_map(rules@),
            cache_ok(cache@, rm),
            out_dirs@.len() == i,
            forall|k: int| 0 <= k < i ==> dir_resolves(rm, #[trigger] directories@[k], probes@[k]),
            forall|k: int| 0 <= k < i
                ==> (#[trigger] probes@[k] matches PathLookup::Canonical { path, is_dir }
                && is_dir && out_dirs@[k]@.path == path@),
            forall|k: int| 0 <= k < i ==> #[trigger] out_dirs@[k]@.rules.to_set()
                == dir_rule_union(rm, directories@[k]),
            forall|k: int| 0 <= k < i ==> dir_rules_clean(rm, #[trigger] directories@[k]),
        decreases directories@.len() - i,
    {
        let pre = &directories[i];
        let resolved = resolve_directory_rules(&mut cache, rules, &pre.rules);
        match resolved {
            Err(e) => {
                proof {
                    let nv = names_view(pre.rules@);
                    match &e {
                        ConfigError::Loop(m) => {
                            let j = choose|j: int|
                                0 <= j < nv.len() && #[trigger] reaches(rm, nv[j], m@)
                                    && cycle_at(rm, m@);
                            assert(reaches(
                                rm,
                                names_view(directories@[i as int].rules@)[j],
                                m@,
                            ));
                        },
                        ConfigError::Rule(m) => {
                            let j = choose|j: int|
                                0 <= j < nv.len() && #[trigger] reaches(rm, nv[j], m@)
                                    && !rm.dom().contains(m@);
                            assert(reaches(
                                rm,
                                names_view(directories@[i as int].rules@)[j],
                                m@,
                            ));
                        },
                        _ => {},
                    }
                }
                return Err(e);
            },
            Ok(dir_rules) => {
                match &probes[i] {
                    PathLookup::Failed { cause } => {
                        let err = ConfigError::InvalidPath {
                            path: pre.path.clone(),
                            cause: cause.clone(),
                        };
                        proof {
                            assert(directories@[i as int].path@ == pre.path@);
                        }
                        return Err(err);
                    },
                    PathLookup::Canonical { path, is_dir } => {
                        if !*is_dir {
                            let cause_str = "not a directory".to_owned();
                            proof {
                                assert(cause_str@ == "not a directory"@);
                                assert(directories@[i as int].path@ == pre.path@);
                                assert(probes@[i as int] matches PathLookup::Canonical {
                                    is_dir,
                                    ..
                                } && !is_dir);
                            }
                            let err = ConfigError::InvalidPath {
                                path: pre.path.clone(),
                                cause: cause_str,
                            };
                            return Err(err);
                        }
                        let d = Directory { path: path.clone(), rules: dir_rules };
                        out_dirs.push(d);
                        proof {
                            assert(out_dirs@[i as int]@.rules.to_set() == dir_rule_union(
                                rm,
                                directories@[i as int],
                            ));
                            assert(dir_rules_clean(rm, directories@[i as int]));
                        }
                    },
                }
            },
        }
        i = i + 1;
    }
    let w = WalkConfig { directories: out_dirs, skips };
    Ok(w)
}

/// Resolves a raw configuration into the full configuration, carrying the
/// policy flag over and resolving the walk part against the filesystem's
/// answers. The expanded skip paths are taken as given.
pub fn resolve_config(
    pre: &PreConfig,
    probes: &Vec<PathLookup>,
    skips: Vec<AbsPath>,
) -> (r: Result<crate::config::Config, ConfigError>)
    requires
        probes@.len() == pre.directories@.len(),
    ensures
        r matches Ok(c) ==> c.no_include == pre.no_include,
        ({
            let rm = rules_map(pre.rules@);
            match r {
                Ok(c) => {
                    &&& c.walk@.skips == skips_view(skips@)
                    &&& c.walk@.directories.len() == pre.directories@.len()
                    &&& forall|i: int| 0 <= i < pre.directories@.len()
                        ==> (#[trigger] probes@[i] matches PathLookup::Canonical { path, is_dir }
                        && is_dir && c.walk@.directories[i].path == path@)
                    &&& forall|i: int| 0 <= i < pre.directories@.len()
                        ==> #[trigger] c.walk@.directories[i].rules.to_set() == dir_rule_union(
                        rm,
                        pre.directories@[i],
                    )
                    &&& forall|i: int| 0 <= i < pre.directories@.len() ==> dir_rules_clean(
                        rm,
                        #[trigger] pre.directories@[i],
                    )
                },
                Err(e) => match e {
                    ConfigError::Loop(m) => exists|i: int, j: int|
                        0 <= i < pre.directories@.len() && 0 <= j
                            < pre.directories@[i].rules@.len() && #[trigger] reaches(
                            rm,
                            names_view(pre.directories@[i].rules@)[j],
                            m@,
                        ) && cycle_at(rm, m@),
                    ConfigError::Rule(m) => exists|i: int, j: int|
                        0 <= i < pre.directories@.len() && 0 <= j
                            < pre.directories@[i].rules@.len() && #[trigger] reaches(
                            rm,
                            names_view(pre.directories@[i].rules@)[j],
                            m@,
                        ) && !rm.dom().contains(m@),
                    ConfigError::InvalidPath { path, cause } => exists|i: int|
                        0 <= i < pre.directories@.len() && #[trigger] pre.directories@[i].path@
                            == path@ && ((probes@[i] matches PathLookup::Failed { cause: c }
                            && cause@ == c@) || (probes@[i] matches PathLookup::Canonical {
                            is_dir,
                            ..
                        } && !is_dir && cause@ == "not a directory"@)),
                    _ => false,
                },
            }
        }),
        ({
            let rm = rules_map(pre.rules@);
            r matches Err(e) ==> exists|i: int|
                #![trigger pre.directories@[i]]
                {
                    &&& 0 <= i < pre.directories@.len()
                    &&& (forall|i2: int| 0 <= i2 < i ==> dir_resolves(
                        rm,
                        #[trigger] pre.directories@[i2],
                        probes@[i2],
                    ))
                    &&& match e {
                        ConfigError::Loop(m) => dir_rules_err(rm, pre.directories@[i]) == Some(
                            ResolveErr::LoopAt(m@),
                        ),
                        ConfigError::Rule(m) => dir_rules_err(rm, pre.directories@[i]) == Some(
                            ResolveErr::MissingAt(m@),
                        ),
                        ConfigError::InvalidPath { path, cause } => dir_rules_err(
                            rm,
                            pre.directories@[i],
                        ) is None && pre.directories@[i].path@ == path@ && ((
                        probes@[i] matches PathLookup::Failed { cause: c } && cause@ == c@) || (
                        probes@[i] matches PathLookup::Canonical { is_dir, .. } && !is_dir
                            && cause@ == "not a directory"@)),
                        _ => false,
                    }
                }
        }),
{
    let walk = resolve_walk_config(&pre.directories, probes, &pre.rules, skips);
    match walk {
        Ok(w) => Ok(crate::config::Config { no_include: pre.no_include, walk: w }),
        Err(e) => Err(e),
    }
}

} // verus!
