use vstd::prelude::*;

use crate::assoc::{assoc_has_key, assoc_map, assoc_unique, names_of};
use crate::error::Error;
use crate::strutil::clone_strings;
use crate::workflow::Workflow;

verus! {

/// One prerequisite edge: node `a` exists and names `b` among its
/// prerequisites.
pub open spec fn pre_edge(w: &Workflow, a: Seq<char>, b: Seq<char>) -> bool {
    w.nodes_map().dom().contains(a) && w.nodes_map()[a].pre_names().contains(b)
}

/// `path` leads from a target to `x` along prerequisite edges.
pub open spec fn reach_via(
    w: &Workflow,
    targets: Set<Seq<char>>,
    path: Seq<Seq<char>>,
    x: Seq<char>,
) -> bool {
    &&& path.len() > 0
    &&& targets.contains(path[0])
    &&& path.last() == x
    &&& forall|i: int| 0 <= i < path.len() - 1 ==> pre_edge(w, #[trigger] path[i], path[i + 1])
}

/// `x` is a target, or a direct or transitive prerequisite of one.
pub open spec fn reachable(w: &Workflow, targets: Set<Seq<char>>, x: Seq<char>) -> bool {
    exists|path: Seq<Seq<char>>| reach_via(w, targets, path, x)
}

/// The transitive closure of the targets over prerequisite edges.
pub open spec fn closure(w: &Workflow, targets: Set<Seq<char>>) -> Set<Seq<char>> {
    Set::new(|x: Seq<char>| reachable(w, targets, x))
}

/// The prerequisite lists of the closure's nodes.
pub open spec fn dep_map(w: &Workflow, targets: Set<Seq<char>>) -> Map<Seq<char>, Seq<Seq<char>>> {
    Map::new(
        |k: Seq<char>| closure(w, targets).contains(k),
        |k: Seq<char>| w.nodes_map()[k].pre_names(),
    )
}

/// The names of `m` whose prerequisites have all been seen.
pub open spec fn ready_set(m: Map<Seq<char>, Seq<Seq<char>>>, seen: Set<Seq<char>>) -> Set<
    Seq<char>,
> {
    m.dom().filter(
        |k: Seq<char>| forall|i: int| 0 <= i < m[k].len() ==> seen.contains(#[trigger] m[k][i]),
    )
}

/// The stages that iterative draining produces: each round takes every
/// name whose prerequisites have been seen; `None` when a round would
/// drain nothing while names remain (a prerequisite cycle).
pub open spec fn strata(m: Map<Seq<char>, Seq<Seq<char>>>, seen: Set<Seq<char>>) -> Option<
    Seq<Set<Seq<char>>>,
>
    decreases m.dom().len(),
    via strata_decreases
{
    if !m.dom().finite() {
        None
    } else if m.dom().len() == 0 {
        Some(Seq::empty())
    } else if ready_set(m, seen).len() == 0 {
        None
    } else {
        match strata(m.remove_keys(ready_set(m, seen)), seen.union(ready_set(m, seen))) {
            Some(rest) => Some(seq![ready_set(m, seen)] + rest),
            None => None,
        }
    }
}

#[via_fn]
proof fn strata_decreases(m: Map<Seq<char>, Seq<Seq<char>>>, seen: Set<Seq<char>>) {
    if m.dom().finite() && m.dom().len() != 0 {
        let ready = ready_set(m, seen);
        if ready.len() != 0 {
            lemma_ready_finite(m, seen);
            m.lemma_remove_keys_len(ready);
        }
    }
}

/// The ready names form a finite subset of the map's domain.
pub proof fn lemma_ready_finite(m: Map<Seq<char>, Seq<Seq<char>>>, seen: Set<Seq<char>>)
    requires
        m.dom().finite(),
    ensures
        ready_set(m, seen).subset_of(m.dom()),
        ready_set(m, seen).finite(),
        ready_set(m, seen).len() <= m.dom().len(),
{
    vstd::set_lib::lemma_len_subset(ready_set(m, seen), m.dom());
}

/// The union of a sequence of sets.
pub open spec fn sets_union(ss: Seq<Set<Seq<char>>>) -> Set<Seq<char>>
    decreases ss.len(),
{
    if ss.len() == 0 {
        Set::empty()
    } else {
        ss[0].union(sets_union(ss.drop_first()))
    }
}

/// Every drained name was in the map, and every name is drained:
/// the stages of a successful draining cover the domain exactly.
pub proof fn lemma_strata_covers(
    m: Map<Seq<char>, Seq<Seq<char>>>,
    seen: Set<Seq<char>>,
    ss: Seq<Set<Seq<char>>>,
)
    requires
        m.dom().finite(),
        strata(m, seen) == Some(ss),
    ensures
        sets_union(ss) =~= m.dom(),
    decreases m.dom().len(),
{
    if m.dom().len() == 0 {
        assert(m.dom() =~= Set::<Seq<char>>::empty());
    } else {
        let ready = ready_set(m, seen);
        assert(ready.len() != 0);
        lemma_ready_finite(m, seen);
        m.lemma_remove_keys_len(ready);
        let m2 = m.remove_keys(ready);
        assert(m2.dom() =~= m.dom().difference(ready));
        vstd::set_lib::lemma_set_subset_finite(m.dom(), m2.dom());
        assert(strata(m2, seen.union(ready)) is Some);
        let rest = strata(m2, seen.union(ready))->Some_0;
        assert(ss == seq![ready] + rest);
        lemma_strata_covers(m2, seen.union(ready), rest);
        assert(ss.drop_first() =~= rest);
        assert(ss[0] == ready);
    }
}

/// In a successful draining, every prerequisite of a stage's name was
/// seen before, or sits in an earlier stage.
pub proof fn lemma_strata_ordered(
    m: Map<Seq<char>, Seq<Seq<char>>>,
    seen: Set<Seq<char>>,
    ss: Seq<Set<Seq<char>>>,
    i: int,
    a: Seq<char>,
    b: Seq<char>,
)
    requires
        m.dom().finite(),
        strata(m, seen) == Some(ss),
        0 <= i < ss.len(),
        ss[i].contains(a),
        m.dom().contains(a),
        m[a].contains(b),
    ensures
        seen.contains(b) || exists|j: int| 0 <= j < i && #[trigger] ss[j].contains(b),
    decreases m.dom().len(),
{
    assert(m.dom().len() != 0) by {
        if m.dom().len() == 0 {
            assert(ss.len() == 0);
        }
    }
    let ready = ready_set(m, seen);
    assert(ready.len() != 0);
    lemma_ready_finite(m, seen);
    m.lemma_remove_keys_len(ready);
    let m2 = m.remove_keys(ready);
    assert(m2.dom() =~= m.dom().difference(ready));
    vstd::set_lib::lemma_set_subset_finite(m.dom(), m2.dom());
    assert(strata(m2, seen.union(ready)) is Some);
    let rest = strata(m2, seen.union(ready))->Some_0;
    assert(ss == seq![ready] + rest);
    if i == 0 {
        assert(ss[0] == ready);
        let idx = choose|idx: int| 0 <= idx < m[a].len() && m[a][idx] == b;
        assert(seen.contains(m[a][idx]));
    } else {
        assert(ss.drop_first() =~= rest);
        assert(rest[i - 1] == ss[i]);
        lemma_strata_covers(m2, seen.union(ready), rest);
        assert(sets_union(rest).contains(a)) by {
            lemma_sets_union_member(rest, i - 1, a);
        }
        assert(m2.dom().contains(a));
        assert(m2[a] == m[a]);
        lemma_strata_ordered(m2, seen.union(ready), rest, i - 1, a, b);
        if seen.union(ready).contains(b) {
            if !seen.contains(b) {
                assert(ss[0].contains(b));
            }
        } else {
            let j = choose|j: int| 0 <= j < i - 1 && #[trigger] rest[j].contains(b);
            assert(ss[j + 1].contains(b));
        }
    }
}

/// An element of one of the sets is in their union.
pub proof fn lemma_sets_union_member(ss: Seq<Set<Seq<char>>>, i: int, x: Seq<char>)
    requires
        0 <= i < ss.len(),
        ss[i].contains(x),
    ensures
        sets_union(ss).contains(x),
    decreases ss.len(),
{
    if i > 0 {
        lemma_sets_union_member(ss.drop_first(), i - 1, x);
    }
}

/// Conversely, every member of the union is in one of the sets.
pub proof fn lemma_sets_union_inv(ss: Seq<Set<Seq<char>>>, x: Seq<char>)
    requires
        sets_union(ss).contains(x),
    ensures
        exists|i: int| 0 <= i < ss.len() && #[trigger] ss[i].contains(x),
    decreases ss.len(),
{
    if ss.len() > 0 {
        if ss[0].contains(x) {
            assert(ss[0int].contains(x));
        } else {
            lemma_sets_union_inv(ss.drop_first(), x);
            let i = choose|i: int| 0 <= i < ss.drop_first().len() && #[trigger] ss.drop_first()[i].contains(
                x,
            );
            assert(ss[i + 1].contains(x));
        }
    }
}

/// The prerequisite lists that a dependency record denotes.
pub open spec fn dep_view(s: Seq<(String, Vec<String>)>) -> Map<Seq<char>, Seq<Seq<char>>> {
    assoc_map(s).map_values(|v: Vec<String>| names_of(v@))
}

/// The domain of an association is no larger than the entry count.
proof fn lemma_assoc_dom_card<T>(s: Seq<(String, T)>)
    ensures
        assoc_map(s).dom().finite(),
        assoc_map(s).dom().len() <= s.len(),
    decreases s.len(),
{
    if s.len() == 0 {
        assert(assoc_map(s).dom() =~= Set::<Seq<char>>::empty());
    } else {
        lemma_assoc_dom_card(s.drop_last());
        assert(assoc_map(s).dom() =~= assoc_map(s.drop_last()).dom().insert(s.last().0@));
    }
}

/// Distinctly named entries, all drawn from a finite name set, are no
/// more numerous than that set.
proof fn lemma_assoc_len_le<T>(s: Seq<(String, T)>, dom: Set<Seq<char>>)
    requires
        assoc_unique(s),
        dom.finite(),
        forall|i: int| 0 <= i < s.len() ==> dom.contains((#[trigger] s[i]).0@),
    ensures
        s.len() <= dom.len(),
{
    let keys = s.map_values(|e: (String, T)| e.0@);
    assert(keys.no_duplicates()) by {
        assert forall|i: int, j: int| 0 <= i < keys.len() && 0 <= j < keys.len() && i != j implies keys[i]
            != keys[j] by {
            if i < j {
                assert((s[i]).0@ != (s[j]).0@);
            } else {
                assert((s[j]).0@ != (s[i]).0@);
            }
        }
    }
    keys.unique_seq_to_set();
    assert(keys.to_set().subset_of(dom)) by {
        assert forall|x: Seq<char>| keys.to_set().contains(x) implies dom.contains(x) by {
            let i = choose|i: int| 0 <= i < keys.len() && keys[i] == x;
            assert(dom.contains((s[i]).0@));
        }
    }
    vstd::set_lib::lemma_len_subset(keys.to_set(), dom);
}

/// A target is reachable by the one-step path that is itself.
pub proof fn lemma_target_reachable(w: &Workflow, targets: Set<Seq<char>>, t: Seq<char>)
    requires
        targets.contains(t),
    ensures
        reachable(w, targets, t),
{
    let path = seq![t];
    assert(reach_via(w, targets, path, t));
}

/// Following one more prerequisite edge keeps a name reachable.
pub proof fn lemma_reach_step(w: &Workflow, targets: Set<Seq<char>>, a: Seq<char>, b: Seq<char>)
    requires
        reachable(w, targets, a),
        pre_edge(w, a, b),
    ensures
        reachable(w, targets, b),
{
    let p = choose|p: Seq<Seq<char>>| reach_via(w, targets, p, a);
    let p2 = p.push(b);
    assert forall|i: int| 0 <= i < p2.len() - 1 implies pre_edge(w, #[trigger] p2[i], p2[i + 1]) by {
        if i < p.len() - 1 {
            assert(pre_edge(w, p[i], p[i + 1]));
        } else {
            assert(p2[i] == p.last());
        }
    }
    assert(reach_via(w, targets, p2, b));
}

/// Everything reachable lies inside any set that holds the targets and
/// is closed under prerequisite edges.
pub proof fn lemma_reachable_in_closed(
    w: &Workflow,
    targets: Set<Seq<char>>,
    keys: Set<Seq<char>>,
    path: Seq<Seq<char>>,
    x: Seq<char>,
)
    requires
        reach_via(w, targets, path, x),
        targets.subset_of(keys),
        forall|a: Seq<char>, b: Seq<char>|
            keys.contains(a) && #[trigger] pre_edge(w, a, b) ==> keys.contains(b),
    ensures
        keys.contains(x),
    decreases path.len(),
{
    if path.len() == 1 {
    } else {
        let p1 = path.drop_last();
        assert(reach_via(w, targets, p1, p1.last())) by {
            assert forall|i: int| 0 <= i < p1.len() - 1 implies pre_edge(w, #[trigger] p1[i], p1[i + 1]) by {
                assert(pre_edge(w, path[i], path[i + 1]));
            }
        }
        lemma_reachable_in_closed(w, targets, keys, p1, p1.last());
        assert(pre_edge(w, path[path.len() - 2], path[path.len() - 1]));
    }
}

/// One recorded dependency entry: the node exists, the record carries its
/// prerequisite list, and the node is reachable from the targets.
pub open spec fn deps_entry_ok(
    w: &Workflow,
    tset: Set<Seq<char>>,
    e: (String, Vec<String>),
) -> bool {
    &&& w.nodes_map().dom().contains(e.0@)
    &&& names_of(e.1@) == w.nodes_map()[e.0@].pre_names()
    &&& reachable(w, tset, e.0@)
}

pub open spec fn deps_ok(
    w: &Workflow,
    tset: Set<Seq<char>>,
    deps: Seq<(String, Vec<String>)>,
) -> bool {
    forall|i: int| 0 <= i < deps.len() ==> deps_entry_ok(w, tset, #[trigger] deps[i])
}

/// Every prerequisite cited by a recorded entry is itself recorded or
/// still waiting in the work list.
pub open spec fn frontier_ok(
    deps: Seq<(String, Vec<String>)>,
    pending: Seq<String>,
) -> bool {
    forall|i: int, j: int|
        0 <= i < deps.len() && 0 <= j < deps[i].1@.len() ==> assoc_has_key(
            deps,
            (#[trigger] deps[i].1@[j])@,
        ) || names_of(pending).contains(deps[i].1@[j]@)
}

/// Collects, outward from the targets, each reachable node's prerequisite
/// list; fails with `NotFound` on the first reference to a node the
/// workflow lacks.
fn collect_deps(w: &Workflow, targets: &Vec<String>) -> (r: Result<
    Vec<(String, Vec<String>)>,
    Error,
>)
    requires
        w.wf(),
    ensures
        r matches Ok(deps) ==> {
            &&& assoc_unique(deps@)
            &&& dep_view(deps@) == dep_map(w, names_of(targets@).to_set())
            &&& closure(w, names_of(targets@).to_set()).subset_of(w.nodes_map().dom())
        },
        r matches Err(e) ==> e matches Error::NotFound(n) && reachable(
            w,
            names_of(targets@).to_set(),
            n@,
        ) && !w.nodes_map().dom().contains(n@),
{
    let ghost tset = names_of(targets@).to_set();
    let nodes_total = w.nodes.len();
    let mut deps: Vec<(String, Vec<String>)> = Vec::new();
    let mut pending: Vec<String> = clone_strings(targets);
    proof {
        assert forall|i: int| 0 <= i < pending@.len() implies reachable(
            w,
            tset,
            (#[trigger] pending@[i])@,
        ) by {
            assert(names_of(targets@)[i] == targets@[i]@);
            assert(tset.contains(pending@[i]@));
            lemma_target_reachable(w, tset, pending@[i]@);
        }
        assert forall|i: int| 0 <= i < targets@.len() implies names_of(pending@).contains(
            (#[trigger] targets@[i])@,
        ) by {
            assert(names_of(pending@)[i] == targets@[i]@);
        }
    }
    while pending.len() > 0
        invariant
            w.wf(),
            tset == names_of(targets@).to_set(),
            nodes_total == w.nodes@.len(),
            deps@.len() <= nodes_total,
            assoc_unique(deps@),
            deps_ok(w, tset, deps@),
            frontier_ok(deps@, pending@),
            forall|i: int| 0 <= i < pending@.len() ==> reachable(w, tset, (#[trigger] pending@[i])@),
            forall|i: int|
                0 <= i < targets@.len() ==> assoc_has_key(deps@, (#[trigger] targets@[i])@)
                    || names_of(pending@).contains(targets@[i]@),
        decreases nodes_total - deps@.len(), pending@.len(),
    {
        let ghost pending0 = pending@;
        let ghost deps0 = deps@;
        let next = pending.pop().unwrap();
        proof {
            assert(next == pending0.last());
            assert(reachable(w, tset, next@));
            assert(pending@ =~= pending0.drop_last());
        }
        let already = match crate::assoc::assoc_get(&deps, next.as_str()) {
            Some(_) => true,
            None => false,
        };
        proof {
            crate::assoc::lemma_assoc_map_dom(deps@);
        }
        if already {
            proof {
                assert(assoc_has_key(deps@, next@));
                assert forall|i: int, j: int|
                    0 <= i < deps@.len() && 0 <= j < deps@[i].1@.len() implies assoc_has_key(
                    deps@,
                    (#[trigger] deps@[i].1@[j])@,
                ) || names_of(pending@).contains(deps@[i].1@[j]@) by {
                    let b = deps@[i].1@[j]@;
                    if !assoc_has_key(deps@, b) {
                        lemma_contains_after_pop(pending0, next@, b);
                    }
                }
                assert forall|i: int|
                    0 <= i < targets@.len() implies assoc_has_key(
                    deps@,
                    (#[trigger] targets@[i])@,
                ) || names_of(pending@).contains(targets@[i]@) by {
                    let t = targets@[i]@;
                    if !assoc_has_key(deps@, t) && names_of(pending0).contains(t) {
                        lemma_contains_after_pop(pending0, next@, t);
                    }
                }
            }
            continue;
        }
        proof {
            assert(!assoc_has_key(deps@, next@));
        }
        let nd = match w.get_node(next.as_str()) {
            Some(nd) => nd,
            None => {
                return Err(Error::NotFound(next));
            },
        };
        let pre_list: Vec<String> = match &nd.pre {
            Some(v) => clone_strings(v),
            None => Vec::new(),
        };
        proof {
            assert(names_of(pre_list@) =~= w.nodes_map()[next@].pre_names());
        }
        let ghost pend_base = pending@;
        let m = pre_list.len();
        let mut j: usize = 0;
        while j < m
            invariant
                w.wf(),
                m == pre_list@.len(),
                j <= m,
                w.nodes_map().dom().contains(next@),
                names_of(pre_list@) == w.nodes_map()[next@].pre_names(),
                reachable(w, tset, next@),
                pending@ == pend_base + pre_list@.take(j as int),
                forall|jj: int| 0 <= jj < j ==> names_of(pending@).contains((#[trigger] pre_list@[jj])@),
                forall|i: int|
                    0 <= i < pending@.len() ==> reachable(w, tset, (#[trigger] pending@[i])@),
            decreases m - j,
        {
            proof {
                assert(names_of(pre_list@).contains(pre_list@[j as int]@)) by {
                    assert(names_of(pre_list@)[j as int] == pre_list@[j as int]@);
                }
                assert(pre_edge(w, next@, pre_list@[j as int]@));
                lemma_reach_step(w, tset, next@, pre_list@[j as int]@);
                assert(pre_list@.take(j as int).push(pre_list@[j as int]) =~= pre_list@.take(j as int + 1));
            }
            let ghost pend_before = pending@;
            pending.push(pre_list[j].clone());
            proof {
                assert(pending@ =~= pend_before.push(pre_list@[j as int]));
                assert(pend_before.is_prefix_of(pending@));
                assert forall|jj: int|
                    0 <= jj < j + 1 implies names_of(pending@).contains(
                    (#[trigger] pre_list@[jj])@,
                ) by {
                    if jj < j {
                        lemma_contains_in_extended(pend_before, pending@, pre_list@[jj]@);
                    } else {
                        assert(names_of(pending@)[pending@.len() - 1] == pre_list@[jj]@);
                    }
                }
            }
            j += 1;
        }
        let ghost deps_new = deps@.push((next, pre_list));
        proof {
            // uniqueness of the extended record
            assert forall|a: int, b: int|
                0 <= a < b < deps_new.len() implies (#[trigger] deps_new[a]).0@ != (
            #[trigger] deps_new[b]).0@ by {
                if b < deps_new.len() - 1 {
                    assert(deps0[a] == deps_new[a] && deps0[b] == deps_new[b]);
                } else {
                    assert(deps_new[b].0@ == next@);
                    if deps_new[a].0@ == next@ {
                        assert(assoc_has_key(deps0, next@)) by {
                            assert((deps0[a]).0@ == next@);
                        }
                    }
                }
            }
            lemma_assoc_dom_card(w.nodes@);
            lemma_assoc_len_le(deps_new, w.nodes_map().dom());
        }
        deps.push((next, pre_list));
        proof {
            assert(deps@ == deps_new);
            assert(deps_ok(w, tset, deps@)) by {
                assert forall|i: int| 0 <= i < deps@.len() implies deps_entry_ok(
                    w,
                    tset,
                    #[trigger] deps@[i],
                ) by {
                    if i < deps@.len() - 1 {
                        assert(deps_entry_ok(w, tset, deps0[i]));
                    }
                }
            }
            assert(pend_base.is_prefix_of(pending@)) by {
                assert(pending@ == pend_base + pre_list@.take(m as int));
            }
            assert(deps0.is_prefix_of(deps@));
            assert(frontier_ok(deps@, pending@)) by {
                assert forall|i: int, j2: int|
                    0 <= i < deps@.len() && 0 <= j2 < deps@[i].1@.len() implies assoc_has_key(
                    deps@,
                    (#[trigger] deps@[i].1@[j2])@,
                ) || names_of(pending@).contains(deps@[i].1@[j2]@) by {
                    if i < deps@.len() - 1 {
                        assert(deps0[i] == deps@[i]);
                        let b = deps0[i].1@[j2]@;
                        assert(assoc_has_key(deps0, b) || names_of(pending0).contains(b));
                        if assoc_has_key(deps0, b) {
                            lemma_has_key_extends(deps0, deps@, b);
                        } else {
                            lemma_contains_after_pop(pending0, next@, b);
                            if b == next@ {
                                assert((deps@[deps@.len() - 1]).0@ == next@);
                                assert(assoc_has_key(deps@, b));
                            } else {
                                lemma_contains_in_extended(pend_base, pending@, b);
                            }
                        }
                    } else {
                        assert(deps@[i].1 == pre_list);
                        assert(names_of(pending@).contains(pre_list@[j2]@));
                    }
                }
            }
            assert forall|i: int|
                0 <= i < targets@.len() implies assoc_has_key(deps@, (#[trigger] targets@[i])@)
                || names_of(pending@).contains(targets@[i]@) by {
                let t = targets@[i]@;
                if assoc_has_key(deps0, t) {
                    lemma_has_key_extends(deps0, deps@, t);
                } else {
                    lemma_contains_after_pop(pending0, next@, t);
                    if t == next@ {
                        assert((deps@[deps@.len() - 1]).0@ == next@);
                        assert(assoc_has_key(deps@, t));
                    } else {
                        lemma_contains_in_extended(pend_base, pending@, t);
                    }
                }
            }
        }
    }
    proof {
        lemma_collect_complete(w, tset, targets@, deps@);
    }
    Ok(deps)
}

/// A name found among the strings is still found after the sequence grows
/// at the end.
proof fn lemma_contains_in_extended(shorter: Seq<String>, longer: Seq<String>, x: Seq<char>)
    requires
        names_of(shorter).contains(x),
        shorter.is_prefix_of(longer),
    ensures
        names_of(longer).contains(x),
{
    let i = choose|i: int| 0 <= i < names_of(shorter).len() && names_of(shorter)[i] == x;
    assert(longer[i] == shorter[i]);
    assert(names_of(longer)[i] == x);
}

/// A key stays present when entries are appended.
pub proof fn lemma_has_key_extends<T>(shorter: Seq<(String, T)>, longer: Seq<(String, T)>, x: Seq<char>)
    requires
        assoc_has_key(shorter, x),
        shorter.is_prefix_of(longer),
    ensures
        assoc_has_key(longer, x),
{
    let i = choose|i: int| 0 <= i < shorter.len() && (#[trigger] shorter[i]).0@ == x;
    assert((longer[i]).0@ == x);
}

/// A name found in the work list is still found after the last element
/// is popped, unless it was that element.
proof fn lemma_contains_after_pop(pending0: Seq<String>, popped: Seq<char>, x: Seq<char>)
    requires
        pending0.len() > 0,
        pending0.last()@ == popped,
        names_of(pending0).contains(x),
    ensures
        names_of(pending0.drop_last()).contains(x) || x == popped,
{
    let k = choose|k: int| 0 <= k < names_of(pending0).len() && names_of(pending0)[k] == x;
    if k == pending0.len() - 1 {
        assert(x == popped);
    } else {
        assert(names_of(pending0.drop_last())[k] == x);
    }
}

/// When the work list has drained, the recorded names are exactly the
/// closure, and the record denotes the closure's dependency map.
proof fn lemma_collect_complete(
    w: &Workflow,
    tset: Set<Seq<char>>,
    targets: Seq<String>,
    deps: Seq<(String, Vec<String>)>,
)
    requires
        tset == names_of(targets).to_set(),
        assoc_unique(deps),
        deps_ok(w, tset, deps),
        frontier_ok(deps, Seq::<String>::empty()),
        forall|i: int| 0 <= i < targets.len() ==> assoc_has_key(deps, (#[trigger] targets[i])@),
    ensures
        dep_view(deps) == dep_map(w, tset),
        closure(w, tset).subset_of(w.nodes_map().dom()),
{
    let keys = Set::new(|k: Seq<char>| assoc_has_key(deps, k));
    // the recorded names are closed under prerequisite edges
    assert forall|a: Seq<char>, b: Seq<char>|
        keys.contains(a) && #[trigger] pre_edge(w, a, b) implies keys.contains(b) by {
        let i = choose|i: int| 0 <= i < deps.len() && (#[trigger] deps[i]).0@ == a;
        assert(deps_entry_ok(w, tset, deps[i]));
        assert(names_of(deps[i].1@).contains(b));
        let j = choose|j: int| 0 <= j < names_of(deps[i].1@).len() && names_of(deps[i].1@)[j] == b;
        assert((deps[i].1@[j])@ == b);
        assert(assoc_has_key(deps, (deps[i].1@[j])@) || names_of(Seq::<String>::empty()).contains(
            (deps[i].1@[j])@,
        ));
    }
    // targets are recorded
    assert forall|t: Seq<char>| tset.contains(t) implies keys.contains(t) by {
        let i = choose|i: int| 0 <= i < names_of(targets).len() && names_of(targets)[i] == t;
        assert((targets[i])@ == t);
        assert(assoc_has_key(deps, (targets[i])@));
    }
    // reachable names are recorded
    assert forall|x: Seq<char>| closure(w, tset).contains(x) implies keys.contains(x) by {
        let path = choose|path: Seq<Seq<char>>| reach_via(w, tset, path, x);
        lemma_reachable_in_closed(w, tset, keys, path, x);
    }
    // recorded names are reachable and exist
    assert forall|x: Seq<char>| keys.contains(x) implies closure(w, tset).contains(x)
        && w.nodes_map().dom().contains(x) by {
        let i = choose|i: int| 0 <= i < deps.len() && (#[trigger] deps[i]).0@ == x;
        assert(deps_entry_ok(w, tset, deps[i]));
    }
    crate::assoc::lemma_assoc_map_dom(deps);
    assert(dep_view(deps).dom() =~= keys);
    assert(dep_map(w, tset).dom() =~= closure(w, tset));
    assert(closure(w, tset) =~= keys);
    assert forall|k: Seq<char>| keys.contains(k) implies dep_view(deps)[k] == dep_map(w, tset)[k] by {
        let i = choose|i: int| 0 <= i < deps.len() && (#[trigger] deps[i]).0@ == k;
        assert forall|j: int| i < j < deps.len() implies (#[trigger] deps[j]).0@ != deps[i].0@ by {}
        crate::assoc::lemma_assoc_map_last_occurrence(deps, i);
        assert(assoc_map(deps)[k] == deps[i].1);
        assert(deps_entry_ok(w, tset, deps[i]));
        assert(names_of(deps[i].1@) == w.nodes_map()[k].pre_names());
    }
    assert(dep_view(deps) =~= dep_map(w, tset));
}

/// The name set of each stage.
pub open spec fn stage_sets(ss: Seq<Vec<String>>) -> Seq<Set<Seq<char>>> {
    ss.map_values(|v: Vec<String>| names_of(v@).to_set())
}

/// The set of names a string sequence holds.
pub open spec fn seen_set_of(seen: Seq<String>) -> Set<Seq<char>> {
    names_of(seen).to_set()
}

/// Stages already drained, prefixed to what draining still yields.
pub open spec fn prepend(prefix: Seq<Set<Seq<char>>>, o: Option<Seq<Set<Seq<char>>>>) -> Option<
    Seq<Set<Seq<char>>>,
> {
    match o {
        Some(rest) => Some(prefix + rest),
        None => None,
    }
}

/// Whether every string of `ps` occurs among `seen`.
fn all_names_in(ps: &Vec<String>, seen: &Vec<String>) -> (r: bool)
    ensures
        r == (forall|j: int|
            0 <= j < ps@.len() ==> seen_set_of(seen@).contains((#[trigger] ps@[j])@)),
{
    let n = ps.len();
    let mut j: usize = 0;
    while j < n
        invariant
            n == ps@.len(),
            j <= n,
            forall|jj: int| 0 <= jj < j ==> seen_set_of(seen@).contains((#[trigger] ps@[jj])@),
        decreases n - j,
    {
        if !crate::assoc::contains_name(seen, ps[j].as_str()) {
            assert(!seen_set_of(seen@).contains(ps@[j as int]@));
            return false;
        }
        j += 1;
    }
    true
}

/// Drains the dependency record in rounds: each round takes every node
/// whose prerequisites have all been drained; when a round would take
/// nothing while nodes remain, the prerequisites are cyclic.
fn stratify_deps(deps: Vec<(String, Vec<String>)>) -> (r: Result<Vec<Vec<String>>, Error>)
    requires
        assoc_unique(deps@),
    ensures
        r matches Ok(stages) ==> Some(stage_sets(stages@)) == strata(
            dep_view(deps@),
            Set::empty(),
        ) && (forall|i: int|
            0 <= i < stages@.len() ==> names_of((#[trigger] stages@[i])@).no_duplicates()),
        r matches Err(e) ==> e == Error::NodeRecursion && strata(dep_view(deps@), Set::empty())
            is None,
{
    let ghost m0 = dep_view(deps@);
    proof {
        lemma_assoc_dom_card(deps@);
        crate::assoc::lemma_assoc_map_dom(deps@);
        assert(m0.dom() =~= assoc_map(deps@).dom());
    }
    let total = deps.len();
    let mut seen: Vec<String> = Vec::new();
    let mut result: Vec<Vec<String>> = Vec::new();
    proof {
        assert(m0.remove_keys(seen_set_of(seen@)) =~= m0);
        assert(stage_sets(result@) =~= Seq::<Set<Seq<char>>>::empty());
        assert(prepend(stage_sets(result@), strata(m0, seen_set_of(seen@))) == strata(
            m0,
            Set::empty(),
        )) by {
            assert(seen_set_of(Seq::<String>::empty()) =~= Set::<Seq<char>>::empty());
            if strata(m0, Set::<Seq<char>>::empty()) is Some {
                let rest = strata(m0, Set::<Seq<char>>::empty())->Some_0;
                assert(Seq::<Set<Seq<char>>>::empty() + rest =~= rest);
            }
        }
    }
    while seen.len() < total
        invariant
            assoc_unique(deps@),
            m0 == dep_view(deps@),
            m0.dom().finite(),
            total == deps@.len(),
            seen@.len() <= total,
            names_of(seen@).no_duplicates(),
            forall|i: int| 0 <= i < seen@.len() ==> assoc_has_key(deps@, (#[trigger] seen@[i])@),
            strata(m0, Set::empty()) == prepend(
                stage_sets(result@),
                strata(m0.remove_keys(seen_set_of(seen@)), seen_set_of(seen@)),
            ),
            forall|i: int|
                0 <= i < result@.len() ==> names_of((#[trigger] result@[i])@).no_duplicates(),
        decreases total - seen@.len(),
    {
        let ghost seenset = seen_set_of(seen@);
        let ghost mrem = m0.remove_keys(seenset);
        let ghost rset = ready_set(mrem, seenset);
        let mut ready: Vec<String> = Vec::new();
        let mut i: usize = 0;
        while i < total
            invariant
                assoc_unique(deps@),
                m0 == dep_view(deps@),
                total == deps@.len(),
                i <= total,
                seenset == seen_set_of(seen@),
                mrem == m0.remove_keys(seenset),
                rset == ready_set(mrem, seenset),
                forall|r: int| 0 <= r < ready@.len() ==> rset.contains((#[trigger] ready@[r])@),
                forall|ii: int|
                    0 <= ii < i && rset.contains((#[trigger] deps@[ii]).0@) ==> names_of(
                        ready@,
                    ).contains(deps@[ii].0@),
                forall|r: int| 0 <= r < ready@.len() ==> assoc_has_key(deps@, (#[trigger] ready@[r])@),
                names_of(ready@).no_duplicates(),
                forall|r: int|
                    0 <= r < ready@.len() ==> (exists|ii: int|
                        0 <= ii < i && (#[trigger] ready@[r])@ == deps@[ii].0@),
            decreases total - i,
        {
            let ghost k = deps@[i as int].0@;
            proof {
                crate::assoc::lemma_assoc_map_dom(deps@);
                assert(m0.dom() =~= assoc_map(deps@).dom());
                assert(assoc_has_key(deps@, k)) by {
                    assert((deps@[i as int]).0@ == k);
                }
                assert(m0.dom().contains(k));
                assert forall|jj: int| i < jj < deps@.len() implies (#[trigger] deps@[jj]).0@
                    != deps@[i as int].0@ by {}
                crate::assoc::lemma_assoc_map_last_occurrence(deps@, i as int);
                assert(m0[k] == names_of(deps@[i as int].1@));
            }
            let in_seen = crate::assoc::contains_name(&seen, deps[i].0.as_str());
            if !in_seen {
                proof {
                    assert(!seenset.contains(k));
                    assert(mrem.dom().contains(k));
                    assert(mrem[k] == m0[k]);
                }
                let all_seen = all_names_in(&deps[i].1, &seen);
                proof {
                    if all_seen {
                        assert forall|j: int| 0 <= j < mrem[k].len() implies seenset.contains(
                            #[trigger] mrem[k][j],
                        ) by {
                            assert(mrem[k][j] == (deps@[i as int].1@[j])@);
                        }
                        assert(rset.contains(k));
                    } else {
                        let j = choose|j: int|
                            0 <= j < deps@[i as int].1@.len() && !seenset.contains(
                                (#[trigger] deps@[i as int].1@[j])@,
                            );
                        assert(mrem[k][j] == (deps@[i as int].1@[j])@);
                        assert(!rset.contains(k));
                    }
                }
                if all_seen {
                    let ghost ready0 = ready@;
                    ready.push(deps[i].0.clone());
                    proof {
                        assert(ready@ =~= ready0.push(deps@[i as int].0));
                        assert(ready0.is_prefix_of(ready@));
                        assert(names_of(ready@) =~= names_of(ready0).push(k));
                        assert(!names_of(ready0).contains(k)) by {
                            if names_of(ready0).contains(k) {
                                let r = choose|r: int|
                                    0 <= r < ready0.len() && names_of(ready0)[r] == k;
                                let ii = choose|ii: int|
                                    0 <= ii < i && (ready0[r])@ == (#[trigger] deps@[ii]).0@;
                                assert((deps@[ii]).0@ == (deps@[i as int]).0@);
                                assert(false);
                            }
                        }
                        assert(names_of(ready@).no_duplicates()) by {
                            assert forall|a: int, b: int|
                                0 <= a < names_of(ready@).len() && 0 <= b < names_of(ready@).len()
                                    && a != b implies names_of(ready@)[a] != names_of(ready@)[b] by {
                                if a < names_of(ready0).len() && b < names_of(ready0).len() {
                                    assert(names_of(ready0)[a] != names_of(ready0)[b]);
                                } else if a < names_of(ready0).len() {
                                    if names_of(ready@)[a] == k {
                                        assert(names_of(ready0)[a] == k);
                                    }
                                } else {
                                    if names_of(ready@)[b] == k {
                                        assert(names_of(ready0)[b] == k);
                                    }
                                }
                            }
                        }
                        assert forall|ii: int|
                            0 <= ii < i + 1 && rset.contains((#[trigger] deps@[ii]).0@) implies names_of(
                            ready@,
                        ).contains(deps@[ii].0@) by {
                            if ii < i {
                                let r = choose|r: int|
                                    0 <= r < names_of(ready0).len() && names_of(ready0)[r]
                                        == deps@[ii].0@;
                                assert(names_of(ready@)[r] == deps@[ii].0@);
                            } else {
                                assert(names_of(ready@)[ready@.len() - 1] == k);
                            }
                        }
                    }
                }
            } else {
                proof {
                    assert(seenset.contains(k));
                    assert(!mrem.dom().contains(k));
                    assert(!rset.contains(k));
                }
            }
            i += 1;
        }
        proof {
            crate::assoc::lemma_assoc_map_dom(deps@);
            assert(m0.dom() =~= assoc_map(deps@).dom());
            assert(names_of(ready@).to_set() =~= rset) by {
                assert forall|x: Seq<char>| rset.contains(x) implies names_of(ready@).to_set()
                    .contains(x) by {
                    assert(m0.dom().contains(x));
                    assert(assoc_has_key(deps@, x));
                    let ii = choose|ii: int| 0 <= ii < deps@.len() && (#[trigger] deps@[ii]).0@ == x;
                    assert(rset.contains(deps@[ii].0@));
                    assert(names_of(ready@).contains(x));
                }
            }
        }
        if ready.len() == 0 {
            proof {
                assert(mrem.dom().subset_of(m0.dom()));
                vstd::set_lib::lemma_set_subset_finite(m0.dom(), mrem.dom());
                // some key is still undrained, so the remaining map is not empty
                let keyset = Set::new(|x: Seq<char>| assoc_has_key(deps@, x));
                assert(keyset =~= m0.dom());
                lemma_assoc_len_le_seen(deps@, seen@);
                assert(mrem.dom().len() != 0) by {
                    if mrem.dom().len() == 0 {
                        mrem.dom().lemma_len0_is_empty();
                        assert(mrem.dom() =~= Set::<Seq<char>>::empty());
                        assert(m0.dom().subset_of(seenset));
                        names_of(seen@).unique_seq_to_set();
                        lemma_keys_card(deps@);
                        vstd::set_lib::lemma_len_subset(m0.dom(), seenset);
                        assert(false);
                    }
                }
                assert(rset.len() == 0) by {
                    assert(names_of(ready@).to_set() =~= Set::<Seq<char>>::empty());
                }
                assert(strata(mrem, seenset) is None);
            }
            return Err(Error::NodeRecursion);
        }
        let ghost seen0 = seen@;
        let ghost result0 = result@;
        let nr = ready.len();
        let mut rix: usize = 0;
        while rix < nr
            invariant
                nr == ready@.len(),
                rix <= nr,
                seen@ == seen0 + ready@.take(rix as int),
            decreases nr - rix,
        {
            let ghost sbefore = seen@;
            seen.push(ready[rix].clone());
            proof {
                assert(seen@ =~= sbefore.push(ready@[rix as int]));
                assert(seen0 + ready@.take(rix as int + 1) =~= sbefore.push(ready@[rix as int]));
            }
            rix += 1;
        }
        proof {
            assert(ready@.take(nr as int) =~= ready@);
            assert(seen@ == seen0 + ready@);
        }
        result.push(ready);
        proof {
            lemma_after_drain(deps@, m0, seen0, result0, seen@, result@);
        }
    }
    proof {
        // every key has been drained, so the remaining map is empty
        names_of(seen@).unique_seq_to_set();
        lemma_keys_card(deps@);
        let seenset = seen_set_of(seen@);
        assert(seenset.subset_of(m0.dom())) by {
            assert forall|x: Seq<char>| seenset.contains(x) implies m0.dom().contains(x) by {
                let i = choose|i: int| 0 <= i < names_of(seen@).len() && names_of(seen@)[i] == x;
                assert(assoc_has_key(deps@, (seen@[i])@));
            }
        }
        vstd::set_lib::lemma_subset_equality(seenset, m0.dom());
        assert(m0.remove_keys(seenset).dom() =~= Set::<Seq<char>>::empty());
        assert(m0.remove_keys(seenset).dom().len() == 0) by {
            assert(Set::<Seq<char>>::empty().len() == 0);
        }
        assert(strata(m0.remove_keys(seenset), seenset) == Some(Seq::<Set<Seq<char>>>::empty()));
        assert(stage_sets(result@) + Seq::<Set<Seq<char>>>::empty() =~= stage_sets(result@));
    }
    Ok(result)
}

/// Distinct seen names that are all keys give the length bound.
proof fn lemma_assoc_len_le_seen(deps: Seq<(String, Vec<String>)>, seen: Seq<String>)
    requires
        assoc_unique(deps),
        names_of(seen).no_duplicates(),
        forall|i: int| 0 <= i < seen.len() ==> assoc_has_key(deps, (#[trigger] seen[i])@),
    ensures
        seen.len() <= deps.len(),
        seen_set_of(seen).len() == seen.len(),
{
    names_of(seen).unique_seq_to_set();
    lemma_keys_card(deps);
    assert(seen_set_of(seen).subset_of(assoc_map(deps).dom())) by {
        crate::assoc::lemma_assoc_map_dom(deps);
        assert forall|x: Seq<char>| seen_set_of(seen).contains(x) implies assoc_map(
            deps,
        ).dom().contains(x) by {
            let i = choose|i: int| 0 <= i < names_of(seen).len() && names_of(seen)[i] == x;
            assert(assoc_has_key(deps, (seen[i])@));
        }
    }
    vstd::set_lib::lemma_len_subset(seen_set_of(seen), assoc_map(deps).dom());
}

/// Uniquely named entries have exactly as many names as entries.
proof fn lemma_keys_card(deps: Seq<(String, Vec<String>)>)
    requires
        assoc_unique(deps),
    ensures
        assoc_map(deps).dom().finite(),
        assoc_map(deps).dom().len() == deps.len(),
        dep_view(deps).dom() == assoc_map(deps).dom(),
{
    lemma_assoc_dom_card(deps);
    crate::assoc::lemma_assoc_map_dom(deps);
    let keys = deps.map_values(|e: (String, Vec<String>)| e.0@);
    assert(keys.no_duplicates()) by {
        assert forall|i: int, j: int|
            0 <= i < keys.len() && 0 <= j < keys.len() && i != j implies keys[i] != keys[j] by {
            if i < j {
                assert((deps[i]).0@ != (deps[j]).0@);
            } else {
                assert((deps[j]).0@ != (deps[i]).0@);
            }
        }
    }
    keys.unique_seq_to_set();
    assert(keys.to_set() =~= assoc_map(deps).dom()) by {
        assert forall|x: Seq<char>| keys.to_set().contains(x) implies assoc_has_key(deps, x) by {
            let i = choose|i: int| 0 <= i < keys.len() && keys[i] == x;
            assert((deps[i]).0@ == x);
        }
        assert forall|x: Seq<char>| assoc_has_key(deps, x) implies keys.to_set().contains(x) by {
            let i = choose|i: int| 0 <= i < deps.len() && (#[trigger] deps[i]).0@ == x;
            assert(keys[i] == x);
        }
    }
    assert(dep_view(deps).dom() =~= assoc_map(deps).dom());
}

/// One drained round keeps the running account in step with the spec.
proof fn lemma_after_drain(
    deps: Seq<(String, Vec<String>)>,
    m0: Map<Seq<char>, Seq<Seq<char>>>,
    seen0: Seq<String>,
    result0: Seq<Vec<String>>,
    seen1: Seq<String>,
    result1: Seq<Vec<String>>,
)
    requires
        assoc_unique(deps),
        m0 == dep_view(deps),
        m0.dom().finite(),
        names_of(seen0).no_duplicates(),
        forall|i: int| 0 <= i < seen0.len() ==> assoc_has_key(deps, (#[trigger] seen0[i])@),
        strata(m0, Set::empty()) == prepend(
            stage_sets(result0),
            strata(m0.remove_keys(seen_set_of(seen0)), seen_set_of(seen0)),
        ),
        forall|i: int| 0 <= i < result0.len() ==> names_of((#[trigger] result0[i])@).no_duplicates(),
        result1.len() == result0.len() + 1,
        forall|i: int| 0 <= i < result0.len() ==> result1[i] == result0[i],
        names_of(result1.last()@).to_set() == ready_set(
            m0.remove_keys(seen_set_of(seen0)),
            seen_set_of(seen0),
        ),
        names_of(result1.last()@).no_duplicates(),
        result1.last()@.len() > 0,
        seen1 == seen0 + result1.last()@,
    ensures
        seen1.len() <= deps.len(),
        names_of(seen1).no_duplicates(),
        forall|i: int| 0 <= i < seen1.len() ==> assoc_has_key(deps, (#[trigger] seen1[i])@),
        strata(m0, Set::empty()) == prepend(
            stage_sets(result1),
            strata(m0.remove_keys(seen_set_of(seen1)), seen_set_of(seen1)),
        ),
        forall|i: int| 0 <= i < result1.len() ==> names_of((#[trigger] result1[i])@).no_duplicates(),
        seen1.len() > seen0.len(),
{
    let seenset = seen_set_of(seen0);
    let mrem = m0.remove_keys(seenset);
    let ready = ready_set(mrem, seenset);
    let rvec = result1.last();
    lemma_keys_card(deps);
    crate::assoc::lemma_assoc_map_dom(deps);
    assert(m0.dom() =~= assoc_map(deps).dom());
    assert(mrem.dom().subset_of(m0.dom()));
    vstd::set_lib::lemma_set_subset_finite(m0.dom(), mrem.dom());
    lemma_ready_finite(mrem, seenset);
    // the new seen names: distinct, keys, and their set is the union
    assert(seen_set_of(seen1) =~= seenset.union(ready)) by {
        assert forall|x: Seq<char>| seen_set_of(seen1).contains(x) implies seenset.union(
            ready,
        ).contains(x) by {
            let i = choose|i: int| 0 <= i < names_of(seen1).len() && names_of(seen1)[i] == x;
            if i < seen0.len() {
                assert(names_of(seen0)[i] == x);
            } else {
                assert(names_of(rvec@)[i - seen0.len()] == x);
            }
        }
        assert forall|x: Seq<char>| seenset.union(ready).contains(x) implies seen_set_of(
            seen1,
        ).contains(x) by {
            if seenset.contains(x) {
                let i = choose|i: int| 0 <= i < names_of(seen0).len() && names_of(seen0)[i] == x;
                assert(names_of(seen1)[i] == x);
            } else {
                assert(names_of(rvec@).to_set().contains(x));
                let i = choose|i: int| 0 <= i < names_of(rvec@).len() && names_of(rvec@)[i] == x;
                assert(names_of(seen1)[seen0.len() + i] == x);
            }
        }
    }
    assert(names_of(seen1).no_duplicates()) by {
        assert forall|i: int, j: int|
            0 <= i < names_of(seen1).len() && 0 <= j < names_of(seen1).len() && i != j implies names_of(
            seen1,
        )[i] != names_of(seen1)[j] by {
            let a = if i < seen0.len() { names_of(seen0)[i] } else { names_of(rvec@)[i - seen0.len()] };
            let b = if j < seen0.len() { names_of(seen0)[j] } else { names_of(rvec@)[j - seen0.len()] };
            assert(names_of(seen1)[i] == a);
            assert(names_of(seen1)[j] == b);
            if i < seen0.len() && j < seen0.len() {
            } else if i >= seen0.len() && j >= seen0.len() {
            } else if i < seen0.len() {
                // a is old, b is newly drained: the drained set avoids seen names
                if a == b {
                    assert(seenset.contains(a)) by {
                        assert(names_of(seen0).to_set().contains(names_of(seen0)[i]));
                    }
                    assert(ready.contains(b)) by {
                        assert(names_of(rvec@).to_set().contains(names_of(rvec@)[j - seen0.len()]));
                    }
                    assert(!mrem.dom().contains(b));
                }
            } else {
                if a == b {
                    assert(seenset.contains(b)) by {
                        assert(names_of(seen0).to_set().contains(names_of(seen0)[j]));
                    }
                    assert(ready.contains(a)) by {
                        assert(names_of(rvec@).to_set().contains(names_of(rvec@)[i - seen0.len()]));
                    }
                    assert(!mrem.dom().contains(a));
                }
            }
        }
    }
    assert forall|i: int| 0 <= i < seen1.len() implies assoc_has_key(deps, (#[trigger] seen1[i])@) by {
        if i < seen0.len() {
            assert(seen1[i] == seen0[i]);
        } else {
            assert(names_of(rvec@).to_set().contains(names_of(rvec@)[i - seen0.len()]));
            assert(ready.contains((seen1[i])@));
            assert(m0.dom().contains((seen1[i])@));
            lemma_keys_card(deps);
        }
    }
    lemma_assoc_len_le_seen(deps, seen1);
    // the spec takes exactly this round
    assert(mrem.dom().len() != 0) by {
        assert(names_of(rvec@).to_set().contains(names_of(rvec@)[0]));
        assert(ready.contains(names_of(rvec@)[0]));
        assert(mrem.dom().contains(names_of(rvec@)[0]));
        if mrem.dom().len() == 0 {
            mrem.dom().lemma_len0_is_empty();
        }
    }
    assert(ready.len() != 0) by {
        assert(ready.contains(names_of(rvec@)[0]));
        if ready.len() == 0 {
            ready.lemma_len0_is_empty();
        }
    }
    lemma_strata_unfold(mrem, seenset);
    assert(strata(mrem, seenset) == match strata(mrem.remove_keys(ready), seenset.union(ready)) {
        Some(rest) => Some(seq![ready] + rest),
        None => None,
    });
    assert(m0.remove_keys(seen_set_of(seen1)) =~= mrem.remove_keys(ready));
    assert(stage_sets(result1) =~= stage_sets(result0).push(ready));
    let inner = strata(mrem.remove_keys(ready), seenset.union(ready));
    if inner is Some {
        let rest = inner->Some_0;
        assert(stage_sets(result0) + (seq![ready] + rest) =~= stage_sets(result1) + rest);
    }
}

/// One unfolding of a draining round.
proof fn lemma_strata_unfold(m: Map<Seq<char>, Seq<Seq<char>>>, seen: Set<Seq<char>>)
    requires
        m.dom().finite(),
        m.dom().len() != 0,
        ready_set(m, seen).len() != 0,
    ensures
        strata(m, seen) == match strata(
            m.remove_keys(ready_set(m, seen)),
            seen.union(ready_set(m, seen)),
        ) {
            Some(rest) => Some(seq![ready_set(m, seen)] + rest),
            None => None,
        },
{
    let ready = ready_set(m, seen);
    assert(ready.len() != 0);
    assert(strata(m, seen) == {
        if m.dom().len() == 0 {
            Some(Seq::<Set<Seq<char>>>::empty())
        } else {
            if ready.len() == 0 {
                None
            } else {
                match strata(m.remove_keys(ready), seen.union(ready)) {
                    Some(rest) => Some(seq![ready] + rest),
                    None => None,
                }
            }
        }
    });
}

/// Resolves the targets' prerequisites into stages: each stage holds
/// nodes whose prerequisites all stand in earlier stages. Fails with
/// `NotFound` when a referenced node is missing from the workflow, and
/// with `NodeRecursion` when the prerequisites are cyclic.
pub fn determine_order(w: &Workflow, targets: &Vec<String>) -> (r: Result<Vec<Vec<String>>, Error>)
    requires
        w.wf(),
    ensures
        match r {
            Ok(stages) => {
                &&& Some(stage_sets(stages@)) == strata(
                    dep_map(w, names_of(targets@).to_set()),
                    Set::empty(),
                )
                &&& closure(w, names_of(targets@).to_set()).subset_of(w.nodes_map().dom())
                &&& forall|i: int|
                    0 <= i < stages@.len() ==> names_of((#[trigger] stages@[i])@).no_duplicates()
            },
            Err(e) => match e {
                Error::NotFound(n) => reachable(w, names_of(targets@).to_set(), n@)
                    && !w.nodes_map().dom().contains(n@),
                Error::NodeRecursion => closure(w, names_of(targets@).to_set()).subset_of(
                    w.nodes_map().dom(),
                ) && strata(dep_map(w, names_of(targets@).to_set()), Set::empty()) is None,
                _ => false,
            },
        },
        closure(w, names_of(targets@).to_set()).subset_of(w.nodes_map().dom()) && strata(
            dep_map(w, names_of(targets@).to_set()),
            Set::empty(),
        ) is Some ==> r is Ok,
{
    let deps = match collect_deps(w, targets) {
        Ok(deps) => deps,
        Err(e) => {
            return Err(e);
        },
    };
    match stratify_deps(deps) {
        Ok(stages) => Ok(stages),
        Err(e) => Err(e),
    }
}

/// A successful plan's stages, flattened, are exactly the transitive
/// closure of the targets over prerequisite edges, hold every target,
/// and hold each name exactly once: the stages are pairwise disjoint.
pub proof fn lemma_stages_cover_closure(
    w: &Workflow,
    targets: Set<Seq<char>>,
    ss: Seq<Set<Seq<char>>>,
)
    requires
        strata(dep_map(w, targets), Set::empty()) == Some(ss),
    ensures
        sets_union(ss) =~= closure(w, targets),
        targets.subset_of(sets_union(ss)),
        forall|i: int, j: int, x: Seq<char>|
            0 <= i < j < ss.len() && #[trigger] ss[i].contains(x) ==> !(#[trigger] ss[j].contains(
                x,
            )),
{
    let m = dep_map(w, targets);
    assert(m.dom().finite()) by {
        if !m.dom().finite() {
            assert(strata(m, Set::empty()) is None);
        }
    }
    lemma_strata_covers(m, Set::empty(), ss);
    assert(m.dom() =~= closure(w, targets));
    assert forall|t: Seq<char>| targets.contains(t) implies sets_union(ss).contains(t) by {
        lemma_target_reachable(w, targets, t);
        assert(closure(w, targets).contains(t));
    }
    assert forall|i: int, j: int, x: Seq<char>|
        0 <= i < j < ss.len() && #[trigger] ss[i].contains(x) implies !(#[trigger] ss[j].contains(
            x,
        )) by {
        lemma_strata_disjoint(m, Set::empty(), ss, i, j, x);
    }
}

/// In a successful plan, every prerequisite of a planned node stands in
/// a strictly earlier stage.
pub proof fn lemma_stages_respect_pre(
    w: &Workflow,
    targets: Set<Seq<char>>,
    ss: Seq<Set<Seq<char>>>,
    i: int,
    a: Seq<char>,
    b: Seq<char>,
)
    requires
        strata(dep_map(w, targets), Set::empty()) == Some(ss),
        0 <= i < ss.len(),
        ss[i].contains(a),
        w.nodes_map().dom().contains(a),
        w.nodes_map()[a].pre_names().contains(b),
    ensures
        exists|j: int| 0 <= j < i && #[trigger] ss[j].contains(b),
{
    let m = dep_map(w, targets);
    assert(m.dom().finite()) by {
        if !m.dom().finite() {
            assert(strata(m, Set::empty()) is None);
        }
    }
    lemma_strata_covers(m, Set::empty(), ss);
    assert(m.dom().contains(a)) by {
        lemma_sets_union_member(ss, i, a);
    }
    assert(closure(w, targets).contains(a));
    assert(pre_edge(w, a, b));
    lemma_reach_step(w, targets, a, b);
    assert(m.dom().contains(b));
    assert(m[a] == w.nodes_map()[a].pre_names());
    lemma_strata_ordered(m, Set::empty(), ss, i, a, b);
    assert(!Set::<Seq<char>>::empty().contains(b));
}

/// Planning is a function of the workflow and the target set alone: any
/// two successful runs agree on the stage count and on each stage's
/// membership.
pub proof fn lemma_plan_deterministic(
    w: &Workflow,
    targets: Set<Seq<char>>,
    ss1: Seq<Set<Seq<char>>>,
    ss2: Seq<Set<Seq<char>>>,
)
    requires
        strata(dep_map(w, targets), Set::empty()) == Some(ss1),
        strata(dep_map(w, targets), Set::empty()) == Some(ss2),
    ensures
        ss1 == ss2,
        ss1.len() == ss2.len(),
{
}

/// The stages of a successful draining are pairwise disjoint, and
/// disjoint from what was seen before.
pub proof fn lemma_strata_disjoint(
    m: Map<Seq<char>, Seq<Seq<char>>>,
    seen: Set<Seq<char>>,
    ss: Seq<Set<Seq<char>>>,
    i: int,
    j: int,
    x: Seq<char>,
)
    requires
        m.dom().finite(),
        strata(m, seen) == Some(ss),
        0 <= i < j < ss.len(),
        ss[i].contains(x),
    ensures
        !ss[j].contains(x),
    decreases m.dom().len(),
{
    assert(m.dom().len() != 0) by {
        if m.dom().len() == 0 {
            assert(ss.len() == 0);
        }
    }
    let ready = ready_set(m, seen);
    assert(ready.len() != 0);
    lemma_ready_finite(m, seen);
    m.lemma_remove_keys_len(ready);
    let m2 = m.remove_keys(ready);
    assert(m2.dom() =~= m.dom().difference(ready));
    vstd::set_lib::lemma_set_subset_finite(m.dom(), m2.dom());
    assert(strata(m2, seen.union(ready)) is Some);
    let rest = strata(m2, seen.union(ready))->Some_0;
    assert(ss == seq![ready] + rest);
    assert(ss.drop_first() =~= rest);
    if i == 0 {
        assert(ss[0] == ready);
        lemma_strata_covers(m2, seen.union(ready), rest);
        assert(rest[j - 1] == ss[j]);
        if ss[j].contains(x) {
            lemma_sets_union_member(rest, j - 1, x);
            assert(m2.dom().contains(x));
        }
    } else {
        assert(rest[i - 1] == ss[i]);
        assert(rest[j - 1] == ss[j]);
        lemma_strata_disjoint(m2, seen.union(ready), rest, i - 1, j - 1, x);
    }
}

/// A union over one more set holds exactly the old union and that set.
pub proof fn lemma_sets_union_push(ss: Seq<Set<Seq<char>>>, x: Set<Seq<char>>)
    ensures
        sets_union(ss.push(x)) =~= sets_union(ss).union(x),
    decreases ss.len(),
{
    if ss.len() == 0 {
        assert(ss.push(x)[0] == x);
        assert(ss.push(x).drop_first() =~= Seq::<Set<Seq<char>>>::empty());
        assert(sets_union(ss.push(x)) == x.union(sets_union(Seq::<Set<Seq<char>>>::empty())));
        assert(sets_union(ss.push(x)) =~= sets_union(ss).union(x));
    } else {
        assert(ss.push(x).drop_first() =~= ss.drop_first().push(x));
        lemma_sets_union_push(ss.drop_first(), x);
        assert(ss.push(x)[0] == ss[0]);
        assert(sets_union(ss.push(x)) == ss[0].union(sets_union(ss.drop_first().push(x))));
        assert(sets_union(ss) == ss[0].union(sets_union(ss.drop_first())));
        assert(sets_union(ss.push(x)) =~= sets_union(ss).union(x));
    }
}

/// Membership in the union of one more prefix element.
pub proof fn lemma_sets_union_take_step(ss: Seq<Set<Seq<char>>>, s: int, k: Seq<char>)
    requires
        0 <= s < ss.len(),
    ensures
        sets_union(ss.take(s + 1)).contains(k) <==> sets_union(ss.take(s)).contains(k)
            || ss[s].contains(k),
{
    assert(ss.take(s + 1) =~= ss.take(s).push(ss[s]));
    lemma_sets_union_push(ss.take(s), ss[s]);
}

} // verus!
