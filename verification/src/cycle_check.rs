//! Cycle detection over workload-dependency edges: iterative depth-first
//! search that reports a node on a cycle, with proofs both ways — a reported
//! node really lies on a cycle, and a clean run rules every start node out
//! of every cycle.
use vstd::prelude::*;

use crate::objects::{DeleteCondition, WorkloadSpecView};
use crate::doc::strings_view;
use crate::state::{has_key, unique_keys, val_of, State};

verus! {

/// The names a workload depends on, in order.
pub open spec fn dep_names(w: WorkloadSpecView) -> Seq<Seq<char>> {
    w.dependencies.map_values(|p: (Seq<char>, DeleteCondition)| p.0)
}

/// An edge of the dependency graph: both nodes exist and `a` depends on `b`.
pub open spec fn has_edge(
    m: Seq<(Seq<char>, WorkloadSpecView)>,
    a: Seq<char>,
    b: Seq<char>,
) -> bool {
    has_key(m, a) && has_key(m, b) && dep_names(val_of(m, a)).contains(b)
}

/// A non-empty sequence of nodes, each with an edge to the next, the last
/// with an edge back to the first.
pub open spec fn is_cycle(m: Seq<(Seq<char>, WorkloadSpecView)>, c: Seq<Seq<char>>) -> bool {
    c.len() >= 1 && (forall|i: int| 0 <= i < c.len() - 1 ==> has_edge(m, #[trigger] c[i], c[i + 1]))
        && has_edge(m, c[c.len() - 1], c[0])
}

/// The dependency graph has no cycle at all.
pub open spec fn acyclic(m: Seq<(Seq<char>, WorkloadSpecView)>) -> bool {
    forall|c: Seq<Seq<char>>| !is_cycle(m, c)
}

/// A non-empty walk along dependency edges.
pub open spec fn is_path(m: Seq<(Seq<char>, WorkloadSpecView)>, p: Seq<Seq<char>>) -> bool {
    p.len() >= 1 && forall|i: int| 0 <= i < p.len() - 1 ==> has_edge(m, #[trigger] p[i], p[i + 1])
}

// ---------------------------------------------------------------------------
// Invariants of the search
// ---------------------------------------------------------------------------
/// Finished nodes exist, and their in-graph dependencies finished earlier.
pub open spec fn fin_ok(m: Seq<(Seq<char>, WorkloadSpecView)>, fv: Seq<Seq<char>>) -> bool {
    (forall|i: int| 0 <= i < fv.len() ==> has_key(m, #[trigger] fv[i])) && (forall|i: int, k: int|
        #![trigger dep_names(val_of(m, fv[i]))[k]]
        0 <= i < fv.len() && 0 <= k < dep_names(val_of(m, fv[i])).len() ==> (!has_key(
            m,
            dep_names(val_of(m, fv[i]))[k],
        ) || exists|j: int| 0 <= j < i && fv[j] == dep_names(val_of(m, fv[i]))[k]))
}

pub open spec fn stack_entries_ok(
    m: Seq<(Seq<char>, WorkloadSpecView)>,
    sv: Seq<(Seq<char>, int)>,
) -> bool {
    forall|i: int| 0 <= i < sv.len() ==> has_key(m, (#[trigger] sv[i]).0) && 0 <= sv[i].1
        <= dep_names(val_of(m, sv[i].0)).len()
}

pub open spec fn stack_edges_ok(
    m: Seq<(Seq<char>, WorkloadSpecView)>,
    sv: Seq<(Seq<char>, int)>,
) -> bool {
    forall|i: int| 0 <= i < sv.len() - 1 ==> (#[trigger] sv[i]).1 >= 1 && sv[i + 1].0 == dep_names(
        val_of(m, sv[i].0),
    )[sv[i].1 - 1]
}

/// Every dependency an entry has stepped past is out of the graph or
/// finished — except, below the top, the one being explored right now.
pub open spec fn stack_processed_ok(
    m: Seq<(Seq<char>, WorkloadSpecView)>,
    sv: Seq<(Seq<char>, int)>,
    fv: Seq<Seq<char>>,
) -> bool {
    forall|i: int, k: int|
        #![trigger dep_names(val_of(m, sv[i].0))[k]]
        0 <= i < sv.len() && 0 <= k < sv[i].1 && (i == sv.len() - 1 || k != sv[i].1 - 1) ==> (
        !has_key(m, dep_names(val_of(m, sv[i].0))[k]) || fv.contains(
            dep_names(val_of(m, sv[i].0))[k],
        ))
}

pub open spec fn stack_view(st: Seq<(String, usize)>) -> Seq<(Seq<char>, int)> {
    st.map_values(|p: (String, usize)| (p.0@, p.1 as int))
}

pub open spec fn stack_names(sv: Seq<(Seq<char>, int)>) -> Seq<Seq<char>> {
    sv.map_values(|p: (Seq<char>, int)| p.0)
}

/// One unit for each entry plus its dependencies still to explore.
pub open spec fn stack_weight(
    m: Seq<(Seq<char>, WorkloadSpecView)>,
    sv: Seq<(Seq<char>, int)>,
) -> int
    decreases sv.len(),
{
    if sv.len() == 0 {
        0
    } else {
        stack_weight(m, sv.drop_last()) + 1 + dep_names(val_of(m, sv.last().0)).len()
            - sv.last().1
    }
}

proof fn lemma_stack_weight_nonneg(
    m: Seq<(Seq<char>, WorkloadSpecView)>,
    sv: Seq<(Seq<char>, int)>,
)
    requires
        stack_entries_ok(m, sv),
    ensures
        stack_weight(m, sv) >= 0,
    decreases sv.len(),
{
    if sv.len() > 0 {
        assert(stack_entries_ok(m, sv.drop_last()));
        lemma_stack_weight_nonneg(m, sv.drop_last());
    }
}

/// A finished node cannot sit on any cycle: following the cycle would step
/// to ever earlier finishing positions.
proof fn lemma_fin_not_on_cycle(
    m: Seq<(Seq<char>, WorkloadSpecView)>,
    fv: Seq<Seq<char>>,
    c: Seq<Seq<char>>,
    i: int,
    p: int,
)
    requires
        fin_ok(m, fv),
        0 <= i < fv.len(),
        0 <= p < c.len(),
        fv[i] == c[p],
    ensures
        !is_cycle(m, c),
    decreases i,
{
    if is_cycle(m, c) {
        let p2: int = if p == c.len() - 1 {
            0
        } else {
            p + 1
        };
        assert(has_edge(m, c[p], c[p2]));
        let dn = dep_names(val_of(m, fv[i]));
        assert(dn.contains(c[p2]));
        let k = choose|k: int| 0 <= k < dn.len() && dn[k] == c[p2];
        assert(has_key(m, dn[k]));
        let j = choose|j: int| 0 <= j < i && fv[j] == dn[k];
        lemma_fin_not_on_cycle(m, fv, c, j, p2);
    }
}

/// Finished and in-flight nodes are distinct names of the graph, so together
/// they never outnumber it.
proof fn lemma_sizes(
    m: Seq<(Seq<char>, WorkloadSpecView)>,
    fv: Seq<Seq<char>>,
    sk: Seq<Seq<char>>,
)
    requires
        fv.no_duplicates(),
        sk.no_duplicates(),
        forall|x: Seq<char>| !(fv.contains(x) && sk.contains(x)),
        forall|i: int| 0 <= i < fv.len() ==> has_key(m, #[trigger] fv[i]),
        forall|i: int| 0 <= i < sk.len() ==> has_key(m, #[trigger] sk[i]),
    ensures
        fv.len() + sk.len() <= m.len(),
{
    broadcast use vstd::seq_lib::group_seq_properties;

    let comb = fv + sk;
    assert forall|x: int, y: int| 0 <= x < y < comb.len() implies comb[x] != comb[y] by {
        if x < fv.len() && y < fv.len() {
            assert(fv[x] != fv[y]);
        } else if x >= fv.len() && y >= fv.len() {
            assert(sk[x - fv.len()] != sk[y - fv.len()]);
        } else {
            assert(fv.contains(fv[x]));
            assert(sk.contains(sk[y - fv.len()]));
        }
    }
    assert(comb.no_duplicates());
    comb.unique_seq_to_set();
    let keys = m.map_values(|p: (Seq<char>, WorkloadSpecView)| p.0);
    keys.lemma_cardinality_of_set();
    assert forall|x: Seq<char>| comb.to_set().contains(x) implies keys.to_set().contains(x) by {
        assert(comb.contains(x));
        let w = choose|w: int| 0 <= w < comb.len() && comb[w] == x;
        if w < fv.len() {
            assert(has_key(m, fv[w]));
        } else {
            assert(sk.contains(comb[w]));
            assert(has_key(m, x));
        }
        let e = choose|e: int| 0 <= e < m.len() && (#[trigger] m[e]).0 == x;
        assert(keys[e] == x);
        assert(keys.contains(x));
    }
    vstd::set_lib::lemma_len_subset(comb.to_set(), keys.to_set());
}

// ---------------------------------------------------------------------------
// Executable search
// ---------------------------------------------------------------------------
/// Whether `s` occurs in the list.
fn contains_str(v: &Vec<String>, s: &String) -> (r: bool)
    ensures
        r == strings_view(v@).contains(s@),
{
    let n = v.len();
    let mut i: usize = 0;
    while i < n
        invariant
            n == v@.len(),
            i <= n,
            forall|j: int| 0 <= j < i ==> strings_view(v@)[j] != s@,
        decreases n - i,
    {
        if v[i] == *s {
            assert(strings_view(v@)[i as int] == s@);
            return true;
        }
        assert(strings_view(v@)[i as int] == v@[i as int]@);
        i += 1;
    }
    assert(!strings_view(v@).contains(s@));
    false
}

/// The position of `s` among the stacked names, if it is there.
fn stack_find(st: &Vec<(String, usize)>, s: &String) -> (r: Option<usize>)
    ensures
        match r {
            Some(j) => 0 <= j < st@.len() && stack_view(st@)[j as int].0 == s@,
            None => forall|j: int| 0 <= j < st@.len() ==> (#[trigger] stack_view(st@)[j]).0 != s@,
        },
{
    let n = st.len();
    let mut i: usize = 0;
    while i < n
        invariant
            n == st@.len(),
            i <= n,
            forall|j: int| 0 <= j < i ==> (#[trigger] stack_view(st@)[j]).0 != s@,
        decreases n - i,
    {
        if st[i].0 == *s {
            assert(stack_view(st@)[i as int].0 == s@);
            return Some(i);
        }
        assert(stack_view(st@)[i as int].0 == st@[i as int].0@);
        i += 1;
    }
    None
}

/// The step invariants of the search, bundled.
pub open spec fn search_ok(
    m: Seq<(Seq<char>, WorkloadSpecView)>,
    sv: Seq<(Seq<char>, int)>,
    fv: Seq<Seq<char>>,
) -> bool {
    &&& fin_ok(m, fv)
    &&& fv.no_duplicates()
    &&& stack_names(sv).no_duplicates()
    &&& (forall|x: Seq<char>| !(fv.contains(x) && stack_names(sv).contains(x)))
    &&& stack_entries_ok(m, sv)
    &&& stack_edges_ok(m, sv)
    &&& stack_processed_ok(m, sv, fv)
}

/// Finishing a fully explored top entry keeps the search invariants.
proof fn lemma_pop_step(
    m: Seq<(Seq<char>, WorkloadSpecView)>,
    sv: Seq<(Seq<char>, int)>,
    fv: Seq<Seq<char>>,
)
    requires
        search_ok(m, sv, fv),
        sv.len() > 0,
        sv.last().1 == dep_names(val_of(m, sv.last().0)).len(),
    ensures
        search_ok(m, sv.drop_last(), fv.push(sv.last().0)),
        fv.push(sv.last().0).contains(sv.last().0),
        forall|x: Seq<char>| fv.contains(x) ==> fv.push(sv.last().0).contains(x),
        stack_weight(m, sv.drop_last()) < stack_weight(m, sv),
        stack_weight(m, sv.drop_last()) >= 0,
{
    let top = sv.len() - 1;
    let nodename = sv[top].0;
    let sv2 = sv.drop_last();
    let fv2 = fv.push(nodename);
    assert(stack_names(sv)[top] == nodename);
    assert(stack_names(sv).contains(nodename));
    assert(fv2[fv.len() as int] == nodename);
    assert forall|x: Seq<char>| fv.contains(x) implies fv2.contains(x) by {
        let j = choose|j: int| 0 <= j < fv.len() && fv[j] == x;
        assert(fv2[j] == x);
    }
    assert forall|k: int|
        0 <= k < dep_names(val_of(m, nodename)).len() implies (!has_key(
        m,
        #[trigger] dep_names(val_of(m, nodename))[k],
    ) || exists|j: int| 0 <= j < fv.len() && fv2[j] == dep_names(val_of(m, nodename))[k]) by {
        let d = dep_names(val_of(m, nodename))[k];
        assert(dep_names(val_of(m, sv[top].0))[k] == d);
        if has_key(m, d) {
            assert(fv.contains(d));
            let j = choose|j: int| 0 <= j < fv.len() && fv[j] == d;
            assert(fv2[j] == d);
        }
    }
    assert forall|i: int, k: int|
        #![trigger dep_names(val_of(m, fv2[i]))[k]]
        0 <= i < fv2.len() && 0 <= k < dep_names(val_of(m, fv2[i])).len() implies (!has_key(
        m,
        dep_names(val_of(m, fv2[i]))[k],
    ) || exists|j: int| 0 <= j < i && fv2[j] == dep_names(val_of(m, fv2[i]))[k]) by {
        if i < fv.len() {
            assert(fv2[i] == fv[i]);
            if has_key(m, dep_names(val_of(m, fv[i]))[k]) {
                let j = choose|j: int| 0 <= j < i && fv[j] == dep_names(val_of(m, fv[i]))[k];
                assert(fv2[j] == dep_names(val_of(m, fv2[i]))[k]);
            }
        } else {
            assert(fv2[i] == nodename);
        }
    }
    assert(fin_ok(m, fv2));
    assert(!fv.contains(nodename));
    assert(fv2.no_duplicates());
    let sk2 = stack_names(sv2);
    assert forall|x: Seq<char>| !(fv2.contains(x) && sk2.contains(x)) by {
        if fv2.contains(x) && sk2.contains(x) {
            let a = choose|a: int| 0 <= a < sk2.len() && sk2[a] == x;
            assert(stack_names(sv)[a] == x);
            assert(stack_names(sv).contains(x));
            let b = choose|b: int| 0 <= b < fv2.len() && fv2[b] == x;
            if b < fv.len() {
                assert(fv.contains(x));
            } else {
                assert(x == nodename);
            }
        }
    }
    assert forall|x: int, y: int| 0 <= x < y < sk2.len() implies sk2[x] != sk2[y] by {
        assert(stack_names(sv)[x] == sk2[x] && stack_names(sv)[y] == sk2[y]);
    }
    assert forall|i: int, k: int|
        #![trigger dep_names(val_of(m, sv2[i].0))[k]]
        0 <= i < sv2.len() && 0 <= k < sv2[i].1 && (i == sv2.len() - 1 || k != sv2[i].1
            - 1) implies (!has_key(m, dep_names(val_of(m, sv2[i].0))[k]) || fv2.contains(
        dep_names(val_of(m, sv2[i].0))[k],
    )) by {
        assert(sv2[i] == sv[i]);
        let d = dep_names(val_of(m, sv[i].0))[k];
        if i == sv2.len() - 1 && k == sv[i].1 - 1 {
            assert(sv[i + 1].0 == d);
            assert(d == nodename);
            assert(fv2.contains(d));
        } else {
            if has_key(m, d) {
                assert(fv.contains(d));
                let j = choose|j: int| 0 <= j < fv.len() && fv[j] == d;
                assert(fv2[j] == d);
            }
        }
    }
    lemma_stack_weight_nonneg(m, sv2);
}

/// Stepping past a settled dependency keeps the search invariants.
proof fn lemma_skip_step(
    m: Seq<(Seq<char>, WorkloadSpecView)>,
    sv: Seq<(Seq<char>, int)>,
    fv: Seq<Seq<char>>,
    d: Seq<char>,
)
    requires
        search_ok(m, sv, fv),
        sv.len() > 0,
        sv.last().1 < dep_names(val_of(m, sv.last().0)).len(),
        d == dep_names(val_of(m, sv.last().0))[sv.last().1],
        !has_key(m, d) || fv.contains(d),
    ensures
        search_ok(m, sv.update(sv.len() - 1, (sv.last().0, sv.last().1 + 1)), fv),
        stack_names(sv.update(sv.len() - 1, (sv.last().0, sv.last().1 + 1))) == stack_names(sv),
        stack_weight(m, sv.update(sv.len() - 1, (sv.last().0, sv.last().1 + 1))) < stack_weight(
            m,
            sv,
        ),
        stack_weight(m, sv.update(sv.len() - 1, (sv.last().0, sv.last().1 + 1))) >= 0,
{
    let top = sv.len() - 1;
    let sv2 = sv.update(top, (sv.last().0, sv.last().1 + 1));
    assert(stack_names(sv2) =~= stack_names(sv));
    assert forall|i: int, k: int|
        #![trigger dep_names(val_of(m, sv2[i].0))[k]]
        0 <= i < sv2.len() && 0 <= k < sv2[i].1 && (i == sv2.len() - 1 || k != sv2[i].1
            - 1) implies (!has_key(m, dep_names(val_of(m, sv2[i].0))[k]) || fv.contains(
        dep_names(val_of(m, sv2[i].0))[k],
    )) by {
        if i == top {
            assert(sv2[i].0 == sv[i].0);
            if k < sv[i].1 {
                assert(dep_names(val_of(m, sv[i].0))[k] == dep_names(val_of(m, sv2[i].0))[k]);
            } else {
                assert(k == sv[i].1);
                assert(dep_names(val_of(m, sv2[i].0))[k] == d);
            }
        } else {
            assert(sv2[i] == sv[i]);
        }
    }
    assert(sv2.drop_last() =~= sv.drop_last());
    assert(stack_entries_ok(m, sv2.drop_last()));
    lemma_stack_weight_nonneg(m, sv2.drop_last());
}

/// Pushing a fresh dependency keeps the search invariants, and one more
/// node of the graph is now in hand.
proof fn lemma_push_step(
    m: Seq<(Seq<char>, WorkloadSpecView)>,
    sv: Seq<(Seq<char>, int)>,
    fv: Seq<Seq<char>>,
    d: Seq<char>,
)
    requires
        search_ok(m, sv, fv),
        sv.len() > 0,
        sv.last().1 < dep_names(val_of(m, sv.last().0)).len(),
        d == dep_names(val_of(m, sv.last().0))[sv.last().1],
        has_key(m, d),
        !fv.contains(d),
        !stack_names(sv).contains(d),
    ensures
        search_ok(
            m,
            sv.update(sv.len() - 1, (sv.last().0, sv.last().1 + 1)).push((d, 0int)),
            fv,
        ),
        fv.len() + sv.len() + 1 <= m.len(),
{
    let top = sv.len() - 1;
    let svm = sv.update(top, (sv.last().0, sv.last().1 + 1));
    let sv2 = svm.push((d, 0int));
    assert(stack_names(sv2) =~= stack_names(sv).push(d));
    let sk = stack_names(sv);
    let sk2 = stack_names(sv2);
    assert forall|x: Seq<char>| !(fv.contains(x) && sk2.contains(x)) by {
        if sk2.contains(x) {
            let a = choose|a: int| 0 <= a < sk2.len() && sk2[a] == x;
            if a < sv.len() {
                assert(sk[a] == x);
                assert(sk.contains(x));
            } else {
                assert(x == d);
            }
        }
    }
    assert forall|x: int, y: int| 0 <= x < y < sk2.len() implies sk2[x] != sk2[y] by {
        if y < sv.len() {
            assert(sk[x] != sk[y]);
            assert(sk2[x] == sk[x] && sk2[y] == sk[y]);
        } else {
            assert(sk2[y] == d);
            assert(sk2[x] == sk[x]);
            assert(sk.contains(sk[x]));
        }
    }
    assert forall|i: int, k: int|
        #![trigger dep_names(val_of(m, sv2[i].0))[k]]
        0 <= i < sv2.len() && 0 <= k < sv2[i].1 && (i == sv2.len() - 1 || k != sv2[i].1
            - 1) implies (!has_key(m, dep_names(val_of(m, sv2[i].0))[k]) || fv.contains(
        dep_names(val_of(m, sv2[i].0))[k],
    )) by {
        if i < sv.len() {
            if i == top {
                assert(sv2[i] == (sv[top].0, sv[top].1 + 1));
                assert(k != sv[i].1);
                assert(dep_names(val_of(m, sv[i].0))[k] == dep_names(val_of(m, sv2[i].0))[k]);
            } else {
                assert(sv2[i] == sv[i]);
            }
        }
    }
    assert(stack_edges_ok(m, sv2));
    assert forall|i: int| 0 <= i < sk2.len() implies has_key(m, #[trigger] sk2[i]) by {
        assert(sk2[i] == sv2[i].0);
    }
    lemma_sizes(m, fv, sk2);
}

/// A dependency found on the stack closes a cycle along the stacked path,
/// and the stack below it is a walk from the search root to that node.
proof fn lemma_cycle_found(
    m: Seq<(Seq<char>, WorkloadSpecView)>,
    sv: Seq<(Seq<char>, int)>,
    j: int,
    d: Seq<char>,
)
    requires
        stack_entries_ok(m, sv),
        stack_edges_ok(m, sv),
        sv.len() > 0,
        0 <= j < sv.len(),
        sv[j].0 == d,
        sv.last().1 < dep_names(val_of(m, sv.last().0)).len(),
        d == dep_names(val_of(m, sv.last().0))[sv.last().1],
    ensures
        exists|c: Seq<Seq<char>>| is_cycle(m, c) && c.contains(d),
        exists|p: Seq<Seq<char>>| is_path(m, p) && p[0] == sv[0].0 && p.last() == d,
{
    let walk = Seq::new((j + 1) as nat, |x: int| sv[x].0);
    assert forall|x: int| 0 <= x < walk.len() - 1 implies has_edge(m, #[trigger] walk[x], walk[x
        + 1]) by {
        assert(sv[x].1 >= 1 && sv[x + 1].0 == dep_names(val_of(m, sv[x].0))[sv[x].1 - 1]);
        assert(dep_names(val_of(m, sv[x].0)).contains(sv[x + 1].0));
    }
    assert(is_path(m, walk) && walk[0] == sv[0].0 && walk.last() == d);
    let c = Seq::new((sv.len() - j) as nat, |x: int| sv[j + x].0);
    assert forall|x: int| 0 <= x < c.len() - 1 implies has_edge(m, #[trigger] c[x], c[x + 1]) by {
        let i = j + x;
        assert(sv[i].1 >= 1 && sv[i + 1].0 == dep_names(val_of(m, sv[i].0))[sv[i].1 - 1]);
        assert(dep_names(val_of(m, sv[i].0)).contains(sv[i + 1].0));
    }
    assert(c[c.len() - 1] == sv[sv.len() - 1].0);
    assert(dep_names(val_of(m, sv.last().0)).contains(d));
    assert(has_key(m, sv[j].0));
    assert(c[0] == d);
    assert(has_edge(m, c[c.len() - 1], c[0]));
    assert(is_cycle(m, c));
    assert(c.contains(d));
}

/// Explores everything reachable from `root`, extending `fin`; reports a
/// node of a cycle if the exploration runs into one.
fn visit(state: &State, root: &String, fin: &mut Vec<String>) -> (r: Option<String>)
    requires
        fin_ok(state@, strings_view(old(fin)@)),
        strings_view(old(fin)@).no_duplicates(),
    ensures
        strings_view(final(fin)@).no_duplicates(),
        fin_ok(state@, strings_view(final(fin)@)),
        old(fin)@.len() <= final(fin)@.len(),
        forall|i: int| 0 <= i < old(fin)@.len() ==> strings_view(final(fin)@)[i] == strings_view(
            old(fin)@,
        )[i],
        match r {
            Some(n) => (exists|c: Seq<Seq<char>>| is_cycle(state@, c) && c.contains(n@)) && (
            exists|p: Seq<Seq<char>>| is_path(state@, p) && p[0] == root@ && p.last() == n@),
            None => has_key(state@, root@) ==> strings_view(final(fin)@).contains(root@),
        },
{
    proof {
        use_type_invariant(state);
    }
    let ghost m = state@;
    let ghost fv0 = strings_view(fin@);
    match state.get(root) {
        None => {
            return None;
        },
        Some(_) => {
        },
    }
    if contains_str(fin, root) {
        return None;
    }
    let mut stack: Vec<(String, usize)> = Vec::new();
    stack.push((root.clone(), 0));
    proof {
        let sv = stack_view(stack@);
        assert(sv =~= seq![(root@, 0int)]);
        assert(stack_names(sv) =~= seq![root@]);
        lemma_stack_weight_nonneg(m, sv);
        let sk = stack_names(sv);
        assert forall|i: int| 0 <= i < sk.len() implies has_key(m, #[trigger] sk[i]) by {
            assert(sk[i] == sv[i].0);
        }
        lemma_sizes(m, strings_view(fin@), sk);
    }
    loop
        invariant
            m == state@,
            search_ok(m, stack_view(stack@), strings_view(fin@)),
            m.len() - strings_view(fin@).len() - stack@.len() >= 0,
            stack_weight(m, stack_view(stack@)) >= 0,
            stack@.len() > 0 ==> stack_view(stack@)[0].0 == root@,
            stack@.len() == 0 ==> strings_view(fin@).contains(root@),
            fv0 == strings_view(old(fin)@),
            fv0.len() <= strings_view(fin@).len(),
            forall|i: int| 0 <= i < fv0.len() ==> strings_view(fin@)[i] == fv0[i],
        ensures
            stack@.len() == 0,
        decreases m.len() - strings_view(fin@).len() - stack@.len(), stack_weight(
            m,
            stack_view(stack@),
        ),
    {
        if stack.len() == 0 {
            break ;
        }
        let ghost sv = stack_view(stack@);
        let ghost fv = strings_view(fin@);
        let top = stack.len() - 1;
        let tkey = stack[top].0.clone();
        let tidx = stack[top].1;
        proof {
            assert(sv[top as int] == (tkey@, tidx as int));
            assert(sv.last() == (tkey@, tidx as int));
        }
        let w = match state.get(&tkey) {
            Some(w) => w,
            None => {
                proof {
                    assert(has_key(m, sv[top as int].0));
                    assert(false);
                }
                return None;
            },
        };
        proof {
            assert(w@ == val_of(m, tkey@));
            assert(dep_names(w@).len() == w.dependencies@.len());
        }
        if tidx == w.dependencies.len() {
            // every dependency explored: finish this node
            proof {
                lemma_pop_step(m, sv, fv);
            }
            let _ = stack.pop();
            fin.push(tkey);
            proof {
                assert(stack_view(stack@) =~= sv.drop_last());
                assert(strings_view(fin@) =~= fv.push(sv.last().0));
                if stack@.len() == 0 {
                    assert(sv[0].0 == root@);
                    assert(sv.last().0 == root@);
                }
            }
        } else {
            let depname = w.dependencies[tidx].0.clone();
            proof {
                assert(dep_names(w@)[tidx as int] == w.dependencies@[tidx as int].0@);
                assert(depname@ == dep_names(val_of(m, tkey@))[tidx as int]);
            }
            match stack_find(&stack, &depname) {
                Some(j) => {
                    // the dependency is being explored: the stack from there
                    // to the top is a cycle, and the stack starts at the root
                    proof {
                        lemma_cycle_found(m, sv, j as int, depname@);
                        assert(sv[0].0 == root@);
                    }
                    return Some(depname);
                },
                None => {
                    let in_fin = contains_str(fin, &depname);
                    let in_map = match state.get(&depname) {
                        Some(_) => true,
                        None => false,
                    };
                    proof {
                        assert(!stack_names(sv).contains(depname@)) by {
                            if stack_names(sv).contains(depname@) {
                                let a = choose|a: int|
                                    0 <= a < stack_names(sv).len() && stack_names(sv)[a]
                                        == depname@;
                                assert(sv[a].0 == depname@);
                            }
                        }
                    }
                    if in_fin || !in_map {
                        // out of the graph or already finished: step past it
                        proof {
                            lemma_skip_step(m, sv, fv, depname@);
                        }
                        let _ = stack.pop();
                        stack.push((tkey, tidx + 1));
                        proof {
                            assert(stack_view(stack@) =~= sv.update(
                                sv.len() - 1,
                                (sv.last().0, sv.last().1 + 1),
                            ));
                        }
                    } else {
                        // a fresh node: explore it next
                        proof {
                            lemma_push_step(m, sv, fv, depname@);
                        }
                        let _ = stack.pop();
                        stack.push((tkey, tidx + 1));
                        stack.push((depname, 0));
                        proof {
                            assert(stack_view(stack@) =~= sv.update(
                                sv.len() - 1,
                                (sv.last().0, sv.last().1 + 1),
                            ).push((depname@, 0int)));
                            lemma_stack_weight_nonneg(m, stack_view(stack@));
                        }
                    }
                },
            }
        }
    }
    None
}


/// Starts a depth-first search at each given node. Reports the name of a
/// node on some dependency cycle, or nothing when no start node can reach a
/// cycle — in particular, no cycle passes through any start node.
pub fn dfs(state: &State, start_nodes: &Vec<String>) -> (r: Option<String>)
    ensures
        (r matches Some(n) ==> (exists|c: Seq<Seq<char>>| is_cycle(state@, c) && c.contains(n@))
            && (exists|p: Seq<Seq<char>>|
            is_path(state@, p) && strings_view(start_nodes@).contains(p[0]) && p.last() == n@)),
        (r is None ==> forall|c: Seq<Seq<char>>| #[trigger]
            is_cycle(state@, c) ==> forall|i: int|
                0 <= i < c.len() ==> !strings_view(start_nodes@).contains(#[trigger] c[i])),
{
    proof {
        use_type_invariant(state);
    }
    let ghost m = state@;
    let mut fin: Vec<String> = Vec::new();
    proof {
        assert(strings_view(fin@) =~= Seq::<Seq<char>>::empty());
    }
    let n = start_nodes.len();
    let mut i: usize = 0;
    while i < n
        invariant
            m == state@,
            n == start_nodes@.len(),
            i <= n,
            fin_ok(m, strings_view(fin@)),
            strings_view(fin@).no_duplicates(),
            forall|j: int| 0 <= j < i ==> has_key(m, strings_view(start_nodes@)[j])
                ==> strings_view(fin@).contains(#[trigger] strings_view(start_nodes@)[j]),
        decreases n - i,
    {
        let ghost fv_before = strings_view(fin@);
        match visit(state, &start_nodes[i], &mut fin) {
            Some(found) => {
                proof {
                    assert(strings_view(start_nodes@)[i as int] == start_nodes@[i as int]@);
                    let p = choose|p: Seq<Seq<char>>|
                        is_path(m, p) && p[0] == start_nodes@[i as int]@ && p.last() == found@;
                    assert(strings_view(start_nodes@).contains(p[0]));
                }
                return Some(found);
            },
            None => {
            },
        }
        proof {
            assert(strings_view(start_nodes@)[i as int] == start_nodes@[i as int]@);
            assert forall|j: int|
                0 <= j < i + 1 && has_key(m, strings_view(start_nodes@)[j]) implies strings_view(
                fin@,
            ).contains(#[trigger] strings_view(start_nodes@)[j]) by {
                if j < i {
                    let x = strings_view(start_nodes@)[j];
                    let w = choose|w: int| 0 <= w < fv_before.len() && fv_before[w] == x;
                    assert(strings_view(fin@)[w] == x);
                }
            }
        }
        i += 1;
    }
    proof {
        let fv = strings_view(fin@);
        assert forall|c: Seq<Seq<char>>| #[trigger] is_cycle(m, c) implies (forall|k: int|
            0 <= k < c.len() ==> !strings_view(start_nodes@).contains(#[trigger] c[k])) by {
            assert forall|k: int|
                0 <= k < c.len() implies !strings_view(start_nodes@).contains(
                #[trigger] c[k],
            ) by {
                if strings_view(start_nodes@).contains(c[k]) {
                    let j = choose|j: int|
                        0 <= j < strings_view(start_nodes@).len() && strings_view(start_nodes@)[j]
                            == c[k];
                    if k < c.len() - 1 {
                        assert(has_edge(m, c[k], c[k + 1]));
                    } else {
                        assert(has_edge(m, c[c.len() - 1], c[0]));
                    }
                    assert(has_key(m, c[k]));
                    assert(fv.contains(c[k]));
                    let fi = choose|fi: int| 0 <= fi < fv.len() && fv[fi] == c[k];
                    lemma_fin_not_on_cycle(m, fv, c, fi, k);
                }
            }
        }
    }
    None
}

/// Starts the search at every workload of the state, as a caller with no
/// start set uses it: a clean run proves the whole graph acyclic.
pub fn dfs_all_workloads(state: &State) -> (r: Option<String>)
    ensures
        (r matches Some(n) ==> exists|c: Seq<Seq<char>>| is_cycle(state@, c) && c.contains(n@)),
        (r is None ==> acyclic(state@)),
{
    proof {
        use_type_invariant(state);
    }
    let ghost m = state@;
    let entries = state.entries();
    let mut roots: Vec<String> = Vec::new();
    let n = entries.len();
    let mut i: usize = 0;
    while i < n
        invariant
            n == entries@.len(),
            m == state@,
            crate::state::entries_view(entries@) == m,
            i <= n,
            roots@.len() == i,
            forall|j: int| 0 <= j < i ==> strings_view(roots@)[j] == m[j].0,
        decreases n - i,
    {
        let ghost before = roots@;
        roots.push(entries[i].0.clone());
        proof {
            assert(m[i as int].0 == entries@[i as int].0@);
            assert forall|j: int| 0 <= j < i + 1 implies strings_view(roots@)[j] == m[j].0 by {
                if j < i {
                    assert(roots@[j] == before[j]);
                    assert(strings_view(before)[j] == m[j].0);
                } else {
                    assert(roots@[j]@ == entries@[i as int].0@);
                }
            }
        }
        i += 1;
    }
    let r = dfs(state, &roots);
    proof {
        if r is None {
            assert forall|c: Seq<Seq<char>>| !is_cycle(m, c) by {
                if is_cycle(m, c) {
                    if c.len() >= 2 {
                        assert(has_edge(m, c[0], c[1]));
                    } else {
                        assert(has_edge(m, c[c.len() - 1], c[0]));
                    }
                    assert(has_key(m, c[0]));
                    let e = choose|e: int| 0 <= e < m.len() && (#[trigger] m[e]).0 == c[0];
                    assert(strings_view(roots@)[e] == c[0]);
                    assert(strings_view(roots@).contains(c[0]));
                }
            }
        }
    }
    r
}

} // verus!
