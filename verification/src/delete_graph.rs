//! The delete-condition graph: records, for each workload, which dependents
//! require it to reach a given state before it may be torn down.
use vstd::prelude::*;

use crate::objects::{deps_view, DeleteCondition, DeletedWorkload, DeletedWorkloadView, WorkloadSpec, WorkloadSpecView};
use crate::state::{has_key, idx_of, unique_keys, val_of};

verus! {

pub type GraphView = Seq<(Seq<char>, Seq<(Seq<char>, DeleteCondition)>)>;

pub open spec fn dw_list_view(s: Seq<DeletedWorkload>) -> Seq<DeletedWorkloadView> {
    s.map_values(|d: DeletedWorkload| d@)
}

/// Replaces the entry for `k` in place, or appends one.
pub open spec fn put_cond(
    s: Seq<(Seq<char>, DeleteCondition)>,
    k: Seq<char>,
    c: DeleteCondition,
) -> Seq<(Seq<char>, DeleteCondition)> {
    if has_key(s, k) {
        s.update(idx_of(s, k), (k, c))
    } else {
        s.push((k, c))
    }
}

/// Records the edge `dep -> (dependent, c)`.
pub open spec fn record_dep(
    g: GraphView,
    dep: Seq<char>,
    dependent: Seq<char>,
    c: DeleteCondition,
) -> GraphView {
    if has_key(g, dep) {
        g.update(idx_of(g, dep), (dep, put_cond(val_of(g, dep), dependent, c)))
    } else {
        g.push((dep, seq![(dependent, c)]))
    }
}

/// Records all edges of one workload's dependencies, starting at entry `i`.
pub open spec fn record_deps_from(
    g: GraphView,
    name: Seq<char>,
    deps: Seq<(Seq<char>, DeleteCondition)>,
    i: int,
) -> GraphView
    decreases deps.len() - i,
{
    if i < 0 || i >= deps.len() {
        g
    } else {
        record_deps_from(record_dep(g, deps[i].0, name, deps[i].1), name, deps, i + 1)
    }
}

/// Records the dependencies of every added workload, starting at entry `i`.
pub open spec fn record_added_from(g: GraphView, added: Seq<WorkloadSpecView>, i: int) -> GraphView
    decreases added.len() - i,
{
    if i < 0 || i >= added.len() {
        g
    } else {
        record_added_from(
            record_deps_from(g, added[i].name, added[i].dependencies, 0),
            added,
            i + 1,
        )
    }
}

/// Drops the entry for `k`, if any.
pub open spec fn drop_key(g: GraphView, k: Seq<char>) -> GraphView {
    if has_key(g, k) {
        g.remove(idx_of(g, k))
    } else {
        g
    }
}

/// The conditions registered against `k`.
pub open spec fn conditions_of(g: GraphView, k: Seq<char>) -> Seq<(Seq<char>, DeleteCondition)> {
    if has_key(g, k) {
        val_of(g, k)
    } else {
        Seq::<(Seq<char>, DeleteCondition)>::empty()
    }
}

/// Annotates each deleted workload from entry `i` on with its conditions and
/// clears the graph entries used.
pub open spec fn annotate_from(
    g: GraphView,
    ds: Seq<DeletedWorkloadView>,
    i: int,
) -> (GraphView, Seq<DeletedWorkloadView>)
    decreases ds.len() - i,
{
    if i < 0 || i >= ds.len() {
        (g, ds)
    } else {
        let d = ds[i];
        let annotated = DeletedWorkloadView {
            name: d.name,
            agent: d.agent,
            dependencies: conditions_of(g, d.name),
        };
        annotate_from(drop_key(g, d.name), ds.update(i, annotated), i + 1)
    }
}

pub open spec fn graph_wf(g: GraphView) -> bool {
    unique_keys(g) && forall|i: int| 0 <= i < g.len() ==> unique_keys((#[trigger] g[i]).1)
}

/// Maintains, for each workload, the set of dependents whose conditions must
/// hold before that workload may be torn down.
#[derive(Debug)]
pub struct DeleteGraph {
    edges: Vec<(String, Vec<(String, DeleteCondition)>)>,
}

pub open spec fn graph_view(es: Seq<(String, Vec<(String, DeleteCondition)>)>) -> GraphView {
    es.map_values(|p: (String, Vec<(String, DeleteCondition)>)| (p.0@, deps_view(p.1@)))
}

impl View for DeleteGraph {
    type V = GraphView;

    closed spec fn view(&self) -> GraphView {
        graph_view(self.edges@)
    }
}

/// Replaces or appends the condition of one dependent in a condition list.
fn put_cond_vec(v: &mut Vec<(String, DeleteCondition)>, k: String, c: DeleteCondition)
    requires
        unique_keys(deps_view(old(v)@)),
    ensures
        deps_view(final(v)@) == put_cond(deps_view(old(v)@), k@, c),
        unique_keys(deps_view(final(v)@)),
{
    let ghost old_view = deps_view(v@);
    let n = v.len();
    let mut i: usize = 0;
    while i < n
        invariant
            unique_keys(old_view),
            n == v@.len(),
            i <= n,
            old_view == deps_view(v@),
            old_view == deps_view(old(v)@),
            forall|j: int| 0 <= j < i ==> (#[trigger] old_view[j]).0 != k@,
        decreases n - i,
    {
        if v[i].0 == k {
            assert(old_view[i as int].0 == k@);
            proof {
                assert(has_key(old_view, k@));
                let w = idx_of(old_view, k@);
                assert(0 <= w < old_view.len() && old_view[w].0 == k@);
                assert(w == i as int);
            }
            v.set(i, (k, c));
            proof {
                let upd = deps_view(v@);
                assert(upd =~= old_view.update(i as int, (k@, c)));
                assert forall|x: int, y: int| 0 <= x < y < upd.len() implies (#[trigger] upd[x]).0
                    != (#[trigger] upd[y]).0 by {
                    assert(old_view[x].0 != old_view[y].0);
                    if x == i as int {
                        assert(upd[x].0 == k@ && k@ == old_view[x].0);
                    } else if y == i as int {
                        assert(upd[y].0 == k@ && k@ == old_view[y].0);
                    }
                }
            }
            return ;
        }
        assert(old_view[i as int].0 != k@);
        i += 1;
    }
    v.push((k, c));
    proof {
        assert(!has_key(old_view, k@));
        let upd = deps_view(v@);
        assert(upd =~= old_view.push((k@, c)));
        assert forall|x: int, y: int| 0 <= x < y < upd.len() implies (#[trigger] upd[x]).0 != (
        #[trigger] upd[y]).0 by {
            if y == old_view.len() {
                assert(old_view[x].0 != k@);
            } else {
                assert(old_view[x].0 != old_view[y].0);
            }
        }
    }
}

/// Records the edge `dep -> (dependent, c)` in the edge list.
fn record_dep_vec(
    ev: &mut Vec<(String, Vec<(String, DeleteCondition)>)>,
    dep: &String,
    dependent: &String,
    c: DeleteCondition,
)
    requires
        graph_wf(graph_view(old(ev)@)),
    ensures
        graph_view(final(ev)@) == record_dep(graph_view(old(ev)@), dep@, dependent@, c),
        graph_wf(graph_view(final(ev)@)),
{
    let ghost old_view = graph_view(ev@);
    let n = ev.len();
    let mut i: usize = 0;
    while i < n
        invariant
            graph_wf(old_view),
            n == ev@.len(),
            i <= n,
            old_view == graph_view(ev@),
            old_view == graph_view(old(ev)@),
            forall|j: int| 0 <= j < i ==> (#[trigger] old_view[j]).0 != dep@,
        decreases n - i,
    {
        if ev[i].0 == *dep {
            assert(old_view[i as int].0 == dep@);
            proof {
                assert(has_key(old_view, dep@));
                let w = idx_of(old_view, dep@);
                assert(0 <= w < old_view.len() && old_view[w].0 == dep@);
                assert(w == i as int);
                assert(val_of(old_view, dep@) == deps_view(ev@[i as int].1@));
            }
            let (k0, mut inner) = ev.remove(i);
            put_cond_vec(&mut inner, dependent.clone(), c);
            ev.insert(i, (k0, inner));
            proof {
                let upd = graph_view(ev@);
                let target = record_dep(old_view, dep@, dependent@, c);
                assert(upd =~= target);
                assert forall|x: int, y: int| 0 <= x < y < upd.len() implies (#[trigger] upd[x]).0
                    != (#[trigger] upd[y]).0 by {
                    assert(old_view[x].0 != old_view[y].0);
                    if x == i as int {
                        assert(upd[x].0 == dep@ && dep@ == old_view[x].0);
                    } else if y == i as int {
                        assert(upd[y].0 == dep@ && dep@ == old_view[y].0);
                    }
                }
                assert forall|x: int| 0 <= x < upd.len() implies unique_keys(
                    (#[trigger] upd[x]).1,
                ) by {
                    if x != i as int {
                        assert(upd[x] == old_view[x]);
                        assert(unique_keys(old_view[x].1));
                    }
                }
            }
            return ;
        }
        assert(old_view[i as int].0 != dep@);
        i += 1;
    }
    let mut inner: Vec<(String, DeleteCondition)> = Vec::new();
    inner.push((dependent.clone(), c));
    proof {
        assert(deps_view(inner@) =~= seq![(dependent@, c)]);
    }
    ev.push((dep.clone(), inner));
    proof {
        assert(!has_key(old_view, dep@));
        let upd = graph_view(ev@);
        assert(upd =~= old_view.push((dep@, seq![(dependent@, c)])));
        assert forall|x: int, y: int| 0 <= x < y < upd.len() implies (#[trigger] upd[x]).0 != (
        #[trigger] upd[y]).0 by {
            if y == old_view.len() {
                assert(old_view[x].0 != dep@);
            } else {
                assert(old_view[x].0 != old_view[y].0);
            }
        }
        assert forall|x: int| 0 <= x < upd.len() implies unique_keys((#[trigger] upd[x]).1) by {
            if x < old_view.len() {
                assert(upd[x] == old_view[x]);
                assert(unique_keys(old_view[x].1));
            } else {
                assert(upd[x].1 =~= seq![(dependent@, c)]);
            }
        }
    }
}

impl DeleteGraph {
    #[verifier::type_invariant]
    pub open spec fn wf(self) -> bool {
        graph_wf(self@)
    }

    pub fn new() -> (g: DeleteGraph)
        ensures
            g@ == Seq::<(Seq<char>, Seq<(Seq<char>, DeleteCondition)>)>::empty(),
    {
        let g = DeleteGraph { edges: Vec::new() };
        proof {
            assert(g@ =~= Seq::<(Seq<char>, Seq<(Seq<char>, DeleteCondition)>)>::empty());
        }
        g
    }

    /// Records, for each added workload, one edge per dependency entry.
    pub fn insert(&mut self, added: &Vec<WorkloadSpec>)
        ensures
            final(self)@ == record_added_from(
                old(self)@,
                added@.map_values(|w: WorkloadSpec| w@),
                0,
            ),
    {
        proof {
            use_type_invariant(&*self);
        }
        let ghost addedv = added@.map_values(|w: WorkloadSpec| w@);
        let ghost target = record_added_from(self@, addedv, 0);
        let mut ev: Vec<(String, Vec<(String, DeleteCondition)>)> = Vec::new();
        core::mem::swap(&mut self.edges, &mut ev);
        proof {
            assert(self@ =~= Seq::<(Seq<char>, Seq<(Seq<char>, DeleteCondition)>)>::empty());
        }
        let na = added.len();
        let mut i: usize = 0;
        while i < na
            invariant
                na == added@.len(),
                i <= na,
                addedv == added@.map_values(|w: WorkloadSpec| w@),
                graph_wf(graph_view(ev@)),
                target == record_added_from(graph_view(ev@), addedv, i as int),
            decreases na - i,
        {
            let w = &added[i];
            let nd = w.dependencies.len();
            let mut k: usize = 0;
            proof {
                assert(addedv[i as int] == added@[i as int]@);
                assert(deps_view(w.dependencies@) == addedv[i as int].dependencies);
            }
            while k < nd
                invariant
                    nd == w.dependencies@.len(),
                    k <= nd,
                    i < na == added@.len(),
                    w == &added[i as int],
                    addedv == added@.map_values(|ww: WorkloadSpec| ww@),
                    addedv[i as int] == added@[i as int]@,
                    graph_wf(graph_view(ev@)),
                    target == record_added_from(
                        record_deps_from(
                            graph_view(ev@),
                            addedv[i as int].name,
                            addedv[i as int].dependencies,
                            k as int,
                        ),
                        addedv,
                        i as int + 1,
                    ),
                decreases nd - k,
            {
                proof {
                    assert(addedv[i as int].dependencies[k as int] == (
                        w.dependencies@[k as int].0@,
                        w.dependencies@[k as int].1,
                    ));
                }
                record_dep_vec(&mut ev, &w.dependencies[k].0, &w.name, w.dependencies[k].1);
                k += 1;
            }
            i += 1;
        }
        core::mem::swap(&mut self.edges, &mut ev);
        proof {
            assert(record_added_from(self@, addedv, na as int) == self@);
        }
    }

    /// Annotates each deleted workload with the conditions registered against
    /// its name and clears those entries.
    pub fn apply_delete_conditions_to(&mut self, deleted: &mut Vec<DeletedWorkload>)
        ensures
            (final(self)@, dw_list_view(final(deleted)@)) == annotate_from(
                old(self)@,
                dw_list_view(old(deleted)@),
                0,
            ),
    {
        proof {
            use_type_invariant(&*self);
        }
        let ghost pair = annotate_from(self@, dw_list_view(deleted@), 0);
        let mut ev: Vec<(String, Vec<(String, DeleteCondition)>)> = Vec::new();
        core::mem::swap(&mut self.edges, &mut ev);
        proof {
            assert(self@ =~= Seq::<(Seq<char>, Seq<(Seq<char>, DeleteCondition)>)>::empty());
        }
        let nd = deleted.len();
        let mut i: usize = 0;
        while i < nd
            invariant
                nd == deleted@.len(),
                i <= nd,
                graph_wf(graph_view(ev@)),
                pair == annotate_from(graph_view(ev@), dw_list_view(deleted@), i as int),
            decreases nd - i,
        {
            let ghost gv = graph_view(ev@);
            let ghost dv = dw_list_view(deleted@);
            let name = deleted[i].name.clone();
            let mut conds: Vec<(String, DeleteCondition)> = Vec::new();
            let ne = ev.len();
            let mut j: usize = 0;
            let mut found: bool = false;
            while j < ne && !found
                invariant
                    ne == ev@.len(),
                    j <= ne,
                    gv == graph_view(ev@),
                    graph_wf(gv),
                    name@ == dv[i as int].name,
                    i < nd == deleted@.len(),
                    dv == dw_list_view(deleted@),
                    conds@.len() == 0,
                    !found ==> forall|x: int| 0 <= x < j ==> (#[trigger] gv[x]).0 != name@,
                    found ==> 0 < j <= ne && gv[j - 1].0 == name@ && (forall|x: int|
                        0 <= x < j - 1 ==> (#[trigger] gv[x]).0 != name@),
                decreases ne - j,
            {
                if ev[j].0 == name {
                    found = true;
                    proof {
                        assert(gv[j as int].0 == ev@[j as int].0@);
                    }
                } else {
                    proof {
                        assert(gv[j as int].0 == ev@[j as int].0@);
                    }
                }
                j += 1;
            }
            if found {
                let pos = j - 1;
                proof {
                    let w = idx_of(gv, name@);
                    assert(0 <= w < gv.len() && gv[w].0 == name@);
                    assert(w == pos as int);
                    assert(conditions_of(gv, name@) == deps_view(ev@[pos as int].1@));
                }
                let (_k0, inner) = ev.remove(pos);
                conds = inner;
                proof {
                    assert(graph_view(ev@) =~= drop_key(gv, name@));
                    let upd = graph_view(ev@);
                    assert forall|x: int| 0 <= x < upd.len() implies unique_keys(
                        (#[trigger] upd[x]).1,
                    ) by {
                        if x < pos as int {
                            assert(upd[x] == gv[x]);
                            assert(unique_keys(gv[x].1));
                        } else {
                            assert(upd[x] == gv[x + 1]);
                            assert(unique_keys(gv[x + 1].1));
                        }
                    }
                    assert forall|x: int, y: int| 0 <= x < y < upd.len() implies (
                    #[trigger] upd[x]).0 != (#[trigger] upd[y]).0 by {
                        let x2: int = if x < pos as int {
                            x
                        } else {
                            x + 1
                        };
                        let y2: int = if y < pos as int {
                            y
                        } else {
                            y + 1
                        };
                        assert(gv[x2].0 != gv[y2].0);
                    }
                }
            } else {
                proof {
                    assert(!has_key(gv, name@));
                    assert(conditions_of(gv, name@) =~= Seq::<(Seq<char>, DeleteCondition)>::empty());
                    assert(deps_view(conds@) =~= Seq::<(Seq<char>, DeleteCondition)>::empty());
                    assert(drop_key(gv, name@) == gv);
                }
            }
            let agent = deleted[i].agent.clone();
            let annotated = DeletedWorkload { name, agent, dependencies: conds };
            proof {
                assert(annotated@ == (DeletedWorkloadView {
                    name: dv[i as int].name,
                    agent: dv[i as int].agent,
                    dependencies: conditions_of(gv, dv[i as int].name),
                }));
            }
            deleted.set(i, annotated);
            proof {
                assert(dw_list_view(deleted@) =~= dv.update(i as int, annotated@));
            }
            i += 1;
        }
        core::mem::swap(&mut self.edges, &mut ev);
        proof {
            assert(annotate_from(self@, dw_list_view(deleted@), nd as int) == (
                self@,
                dw_list_view(deleted@),
            ));
        }
    }
}

impl Default for DeleteGraph {
    fn default() -> (g: DeleteGraph)
        ensures
            g@ == Seq::<(Seq<char>, Seq<(Seq<char>, DeleteCondition)>)>::empty(),
    {
        DeleteGraph::new()
    }
}

} // verus!
