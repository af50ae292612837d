//! The server state manager: merges an incoming complete state into the
//! current one over a dotted field mask, diffs old against new workloads,
//! rejects states with cyclic dependencies, and serves filtered reads.
use vstd::prelude::*;

use crate::cycle_check;
use crate::cycle_check::{acyclic, is_cycle};
use crate::delete_graph::{annotate_from, dw_list_view, record_added_from, DeleteGraph, GraphView};
use crate::doc::{split_path, strings_view, Doc, DocView};
use crate::objects::{DeletedWorkload, DeletedWorkloadView, WorkloadSpec, WorkloadSpecView};
use crate::state::{has_key, val_of, CompleteState, CompleteStateView, State};
use crate::state_doc::{complete_state_doc, complete_state_from_doc, complete_state_from_doc_v, complete_state_to_doc, state_doc, ws_doc};
use crate::workload_state_db::WorkloadStateDB;

verus! {

/// Why an update was rejected. The state is unchanged in every case.
#[derive(Clone, Debug)]
pub enum UpdateStateError {
    FieldNotFound(String),
    ResultInvalid(String),
    CycleInDependencies(String),
}

#[verifier::ext_equal]
pub enum UpdateStateErrorView {
    FieldNotFound(Seq<char>),
    ResultInvalid(Seq<char>),
    CycleInDependencies(Seq<char>),
}

impl View for UpdateStateError {
    type V = UpdateStateErrorView;

    open spec fn view(&self) -> UpdateStateErrorView {
        match self {
            UpdateStateError::FieldNotFound(s) => UpdateStateErrorView::FieldNotFound(s@),
            UpdateStateError::ResultInvalid(s) => UpdateStateErrorView::ResultInvalid(s@),
            UpdateStateError::CycleInDependencies(s) => UpdateStateErrorView::CycleInDependencies(
                s@,
            ),
        }
    }
}

impl PartialEq for UpdateStateError {
    fn eq(&self, other: &Self) -> (r: bool) {
        match (self, other) {
            (UpdateStateError::FieldNotFound(a), UpdateStateError::FieldNotFound(b)) => *a == *b,
            (UpdateStateError::ResultInvalid(a), UpdateStateError::ResultInvalid(b)) => *a == *b,
            (
                UpdateStateError::CycleInDependencies(a),
                UpdateStateError::CycleInDependencies(b),
            ) => *a == *b,
            _ => false,
        }
    }
}

impl Eq for UpdateStateError {

}

impl vstd::std_specs::cmp::PartialEqSpecImpl for UpdateStateError {
    open spec fn obeys_eq_spec() -> bool {
        true
    }

    open spec fn eq_spec(&self, other: &Self) -> bool {
        self@ == other@
    }
}

impl UpdateStateError {
    /// A human-readable description of the rejection.
    pub fn message(&self) -> (r: String)
        ensures
            match self@ {
                UpdateStateErrorView::FieldNotFound(f) => r@ == "Could not find field "@ + f,
                UpdateStateErrorView::ResultInvalid(m) => r@
                    == "Resulting State is invalid, reason: '"@ + m + "'"@,
                UpdateStateErrorView::CycleInDependencies(w) => r@ == "workload dependency '"@ + w
                    + "' is part of a cycle."@,
            },
    {
        match self {
            UpdateStateError::FieldNotFound(f) => {
                let mut s = "Could not find field ".to_owned();
                s.append(f.as_str());
                s
            },
            UpdateStateError::ResultInvalid(m) => {
                let mut s = "Resulting State is invalid, reason: '".to_owned();
                s.append(m.as_str());
                s.append("'");
                s
            },
            UpdateStateError::CycleInDependencies(w) => {
                let mut s = "workload dependency '".to_owned();
                s.append(w.as_str());
                s.append("' is part of a cycle.");
                s
            },
        }
    }
}

// ---------------------------------------------------------------------------
// Diffing two desired states
// ---------------------------------------------------------------------------
/// The old entries that are gone or changed in the new state, as deletions.
pub open spec fn deleted_of(
    old_s: Seq<(Seq<char>, WorkloadSpecView)>,
    new_s: Seq<(Seq<char>, WorkloadSpecView)>,
) -> Seq<DeletedWorkloadView>
    decreases old_s.len(),
{
    if old_s.len() == 0 {
        Seq::<DeletedWorkloadView>::empty()
    } else {
        let rest = deleted_of(old_s.drop_last(), new_s);
        let p = old_s.last();
        if has_key(new_s, p.0) && val_of(new_s, p.0) == p.1 {
            rest
        } else {
            rest.push(
                (DeletedWorkloadView {
                    name: p.0,
                    agent: p.1.agent,
                    dependencies: Seq::<(Seq<char>, crate::objects::DeleteCondition)>::empty(),
                }),
            )
        }
    }
}

/// The new values of old entries whose value changed.
pub open spec fn changed_of(
    old_s: Seq<(Seq<char>, WorkloadSpecView)>,
    new_s: Seq<(Seq<char>, WorkloadSpecView)>,
) -> Seq<WorkloadSpecView>
    decreases old_s.len(),
{
    if old_s.len() == 0 {
        Seq::<WorkloadSpecView>::empty()
    } else {
        let rest = changed_of(old_s.drop_last(), new_s);
        let p = old_s.last();
        if has_key(new_s, p.0) && val_of(new_s, p.0) != p.1 {
            rest.push(val_of(new_s, p.0))
        } else {
            rest
        }
    }
}

/// The entries of the new state whose key the old state lacks.
pub open spec fn fresh_of(
    old_s: Seq<(Seq<char>, WorkloadSpecView)>,
    new_s: Seq<(Seq<char>, WorkloadSpecView)>,
) -> Seq<WorkloadSpecView>
    decreases new_s.len(),
{
    if new_s.len() == 0 {
        Seq::<WorkloadSpecView>::empty()
    } else {
        let rest = fresh_of(old_s, new_s.drop_last());
        let p = new_s.last();
        if !has_key(old_s, p.0) {
            rest.push(p.1)
        } else {
            rest
        }
    }
}

/// Everything to start: changed workloads first, then brand-new ones.
pub open spec fn added_of(
    old_s: Seq<(Seq<char>, WorkloadSpecView)>,
    new_s: Seq<(Seq<char>, WorkloadSpecView)>,
) -> Seq<WorkloadSpecView> {
    changed_of(old_s, new_s) + fresh_of(old_s, new_s)
}

pub open spec fn wl_list_view(s: Seq<WorkloadSpec>) -> Seq<WorkloadSpecView> {
    s.map_values(|w: WorkloadSpec| w@)
}

/// Diffs the workloads of two states. `None` when nothing changed.
pub fn extract_added_and_deleted_workloads(current_state: &State, new_state: &State) -> (r: Option<
    (Vec<WorkloadSpec>, Vec<DeletedWorkload>),
>)
    ensures
        match r {
            Some(ad) => wl_list_view(ad.0@) == added_of(current_state@, new_state@) && dw_list_view(
                ad.1@,
            ) == deleted_of(current_state@, new_state@) && (added_of(
                current_state@,
                new_state@,
            ).len() > 0 || deleted_of(current_state@, new_state@).len() > 0),
            None => added_of(current_state@, new_state@).len() == 0 && deleted_of(
                current_state@,
                new_state@,
            ).len() == 0,
        },
{
    let ghost oldv = current_state@;
    let ghost newv = new_state@;
    let mut added: Vec<WorkloadSpec> = Vec::new();
    let mut deleted: Vec<DeletedWorkload> = Vec::new();
    let entries = current_state.entries();
    let n = entries.len();
    let mut i: usize = 0;
    proof {
        assert(oldv.take(0) =~= Seq::<(Seq<char>, WorkloadSpecView)>::empty());
        assert(wl_list_view(added@) =~= Seq::<WorkloadSpecView>::empty());
        assert(dw_list_view(deleted@) =~= Seq::<DeletedWorkloadView>::empty());
    }
    while i < n
        invariant
            n == entries@.len(),
            i <= n,
            oldv == current_state@,
            newv == new_state@,
            crate::state::entries_view(entries@) == oldv,
            wl_list_view(added@) == changed_of(oldv.take(i as int), newv),
            dw_list_view(deleted@) == deleted_of(oldv.take(i as int), newv),
        decreases n - i,
    {
        let ghost pre = oldv.take(i as int + 1);
        proof {
            assert(pre.drop_last() =~= oldv.take(i as int));
            assert(pre.last() == oldv[i as int]);
            assert(oldv[i as int] == (entries@[i as int].0@, entries@[i as int].1@));
        }
        let key = &entries[i].0;
        let old_w = &entries[i].1;
        match new_state.get(key) {
            Some(new_w) => {
                if !(*old_w == *new_w) {
                    proof {
                        assert(wl_list_view(added@.push(*new_w)) =~= wl_list_view(added@).push(
                            new_w@,
                        ));
                    }
                    added.push(new_w.duplicate());
                    let d = DeletedWorkload {
                        agent: old_w.agent.clone(),
                        name: key.clone(),
                        dependencies: Vec::new(),
                    };
                    proof {
                        assert(d@ == deleted_of(pre, newv).last());
                        assert(dw_list_view(deleted@.push(d)) =~= dw_list_view(deleted@).push(d@));
                    }
                    deleted.push(d);
                }
            },
            None => {
                let d = DeletedWorkload {
                    agent: old_w.agent.clone(),
                    name: key.clone(),
                    dependencies: Vec::new(),
                };
                proof {
                    assert(d@ == deleted_of(pre, newv).last());
                    assert(dw_list_view(deleted@.push(d)) =~= dw_list_view(deleted@).push(d@));
                }
                deleted.push(d);
            },
        }
        i += 1;
    }
    proof {
        assert(oldv.take(n as int) =~= oldv);
    }
    let new_entries = new_state.entries();
    let m = new_entries.len();
    let mut k: usize = 0;
    proof {
        assert(newv.take(0) =~= Seq::<(Seq<char>, WorkloadSpecView)>::empty());
        assert(wl_list_view(added@) + fresh_of(oldv, newv.take(0)) =~= wl_list_view(added@));
    }
    while k < m
        invariant
            m == new_entries@.len(),
            k <= m,
            oldv == current_state@,
            newv == new_state@,
            crate::state::entries_view(new_entries@) == newv,
            wl_list_view(added@) == changed_of(oldv, newv) + fresh_of(oldv, newv.take(k as int)),
            dw_list_view(deleted@) == deleted_of(oldv, newv),
        decreases m - k,
    {
        let ghost pre = newv.take(k as int + 1);
        proof {
            assert(pre.drop_last() =~= newv.take(k as int));
            assert(pre.last() == newv[k as int]);
            assert(newv[k as int] == (new_entries@[k as int].0@, new_entries@[k as int].1@));
        }
        let key = &new_entries[k].0;
        if !current_state.contains(key) {
            let w = new_entries[k].1.duplicate();
            proof {
                assert(wl_list_view(added@.push(w)) =~= wl_list_view(added@).push(w@));
                assert(wl_list_view(added@).push(w@) =~= changed_of(oldv, newv) + fresh_of(
                    oldv,
                    pre,
                ));
            }
            added.push(w);
        }
        k += 1;
    }
    proof {
        assert(newv.take(m as int) =~= newv);
        assert(wl_list_view(added@) == added_of(oldv, newv));
    }
    if added.len() == 0 && deleted.len() == 0 {
        None
    } else {
        Some((added, deleted))
    }
}

// ---------------------------------------------------------------------------
// Merging over the update mask
// ---------------------------------------------------------------------------
/// Applies the mask entries from `i` on: present fields are set, absent ones
/// removed. An entry that cannot be set or removed fails the whole merge.
pub open spec fn apply_mask_from(
    cur: DocView,
    upd: DocView,
    mask: Seq<Seq<char>>,
    i: int,
) -> Result<DocView, Seq<char>>
    decreases mask.len() - i,
{
    if i < 0 || i >= mask.len() {
        Ok(cur)
    } else {
        let path = split_path(mask[i]);
        match crate::doc::doc_get_v(upd, path) {
            Some(v) => match crate::doc::doc_set_v(cur, path, v) {
                Some(c2) => apply_mask_from(c2, upd, mask, i + 1),
                None => Err(mask[i]),
            },
            None => match crate::doc::doc_remove_v(cur, path) {
                Some(c2) => apply_mask_from(c2, upd, mask, i + 1),
                None => Err(mask[i]),
            },
        }
    }
}

/// What merging `upd` into `cur` over `mask` yields: with an empty mask the
/// whole new state, else the masked merge of the two documents, read back.
pub open spec fn update_state_result(
    cur: CompleteStateView,
    upd: CompleteStateView,
    mask: Seq<Seq<char>>,
) -> Result<CompleteStateView, UpdateStateErrorView> {
    if mask.len() == 0 {
        Ok(upd)
    } else {
        match apply_mask_from(complete_state_doc(cur), complete_state_doc(upd), mask, 0) {
            Ok(d) => match complete_state_from_doc_v(d) {
                Some(cs) => Ok(cs),
                None => Err(
                    UpdateStateErrorView::ResultInvalid("Could not parse into CompleteState."@),
                ),
            },
            Err(f) => Err(UpdateStateErrorView::FieldNotFound(f)),
        }
    }
}

/// Merges an incoming complete state into the current one over the mask.
pub fn update_state(
    current_state: &CompleteState,
    updated_state: CompleteState,
    update_mask: &Vec<String>,
) -> (r: Result<CompleteState, UpdateStateError>)
    ensures
        match r {
            Ok(cs) => update_state_result(
                current_state@,
                updated_state@,
                strings_view(update_mask@),
            ) == Ok::<CompleteStateView, UpdateStateErrorView>(cs@),
            Err(e) => update_state_result(
                current_state@,
                updated_state@,
                strings_view(update_mask@),
            ) == Err::<CompleteStateView, UpdateStateErrorView>(e@),
        },
{
    let ghost maskv = strings_view(update_mask@);
    if update_mask.len() == 0 {
        return Ok(updated_state);
    }
    let mut cur_doc = complete_state_to_doc(current_state);
    let upd_doc = complete_state_to_doc(&updated_state);
    let n = update_mask.len();
    let mut i: usize = 0;
    while i < n
        invariant
            n == update_mask@.len(),
            i <= n,
            maskv == strings_view(update_mask@),
            upd_doc@ == complete_state_doc(updated_state@),
            apply_mask_from(complete_state_doc(current_state@), upd_doc@, maskv, 0)
                == apply_mask_from(cur_doc@, upd_doc@, maskv, i as int),
        decreases n - i,
    {
        let path = crate::doc::parse_path(&update_mask[i]);
        proof {
            assert(strings_view(path@) == split_path(maskv[i as int]));
            assert(strings_view(path@).skip(0) =~= strings_view(path@));
        }
        match upd_doc.get_path(&path, 0) {
            Some(sub) => {
                let subc = sub.duplicate();
                let (nd, ok) = cur_doc.set_path(&path, 0, subc);
                cur_doc = nd;
                if !ok {
                    return Err(UpdateStateError::FieldNotFound(update_mask[i].clone()));
                }
            },
            None => {
                let (nd, ok) = cur_doc.remove_path(&path, 0);
                cur_doc = nd;
                if !ok {
                    return Err(UpdateStateError::FieldNotFound(update_mask[i].clone()));
                }
            },
        }
        i += 1;
    }
    match complete_state_from_doc(&cur_doc) {
        Some(cs) => Ok(cs),
        None => Err(UpdateStateError::ResultInvalid("Could not parse into CompleteState.".to_owned())),
    }
}

// ---------------------------------------------------------------------------
// Start nodes of the cycle check
// ---------------------------------------------------------------------------
/// The names of the added workloads that declare dependencies.
pub open spec fn start_names(added: Seq<WorkloadSpecView>) -> Seq<Seq<char>>
    decreases added.len(),
{
    if added.len() == 0 {
        Seq::<Seq<char>>::empty()
    } else {
        let rest = start_names(added.drop_last());
        if added.last().dependencies.len() > 0 {
            rest.push(added.last().name)
        } else {
            rest
        }
    }
}

proof fn lemma_start_names_contains(added: Seq<WorkloadSpecView>, i: int)
    requires
        0 <= i < added.len(),
        added[i].dependencies.len() > 0,
    ensures
        start_names(added).contains(added[i].name),
    decreases added.len(),
{
    if i == added.len() - 1 {
        let sn = start_names(added);
        assert(sn.last() == added[i].name);
        assert(sn.contains(added[i].name));
    } else {
        lemma_start_names_contains(added.drop_last(), i);
        let rest = start_names(added.drop_last());
        let j = choose|j: int| 0 <= j < rest.len() && rest[j] == added.drop_last()[i].name;
        assert(start_names(added)[j] == added[i].name);
        assert(start_names(added).contains(added[i].name));
    }
}

proof fn lemma_changed_contains(
    old_s: Seq<(Seq<char>, WorkloadSpecView)>,
    new_s: Seq<(Seq<char>, WorkloadSpecView)>,
    i: int,
)
    requires
        0 <= i < old_s.len(),
        has_key(new_s, old_s[i].0),
        val_of(new_s, old_s[i].0) != old_s[i].1,
    ensures
        changed_of(old_s, new_s).contains(val_of(new_s, old_s[i].0)),
    decreases old_s.len(),
{
    if i == old_s.len() - 1 {
        let cs = changed_of(old_s, new_s);
        assert(cs.last() == val_of(new_s, old_s[i].0));
        assert(cs.contains(val_of(new_s, old_s[i].0)));
    } else {
        lemma_changed_contains(old_s.drop_last(), new_s, i);
        let rest = changed_of(old_s.drop_last(), new_s);
        assert(old_s.drop_last()[i] == old_s[i]);
        let j = choose|j: int| 0 <= j < rest.len() && rest[j] == val_of(new_s, old_s[i].0);
        assert(changed_of(old_s, new_s)[j] == val_of(new_s, old_s[i].0));
        assert(changed_of(old_s, new_s).contains(val_of(new_s, old_s[i].0)));
    }
}

proof fn lemma_fresh_contains(
    old_s: Seq<(Seq<char>, WorkloadSpecView)>,
    new_s: Seq<(Seq<char>, WorkloadSpecView)>,
    i: int,
)
    requires
        0 <= i < new_s.len(),
        !has_key(old_s, new_s[i].0),
    ensures
        fresh_of(old_s, new_s).contains(new_s[i].1),
    decreases new_s.len(),
{
    if i == new_s.len() - 1 {
        let fs = fresh_of(old_s, new_s);
        assert(fs.last() == new_s[i].1);
        assert(fs.contains(new_s[i].1));
    } else {
        lemma_fresh_contains(old_s, new_s.drop_last(), i);
        let rest = fresh_of(old_s, new_s.drop_last());
        assert(new_s.drop_last()[i] == new_s[i]);
        let j = choose|j: int| 0 <= j < rest.len() && rest[j] == new_s[i].1;
        assert(fresh_of(old_s, new_s)[j] == new_s[i].1);
        assert(fresh_of(old_s, new_s).contains(new_s[i].1));
    }
}

/// Each entry's key equals its spec's own name (the documented convention).
pub open spec fn keys_match_names(s: Seq<(Seq<char>, WorkloadSpecView)>) -> bool {
    forall|i: int| 0 <= i < s.len() ==> (#[trigger] s[i]).1.name == s[i].0
}

// ---------------------------------------------------------------------------
// Filtered reads
// ---------------------------------------------------------------------------
/// Copies each requested sub-tree into the accumulator; a path that is
/// absent from the view, or that cannot be set, is skipped silently.
pub open spec fn project_mask_from(src: DocView, acc: DocView, mask: Seq<Seq<char>>, i: int) -> DocView
    decreases mask.len() - i,
{
    if i < 0 || i >= mask.len() {
        acc
    } else {
        let path = split_path(mask[i]);
        match crate::doc::doc_get_v(src, path) {
            Some(v) => match crate::doc::doc_set_v(acc, path, v) {
                Some(a2) => project_mask_from(src, a2, mask, i + 1),
                None => project_mask_from(src, acc, mask, i + 1),
            },
            None => project_mask_from(src, acc, mask, i + 1),
        }
    }
}

/// The complete state served for a read: the desired states plus a snapshot
/// of the reported workload states.
pub open spec fn compose_full_state(
    cs: CompleteStateView,
    db: Seq<crate::objects::WorkloadStateView>,
) -> CompleteStateView {
    (CompleteStateView {
        current_state: cs.current_state,
        startup_state: cs.startup_state,
        workload_states: db,
    })
}

/// What a filtered read returns: the full view for an empty mask, else the
/// projection by each mask entry, read back as a complete state. It fails
/// only when that re-parse fails.
pub open spec fn read_result(full: CompleteStateView, mask: Seq<Seq<char>>) -> Result<
    CompleteStateView,
    Seq<char>,
> {
    if mask.len() == 0 {
        Ok(full)
    } else {
        match complete_state_from_doc_v(
            project_mask_from(
                complete_state_doc(full),
                DocView::Mapping(Seq::<(Seq<char>, DocView)>::empty()),
                mask,
                0,
            ),
        ) {
            Some(c) => Ok(c),
            None => Err("The result for CompleteState is invalid."@),
        }
    }
}

/// The workloads assigned to one agent, in stored order.
pub open spec fn agent_workloads(
    s: Seq<(Seq<char>, WorkloadSpecView)>,
    agent: Seq<char>,
) -> Seq<WorkloadSpecView>
    decreases s.len(),
{
    if s.len() == 0 {
        Seq::<WorkloadSpecView>::empty()
    } else {
        let rest = agent_workloads(s.drop_last(), agent);
        if s.last().1.agent == agent {
            rest.push(s.last().1)
        } else {
            rest
        }
    }
}

/// What `update` guarantees, relating the state before the call, the
/// arguments, the result and the state after.
pub open spec fn update_outcome(
    pre: ServerStateView,
    newv: CompleteStateView,
    maskv: Seq<Seq<char>>,
    r: Result<Option<(Vec<WorkloadSpec>, Vec<DeletedWorkload>)>, UpdateStateError>,
    post: ServerStateView,
) -> bool {
    let res = update_state_result(pre.state, newv, maskv);
    match r {
        Ok(opt) => res is Ok && {
            let m = res->Ok_0;
            let added = added_of(pre.state.current_state, m.current_state);
            let deleted0 = deleted_of(pre.state.current_state, m.current_state);
            match opt {
                None => added.len() == 0 && deleted0.len() == 0 && post == pre,
                Some(ad) => {
                    &&& added.len() + deleted0.len() > 0
                    &&& wl_list_view(ad.0@) == added
                    &&& post.state == m
                    &&& post.delete_graph == annotate_from(
                        record_added_from(pre.delete_graph, added, 0),
                        deleted0,
                        0,
                    ).0
                    &&& dw_list_view(ad.1@) == annotate_from(
                        record_added_from(pre.delete_graph, added, 0),
                        deleted0,
                        0,
                    ).1
                    &&& forall|c: Seq<Seq<char>>| #[trigger]
                        is_cycle(m.current_state, c) ==> forall|i: int|
                            0 <= i < c.len() ==> !start_names(added).contains(c[i])
                },
            }
        },
        Err(e) => post == pre && match e@ {
            UpdateStateErrorView::CycleInDependencies(n) => res is Ok && (exists|
                c: Seq<Seq<char>>,
            |
                is_cycle(res->Ok_0.current_state, c) && c.contains(n)) && (exists|
                p: Seq<Seq<char>>,
            |
                cycle_check::is_path(res->Ok_0.current_state, p) && start_names(
                    added_of(pre.state.current_state, res->Ok_0.current_state),
                ).contains(p[0]) && p.last() == n) && added_of(
                pre.state.current_state,
                res->Ok_0.current_state,
            ).len() + deleted_of(pre.state.current_state, res->Ok_0.current_state).len() > 0,
            _ => res == Err::<CompleteStateView, UpdateStateErrorView>(e@),
        },
    }
}

// ---------------------------------------------------------------------------
// The server state manager
// ---------------------------------------------------------------------------
/// Owns the authoritative desired state and the delete-condition graph.
#[derive(Debug)]
pub struct ServerState {
    state: CompleteState,
    delete_graph: DeleteGraph,
}

#[verifier::ext_equal]
pub struct ServerStateView {
    pub state: CompleteStateView,
    pub delete_graph: GraphView,
}

impl View for ServerState {
    type V = ServerStateView;

    closed spec fn view(&self) -> ServerStateView {
        (ServerStateView { state: self.state@, delete_graph: self.delete_graph@ })
    }
}

impl Default for ServerState {
    fn default() -> (s: ServerState)
        ensures
            s@.state.current_state.len() == 0,
            s@.state.startup_state.len() == 0,
            s@.state.workload_states.len() == 0,
            s@.delete_graph.len() == 0,
    {
        ServerState { state: CompleteState::default(), delete_graph: DeleteGraph::new() }
    }
}

impl ServerState {
    /// A server starting from the given complete state, with no delete
    /// conditions recorded yet. The given desired state must already honor
    /// the invariant that its dependency graph has no cycle.
    pub fn with_state(state: CompleteState) -> (s: ServerState)
        requires
            acyclic(state@.current_state),
        ensures
            s@.state == state@,
            s@.delete_graph.len() == 0,
    {
        ServerState { state, delete_graph: DeleteGraph::new() }
    }

    /// The held complete state.
    pub fn held_state(&self) -> (r: &CompleteState)
        ensures
            r@ == self@.state,
    {
        &self.state
    }

    /// The workloads whose `agent` field names the given agent.
    pub fn get_workloads_for_agent(&self, agent_name: &String) -> (r: Vec<WorkloadSpec>)
        ensures
            wl_list_view(r@) == agent_workloads(self@.state.current_state, agent_name@),
    {
        let ghost sv = self@.state.current_state;
        let mut out: Vec<WorkloadSpec> = Vec::new();
        let entries = self.state.current_state.entries();
        let n = entries.len();
        let mut i: usize = 0;
        proof {
            assert(sv.take(0) =~= Seq::<(Seq<char>, WorkloadSpecView)>::empty());
            assert(wl_list_view(out@) =~= Seq::<WorkloadSpecView>::empty());
        }
        while i < n
            invariant
                n == entries@.len(),
                i <= n,
                sv == self@.state.current_state,
                crate::state::entries_view(entries@) == sv,
                wl_list_view(out@) == agent_workloads(sv.take(i as int), agent_name@),
            decreases n - i,
        {
            let ghost pre = sv.take(i as int + 1);
            proof {
                assert(pre.drop_last() =~= sv.take(i as int));
                assert(pre.last() == sv[i as int]);
                assert(sv[i as int] == (entries@[i as int].0@, entries@[i as int].1@));
            }
            if entries[i].1.agent == *agent_name {
                let w = entries[i].1.duplicate();
                proof {
                    assert(wl_list_view(out@.push(w)) =~= wl_list_view(out@).push(w@));
                }
                out.push(w);
            }
            i += 1;
        }
        proof {
            assert(sv.take(n as int) =~= sv);
        }
        out
    }

    /// Serves a read: the full state for an empty mask, else the sub-trees
    /// the mask selects, missing ones silently skipped.
    pub fn get_complete_state_by_field_mask(
        &self,
        request_complete_state: &crate::state::CompleteStateRequest,
        workload_state_db: &WorkloadStateDB,
    ) -> (r: Result<CompleteState, String>)
        ensures
            match r {
                Ok(c) => read_result(
                    compose_full_state(self@.state, workload_state_db@),
                    strings_view(request_complete_state.field_mask@),
                ) == Ok::<CompleteStateView, Seq<char>>(c@),
                Err(e) => read_result(
                    compose_full_state(self@.state, workload_state_db@),
                    strings_view(request_complete_state.field_mask@),
                ) == Err::<CompleteStateView, Seq<char>>(e@),
            },
    {
        let full = CompleteState {
            current_state: self.state.current_state.duplicate(),
            startup_state: self.state.startup_state.duplicate(),
            workload_states: workload_state_db.get_all_workload_states(),
        };
        let ghost fullv = compose_full_state(self@.state, workload_state_db@);
        proof {
            assert(full@ =~= fullv);
        }
        let mask = &request_complete_state.field_mask;
        let ghost maskv = strings_view(mask@);
        if mask.len() == 0 {
            return Ok(full);
        }
        let src = complete_state_to_doc(&full);
        let mut acc = Doc::Mapping(Vec::new());
        proof {
            assert(acc@->Mapping_0 =~= Seq::<(Seq<char>, DocView)>::empty());
            assert(acc@ == DocView::Mapping(Seq::<(Seq<char>, DocView)>::empty()));
        }
        let n = mask.len();
        let mut i: usize = 0;
        while i < n
            invariant
                n == mask@.len(),
                i <= n,
                maskv == strings_view(mask@),
                fullv == compose_full_state(self@.state, workload_state_db@),
                maskv == strings_view(request_complete_state.field_mask@),
                src@ == complete_state_doc(fullv),
                project_mask_from(src@, DocView::Mapping(Seq::<(Seq<char>, DocView)>::empty()), maskv, 0)
                    == project_mask_from(src@, acc@, maskv, i as int),
            decreases n - i,
        {
            let path = crate::doc::parse_path(&mask[i]);
            proof {
                assert(strings_view(path@) == split_path(maskv[i as int]));
                assert(strings_view(path@).skip(0) =~= strings_view(path@));
            }
            match src.get_path(&path, 0) {
                Some(sub) => {
                    let subc = sub.duplicate();
                    let (na, _copied) = acc.set_path(&path, 0, subc);
                    acc = na;
                },
                None => {
                },
            }
            i += 1;
        }
        match complete_state_from_doc(&acc) {
            Some(c) => Ok(c),
            None => Err("The result for CompleteState is invalid.".to_owned()),
        }
    }

    /// Applies an update: merge over the mask, diff, reject dependency
    /// cycles, record delete conditions, commit. On any error the server
    /// state is unchanged.
    #[verifier::rlimit(100)]
    #[verifier::spinoff_prover]
    pub fn update(&mut self, new_state: CompleteState, update_mask: Vec<String>) -> (r: Result<
        Option<(Vec<WorkloadSpec>, Vec<DeletedWorkload>)>,
        UpdateStateError,
    >)
        ensures
            update_outcome(old(self)@, new_state@, strings_view(update_mask@), r, final(self)@),
            r is Ok && acyclic(old(self)@.state.current_state) && keys_match_names(
                final(self)@.state.current_state,
            ) ==> acyclic(final(self)@.state.current_state),
    {
        proof {
            use_type_invariant(&self.state.current_state);
        }
        let ghost oldv = self@;
        let ghost maskv = strings_view(update_mask@);
        let merged = match update_state(&self.state, new_state, &update_mask) {
            Ok(m) => m,
            Err(e) => {
                let r_val = Err::<Option<(Vec<WorkloadSpec>, Vec<DeletedWorkload>)>, UpdateStateError>(e);
                proof {
                    assert(update_outcome(oldv, new_state@, maskv, r_val, self@));
                }
                return r_val;
            },
        };
        let cmd = extract_added_and_deleted_workloads(
            &self.state.current_state,
            &merged.current_state,
        );
        match cmd {
            None => {
                let r_val = Ok::<Option<(Vec<WorkloadSpec>, Vec<DeletedWorkload>)>, UpdateStateError>(None);
                proof {
                    assert(update_outcome(oldv, new_state@, maskv, r_val, self@));
                }
                r_val
            },
            Some((added, deleted)) => {
                let mut deleted = deleted;
                let ghost addedv = wl_list_view(added@);
                let mut start_nodes: Vec<String> = Vec::new();
                let na = added.len();
                let mut i: usize = 0;
                proof {
                    assert(addedv.take(0) =~= Seq::<WorkloadSpecView>::empty());
                    assert(strings_view(start_nodes@) =~= Seq::<Seq<char>>::empty());
                }
                while i < na
                    invariant
                        na == added@.len(),
                        i <= na,
                        addedv == wl_list_view(added@),
                        strings_view(start_nodes@) == start_names(addedv.take(i as int)),
                    decreases na - i,
                {
                    let ghost pre = addedv.take(i as int + 1);
                    proof {
                        assert(pre.drop_last() =~= addedv.take(i as int));
                        assert(pre.last() == addedv[i as int]);
                        assert(addedv[i as int] == added@[i as int]@);
                    }
                    if added[i].dependencies.len() > 0 {
                        let nm = added[i].name.clone();
                        proof {
                            assert(strings_view(start_nodes@.push(nm)) =~= strings_view(
                                start_nodes@,
                            ).push(nm@));
                        }
                        start_nodes.push(nm);
                    }
                    i += 1;
                }
                proof {
                    assert(addedv.take(na as int) =~= addedv);
                }
                match cycle_check::dfs(&merged.current_state, &start_nodes) {
                    Some(workload_part_of_cycle) => {
                        let r_val = Err::<
                            Option<(Vec<WorkloadSpec>, Vec<DeletedWorkload>)>,
                            UpdateStateError,
                        >(UpdateStateError::CycleInDependencies(workload_part_of_cycle));
                        proof {
                            let res = update_state_result(oldv.state, new_state@, maskv);
                            assert(res == Ok::<CompleteStateView, UpdateStateErrorView>(merged@));
                            assert(res->Ok_0.current_state == merged.current_state@);
                            assert(exists|c: Seq<Seq<char>>|
                                is_cycle(res->Ok_0.current_state, c) && c.contains(
                                    workload_part_of_cycle@,
                                ));
                            assert(self@ == oldv);
                            assert(oldv.state.current_state == self.state.current_state@);
                            assert(added_of(oldv.state.current_state, merged.current_state@).len()
                                + deleted_of(oldv.state.current_state, merged.current_state@).len()
                                > 0);
                            assert(r_val matches Err(e) && e@ matches
                                UpdateStateErrorView::CycleInDependencies(n) && n
                                == workload_part_of_cycle@);
                            let res2 = update_state_result(oldv.state, new_state@, maskv);
                            assert(res2 is Ok);
                            assert(exists|c: Seq<Seq<char>>|
                                is_cycle(res2->Ok_0.current_state, c) && c.contains(
                                    workload_part_of_cycle@,
                                ));
                            assert(strings_view(start_nodes@) == start_names(
                                added_of(oldv.state.current_state, res2->Ok_0.current_state),
                            ));
                            assert(exists|p: Seq<Seq<char>>|
                                cycle_check::is_path(res2->Ok_0.current_state, p) && start_names(
                                    added_of(oldv.state.current_state, res2->Ok_0.current_state),
                                ).contains(p[0]) && p.last() == workload_part_of_cycle@);
                            assert(added_of(oldv.state.current_state, res2->Ok_0.current_state).len()
                                + deleted_of(
                                oldv.state.current_state,
                                res2->Ok_0.current_state,
                            ).len() > 0);
                            assert(update_outcome(oldv, new_state@, maskv, r_val, self@));
                        }
                        return r_val;
                    },
                    None => {
                    },
                }
                proof {
                    use_type_invariant(&merged.current_state);
                }
                let ghost mergedv = merged@;
                self.delete_graph.insert(&added);
                proof {
                    assert(added@.map_values(|w: WorkloadSpec| w@) =~= addedv);
                }
                self.delete_graph.apply_delete_conditions_to(&mut deleted);
                self.state = merged;
                proof {
                    let oldc = oldv.state.current_state;
                    let mc = mergedv.current_state;
                    if acyclic(oldc) && keys_match_names(mc) {
                        assert forall|c: Seq<Seq<char>>| !is_cycle(mc, c) by {
                            lemma_commit_preserves_acyclic(oldc, mc, addedv, c);
                        }
                    }
                }
                let r_val = Ok::<Option<(Vec<WorkloadSpec>, Vec<DeletedWorkload>)>, UpdateStateError>(
                    Some((added, deleted)),
                );
                proof {
                    assert(update_outcome(oldv, new_state@, maskv, r_val, self@));
                }
                r_val
            },
        }
    }
}

/// Any cycle of the merged state must pass through an added workload that
/// declares dependencies — so a clean cycle check on those start nodes,
/// together with an acyclic old state, rules every cycle out.
proof fn lemma_commit_preserves_acyclic(
    oldc: Seq<(Seq<char>, WorkloadSpecView)>,
    mc: Seq<(Seq<char>, WorkloadSpecView)>,
    addedv: Seq<WorkloadSpecView>,
    c: Seq<Seq<char>>,
)
    requires
        acyclic(oldc),
        keys_match_names(mc),
        crate::state::unique_keys(mc),
        addedv == added_of(oldc, mc),
        forall|cc: Seq<Seq<char>>| #[trigger]
            is_cycle(mc, cc) ==> forall|i: int|
                0 <= i < cc.len() ==> !start_names(addedv).contains(cc[i]),
    ensures
        !is_cycle(mc, c),
{
    if !is_cycle(mc, c) {
        return ;
    }
    if exists|i: int|
        0 <= i < c.len() && !(has_key(oldc, #[trigger] c[i]) && has_key(mc, c[i]) && val_of(
            oldc,
            c[i],
        ) == val_of(mc, c[i])) {
        let i = choose|i: int|
            0 <= i < c.len() && !(has_key(oldc, #[trigger] c[i]) && has_key(mc, c[i]) && val_of(
                oldc,
                c[i],
            ) == val_of(mc, c[i]));
        // the node exists in the merged state, with an outgoing edge
        if i < c.len() - 1 {
            assert(cycle_check::has_edge(mc, c[i], c[i + 1]));
        } else {
            assert(cycle_check::has_edge(mc, c[c.len() - 1], c[0]));
        }
        assert(has_key(mc, c[i]));
        let w = val_of(mc, c[i]);
        assert(cycle_check::dep_names(w).len() == w.dependencies.len());
        assert(w.dependencies.len() > 0) by {
            if i < c.len() - 1 {
                assert(cycle_check::dep_names(w).contains(c[i + 1]));
            } else {
                assert(cycle_check::dep_names(w).contains(c[0]));
            }
        }
        // its name is the key it is stored under
        let j = crate::state::idx_of(mc, c[i]);
        assert(0 <= j < mc.len() && mc[j].0 == c[i]);
        assert(mc[j].1 == w);
        assert(w.name == c[i]);
        // it is among the added workloads
        if has_key(oldc, c[i]) {
            let oi = crate::state::idx_of(oldc, c[i]);
            assert(0 <= oi < oldc.len() && oldc[oi].0 == c[i]);
            assert(val_of(oldc, c[i]) != val_of(mc, c[i]) || oldc[oi].1 != val_of(oldc, c[i])
                || true);
            assert(val_of(oldc, c[i]) != w);
            lemma_changed_contains(oldc, mc, oi);
            assert(changed_of(oldc, mc).contains(w)) by {
                assert(oldc[oi].0 == c[i]);
            }
            let ci = choose|ci: int|
                0 <= ci < changed_of(oldc, mc).len() && changed_of(oldc, mc)[ci] == w;
            assert(addedv[ci] == w);
        } else {
            lemma_fresh_contains(oldc, mc, j);
            let fi = choose|fi: int|
                0 <= fi < fresh_of(oldc, mc).len() && fresh_of(oldc, mc)[fi] == mc[j].1;
            assert(addedv[changed_of(oldc, mc).len() + fi] == w);
        }
        assert(addedv.contains(w));
        let ai = choose|ai: int| 0 <= ai < addedv.len() && addedv[ai] == w;
        lemma_start_names_contains(addedv, ai);
        assert(start_names(addedv).contains(c[i]));
        assert(false);
    } else {
        // every node unchanged: the cycle already existed
        assert forall|i: int| 0 <= i < c.len() - 1 implies cycle_check::has_edge(
            oldc,
            #[trigger] c[i],
            c[i + 1],
        ) by {
            assert(cycle_check::has_edge(mc, c[i], c[i + 1]));
            assert(val_of(oldc, c[i]) == val_of(mc, c[i]));
        }
        assert(cycle_check::has_edge(mc, c[c.len() - 1], c[0]));
        assert(val_of(oldc, c[c.len() - 1]) == val_of(mc, c[c.len() - 1]));
        assert(cycle_check::has_edge(oldc, c[c.len() - 1], c[0]));
        assert(is_cycle(oldc, c));
        assert(false);
    }
}

// ---------------------------------------------------------------------------
// Laws
// ---------------------------------------------------------------------------
/// A filtered read is a pure function of the held state, the mask and the
/// report snapshot: reading twice with the same inputs yields equal results.
pub proof fn lemma_filtered_read_idempotent(
    full: CompleteStateView,
    mask: Seq<Seq<char>>,
    r1: Result<CompleteStateView, Seq<char>>,
    r2: Result<CompleteStateView, Seq<char>>,
)
    requires
        r1 == read_result(full, mask),
        r2 == read_result(full, mask),
    ensures
        r1 == r2,
{
}

proof fn lemma_deleted_empty(
    old_s: Seq<(Seq<char>, WorkloadSpecView)>,
    new_s: Seq<(Seq<char>, WorkloadSpecView)>,
    i: int,
)
    requires
        deleted_of(old_s, new_s).len() == 0,
        0 <= i < old_s.len(),
    ensures
        has_key(new_s, old_s[i].0),
        val_of(new_s, old_s[i].0) == old_s[i].1,
    decreases old_s.len(),
{
    let p = old_s.last();
    if !(has_key(new_s, p.0) && val_of(new_s, p.0) == p.1) {
        assert(deleted_of(old_s, new_s).len() > 0);
    }
    if i < old_s.len() - 1 {
        assert(deleted_of(old_s.drop_last(), new_s).len() == 0);
        lemma_deleted_empty(old_s.drop_last(), new_s, i);
        assert(old_s.drop_last()[i] == old_s[i]);
    }
}

proof fn lemma_fresh_empty(
    old_s: Seq<(Seq<char>, WorkloadSpecView)>,
    new_s: Seq<(Seq<char>, WorkloadSpecView)>,
    i: int,
)
    requires
        fresh_of(old_s, new_s).len() == 0,
        0 <= i < new_s.len(),
    ensures
        has_key(old_s, new_s[i].0),
    decreases new_s.len(),
{
    let p = new_s.last();
    if !has_key(old_s, p.0) {
        assert(fresh_of(old_s, new_s).len() > 0);
    }
    if i < new_s.len() - 1 {
        assert(fresh_of(old_s, new_s.drop_last()).len() == 0);
        lemma_fresh_empty(old_s, new_s.drop_last(), i);
        assert(new_s.drop_last()[i] == new_s[i]);
    }
}

/// Two workload lists hold the same mapping: the same names, each bound to
/// an equal description.
pub open spec fn same_workloads(
    a: Seq<(Seq<char>, WorkloadSpecView)>,
    b: Seq<(Seq<char>, WorkloadSpecView)>,
) -> bool {
    &&& (forall|k: Seq<char>| #[trigger] has_key(a, k) <==> #[trigger] has_key(b, k))
    &&& (forall|k: Seq<char>| #[trigger] has_key(a, k) ==> val_of(a, k) == val_of(b, k))
}

/// Applying an accepted update with an empty mask and then reading with an
/// empty field mask serves exactly the desired state that was sent: the
/// served current state holds the same workloads as the update's.
pub proof fn lemma_empty_mask_round_trip(
    pre: ServerStateView,
    newv: CompleteStateView,
    r: Result<Option<(Vec<WorkloadSpec>, Vec<DeletedWorkload>)>, UpdateStateError>,
    post: ServerStateView,
    db: Seq<crate::objects::WorkloadStateView>,
)
    requires
        update_outcome(pre, newv, Seq::<Seq<char>>::empty(), r, post),
        r is Ok,
        crate::state::unique_keys(pre.state.current_state),
        crate::state::unique_keys(newv.current_state),
    ensures
        read_result(compose_full_state(post.state, db), Seq::<Seq<char>>::empty()) matches Ok(c)
            && same_workloads(c.current_state, newv.current_state),
{
    let res = update_state_result(pre.state, newv, Seq::<Seq<char>>::empty());
    assert(res == Ok::<CompleteStateView, UpdateStateErrorView>(newv));
    let served = read_result(compose_full_state(post.state, db), Seq::<Seq<char>>::empty());
    assert(served == Ok::<CompleteStateView, Seq<char>>(compose_full_state(post.state, db)));
    match r {
        Ok(opt) => match opt {
            Some(_) => {
                assert(post.state == newv);
                let c = compose_full_state(post.state, db);
                assert(c.current_state == newv.current_state);
                assert(same_workloads(c.current_state, newv.current_state));
            },
            None => {
                let a = pre.state.current_state;
                let b = newv.current_state;
                assert(post == pre);
                assert(added_of(a, b).len() == 0 && deleted_of(a, b).len() == 0);
                assert(changed_of(a, b).len() + fresh_of(a, b).len() == added_of(a, b).len());
                assert forall|k: Seq<char>| #[trigger] has_key(a, k) implies #[trigger] has_key(
                    b,
                    k,
                ) && val_of(a, k) == val_of(b, k) by {
                    let i = crate::state::idx_of(a, k);
                    assert(0 <= i < a.len() && a[i].0 == k);
                    lemma_deleted_empty(a, b, i);
                    assert(val_of(a, k) == a[i].1);
                }
                assert forall|k: Seq<char>| #[trigger] has_key(b, k) implies #[trigger] has_key(
                    a,
                    k,
                ) by {
                    let i = crate::state::idx_of(b, k);
                    assert(0 <= i < b.len() && b[i].0 == k);
                    lemma_fresh_empty(a, b, i);
                }
                let c = compose_full_state(post.state, db);
                assert(c.current_state == a);
                assert(same_workloads(c.current_state, newv.current_state));
            },
        },
        Err(_) => {
        },
    }
}

/// The sub-tree the full view serves under one of its top-level keys.
pub open spec fn top_field_doc(full: CompleteStateView, k: Seq<char>) -> DocView {
    if k == "currentState"@ {
        state_doc(full.current_state)
    } else if k == "startupState"@ {
        state_doc(full.startup_state)
    } else {
        DocView::List(
            full.workload_states.map_values(|w: crate::objects::WorkloadStateView| ws_doc(w)),
        )
    }
}

/// True when every mask entry names a top-level field of the complete state.
pub open spec fn top_level_mask(mask: Seq<Seq<char>>) -> bool {
    forall|i: int|
        0 <= i < mask.len() ==> (#[trigger] mask[i]) == "currentState"@ || mask[i]
            == "startupState"@ || mask[i] == "workloadStates"@
}

/// The accumulator a top-level projection builds: one entry per distinct
/// mask key, in first-seen order.
pub open spec fn cover_from(
    full: CompleteStateView,
    es: Seq<(Seq<char>, DocView)>,
    mask: Seq<Seq<char>>,
    i: int,
) -> Seq<(Seq<char>, DocView)>
    decreases mask.len() - i,
{
    if i < 0 || i >= mask.len() {
        es
    } else {
        cover_from(
            full,
            if has_key(es, mask[i]) {
                es
            } else {
                es.push((mask[i], top_field_doc(full, mask[i])))
            },
            mask,
            i + 1,
        )
    }
}

/// The entry list is distinct-keyed and each entry serves its own field.
pub open spec fn cover_wf(full: CompleteStateView, es: Seq<(Seq<char>, DocView)>) -> bool {
    &&& crate::state::unique_keys(es)
    &&& forall|j: int|
        0 <= j < es.len() ==> (#[trigger] es[j]).1 == top_field_doc(full, es[j].0) && ((es[j]).0
            == "currentState"@ || es[j].0 == "startupState"@ || es[j].0 == "workloadStates"@)
}

/// Projecting top-level fields accumulates exactly one entry per distinct
/// mask key: a repeated key writes the same sub-tree over itself.
proof fn lemma_project_top_level(
    full: CompleteStateView,
    es: Seq<(Seq<char>, DocView)>,
    mask: Seq<Seq<char>>,
    i: int,
)
    requires
        top_level_mask(mask),
        cover_wf(full, es),
        0 <= i <= mask.len(),
    ensures
        project_mask_from(complete_state_doc(full), DocView::Mapping(es), mask, i)
            == DocView::Mapping(cover_from(full, es, mask, i)),
        cover_wf(full, cover_from(full, es, mask, i)),
        forall|k: Seq<char>|
            #[trigger] has_key(cover_from(full, es, mask, i), k) <==> (has_key(es, k) || exists|
                j: int,
            | i <= j < mask.len() && mask[j] == k),
    decreases mask.len() - i,
{
    reveal_strlit("currentState");
    reveal_strlit("startupState");
    reveal_strlit("workloadStates");
    let cur_k = "currentState"@;
    let sta_k = "startupState"@;
    let ws_k = "workloadStates"@;
    assert(cur_k.len() == 12 && sta_k.len() == 12 && ws_k.len() == 14);
    assert(cur_k[0] == 'c' && sta_k[0] == 's');
    assert(forall|x: int| 0 <= x < cur_k.len() ==> #[trigger] cur_k[x] != '.');
    assert(forall|x: int| 0 <= x < sta_k.len() ==> #[trigger] sta_k[x] != '.');
    assert(forall|x: int| 0 <= x < ws_k.len() ==> #[trigger] ws_k[x] != '.');
    let src = complete_state_doc(full);
    if i == mask.len() {
        assert forall|k: Seq<char>| #[trigger]
            has_key(cover_from(full, es, mask, i), k) <==> (has_key(es, k) || exists|j: int|
                i <= j < mask.len() && mask[j] == k) by {
        }
    } else {
        let k = mask[i];
        crate::doc::lemma_split_path_single(k);
        // the source serves the named field
        let ses = src->Mapping_0;
        assert(ses.len() == 3);
        assert(crate::doc::entries_get(ses, cur_k) == Some(top_field_doc(full, cur_k)));
        crate::doc::lemma_entries_get_skip(ses, sta_k, 1);
        assert(ses.skip(1)[0] == ses[1]);
        assert(crate::doc::entries_get(ses, sta_k) == Some(top_field_doc(full, sta_k)));
        crate::doc::lemma_entries_get_skip(ses, ws_k, 2);
        assert(ses.skip(2)[0] == ses[2]);
        assert(crate::doc::entries_get(ses, ws_k) == Some(top_field_doc(full, ws_k)));
        let v = top_field_doc(full, k);
        assert(crate::doc::doc_get_v(v, Seq::<Seq<char>>::empty()) == Some(v));
        assert(seq![k].drop_first() =~= Seq::<Seq<char>>::empty());
        assert(crate::doc::doc_get_v(src, seq![k]) == Some(v));
        // setting it either rewrites the same entry or appends a new one
        assert(crate::doc::doc_set_v(DocView::Mapping(es), seq![k], v) == Some(
            DocView::Mapping(crate::doc::entries_put(es, k, v)),
        ));
        let es2: Seq<(Seq<char>, DocView)> = if has_key(es, k) {
            es
        } else {
            es.push((k, v))
        };
        if has_key(es, k) {
            let ci = crate::state::idx_of(es, k);
            assert(0 <= ci < es.len() && es[ci].0 == k);
            assert(forall|j: int| 0 <= j < ci ==> (#[trigger] es[j]).0 != k);
            crate::doc::lemma_entries_put_skip(es, k, v, ci);
            assert(es.skip(ci)[0] == es[ci]);
            assert(crate::doc::entries_put(es.skip(ci), k, v) == seq![(k, v)] + es.skip(ci)
                .drop_first());
            assert(es.skip(ci).drop_first() =~= es.skip(ci + 1));
            assert(es[ci] == (k, v));
            assert(crate::doc::entries_put(es, k, v) =~= es);
        } else {
            assert(forall|j: int| 0 <= j < es.len() ==> (#[trigger] es[j]).0 != k);
            crate::doc::lemma_entries_put_skip(es, k, v, es.len() as int);
            assert(es.skip(es.len() as int) =~= Seq::<(Seq<char>, DocView)>::empty());
            assert(crate::doc::entries_put(es, k, v) =~= es.push((k, v)));
            assert forall|x: int, y: int| 0 <= x < y < es2.len() implies (#[trigger] es2[x]).0
                != (#[trigger] es2[y]).0 by {
                if y < es.len() {
                    assert(es[x].0 != es[y].0);
                } else {
                    if es[x].0 == k {
                        assert(has_key(es, k));
                    }
                }
            }
        }
        assert(cover_wf(full, es2));
        lemma_project_top_level(full, es2, mask, i + 1);
        assert forall|kk: Seq<char>| #[trigger]
            has_key(cover_from(full, es, mask, i), kk) <==> (has_key(es, kk) || exists|j: int|
                i <= j < mask.len() && mask[j] == kk) by {
            assert(cover_from(full, es, mask, i) == cover_from(full, es2, mask, i + 1));
            if has_key(cover_from(full, es2, mask, i + 1), kk) {
                if has_key(es2, kk) && !has_key(es, kk) {
                    assert(kk == k);
                    assert(mask[i] == kk);
                } else if !has_key(es2, kk) {
                    let j = choose|j: int| i + 1 <= j < mask.len() && mask[j] == kk;
                    assert(i <= j < mask.len() && mask[j] == kk);
                }
            }
            if has_key(es, kk) {
                if has_key(es, k) {
                    assert(has_key(es2, kk));
                } else {
                    let w = crate::state::idx_of(es, kk);
                    assert(es2[w].0 == kk);
                    assert(has_key(es2, kk));
                }
            }
            if exists|j: int| i <= j < mask.len() && mask[j] == kk {
                let j = choose|j: int| i <= j < mask.len() && mask[j] == kk;
                if j == i {
                    assert(kk == k);
                    assert(es2[es2.len() - 1].0 == k || has_key(es, k));
                    if !has_key(es, k) {
                        assert(has_key(es2, k));
                    } else {
                        let w = crate::state::idx_of(es, k);
                        assert(es2[w].0 == k);
                        assert(has_key(es2, k));
                    }
                }
            }
        }
    }
}

/// Projecting by a full-coverage mask — every entry a top-level field of
/// the complete state, each field named at least once, in any order and
/// with repetitions allowed — equals the unfiltered read.
pub proof fn lemma_full_mask_read(full: CompleteStateView, mask: Seq<Seq<char>>)
    requires
        crate::state::unique_keys(full.current_state),
        crate::state::unique_keys(full.startup_state),
        top_level_mask(mask),
        mask.contains("currentState"@),
        mask.contains("startupState"@),
        mask.contains("workloadStates"@),
    ensures
        read_result(full, mask) == read_result(full, Seq::<Seq<char>>::empty()),
{
    reveal_strlit("currentState");
    reveal_strlit("startupState");
    reveal_strlit("workloadStates");
    let cur_k = "currentState"@;
    let sta_k = "startupState"@;
    let ws_k = "workloadStates"@;
    assert(cur_k.len() == 12 && sta_k.len() == 12 && ws_k.len() == 14);
    assert(cur_k[0] == 'c' && sta_k[0] == 's');
    let empty_es = Seq::<(Seq<char>, DocView)>::empty();
    assert(cover_wf(full, empty_es));
    lemma_project_top_level(full, empty_es, mask, 0);
    let fes = cover_from(full, empty_es, mask, 0);
    assert(mask.len() > 0);
    assert forall|k: Seq<char>|
        k == cur_k || k == sta_k || k == ws_k implies crate::doc::entries_get(fes, k) == Some(
        top_field_doc(full, k),
    ) by {
        let j = choose|j: int| 0 <= j < mask.len() && mask[j] == k;
        assert(has_key(fes, k));
        let ci = crate::state::idx_of(fes, k);
        assert(0 <= ci < fes.len() && fes[ci].0 == k);
        assert(forall|x: int| 0 <= x < ci ==> (#[trigger] fes[x]).0 != k);
        crate::doc::lemma_entries_get_skip(fes, k, ci);
        assert(fes.skip(ci)[0] == fes[ci]);
        assert(fes[ci].1 == top_field_doc(full, k));
    }
    assert(top_field_doc(full, cur_k) == state_doc(full.current_state));
    assert(top_field_doc(full, sta_k) == state_doc(full.startup_state));
    assert(top_field_doc(full, ws_k) == DocView::List(
        full.workload_states.map_values(|w: crate::objects::WorkloadStateView| ws_doc(w)),
    ));
    crate::state_doc::lemma_complete_state_from_entries(full, fes);
    assert(read_result(full, mask) == Ok::<CompleteStateView, Seq<char>>(full));
}

} // verus!
