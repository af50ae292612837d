//! Rendering a complete state as a structured document and reading one back.
//! The dotted-path projector works on these documents.
use vstd::prelude::*;

use crate::doc::{
    doc_view,
    entries_get, mapping_view, map_lookup, Doc, DocView,
};
use crate::objects::{
    deps_view, DeleteCondition, ExecutionState, Tag, TagView, WorkloadSpec, WorkloadSpecView,
    WorkloadState, WorkloadStateView,
};
use crate::state::{
    entries_view, has_key, ws_list_view, CompleteState, CompleteStateView, State,
};

verus! {

// ---------------------------------------------------------------------------
// Rendering (total)
// ---------------------------------------------------------------------------
pub open spec fn bool_doc(b: bool) -> DocView {
    if b {
        DocView::Str("true"@)
    } else {
        DocView::Str("false"@)
    }
}

pub open spec fn cond_tag(c: DeleteCondition) -> Seq<char> {
    match c {
        DeleteCondition::DelCondRunning => "DelCondRunning"@,
        DeleteCondition::DelCondNotPendingNorRunning => "DelCondNotPendingNorRunning"@,
    }
}

pub open spec fn exec_state_tag(e: ExecutionState) -> Seq<char> {
    match e {
        ExecutionState::ExecUnknown => "ExecUnknown"@,
        ExecutionState::ExecPending => "ExecPending"@,
        ExecutionState::ExecRunning => "ExecRunning"@,
        ExecutionState::ExecSucceeded => "ExecSucceeded"@,
        ExecutionState::ExecFailed => "ExecFailed"@,
        ExecutionState::ExecRemoved => "ExecRemoved"@,
    }
}

pub open spec fn deps_doc(deps: Seq<(Seq<char>, DeleteCondition)>) -> DocView {
    DocView::Mapping(
        deps.map_values(|p: (Seq<char>, DeleteCondition)| (p.0, DocView::Str(cond_tag(p.1)))),
    )
}

pub open spec fn tag_doc(t: TagView) -> DocView {
    DocView::Mapping(seq![("key"@, DocView::Str(t.key)), ("value"@, DocView::Str(t.value))])
}

pub open spec fn tags_doc(tags: Seq<TagView>) -> DocView {
    DocView::List(tags.map_values(|t: TagView| tag_doc(t)))
}

pub open spec fn workload_doc(w: WorkloadSpecView) -> DocView {
    DocView::Mapping(
        seq![
            ("name"@, DocView::Str(w.name)),
            ("agent"@, DocView::Str(w.agent)),
            ("runtime"@, DocView::Str(w.runtime)),
            ("runtimeConfig"@, DocView::Str(w.runtime_config)),
            ("dependencies"@, deps_doc(w.dependencies)),
            ("tags"@, tags_doc(w.tags)),
            ("restart"@, bool_doc(w.restart)),
        ],
    )
}

pub open spec fn state_doc(s: Seq<(Seq<char>, WorkloadSpecView)>) -> DocView {
    DocView::Mapping(
        seq![
            (
                "workloads"@,
                DocView::Mapping(
                    s.map_values(|p: (Seq<char>, WorkloadSpecView)| (p.0, workload_doc(p.1))),
                ),
            ),
        ],
    )
}

pub open spec fn ws_doc(w: WorkloadStateView) -> DocView {
    DocView::Mapping(
        seq![
            ("agentName"@, DocView::Str(w.agent_name)),
            ("workloadName"@, DocView::Str(w.workload_name)),
            ("executionState"@, DocView::Str(exec_state_tag(w.execution_state))),
        ],
    )
}

/// The document form of a complete state.
pub open spec fn complete_state_doc(cs: CompleteStateView) -> DocView {
    DocView::Mapping(
        seq![
            ("currentState"@, state_doc(cs.current_state)),
            ("startupState"@, state_doc(cs.startup_state)),
            (
                "workloadStates"@,
                DocView::List(cs.workload_states.map_values(|w: WorkloadStateView| ws_doc(w))),
            ),
        ],
    )
}

// ---------------------------------------------------------------------------
// Reading back (missing keys default, ill-typed values fail)
// ---------------------------------------------------------------------------
pub open spec fn str_field_or_default(es: Seq<(Seq<char>, DocView)>, k: Seq<char>) -> Option<
    Seq<char>,
> {
    match entries_get(es, k) {
        None => Some(Seq::<char>::empty()),
        Some(d) => match d {
            DocView::Str(s) => Some(s),
            _ => None,
        },
    }
}

pub open spec fn bool_from_doc(d: DocView) -> Option<bool> {
    if d == DocView::Str("true"@) {
        Some(true)
    } else if d == DocView::Str("false"@) {
        Some(false)
    } else {
        None
    }
}

pub open spec fn cond_from_tag(s: Seq<char>) -> Option<DeleteCondition> {
    if s == "DelCondRunning"@ {
        Some(DeleteCondition::DelCondRunning)
    } else if s == "DelCondNotPendingNorRunning"@ {
        Some(DeleteCondition::DelCondNotPendingNorRunning)
    } else {
        None
    }
}

pub open spec fn exec_state_from_tag(s: Seq<char>) -> Option<ExecutionState> {
    if s == "ExecUnknown"@ {
        Some(ExecutionState::ExecUnknown)
    } else if s == "ExecPending"@ {
        Some(ExecutionState::ExecPending)
    } else if s == "ExecRunning"@ {
        Some(ExecutionState::ExecRunning)
    } else if s == "ExecSucceeded"@ {
        Some(ExecutionState::ExecSucceeded)
    } else if s == "ExecFailed"@ {
        Some(ExecutionState::ExecFailed)
    } else if s == "ExecRemoved"@ {
        Some(ExecutionState::ExecRemoved)
    } else {
        None
    }
}

pub open spec fn deps_from_entries(es: Seq<(Seq<char>, DocView)>) -> Option<
    Seq<(Seq<char>, DeleteCondition)>,
>
    decreases es.len(),
{
    if es.len() == 0 {
        Some(Seq::<(Seq<char>, DeleteCondition)>::empty())
    } else {
        match deps_from_entries(es.drop_last()) {
            None => None,
            Some(rest) => match es.last().1 {
                DocView::Str(t) => match cond_from_tag(t) {
                    Some(c) => Some(rest.push((es.last().0, c))),
                    None => None,
                },
                _ => None,
            },
        }
    }
}

pub open spec fn deps_field(es: Seq<(Seq<char>, DocView)>) -> Option<
    Seq<(Seq<char>, DeleteCondition)>,
> {
    match entries_get(es, "dependencies"@) {
        None => Some(Seq::<(Seq<char>, DeleteCondition)>::empty()),
        Some(d) => match d {
            DocView::Mapping(des) => deps_from_entries(des),
            _ => None,
        },
    }
}

pub open spec fn tag_from_doc_v(d: DocView) -> Option<TagView> {
    match d {
        DocView::Mapping(tes) => match entries_get(tes, "key"@) {
            Some(kd) => match kd {
                DocView::Str(k) => match entries_get(tes, "value"@) {
                    Some(vd) => match vd {
                        DocView::Str(v) => Some(TagView { key: k, value: v }),
                        _ => None,
                    },
                    None => None,
                },
                _ => None,
            },
            None => None,
        },
        _ => None,
    }
}

pub open spec fn tags_from_list(l: Seq<DocView>) -> Option<Seq<TagView>>
    decreases l.len(),
{
    if l.len() == 0 {
        Some(Seq::<TagView>::empty())
    } else {
        match tags_from_list(l.drop_last()) {
            None => None,
            Some(rest) => match tag_from_doc_v(l.last()) {
                Some(t) => Some(rest.push(t)),
                None => None,
            },
        }
    }
}

pub open spec fn tags_field(es: Seq<(Seq<char>, DocView)>) -> Option<Seq<TagView>> {
    match entries_get(es, "tags"@) {
        None => Some(Seq::<TagView>::empty()),
        Some(d) => match d {
            DocView::List(l) => tags_from_list(l),
            _ => None,
        },
    }
}

pub open spec fn restart_field(es: Seq<(Seq<char>, DocView)>) -> Option<bool> {
    match entries_get(es, "restart"@) {
        None => Some(false),
        Some(d) => bool_from_doc(d),
    }
}

pub open spec fn workload_from_doc_v(d: DocView) -> Option<WorkloadSpecView> {
    match d {
        DocView::Mapping(es) => {
            let name = str_field_or_default(es, "name"@);
            let agent = str_field_or_default(es, "agent"@);
            let runtime = str_field_or_default(es, "runtime"@);
            let rc = str_field_or_default(es, "runtimeConfig"@);
            let deps = deps_field(es);
            let tags = tags_field(es);
            let restart = restart_field(es);
            if name is Some && agent is Some && runtime is Some && rc is Some && deps is Some
                && tags is Some && restart is Some {
                Some(
                    WorkloadSpecView {
                        name: name->0,
                        agent: agent->0,
                        runtime: runtime->0,
                        runtime_config: rc->0,
                        dependencies: deps->0,
                        tags: tags->0,
                        restart: restart->0,
                    },
                )
            } else {
                None
            }
        },
        _ => None,
    }
}

pub open spec fn workloads_from_entries(es: Seq<(Seq<char>, DocView)>) -> Option<
    Seq<(Seq<char>, WorkloadSpecView)>,
>
    decreases es.len(),
{
    if es.len() == 0 {
        Some(Seq::<(Seq<char>, WorkloadSpecView)>::empty())
    } else {
        match workloads_from_entries(es.drop_last()) {
            None => None,
            Some(rest) => if has_key(rest, es.last().0) {
                None
            } else {
                match workload_from_doc_v(es.last().1) {
                    Some(w) => Some(rest.push((es.last().0, w))),
                    None => None,
                }
            },
        }
    }
}

pub open spec fn state_from_doc_v(d: DocView) -> Option<Seq<(Seq<char>, WorkloadSpecView)>> {
    match d {
        DocView::Mapping(es) => match entries_get(es, "workloads"@) {
            None => Some(Seq::<(Seq<char>, WorkloadSpecView)>::empty()),
            Some(wd) => match wd {
                DocView::Mapping(wes) => workloads_from_entries(wes),
                _ => None,
            },
        },
        _ => None,
    }
}

pub open spec fn ws_from_doc_v(d: DocView) -> Option<WorkloadStateView> {
    match d {
        DocView::Mapping(es) => {
            let agent = str_field_or_default(es, "agentName"@);
            let name = str_field_or_default(es, "workloadName"@);
            let exec = match entries_get(es, "executionState"@) {
                None => Some(ExecutionState::ExecUnknown),
                Some(ed) => match ed {
                    DocView::Str(t) => exec_state_from_tag(t),
                    _ => None,
                },
            };
            if agent is Some && name is Some && exec is Some {
                Some(
                    WorkloadStateView {
                        agent_name: agent->0,
                        workload_name: name->0,
                        execution_state: exec->0,
                    },
                )
            } else {
                None
            }
        },
        _ => None,
    }
}

pub open spec fn ws_from_list(l: Seq<DocView>) -> Option<Seq<WorkloadStateView>>
    decreases l.len(),
{
    if l.len() == 0 {
        Some(Seq::<WorkloadStateView>::empty())
    } else {
        match ws_from_list(l.drop_last()) {
            None => None,
            Some(rest) => match ws_from_doc_v(l.last()) {
                Some(w) => Some(rest.push(w)),
                None => None,
            },
        }
    }
}

/// Reads a complete state back from a document. `None` when some sub-tree
/// has the wrong shape; missing sub-trees default to empty.
pub open spec fn complete_state_from_doc_v(d: DocView) -> Option<CompleteStateView> {
    match d {
        DocView::Mapping(es) => {
            let cur = match entries_get(es, "currentState"@) {
                None => Some(Seq::<(Seq<char>, WorkloadSpecView)>::empty()),
                Some(sd) => state_from_doc_v(sd),
            };
            let startup = match entries_get(es, "startupState"@) {
                None => Some(Seq::<(Seq<char>, WorkloadSpecView)>::empty()),
                Some(sd) => state_from_doc_v(sd),
            };
            let ws = match entries_get(es, "workloadStates"@) {
                None => Some(Seq::<WorkloadStateView>::empty()),
                Some(wd) => match wd {
                    DocView::List(l) => ws_from_list(l),
                    _ => None,
                },
            };
            if cur is Some && startup is Some && ws is Some {
                Some(
                    CompleteStateView {
                        current_state: cur->0,
                        startup_state: startup->0,
                        workload_states: ws->0,
                    },
                )
            } else {
                None
            }
        },
        _ => None,
    }
}

// ---------------------------------------------------------------------------
// Prefix lemmas: a failed parse of a prefix fails the whole list
// ---------------------------------------------------------------------------
proof fn lemma_deps_prefix_none(es: Seq<(Seq<char>, DocView)>, i: int)
    requires
        0 <= i <= es.len(),
        deps_from_entries(es.take(i)) is None,
    ensures
        deps_from_entries(es) is None,
    decreases es.len() - i,
{
    if i < es.len() {
        assert(es.take(i + 1).drop_last() =~= es.take(i));
        lemma_deps_prefix_none(es, i + 1);
    } else {
        assert(es.take(i) =~= es);
    }
}

proof fn lemma_tags_prefix_none(l: Seq<DocView>, i: int)
    requires
        0 <= i <= l.len(),
        tags_from_list(l.take(i)) is None,
    ensures
        tags_from_list(l) is None,
    decreases l.len() - i,
{
    if i < l.len() {
        assert(l.take(i + 1).drop_last() =~= l.take(i));
        lemma_tags_prefix_none(l, i + 1);
    } else {
        assert(l.take(i) =~= l);
    }
}

proof fn lemma_workloads_prefix_none(es: Seq<(Seq<char>, DocView)>, i: int)
    requires
        0 <= i <= es.len(),
        workloads_from_entries(es.take(i)) is None,
    ensures
        workloads_from_entries(es) is None,
    decreases es.len() - i,
{
    if i < es.len() {
        assert(es.take(i + 1).drop_last() =~= es.take(i));
        lemma_workloads_prefix_none(es, i + 1);
    } else {
        assert(es.take(i) =~= es);
    }
}

proof fn lemma_ws_prefix_none(l: Seq<DocView>, i: int)
    requires
        0 <= i <= l.len(),
        ws_from_list(l.take(i)) is None,
    ensures
        ws_from_list(l) is None,
    decreases l.len() - i,
{
    if i < l.len() {
        assert(l.take(i + 1).drop_last() =~= l.take(i));
        lemma_ws_prefix_none(l, i + 1);
    } else {
        assert(l.take(i) =~= l);
    }
}

// ---------------------------------------------------------------------------
// Tags and conditions as strings
// ---------------------------------------------------------------------------
pub fn cond_to_string(c: DeleteCondition) -> (r: String)
    ensures
        r@ == cond_tag(c),
{
    match c {
        DeleteCondition::DelCondRunning => "DelCondRunning".to_owned(),
        DeleteCondition::DelCondNotPendingNorRunning => "DelCondNotPendingNorRunning".to_owned(),
    }
}

pub fn cond_from_string(s: &String) -> (r: Option<DeleteCondition>)
    ensures
        r == cond_from_tag(s@),
{
    if *s == "DelCondRunning".to_owned() {
        Some(DeleteCondition::DelCondRunning)
    } else if *s == "DelCondNotPendingNorRunning".to_owned() {
        Some(DeleteCondition::DelCondNotPendingNorRunning)
    } else {
        None
    }
}

pub fn exec_state_to_string(e: ExecutionState) -> (r: String)
    ensures
        r@ == exec_state_tag(e),
{
    match e {
        ExecutionState::ExecUnknown => "ExecUnknown".to_owned(),
        ExecutionState::ExecPending => "ExecPending".to_owned(),
        ExecutionState::ExecRunning => "ExecRunning".to_owned(),
        ExecutionState::ExecSucceeded => "ExecSucceeded".to_owned(),
        ExecutionState::ExecFailed => "ExecFailed".to_owned(),
        ExecutionState::ExecRemoved => "ExecRemoved".to_owned(),
    }
}

pub fn exec_state_from_string(s: &String) -> (r: Option<ExecutionState>)
    ensures
        r == exec_state_from_tag(s@),
{
    if *s == "ExecUnknown".to_owned() {
        Some(ExecutionState::ExecUnknown)
    } else if *s == "ExecPending".to_owned() {
        Some(ExecutionState::ExecPending)
    } else if *s == "ExecRunning".to_owned() {
        Some(ExecutionState::ExecRunning)
    } else if *s == "ExecSucceeded".to_owned() {
        Some(ExecutionState::ExecSucceeded)
    } else if *s == "ExecFailed".to_owned() {
        Some(ExecutionState::ExecFailed)
    } else if *s == "ExecRemoved".to_owned() {
        Some(ExecutionState::ExecRemoved)
    } else {
        None
    }
}

// ---------------------------------------------------------------------------
// Rendering, executable
// ---------------------------------------------------------------------------
pub fn tag_to_doc(t: &Tag) -> (d: Doc)
    ensures
        d@ == tag_doc(t@),
{
    let mut es: Vec<(String, Doc)> = Vec::new();
    es.push(("key".to_owned(), Doc::Str(t.key.clone())));
    es.push(("value".to_owned(), Doc::Str(t.value.clone())));
    let d = Doc::Mapping(es);
    proof {
        assert(es@.len() == 2);
        assert(es@[0].0@ == "key"@);
        assert(doc_view(es@[0].1) == DocView::Str(t@.key));
        assert(es@[1].0@ == "value"@);
        assert(doc_view(es@[1].1) == DocView::Str(t@.value));
        assert(d@->Mapping_0.len() == 2);
        assert(d@->Mapping_0[0] == (es@[0].0@, doc_view(es@[0].1)));
        assert(d@->Mapping_0[1] == (es@[1].0@, doc_view(es@[1].1)));
        assert(d@->Mapping_0 =~= tag_doc(t@)->Mapping_0);
        assert(d@ =~= tag_doc(t@));
    }
    d
}

pub fn workload_to_doc(w: &WorkloadSpec) -> (d: Doc)
    ensures
        d@ == workload_doc(w@),
{
    let mut dents: Vec<(String, Doc)> = Vec::new();
    let nd = w.dependencies.len();
    let mut i: usize = 0;
    while i < nd
        invariant
            nd == w.dependencies@.len(),
            i <= nd,
            dents@.len() == i,
            forall|j: int| 0 <= j < i ==> (#[trigger] dents@[j]).0@ == w.dependencies@[j].0@
                && dents@[j].1@ == DocView::Str(cond_tag(w.dependencies@[j].1)),
        decreases nd - i,
    {
        dents.push((w.dependencies[i].0.clone(), Doc::Str(cond_to_string(w.dependencies[i].1))));
        i += 1;
    }
    let ddoc = Doc::Mapping(dents);
    proof {
        assert(ddoc@->Mapping_0 =~= deps_doc(w@.dependencies)->Mapping_0);
        assert(ddoc@ =~= deps_doc(w@.dependencies));
    }
    let mut tdocs: Vec<Doc> = Vec::new();
    let nt = w.tags.len();
    let mut k: usize = 0;
    while k < nt
        invariant
            nt == w.tags@.len(),
            k <= nt,
            tdocs@.len() == k,
            forall|j: int| 0 <= j < k ==> (#[trigger] tdocs@[j])@ == tag_doc(w.tags@[j]@),
        decreases nt - k,
    {
        tdocs.push(tag_to_doc(&w.tags[k]));
        k += 1;
    }
    let tdoc = Doc::List(tdocs);
    proof {
        assert(tdoc@->List_0 =~= tags_doc(w@.tags)->List_0);
        assert(tdoc@ =~= tags_doc(w@.tags));
    }
    let restart_doc = if w.restart {
        Doc::Str("true".to_owned())
    } else {
        Doc::Str("false".to_owned())
    };
    let mut es: Vec<(String, Doc)> = Vec::new();
    es.push(("name".to_owned(), Doc::Str(w.name.clone())));
    es.push(("agent".to_owned(), Doc::Str(w.agent.clone())));
    es.push(("runtime".to_owned(), Doc::Str(w.runtime.clone())));
    es.push(("runtimeConfig".to_owned(), Doc::Str(w.runtime_config.clone())));
    es.push(("dependencies".to_owned(), ddoc));
    es.push(("tags".to_owned(), tdoc));
    es.push(("restart".to_owned(), restart_doc));
    let d = Doc::Mapping(es);
    proof {
        assert(es@.len() == 7);
        assert(es@[0].0@ == "name"@ && doc_view(es@[0].1) == DocView::Str(w@.name));
        assert(es@[1].0@ == "agent"@ && doc_view(es@[1].1) == DocView::Str(w@.agent));
        assert(es@[2].0@ == "runtime"@ && doc_view(es@[2].1) == DocView::Str(w@.runtime));
        assert(es@[3].0@ == "runtimeConfig"@ && doc_view(es@[3].1) == DocView::Str(
            w@.runtime_config,
        ));
        assert(es@[4].0@ == "dependencies"@ && doc_view(es@[4].1) == deps_doc(w@.dependencies));
        assert(es@[5].0@ == "tags"@ && doc_view(es@[5].1) == tags_doc(w@.tags));
        assert(es@[6].0@ == "restart"@ && doc_view(es@[6].1) == bool_doc(w@.restart));
        assert(d@->Mapping_0.len() == 7);
        assert forall|j: int| 0 <= j < 7 implies d@->Mapping_0[j] == (
            es@[j].0@,
            doc_view(es@[j].1),
        ) by {
        }
        assert(d@->Mapping_0 =~= workload_doc(w@)->Mapping_0);
        assert(d@ =~= workload_doc(w@));
    }
    d
}

pub fn state_to_doc(s: &State) -> (d: Doc)
    ensures
        d@ == state_doc(s@),
{
    let entries = s.entries();
    let mut wes: Vec<(String, Doc)> = Vec::new();
    let n = entries.len();
    let mut i: usize = 0;
    while i < n
        invariant
            n == entries@.len(),
            entries_view(entries@) == s@,
            i <= n,
            wes@.len() == i,
            forall|j: int| 0 <= j < i ==> (#[trigger] wes@[j]).0@ == entries@[j].0@ && wes@[j].1@
                == workload_doc(entries@[j].1@),
        decreases n - i,
    {
        wes.push((entries[i].0.clone(), workload_to_doc(&entries[i].1)));
        i += 1;
    }
    let wdoc = Doc::Mapping(wes);
    let mut es: Vec<(String, Doc)> = Vec::new();
    es.push(("workloads".to_owned(), wdoc));
    let d = Doc::Mapping(es);
    proof {
        let inner = s@.map_values(|p: (Seq<char>, WorkloadSpecView)| (p.0, workload_doc(p.1)));
        assert forall|j: int| 0 <= j < i implies doc_view(wes@[j].1) == workload_doc(s@[j].1)
            && wes@[j].0@ == s@[j].0 by {
            assert(s@[j] == (entries@[j].0@, entries@[j].1@));
        }
        assert(doc_view(wdoc)->Mapping_0 =~= inner);
        assert(d@->Mapping_0 =~= state_doc(s@)->Mapping_0);
        assert(d@ =~= state_doc(s@));
    }
    d
}

pub fn ws_to_doc(w: &WorkloadState) -> (d: Doc)
    ensures
        d@ == ws_doc(w@),
{
    let mut es: Vec<(String, Doc)> = Vec::new();
    es.push(("agentName".to_owned(), Doc::Str(w.agent_name.clone())));
    es.push(("workloadName".to_owned(), Doc::Str(w.workload_name.clone())));
    es.push(("executionState".to_owned(), Doc::Str(exec_state_to_string(w.execution_state))));
    let d = Doc::Mapping(es);
    proof {
        assert(es@.len() == 3);
        assert(es@[0].0@ == "agentName"@ && doc_view(es@[0].1) == DocView::Str(w@.agent_name));
        assert(es@[1].0@ == "workloadName"@ && doc_view(es@[1].1) == DocView::Str(
            w@.workload_name,
        ));
        assert(es@[2].0@ == "executionState"@ && doc_view(es@[2].1) == DocView::Str(
            exec_state_tag(w@.execution_state),
        ));
        assert(d@->Mapping_0.len() == 3);
        assert forall|j: int| 0 <= j < 3 implies d@->Mapping_0[j] == (
            es@[j].0@,
            doc_view(es@[j].1),
        ) by {
        }
        assert(d@->Mapping_0 =~= ws_doc(w@)->Mapping_0);
        assert(d@ =~= ws_doc(w@));
    }
    d
}

/// Renders a complete state as a document.
pub fn complete_state_to_doc(cs: &CompleteState) -> (d: Doc)
    ensures
        d@ == complete_state_doc(cs@),
{
    let cur = state_to_doc(&cs.current_state);
    let startup = state_to_doc(&cs.startup_state);
    let mut wdocs: Vec<Doc> = Vec::new();
    let n = cs.workload_states.len();
    let mut i: usize = 0;
    while i < n
        invariant
            n == cs.workload_states@.len(),
            i <= n,
            wdocs@.len() == i,
            forall|j: int| 0 <= j < i ==> (#[trigger] wdocs@[j])@ == ws_doc(
                cs.workload_states@[j]@,
            ),
        decreases n - i,
    {
        wdocs.push(ws_to_doc(&cs.workload_states[i]));
        i += 1;
    }
    let wsdoc = Doc::List(wdocs);
    proof {
        let target = DocView::List(
            cs@.workload_states.map_values(|w: WorkloadStateView| ws_doc(w)),
        );
        assert forall|j: int| 0 <= j < i implies doc_view(wdocs@[j]) == ws_doc(
            cs@.workload_states[j],
        ) by {
            assert(cs@.workload_states[j] == cs.workload_states@[j]@);
        }
        assert(wsdoc@->List_0 =~= target->List_0);
        assert(wsdoc@ =~= target);
    }
    let mut es: Vec<(String, Doc)> = Vec::new();
    es.push(("currentState".to_owned(), cur));
    es.push(("startupState".to_owned(), startup));
    es.push(("workloadStates".to_owned(), wsdoc));
    let d = Doc::Mapping(es);
    proof {
        assert(d@->Mapping_0 =~= complete_state_doc(cs@)->Mapping_0);
        assert(d@ =~= complete_state_doc(cs@));
    }
    d
}

// ---------------------------------------------------------------------------
// Reading back, executable
// ---------------------------------------------------------------------------
/// Reads one workload description back from a document.
pub fn workload_from_doc(d: &Doc) -> (r: Option<WorkloadSpec>)
    ensures
        match r {
            Some(w) => workload_from_doc_v(d@) == Some(w@),
            None => workload_from_doc_v(d@) is None,
        },
{
    let es = match d {
        Doc::Mapping(es) => es,
        _ => {
            return None;
        },
    };
    let ghost mv = d@->Mapping_0;
    proof {
        assert(mv =~= mapping_view(es@));
    }
    let name: String = match map_lookup(es, &"name".to_owned()) {
        None => String::new(),
        Some(Doc::Str(s)) => s.clone(),
        Some(_) => {
            return None;
        },
    };
    let agent: String = match map_lookup(es, &"agent".to_owned()) {
        None => String::new(),
        Some(Doc::Str(s)) => s.clone(),
        Some(_) => {
            return None;
        },
    };
    let runtime: String = match map_lookup(es, &"runtime".to_owned()) {
        None => String::new(),
        Some(Doc::Str(s)) => s.clone(),
        Some(_) => {
            return None;
        },
    };
    let runtime_config: String = match map_lookup(es, &"runtimeConfig".to_owned()) {
        None => String::new(),
        Some(Doc::Str(s)) => s.clone(),
        Some(_) => {
            return None;
        },
    };
    let deps_found = map_lookup(es, &"dependencies".to_owned());
    let deps: Vec<(String, DeleteCondition)> = match deps_found {
        None => Vec::new(),
        Some(dd) => match dd {
            Doc::Mapping(des) => {
            let ghost dmv = mapping_view(des@);
            proof {
                assert(dd@->Mapping_0 =~= dmv);
                assert(entries_get(mv, "dependencies"@) == Some(DocView::Mapping(dmv)));
            }
            let mut out: Vec<(String, DeleteCondition)> = Vec::new();
            let n = des.len();
            let mut i: usize = 0;
            proof {
                assert(dmv.take(0) =~= Seq::<(Seq<char>, DocView)>::empty());
                assert(deps_view(out@) =~= Seq::<(Seq<char>, DeleteCondition)>::empty());
            }
            while i < n
                invariant
                    n == des@.len(),
                    i <= n,
                    dmv == mapping_view(des@),
                    deps_from_entries(dmv.take(i as int)) == Some(deps_view(out@)),
                    deps_field(mv) == deps_from_entries(dmv),
                    d@ == DocView::Mapping(mv),
                decreases n - i,
            {
                let ghost pre = dmv.take(i as int + 1);
                proof {
                    assert(pre.drop_last() =~= dmv.take(i as int));
                    assert(pre.last() == dmv[i as int]);
                    assert(dmv[i as int] == (des@[i as int].0@, des@[i as int].1@));
                }
                match &des[i].1 {
                    Doc::Str(t) => {
                        match cond_from_string(t) {
                            Some(c) => {
                                proof {
                                    assert(deps_view(out@.push((des@[i as int].0, c))) =~=
                                        deps_view(out@).push((des@[i as int].0@, c)));
                                }
                                out.push((des[i].0.clone(), c));
                            },
                            None => {
                                proof {
                                    assert(deps_from_entries(pre) is None);
                                    lemma_deps_prefix_none(dmv, i as int + 1);
                                }
                                return None;
                            },
                        }
                    },
                    _ => {
                        proof {
                            assert(deps_from_entries(pre) is None);
                            lemma_deps_prefix_none(dmv, i as int + 1);
                        }
                        return None;
                    },
                }
                i += 1;
            }
            proof {
                assert(dmv.take(n as int) =~= dmv);
            }
            out
            },
            _ => {
                return None;
            },
        },
    };
    let tags_found = map_lookup(es, &"tags".to_owned());
    let tags: Vec<Tag> = match tags_found {
        None => Vec::new(),
        Some(dd) => match dd {
            Doc::List(tl) => {
            let ghost lv = doc_view(Doc::List(*tl))->List_0;
            proof {
                assert(lv.len() == tl@.len());
                assert(dd@ == DocView::List(lv));
                assert(entries_get(mv, "tags"@) == Some(DocView::List(lv)));
            }
            let mut out: Vec<Tag> = Vec::new();
            let n = tl.len();
            let mut i: usize = 0;
            proof {
                assert(lv.take(0) =~= Seq::<DocView>::empty());
                assert(out@.map_values(|t: Tag| t@) =~= Seq::<TagView>::empty());
            }
            while i < n
                invariant
                    n == tl@.len(),
                    i <= n,
                    lv == doc_view(Doc::List(*tl))->List_0,
                    lv.len() == n,
                    tags_from_list(lv.take(i as int)) == Some(out@.map_values(|t: Tag| t@)),
                    tags_field(mv) == tags_from_list(lv),
                    d@ == DocView::Mapping(mv),
                decreases n - i,
            {
                let ghost pre = lv.take(i as int + 1);
                proof {
                    assert(pre.drop_last() =~= lv.take(i as int));
                    assert(pre.last() == lv[i as int]);
                    assert(lv[i as int] == tl@[i as int]@);
                }
                match tag_from_doc(&tl[i]) {
                    Some(t) => {
                        proof {
                            assert((out@.push(t)).map_values(|t: Tag| t@) =~= out@.map_values(
                                |t: Tag| t@,
                            ).push(t@));
                        }
                        out.push(t);
                    },
                    None => {
                        proof {
                            assert(tags_from_list(pre) is None);
                            lemma_tags_prefix_none(lv, i as int + 1);
                        }
                        return None;
                    },
                }
                i += 1;
            }
            proof {
                assert(lv.take(n as int) =~= lv);
            }
            out
            },
            _ => {
                return None;
            },
        },
    };
    let restart: bool = match map_lookup(es, &"restart".to_owned()) {
        None => false,
        Some(Doc::Str(s)) => {
            if *s == "true".to_owned() {
                true
            } else if *s == "false".to_owned() {
                false
            } else {
                proof {
                    assert(bool_from_doc(DocView::Str(s@)) is None);
                }
                return None;
            }
        },
        Some(_) => {
            return None;
        },
    };
    let w = WorkloadSpec { name, agent, runtime, runtime_config, dependencies: deps, tags, restart };
    proof {
        assert(workload_from_doc_v(d@) == Some(w@));
    }
    Some(w)
}

/// Reads one tag back from a document.
pub fn tag_from_doc(d: &Doc) -> (r: Option<Tag>)
    ensures
        match r {
            Some(t) => tag_from_doc_v(d@) == Some(t@),
            None => tag_from_doc_v(d@) is None,
        },
{
    let tes = match d {
        Doc::Mapping(tes) => tes,
        _ => {
            return None;
        },
    };
    proof {
        assert(d@->Mapping_0 =~= mapping_view(tes@));
    }
    let key: String = match map_lookup(tes, &"key".to_owned()) {
        Some(Doc::Str(s)) => s.clone(),
        _ => {
            return None;
        },
    };
    let value: String = match map_lookup(tes, &"value".to_owned()) {
        Some(Doc::Str(s)) => s.clone(),
        _ => {
            return None;
        },
    };
    Some(Tag { key, value })
}

/// Reads a state (its workloads mapping) back from a document.
pub fn state_from_doc(d: &Doc) -> (r: Option<State>)
    ensures
        match r {
            Some(s) => state_from_doc_v(d@) == Some(s@),
            None => state_from_doc_v(d@) is None,
        },
{
    let es = match d {
        Doc::Mapping(es) => es,
        _ => {
            return None;
        },
    };
    proof {
        assert(d@->Mapping_0 =~= mapping_view(es@));
    }
    let wl_found = map_lookup(es, &"workloads".to_owned());
    match wl_found {
        None => Some(State::new()),
        Some(dd) => match dd {
            Doc::Mapping(wes) => {
            let ghost wmv = mapping_view(wes@);
            proof {
                assert(dd@->Mapping_0 =~= wmv);
                assert(entries_get(mapping_view(es@), "workloads"@) == Some(
                    DocView::Mapping(wmv),
                ));
            }
            let mut st = State::new();
            let n = wes.len();
            let mut i: usize = 0;
            proof {
                assert(wmv.take(0) =~= Seq::<(Seq<char>, DocView)>::empty());
            }
            while i < n
                invariant
                    n == wes@.len(),
                    i <= n,
                    wmv == mapping_view(wes@),
                    workloads_from_entries(wmv.take(i as int)) == Some(st@),
                    state_from_doc_v(d@) == workloads_from_entries(wmv),
                    d@ == DocView::Mapping(mapping_view(es@)),
                decreases n - i,
            {
                let ghost pre = wmv.take(i as int + 1);
                proof {
                    assert(pre.drop_last() =~= wmv.take(i as int));
                    assert(pre.last() == wmv[i as int]);
                    assert(wmv[i as int] == (wes@[i as int].0@, wes@[i as int].1@));
                }
                if st.contains(&wes[i].0) {
                    proof {
                        assert(workloads_from_entries(pre) is None);
                        lemma_workloads_prefix_none(wmv, i as int + 1);
                    }
                    return None;
                }
                match workload_from_doc(&wes[i].1) {
                    Some(w) => {
                        st.add(wes[i].0.clone(), w);
                    },
                    None => {
                        proof {
                            assert(workloads_from_entries(pre) is None);
                            lemma_workloads_prefix_none(wmv, i as int + 1);
                        }
                        return None;
                    },
                }
                i += 1;
            }
            proof {
                assert(wmv.take(n as int) =~= wmv);
            }
            Some(st)
            },
            _ => None,
        },
    }
}

/// Reads one workload state back from a document.
pub fn ws_from_doc(d: &Doc) -> (r: Option<WorkloadState>)
    ensures
        match r {
            Some(w) => ws_from_doc_v(d@) == Some(w@),
            None => ws_from_doc_v(d@) is None,
        },
{
    let es = match d {
        Doc::Mapping(es) => es,
        _ => {
            return None;
        },
    };
    proof {
        assert(d@->Mapping_0 =~= mapping_view(es@));
    }
    let agent_name: String = match map_lookup(es, &"agentName".to_owned()) {
        None => String::new(),
        Some(Doc::Str(s)) => s.clone(),
        Some(_) => {
            return None;
        },
    };
    let workload_name: String = match map_lookup(es, &"workloadName".to_owned()) {
        None => String::new(),
        Some(Doc::Str(s)) => s.clone(),
        Some(_) => {
            return None;
        },
    };
    let execution_state: ExecutionState = match map_lookup(es, &"executionState".to_owned()) {
        None => ExecutionState::ExecUnknown,
        Some(Doc::Str(s)) => match exec_state_from_string(s) {
            Some(e) => e,
            None => {
                return None;
            },
        },
        Some(_) => {
            return None;
        },
    };
    Some(WorkloadState { agent_name, workload_name, execution_state })
}

/// Reads a complete state back from a document.
pub fn complete_state_from_doc(d: &Doc) -> (r: Option<CompleteState>)
    ensures
        match r {
            Some(cs) => complete_state_from_doc_v(d@) == Some(cs@),
            None => complete_state_from_doc_v(d@) is None,
        },
{
    let es = match d {
        Doc::Mapping(es) => es,
        _ => {
            return None;
        },
    };
    proof {
        assert(d@->Mapping_0 =~= mapping_view(es@));
    }
    let current_state: State = match map_lookup(es, &"currentState".to_owned()) {
        None => State::new(),
        Some(sd) => match state_from_doc(sd) {
            Some(s) => s,
            None => {
                return None;
            },
        },
    };
    let startup_state: State = match map_lookup(es, &"startupState".to_owned()) {
        None => State::new(),
        Some(sd) => match state_from_doc(sd) {
            Some(s) => s,
            None => {
                return None;
            },
        },
    };
    let ws_found = map_lookup(es, &"workloadStates".to_owned());
    let workload_states: Vec<WorkloadState> = match ws_found {
        None => Vec::new(),
        Some(dd) => match dd {
            Doc::List(wl) => {
            let ghost lv = doc_view(Doc::List(*wl))->List_0;
            proof {
                assert(dd@ == DocView::List(lv));
                assert(entries_get(mapping_view(es@), "workloadStates"@) == Some(
                    DocView::List(lv),
                ));
            }
            let mut out: Vec<WorkloadState> = Vec::new();
            let n = wl.len();
            let mut i: usize = 0;
            proof {
                assert(lv.take(0) =~= Seq::<DocView>::empty());
                assert(ws_list_view(out@) =~= Seq::<WorkloadStateView>::empty());
            }
            while i < n
                invariant
                    n == wl@.len(),
                    i <= n,
                    lv == doc_view(Doc::List(*wl))->List_0,
                    lv.len() == n,
                    ws_from_list(lv.take(i as int)) == Some(ws_list_view(out@)),
                    d@ == DocView::Mapping(mapping_view(es@)),
                    entries_get(mapping_view(es@), "workloadStates"@) == Some(DocView::List(lv)),
                decreases n - i,
            {
                let ghost pre = lv.take(i as int + 1);
                proof {
                    assert(pre.drop_last() =~= lv.take(i as int));
                    assert(pre.last() == lv[i as int]);
                    assert(lv[i as int] == wl@[i as int]@);
                }
                match ws_from_doc(&wl[i]) {
                    Some(w) => {
                        proof {
                            assert(ws_list_view(out@.push(w)) =~= ws_list_view(out@).push(w@));
                        }
                        out.push(w);
                    },
                    None => {
                        proof {
                            assert(ws_from_list(pre) is None);
                            lemma_ws_prefix_none(lv, i as int + 1);
                        }
                        return None;
                    },
                }
                i += 1;
            }
            proof {
                assert(lv.take(n as int) =~= lv);
            }
            out
            },
            _ => {
                return None;
            },
        },
    };
    let cs = CompleteState { current_state, startup_state, workload_states };
    proof {
        assert(complete_state_from_doc_v(d@) == Some(cs@));
    }
    Some(cs)
}

// ---------------------------------------------------------------------------
// Round trips: reading a rendered document back yields the original value
// ---------------------------------------------------------------------------
proof fn lemma_bool_round(b: bool)
    ensures
        bool_from_doc(bool_doc(b)) == Some(b),
{
    reveal_strlit("true");
    reveal_strlit("false");
    assert("true"@.len() == 4 && "false"@.len() == 5);
}

proof fn lemma_cond_round(c: DeleteCondition)
    ensures
        cond_from_tag(cond_tag(c)) == Some(c),
{
    reveal_strlit("DelCondRunning");
    reveal_strlit("DelCondNotPendingNorRunning");
    assert("DelCondRunning"@.len() == 14 && "DelCondNotPendingNorRunning"@.len() == 27);
}

proof fn lemma_exec_state_round(e: ExecutionState)
    ensures
        exec_state_from_tag(exec_state_tag(e)) == Some(e),
{
    reveal_strlit("ExecUnknown");
    reveal_strlit("ExecPending");
    reveal_strlit("ExecRunning");
    reveal_strlit("ExecSucceeded");
    reveal_strlit("ExecFailed");
    reveal_strlit("ExecRemoved");
    assert("ExecUnknown"@.len() == 11 && "ExecPending"@.len() == 11 && "ExecRunning"@.len() == 11
        && "ExecSucceeded"@.len() == 13 && "ExecFailed"@.len() == 10 && "ExecRemoved"@.len()
        == 11);
    assert("ExecUnknown"@[4] == 'U' && "ExecPending"@[4] == 'P' && "ExecRunning"@[4] == 'R'
        && "ExecRemoved"@[4] == 'R');
    assert("ExecRunning"@[5] == 'u' && "ExecRemoved"@[5] == 'e');
}

proof fn lemma_deps_round(d: Seq<(Seq<char>, DeleteCondition)>)
    ensures
        deps_from_entries(deps_doc(d)->Mapping_0) == Some(d),
    decreases d.len(),
{
    let es = deps_doc(d)->Mapping_0;
    if d.len() == 0 {
        assert(es.len() == 0);
        assert(deps_from_entries(es) == Some(Seq::<(Seq<char>, DeleteCondition)>::empty()));
        assert(Seq::<(Seq<char>, DeleteCondition)>::empty() =~= d);
    } else {
        lemma_deps_round(d.drop_last());
        assert(es.drop_last() =~= deps_doc(d.drop_last())->Mapping_0);
        assert(es.last() == (d.last().0, DocView::Str(cond_tag(d.last().1))));
        lemma_cond_round(d.last().1);
        assert(d.drop_last().push(d.last()) =~= d);
    }
}

proof fn lemma_tag_round(t: TagView)
    ensures
        tag_from_doc_v(tag_doc(t)) == Some(t),
{
    reveal_strlit("key");
    reveal_strlit("value");
    assert("key"@.len() == 3 && "value"@.len() == 5);
    let tes = tag_doc(t)->Mapping_0;
    assert(tes.len() == 2);
    assert(entries_get(tes, "key"@) == Some(DocView::Str(t.key)));
    assert(tes[0].0 != "value"@);
    assert(tes.drop_first() =~= seq![("value"@, DocView::Str(t.value))]);
    assert(entries_get(seq![("value"@, DocView::Str(t.value))], "value"@) == Some(
        DocView::Str(t.value),
    ));
    assert(entries_get(tes, "value"@) == Some(DocView::Str(t.value)));
    assert(tag_from_doc_v(tag_doc(t))->0 =~= t);
}

proof fn lemma_tags_round(ts: Seq<TagView>)
    ensures
        tags_from_list(tags_doc(ts)->List_0) == Some(ts),
    decreases ts.len(),
{
    let l = tags_doc(ts)->List_0;
    if ts.len() == 0 {
        assert(l.len() == 0);
        assert(Seq::<TagView>::empty() =~= ts);
    } else {
        lemma_tags_round(ts.drop_last());
        assert(l.drop_last() =~= tags_doc(ts.drop_last())->List_0);
        assert(l.last() == tag_doc(ts.last()));
        lemma_tag_round(ts.last());
        assert(ts.drop_last().push(ts.last()) =~= ts);
    }
}

proof fn lemma_workload_round(w: WorkloadSpecView)
    ensures
        workload_from_doc_v(workload_doc(w)) == Some(w),
{
    reveal_strlit("name");
    reveal_strlit("agent");
    reveal_strlit("runtime");
    reveal_strlit("runtimeConfig");
    reveal_strlit("dependencies");
    reveal_strlit("tags");
    reveal_strlit("restart");
    assert("name"@.len() == 4 && "agent"@.len() == 5 && "runtime"@.len() == 7
        && "runtimeConfig"@.len() == 13 && "dependencies"@.len() == 12 && "tags"@.len() == 4
        && "restart"@.len() == 7);
    assert("name"@[0] == 'n' && "tags"@[0] == 't');
    assert("runtime"@[1] == 'u' && "restart"@[1] == 'e');
    let es = workload_doc(w)->Mapping_0;
    assert(es.len() == 7);
    assert(entries_get(es, "name"@) == Some(DocView::Str(w.name)));
    assert(es[0].0 != "agent"@);
    crate::doc::lemma_entries_get_skip(es, "agent"@, 1);
    assert(es.skip(1)[0] == es[1]);
    assert(entries_get(es, "agent"@) == Some(DocView::Str(w.agent)));
    assert(es[0].0 != "runtime"@ && es[1].0 != "runtime"@);
    crate::doc::lemma_entries_get_skip(es, "runtime"@, 2);
    assert(es.skip(2)[0] == es[2]);
    assert(entries_get(es, "runtime"@) == Some(DocView::Str(w.runtime)));
    assert(es[0].0 != "runtimeConfig"@ && es[1].0 != "runtimeConfig"@ && es[2].0
        != "runtimeConfig"@);
    crate::doc::lemma_entries_get_skip(es, "runtimeConfig"@, 3);
    assert(es.skip(3)[0] == es[3]);
    assert(entries_get(es, "runtimeConfig"@) == Some(DocView::Str(w.runtime_config)));
    assert(es[0].0 != "dependencies"@ && es[1].0 != "dependencies"@ && es[2].0 != "dependencies"@
        && es[3].0 != "dependencies"@);
    crate::doc::lemma_entries_get_skip(es, "dependencies"@, 4);
    assert(es.skip(4)[0] == es[4]);
    assert(entries_get(es, "dependencies"@) == Some(deps_doc(w.dependencies)));
    assert(es[0].0 != "tags"@ && es[1].0 != "tags"@ && es[2].0 != "tags"@ && es[3].0 != "tags"@
        && es[4].0 != "tags"@);
    crate::doc::lemma_entries_get_skip(es, "tags"@, 5);
    assert(es.skip(5)[0] == es[5]);
    assert(entries_get(es, "tags"@) == Some(tags_doc(w.tags)));
    assert(es[0].0 != "restart"@ && es[1].0 != "restart"@ && es[2].0 != "restart"@ && es[3].0
        != "restart"@ && es[4].0 != "restart"@ && es[5].0 != "restart"@);
    crate::doc::lemma_entries_get_skip(es, "restart"@, 6);
    assert(es.skip(6)[0] == es[6]);
    assert(entries_get(es, "restart"@) == Some(bool_doc(w.restart)));
    lemma_deps_round(w.dependencies);
    lemma_tags_round(w.tags);
    lemma_bool_round(w.restart);
    assert(workload_from_doc_v(workload_doc(w))->0 =~= w);
}

proof fn lemma_workloads_round(s: Seq<(Seq<char>, WorkloadSpecView)>)
    requires
        crate::state::unique_keys(s),
    ensures
        workloads_from_entries(
            s.map_values(|p: (Seq<char>, WorkloadSpecView)| (p.0, workload_doc(p.1))),
        ) == Some(s),
    decreases s.len(),
{
    let wes = s.map_values(|p: (Seq<char>, WorkloadSpecView)| (p.0, workload_doc(p.1)));
    if s.len() == 0 {
        assert(wes.len() == 0);
        assert(Seq::<(Seq<char>, WorkloadSpecView)>::empty() =~= s);
    } else {
        assert(crate::state::unique_keys(s.drop_last()));
        lemma_workloads_round(s.drop_last());
        assert(wes.drop_last() =~= s.drop_last().map_values(
            |p: (Seq<char>, WorkloadSpecView)| (p.0, workload_doc(p.1)),
        ));
        assert(wes.last() == (s.last().0, workload_doc(s.last().1)));
        assert(!has_key(s.drop_last(), s.last().0)) by {
            if has_key(s.drop_last(), s.last().0) {
                let i = choose|i: int|
                    0 <= i < s.drop_last().len() && (#[trigger] s.drop_last()[i]).0 == s.last().0;
                assert(s[i].0 == s[s.len() - 1].0);
            }
        }
        lemma_workload_round(s.last().1);
        assert(s.drop_last().push(s.last()) =~= s);
    }
}

proof fn lemma_state_round(s: Seq<(Seq<char>, WorkloadSpecView)>)
    requires
        crate::state::unique_keys(s),
    ensures
        state_from_doc_v(state_doc(s)) == Some(s),
{
    reveal_strlit("workloads");
    assert("workloads"@.len() == 9);
    let es = state_doc(s)->Mapping_0;
    assert(es.len() == 1);
    assert(entries_get(es, "workloads"@) == Some(
        DocView::Mapping(s.map_values(|p: (Seq<char>, WorkloadSpecView)| (p.0, workload_doc(p.1)))),
    ));
    lemma_workloads_round(s);
}

proof fn lemma_ws_round(w: WorkloadStateView)
    ensures
        ws_from_doc_v(ws_doc(w)) == Some(w),
{
    reveal_strlit("agentName");
    reveal_strlit("workloadName");
    reveal_strlit("executionState");
    assert("agentName"@.len() == 9 && "workloadName"@.len() == 12 && "executionState"@.len()
        == 14);
    let es = ws_doc(w)->Mapping_0;
    assert(es.len() == 3);
    assert(entries_get(es, "agentName"@) == Some(DocView::Str(w.agent_name)));
    assert(es[0].0 != "workloadName"@);
    crate::doc::lemma_entries_get_skip(es, "workloadName"@, 1);
    assert(es.skip(1)[0] == es[1]);
    assert(entries_get(es, "workloadName"@) == Some(DocView::Str(w.workload_name)));
    assert(es[0].0 != "executionState"@ && es[1].0 != "executionState"@);
    crate::doc::lemma_entries_get_skip(es, "executionState"@, 2);
    assert(es.skip(2)[0] == es[2]);
    assert(entries_get(es, "executionState"@) == Some(
        DocView::Str(exec_state_tag(w.execution_state)),
    ));
    lemma_exec_state_round(w.execution_state);
    assert(ws_from_doc_v(ws_doc(w))->0 =~= w);
}

proof fn lemma_ws_list_round(l: Seq<WorkloadStateView>)
    ensures
        ws_from_list(l.map_values(|w: WorkloadStateView| ws_doc(w))) == Some(l),
    decreases l.len(),
{
    let dl = l.map_values(|w: WorkloadStateView| ws_doc(w));
    if l.len() == 0 {
        assert(dl.len() == 0);
        assert(Seq::<WorkloadStateView>::empty() =~= l);
    } else {
        lemma_ws_list_round(l.drop_last());
        assert(dl.drop_last() =~= l.drop_last().map_values(|w: WorkloadStateView| ws_doc(w)));
        assert(dl.last() == ws_doc(l.last()));
        lemma_ws_round(l.last());
        assert(l.drop_last().push(l.last()) =~= l);
    }
}

/// A mapping that serves the three top-level sub-trees of a complete state
/// under their keys — in any order — reads back as that complete state.
pub proof fn lemma_complete_state_from_entries(cs: CompleteStateView, es: Seq<(Seq<char>, DocView)>)
    requires
        crate::state::unique_keys(cs.current_state),
        crate::state::unique_keys(cs.startup_state),
        entries_get(es, "currentState"@) == Some(state_doc(cs.current_state)),
        entries_get(es, "startupState"@) == Some(state_doc(cs.startup_state)),
        entries_get(es, "workloadStates"@) == Some(
            DocView::List(cs.workload_states.map_values(|w: WorkloadStateView| ws_doc(w))),
        ),
    ensures
        complete_state_from_doc_v(DocView::Mapping(es)) == Some(cs),
{
    lemma_state_round(cs.current_state);
    lemma_state_round(cs.startup_state);
    lemma_ws_list_round(cs.workload_states);
    assert(complete_state_from_doc_v(DocView::Mapping(es))->0 =~= cs);
}

/// Reading a rendered complete state back yields the same complete state.
pub proof fn lemma_complete_state_round(cs: CompleteStateView)
    requires
        crate::state::unique_keys(cs.current_state),
        crate::state::unique_keys(cs.startup_state),
    ensures
        complete_state_from_doc_v(complete_state_doc(cs)) == Some(cs),
{
    reveal_strlit("currentState");
    reveal_strlit("startupState");
    reveal_strlit("workloadStates");
    assert("currentState"@.len() == 12 && "startupState"@.len() == 12 && "workloadStates"@.len()
        == 14);
    assert("currentState"@[0] == 'c' && "startupState"@[0] == 's');
    let es = complete_state_doc(cs)->Mapping_0;
    assert(es.len() == 3);
    assert(entries_get(es, "currentState"@) == Some(state_doc(cs.current_state)));
    assert(es[0].0 != "startupState"@);
    crate::doc::lemma_entries_get_skip(es, "startupState"@, 1);
    assert(es.skip(1)[0] == es[1]);
    assert(entries_get(es, "startupState"@) == Some(state_doc(cs.startup_state)));
    assert(es[0].0 != "workloadStates"@ && es[1].0 != "workloadStates"@);
    crate::doc::lemma_entries_get_skip(es, "workloadStates"@, 2);
    assert(es.skip(2)[0] == es[2]);
    assert(entries_get(es, "workloadStates"@) == Some(
        DocView::List(cs.workload_states.map_values(|w: WorkloadStateView| ws_doc(w))),
    ));
    lemma_complete_state_from_entries(cs, es);
}

} // verus!
