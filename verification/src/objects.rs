//! The data model of the orchestrator core: workload descriptions, execution
//! states, and the complete-state triple that the server manages.
use vstd::prelude::*;

verus! {

/// The agent-observed runtime status of a workload. `ExecRemoved` is terminal.
#[derive(Clone, Copy, PartialEq, Eq, Structural, Debug)]
pub enum ExecutionState {
    ExecUnknown,
    ExecPending,
    ExecRunning,
    ExecSucceeded,
    ExecFailed,
    ExecRemoved,
}

/// A predicate over a dependent workload's execution state that must hold
/// before a workload may be torn down.
#[derive(Clone, Copy, PartialEq, Eq, Structural, Debug)]
pub enum DeleteCondition {
    DelCondRunning,
    DelCondNotPendingNorRunning,
}

/// Free-form metadata attached to a workload.
#[derive(Clone, Debug)]
pub struct Tag {
    pub key: String,
    pub value: String,
}

#[verifier::ext_equal]
pub struct TagView {
    pub key: Seq<char>,
    pub value: Seq<char>,
}

impl View for Tag {
    type V = TagView;

    open spec fn view(&self) -> TagView {
        (TagView { key: self.key@, value: self.value@ })
    }
}

impl PartialEq for Tag {
    fn eq(&self, other: &Self) -> (r: bool) {
        self.key == other.key && self.value == other.value
    }
}

impl Eq for Tag {

}

impl vstd::std_specs::cmp::PartialEqSpecImpl for Tag {
    open spec fn obeys_eq_spec() -> bool {
        true
    }

    open spec fn eq_spec(&self, other: &Self) -> bool {
        self@ == other@
    }
}

/// The description of one workload: where it runs, through which runtime,
/// and on which other workloads it depends.
#[derive(Clone, Debug)]
pub struct WorkloadSpec {
    pub name: String,
    pub agent: String,
    pub runtime: String,
    pub runtime_config: String,
    pub dependencies: Vec<(String, DeleteCondition)>,
    pub tags: Vec<Tag>,
    pub restart: bool,
}

#[verifier::ext_equal]
pub struct WorkloadSpecView {
    pub name: Seq<char>,
    pub agent: Seq<char>,
    pub runtime: Seq<char>,
    pub runtime_config: Seq<char>,
    pub dependencies: Seq<(Seq<char>, DeleteCondition)>,
    pub tags: Seq<TagView>,
    pub restart: bool,
}

pub open spec fn deps_view(deps: Seq<(String, DeleteCondition)>) -> Seq<(Seq<char>, DeleteCondition)> {
    deps.map_values(|p: (String, DeleteCondition)| (p.0@, p.1))
}

impl View for WorkloadSpec {
    type V = WorkloadSpecView;

    open spec fn view(&self) -> WorkloadSpecView {
        (WorkloadSpecView {
            name: self.name@,
            agent: self.agent@,
            runtime: self.runtime@,
            runtime_config: self.runtime_config@,
            dependencies: deps_view(self.dependencies@),
            tags: self.tags@.map_values(|t: Tag| t@),
            restart: self.restart,
        })
    }
}

/// Compares two dependency lists; equality means equal views.
pub fn dep_vecs_eq(a: &Vec<(String, DeleteCondition)>, b: &Vec<(String, DeleteCondition)>) -> (r: bool)
    ensures
        r == (deps_view(a@) == deps_view(b@)),
{
    if a.len() != b.len() {
        assert(deps_view(a@).len() != deps_view(b@).len());
        return false;
    }
    let n = a.len();
    let mut i: usize = 0;
    while i < n
        invariant
            n == a.len() == b.len(),
            i <= n,
            forall|j: int| 0 <= j < i ==> deps_view(a@)[j] == deps_view(b@)[j],
        decreases n - i,
    {
        if !(a[i].0 == b[i].0 && a[i].1 == b[i].1) {
            assert(deps_view(a@)[i as int] != deps_view(b@)[i as int]);
            return false;
        }
        assert(deps_view(a@)[i as int] == deps_view(b@)[i as int]);
        i += 1;
    }
    proof {
        assert(deps_view(a@) =~= deps_view(b@));
    }
    true
}

/// Compares two tag lists; equality means equal views.
pub fn tag_vecs_eq(a: &Vec<Tag>, b: &Vec<Tag>) -> (r: bool)
    ensures
        r == (a@.map_values(|t: Tag| t@) == b@.map_values(|t: Tag| t@)),
{
    let ghost av = a@.map_values(|t: Tag| t@);
    let ghost bv = b@.map_values(|t: Tag| t@);
    if a.len() != b.len() {
        assert(av.len() != bv.len());
        return false;
    }
    let n = a.len();
    let mut i: usize = 0;
    while i < n
        invariant
            n == a.len() == b.len(),
            av == a@.map_values(|t: Tag| t@),
            bv == b@.map_values(|t: Tag| t@),
            i <= n,
            forall|j: int| 0 <= j < i ==> av[j] == bv[j],
        decreases n - i,
    {
        if !(a[i] == b[i]) {
            assert(av[i as int] != bv[i as int]);
            return false;
        }
        assert(av[i as int] == bv[i as int]);
        i += 1;
    }
    proof {
        assert(av =~= bv);
    }
    true
}

impl PartialEq for WorkloadSpec {
    fn eq(&self, other: &Self) -> (r: bool) {
        self.name == other.name && self.agent == other.agent && self.runtime == other.runtime
            && self.runtime_config == other.runtime_config && self.restart == other.restart
            && dep_vecs_eq(&self.dependencies, &other.dependencies)
            && tag_vecs_eq(&self.tags, &other.tags)
    }
}

impl Eq for WorkloadSpec {

}

impl vstd::std_specs::cmp::PartialEqSpecImpl for WorkloadSpec {
    open spec fn obeys_eq_spec() -> bool {
        true
    }

    open spec fn eq_spec(&self, other: &Self) -> bool {
        self@ == other@
    }
}

impl WorkloadSpec {
    /// A copy whose view equals this one's.
    pub fn duplicate(&self) -> (r: WorkloadSpec)
        ensures
            r@ == self@,
    {
        let mut deps: Vec<(String, DeleteCondition)> = Vec::new();
        let mut i: usize = 0;
        while i < self.dependencies.len()
            invariant
                i <= self.dependencies.len(),
                deps@.len() == i,
                forall|j: int| 0 <= j < i ==> deps@[j].0@ == self.dependencies@[j].0@
                    && deps@[j].1 == self.dependencies@[j].1,
            decreases self.dependencies.len() - i,
        {
            deps.push((self.dependencies[i].0.clone(), self.dependencies[i].1));
            i += 1;
        }
        let mut tags: Vec<Tag> = Vec::new();
        let mut k: usize = 0;
        while k < self.tags.len()
            invariant
                k <= self.tags.len(),
                tags@.len() == k,
                forall|j: int| 0 <= j < k ==> tags@[j]@ == self.tags@[j]@,
            decreases self.tags.len() - k,
        {
            tags.push(Tag { key: self.tags[k].key.clone(), value: self.tags[k].value.clone() });
            k += 1;
        }
        let r = WorkloadSpec {
            name: self.name.clone(),
            agent: self.agent.clone(),
            runtime: self.runtime.clone(),
            runtime_config: self.runtime_config.clone(),
            dependencies: deps,
            tags,
            restart: self.restart,
        };
        proof {
            assert(deps_view(r.dependencies@) =~= deps_view(self.dependencies@));
            assert(r.tags@.map_values(|t: Tag| t@) =~= self.tags@.map_values(|t: Tag| t@));
            assert(r@ =~= self@);
        }
        r
    }
}

/// The agent-observed execution state of one workload.
#[derive(Clone, Debug)]
pub struct WorkloadState {
    pub agent_name: String,
    pub workload_name: String,
    pub execution_state: ExecutionState,
}

#[verifier::ext_equal]
pub struct WorkloadStateView {
    pub agent_name: Seq<char>,
    pub workload_name: Seq<char>,
    pub execution_state: ExecutionState,
}

impl View for WorkloadState {
    type V = WorkloadStateView;

    open spec fn view(&self) -> WorkloadStateView {
        (WorkloadStateView {
            agent_name: self.agent_name@,
            workload_name: self.workload_name@,
            execution_state: self.execution_state,
        })
    }
}

impl PartialEq for WorkloadState {
    fn eq(&self, other: &Self) -> (r: bool) {
        self.agent_name == other.agent_name && self.workload_name == other.workload_name
            && self.execution_state == other.execution_state
    }
}

impl Eq for WorkloadState {

}

impl vstd::std_specs::cmp::PartialEqSpecImpl for WorkloadState {
    open spec fn obeys_eq_spec() -> bool {
        true
    }

    open spec fn eq_spec(&self, other: &Self) -> bool {
        self@ == other@
    }
}

impl WorkloadState {
    /// A copy whose view equals this one's.
    pub fn duplicate(&self) -> (r: WorkloadState)
        ensures
            r@ == self@,
    {
        WorkloadState {
            agent_name: self.agent_name.clone(),
            workload_name: self.workload_name.clone(),
            execution_state: self.execution_state,
        }
    }
}

/// A workload removed by a state update, annotated with the conditions under
/// which it may actually be torn down.
#[derive(Clone, Debug)]
pub struct DeletedWorkload {
    pub name: String,
    pub agent: String,
    pub dependencies: Vec<(String, DeleteCondition)>,
}

#[verifier::ext_equal]
pub struct DeletedWorkloadView {
    pub name: Seq<char>,
    pub agent: Seq<char>,
    pub dependencies: Seq<(Seq<char>, DeleteCondition)>,
}

impl View for DeletedWorkload {
    type V = DeletedWorkloadView;

    open spec fn view(&self) -> DeletedWorkloadView {
        (DeletedWorkloadView {
            name: self.name@,
            agent: self.agent@,
            dependencies: deps_view(self.dependencies@),
        })
    }
}

impl PartialEq for DeletedWorkload {
    fn eq(&self, other: &Self) -> (r: bool) {
        self.name == other.name && self.agent == other.agent
            && dep_vecs_eq(&self.dependencies, &other.dependencies)
    }
}

impl Eq for DeletedWorkload {

}

impl vstd::std_specs::cmp::PartialEqSpecImpl for DeletedWorkload {
    open spec fn obeys_eq_spec() -> bool {
        true
    }

    open spec fn eq_spec(&self, other: &Self) -> bool {
        self@ == other@
    }
}

} // verus!
