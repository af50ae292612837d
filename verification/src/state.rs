//! The desired state held by the server: an unordered mapping from workload
//! name to its description, and the complete-state triple served to clients.
use vstd::prelude::*;

use crate::objects::{WorkloadSpec, WorkloadSpecView, WorkloadState, WorkloadStateView};

verus! {

/// True when no two entries share a key.
pub open spec fn unique_keys<T>(s: Seq<(Seq<char>, T)>) -> bool {
    forall|i: int, j: int| 0 <= i < j < s.len() ==> (#[trigger] s[i]).0 != (#[trigger] s[j]).0
}

/// True when some entry carries the key `k`.
pub open spec fn has_key<T>(s: Seq<(Seq<char>, T)>, k: Seq<char>) -> bool {
    exists|i: int| 0 <= i < s.len() && (#[trigger] s[i]).0 == k
}

/// The position of the entry carrying `k` (unique when `unique_keys` holds).
pub open spec fn idx_of<T>(s: Seq<(Seq<char>, T)>, k: Seq<char>) -> int {
    choose|i: int| 0 <= i < s.len() && (#[trigger] s[i]).0 == k
}

/// The value stored under `k`.
pub open spec fn val_of<T>(s: Seq<(Seq<char>, T)>, k: Seq<char>) -> T {
    s[idx_of(s, k)].1
}

pub open spec fn entries_view(es: Seq<(String, WorkloadSpec)>) -> Seq<(Seq<char>, WorkloadSpecView)> {
    es.map_values(|p: (String, WorkloadSpec)| (p.0@, p.1@))
}

pub open spec fn ws_list_view(s: Seq<WorkloadState>) -> Seq<WorkloadStateView> {
    s.map_values(|w: WorkloadState| w@)
}

/// An unordered mapping from workload name to `WorkloadSpec`. Keys are
/// unique; by convention each key equals the spec's `name` field.
#[derive(Debug)]
pub struct State {
    workloads: Vec<(String, WorkloadSpec)>,
}

impl View for State {
    type V = Seq<(Seq<char>, WorkloadSpecView)>;

    closed spec fn view(&self) -> Seq<(Seq<char>, WorkloadSpecView)> {
        entries_view(self.workloads@)
    }
}

impl State {
    #[verifier::type_invariant]
    pub open spec fn wf(self) -> bool {
        unique_keys(self@)
    }

    pub fn new() -> (s: State)
        ensures
            s@ == Seq::<(Seq<char>, WorkloadSpecView)>::empty(),
    {
        let s = State { workloads: Vec::new() };
        proof {
            assert(s@ =~= Seq::<(Seq<char>, WorkloadSpecView)>::empty());
        }
        s
    }

    pub fn len(&self) -> (n: usize)
        ensures
            n == self@.len(),
    {
        self.workloads.len()
    }

    pub fn entries(&self) -> (r: &Vec<(String, WorkloadSpec)>)
        ensures
            entries_view(r@) == self@,
            unique_keys(self@),
    {
        proof {
            use_type_invariant(self);
        }
        &self.workloads
    }

    /// Looks a workload up by name.
    pub fn get<'a>(&'a self, name: &String) -> (r: Option<&'a WorkloadSpec>)
        ensures
            match r {
                Some(w) => has_key(self@, name@) && w@ == val_of(self@, name@),
                None => !has_key(self@, name@),
            },
    {
        proof {
            use_type_invariant(self);
        }
        let n = self.workloads.len();
        let mut i: usize = 0;
        while i < n
            invariant
                unique_keys(self@),
                n == self.workloads@.len(),
                i <= n,
                self@ == entries_view(self.workloads@),
                forall|j: int| 0 <= j < i ==> (#[trigger] self@[j]).0 != name@,
            decreases n - i,
        {
            if self.workloads[i].0 == *name {
                assert(self@[i as int].0 == name@);
                proof {
                    let k = idx_of(self@, name@);
                    assert(0 <= k < self@.len() && self@[k].0 == name@);
                    assert(k == i as int);
                }
                return Some(&self.workloads[i].1);
            }
            assert(self@[i as int].0 != name@);
            i += 1;
        }
        None
    }

    pub fn contains(&self, name: &String) -> (r: bool)
        ensures
            r == has_key(self@, name@),
    {
        match self.get(name) {
            Some(_) => true,
            None => false,
        }
    }

    /// Inserts or replaces the entry for `name`.
    pub fn add(&mut self, name: String, spec: WorkloadSpec)
        ensures
            has_key(old(self)@, name@) ==> final(self)@ == old(self)@.update(
                idx_of(old(self)@, name@),
                (name@, spec@),
            ),
            !has_key(old(self)@, name@) ==> final(self)@ == old(self)@.push((name@, spec@)),
    {
        proof {
            use_type_invariant(&*self);
        }
        let ghost old_view = self@;
        let mut v: Vec<(String, WorkloadSpec)> = Vec::new();
        core::mem::swap(&mut self.workloads, &mut v);
        proof {
            assert(self@ =~= Seq::<(Seq<char>, WorkloadSpecView)>::empty());
        }
        let n = v.len();
        let mut i: usize = 0;
        let mut found: bool = false;
        while i < n && !found
            invariant
                unique_keys(old_view),
                n == v@.len(),
                i <= n,
                old_view == entries_view(v@),
                !found ==> forall|j: int| 0 <= j < i ==> (#[trigger] old_view[j]).0 != name@,
                found ==> 0 < i <= n && old_view[i - 1].0 == name@,
            decreases n - i,
        {
            if v[i].0 == name {
                assert(old_view[i as int].0 == name@);
                found = true;
            } else {
                assert(old_view[i as int].0 != name@);
            }
            i += 1;
        }
        if found {
            let pos = i - 1;
            proof {
                let k = idx_of(old_view, name@);
                assert(0 <= k < old_view.len() && old_view[k].0 == name@);
                assert(k == pos as int);
            }
            v.set(pos, (name, spec));
            proof {
                let upd = entries_view(v@);
                assert(upd =~= old_view.update(pos as int, (name@, spec@)));
                assert forall|x: int, y: int| 0 <= x < y < upd.len() implies (#[trigger] upd[x]).0
                    != (#[trigger] upd[y]).0 by {
                    assert(old_view[x].0 != old_view[y].0);
                    if x == pos as int {
                        assert(upd[x].0 == name@ && name@ == old_view[x].0);
                    } else if y == pos as int {
                        assert(upd[y].0 == name@ && name@ == old_view[y].0);
                    }
                }
            }
            core::mem::swap(&mut self.workloads, &mut v);
            proof {
                assert(self@ =~= old_view.update(pos as int, (name@, spec@)));
            }
        } else {
            v.push((name, spec));
            proof {
                let upd = entries_view(v@);
                assert(upd =~= old_view.push((name@, spec@)));
                assert forall|x: int, y: int| 0 <= x < y < upd.len() implies (#[trigger] upd[x]).0
                    != (#[trigger] upd[y]).0 by {
                    if y == old_view.len() {
                        assert(old_view[x].0 != name@);
                    } else {
                        assert(old_view[x].0 != old_view[y].0);
                    }
                }
            }
            core::mem::swap(&mut self.workloads, &mut v);
            proof {
                assert(self@ =~= old_view.push((name@, spec@)));
            }
        }
    }

    /// A copy whose view equals this one's.
    pub fn duplicate(&self) -> (r: State)
        ensures
            r@ == self@,
    {
        proof {
            use_type_invariant(self);
        }
        let mut out: Vec<(String, WorkloadSpec)> = Vec::new();
        let n = self.workloads.len();
        let mut i: usize = 0;
        while i < n
            invariant
                n == self.workloads@.len(),
                i <= n,
                out@.len() == i,
                forall|j: int| 0 <= j < i ==> (#[trigger] out@[j]).0@ == self.workloads@[j].0@
                    && out@[j].1@ == self.workloads@[j].1@,
            decreases n - i,
        {
            out.push((self.workloads[i].0.clone(), self.workloads[i].1.duplicate()));
            i += 1;
        }
        proof {
            assert(entries_view(out@) =~= self@);
        }
        let r = State { workloads: out };
        proof {
            assert(r@ == self@);
        }
        r
    }
}

impl PartialEq for State {
    fn eq(&self, other: &Self) -> (r: bool) {
        let a = &self.workloads;
        let b = &other.workloads;
        if a.len() != b.len() {
            assert(self@.len() != other@.len());
            return false;
        }
        let n = a.len();
        let mut i: usize = 0;
        while i < n
            invariant
                n == a@.len() == b@.len(),
                self@ == entries_view(a@),
                other@ == entries_view(b@),
                i <= n,
                forall|j: int| 0 <= j < i ==> self@[j] == other@[j],
            decreases n - i,
        {
            if !(a[i].0 == b[i].0 && a[i].1 == b[i].1) {
                assert(self@[i as int] != other@[i as int]);
                return false;
            }
            assert(self@[i as int] == other@[i as int]);
            i += 1;
        }
        proof {
            assert(self@ =~= other@);
        }
        true
    }
}

impl Eq for State {

}

impl vstd::std_specs::cmp::PartialEqSpecImpl for State {
    open spec fn obeys_eq_spec() -> bool {
        true
    }

    open spec fn eq_spec(&self, other: &Self) -> bool {
        self@ == other@
    }
}

impl Default for State {
    fn default() -> (s: State)
        ensures
            s@ == Seq::<(Seq<char>, WorkloadSpecView)>::empty(),
    {
        State::new()
    }
}

/// The tuple `(current_state, startup_state, workload_states)` forming the
/// orchestrator's public state surface.
#[derive(Debug)]
pub struct CompleteState {
    pub current_state: State,
    pub startup_state: State,
    pub workload_states: Vec<WorkloadState>,
}

#[verifier::ext_equal]
pub struct CompleteStateView {
    pub current_state: Seq<(Seq<char>, WorkloadSpecView)>,
    pub startup_state: Seq<(Seq<char>, WorkloadSpecView)>,
    pub workload_states: Seq<WorkloadStateView>,
}

impl View for CompleteState {
    type V = CompleteStateView;

    open spec fn view(&self) -> CompleteStateView {
        (CompleteStateView {
            current_state: self.current_state@,
            startup_state: self.startup_state@,
            workload_states: ws_list_view(self.workload_states@),
        })
    }
}

/// Compares two workload-state lists; equality means equal views.
pub fn ws_vecs_eq(a: &Vec<WorkloadState>, b: &Vec<WorkloadState>) -> (r: bool)
    ensures
        r == (ws_list_view(a@) == ws_list_view(b@)),
{
    if a.len() != b.len() {
        assert(ws_list_view(a@).len() != ws_list_view(b@).len());
        return false;
    }
    let n = a.len();
    let mut i: usize = 0;
    while i < n
        invariant
            n == a@.len() == b@.len(),
            i <= n,
            forall|j: int| 0 <= j < i ==> ws_list_view(a@)[j] == ws_list_view(b@)[j],
        decreases n - i,
    {
        if !(a[i] == b[i]) {
            assert(ws_list_view(a@)[i as int] != ws_list_view(b@)[i as int]);
            return false;
        }
        assert(ws_list_view(a@)[i as int] == ws_list_view(b@)[i as int]);
        i += 1;
    }
    proof {
        assert(ws_list_view(a@) =~= ws_list_view(b@));
    }
    true
}

impl PartialEq for CompleteState {
    fn eq(&self, other: &Self) -> (r: bool) {
        let r = self.current_state == other.current_state
            && self.startup_state == other.startup_state
            && ws_vecs_eq(&self.workload_states, &other.workload_states);
        proof {
            if r {
                assert(self@ =~= other@);
            }
        }
        r
    }
}

impl Eq for CompleteState {

}

impl vstd::std_specs::cmp::PartialEqSpecImpl for CompleteState {
    open spec fn obeys_eq_spec() -> bool {
        true
    }

    open spec fn eq_spec(&self, other: &Self) -> bool {
        self@ == other@
    }
}

impl Default for CompleteState {
    fn default() -> (s: CompleteState)
        ensures
            s@.current_state == Seq::<(Seq<char>, WorkloadSpecView)>::empty(),
            s@.startup_state == Seq::<(Seq<char>, WorkloadSpecView)>::empty(),
            s@.workload_states == Seq::<WorkloadStateView>::empty(),
    {
        let s = CompleteState {
            current_state: State::new(),
            startup_state: State::new(),
            workload_states: Vec::new(),
        };
        proof {
            assert(ws_list_view(s.workload_states@) =~= Seq::<WorkloadStateView>::empty());
        }
        s
    }
}

impl CompleteState {
    /// A copy whose view equals this one's.
    pub fn duplicate(&self) -> (r: CompleteState)
        ensures
            r@ == self@,
    {
        let mut ws: Vec<WorkloadState> = Vec::new();
        let n = self.workload_states.len();
        let mut i: usize = 0;
        while i < n
            invariant
                n == self.workload_states@.len(),
                i <= n,
                ws@.len() == i,
                forall|j: int| 0 <= j < i ==> (#[trigger] ws@[j])@ == self.workload_states@[j]@,
            decreases n - i,
        {
            ws.push(self.workload_states[i].duplicate());
            i += 1;
        }
        let r = CompleteState {
            current_state: self.current_state.duplicate(),
            startup_state: self.startup_state.duplicate(),
            workload_states: ws,
        };
        proof {
            assert(ws_list_view(r.workload_states@) =~= ws_list_view(self.workload_states@));
            assert(r@ =~= self@);
        }
        r
    }
}

/// A client's request for a filtered read of the complete state.
#[derive(Clone, Debug)]
pub struct CompleteStateRequest {
    pub field_mask: Vec<String>,
}

} // verus!
