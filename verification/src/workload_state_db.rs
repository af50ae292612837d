//! The server's record of agent-reported execution states: at most one entry
//! per `(agent_name, workload_name)` pair, overwritten on each new report.
use vstd::prelude::*;

use crate::objects::{WorkloadState, WorkloadStateView};
use crate::state::ws_list_view;

verus! {

pub open spec fn ws_has(s: Seq<WorkloadStateView>, a: Seq<char>, n: Seq<char>) -> bool {
    exists|i: int|
        0 <= i < s.len() && (#[trigger] s[i]).agent_name == a && s[i].workload_name == n
}

pub open spec fn ws_idx(s: Seq<WorkloadStateView>, a: Seq<char>, n: Seq<char>) -> int {
    choose|i: int|
        0 <= i < s.len() && (#[trigger] s[i]).agent_name == a && s[i].workload_name == n
}

/// Overwrites the entry with the same key in place, or appends one.
pub open spec fn ws_put(s: Seq<WorkloadStateView>, w: WorkloadStateView) -> Seq<WorkloadStateView> {
    if ws_has(s, w.agent_name, w.workload_name) {
        s.update(ws_idx(s, w.agent_name, w.workload_name), w)
    } else {
        s.push(w)
    }
}

/// Applies `ws_put` for every report from entry `i` on.
pub open spec fn ws_put_all_from(s: Seq<WorkloadStateView>, ws: Seq<WorkloadStateView>, i: int) -> Seq<
    WorkloadStateView,
>
    decreases ws.len() - i,
{
    if i < 0 || i >= ws.len() {
        s
    } else {
        ws_put_all_from(ws_put(s, ws[i]), ws, i + 1)
    }
}

pub open spec fn ws_db_wf(s: Seq<WorkloadStateView>) -> bool {
    forall|i: int, j: int|
        0 <= i < j < s.len() ==> !((#[trigger] s[i]).agent_name == (#[trigger] s[j]).agent_name
            && s[i].workload_name == s[j].workload_name)
}

/// The mapping `(agent_name, workload_name) -> execution_state`, as reported
/// by the agents.
#[derive(Debug)]
pub struct WorkloadStateDB {
    states: Vec<WorkloadState>,
}

impl View for WorkloadStateDB {
    type V = Seq<WorkloadStateView>;

    closed spec fn view(&self) -> Seq<WorkloadStateView> {
        ws_list_view(self.states@)
    }
}

impl WorkloadStateDB {
    #[verifier::type_invariant]
    pub open spec fn wf(self) -> bool {
        ws_db_wf(self@)
    }

    pub fn new() -> (db: WorkloadStateDB)
        ensures
            db@ == Seq::<WorkloadStateView>::empty(),
    {
        let db = WorkloadStateDB { states: Vec::new() };
        proof {
            assert(db@ =~= Seq::<WorkloadStateView>::empty());
        }
        db
    }

    /// Records each report, overwriting any entry with the same key.
    pub fn insert(&mut self, reports: Vec<WorkloadState>)
        ensures
            final(self)@ == ws_put_all_from(old(self)@, ws_list_view(reports@), 0),
    {
        proof {
            use_type_invariant(&*self);
        }
        let ghost rv = ws_list_view(reports@);
        let ghost target = ws_put_all_from(self@, rv, 0);
        let mut v: Vec<WorkloadState> = Vec::new();
        core::mem::swap(&mut self.states, &mut v);
        proof {
            assert(self@ =~= Seq::<WorkloadStateView>::empty());
        }
        let nr = reports.len();
        let mut i: usize = 0;
        while i < nr
            invariant
                nr == reports@.len(),
                i <= nr,
                rv == ws_list_view(reports@),
                ws_db_wf(ws_list_view(v@)),
                target == ws_put_all_from(ws_list_view(v@), rv, i as int),
            decreases nr - i,
        {
            let ghost cur = ws_list_view(v@);
            let w = reports[i].duplicate();
            proof {
                assert(w@ == rv[i as int]);
            }
            let n = v.len();
            let mut j: usize = 0;
            let mut found: bool = false;
            while j < n && !found
                invariant
                    n == v@.len(),
                    j <= n,
                    cur == ws_list_view(v@),
                    ws_db_wf(cur),
                    w@ == rv[i as int],
                    !found ==> forall|x: int| 0 <= x < j ==> !((#[trigger] cur[x]).agent_name
                        == w@.agent_name && cur[x].workload_name == w@.workload_name),
                    found ==> 0 < j <= n && cur[j - 1].agent_name == w@.agent_name && cur[j
                        - 1].workload_name == w@.workload_name,
                decreases n - j,
            {
                if v[j].agent_name == w.agent_name && v[j].workload_name == w.workload_name {
                    found = true;
                    proof {
                        assert(cur[j as int] == v@[j as int]@);
                    }
                } else {
                    proof {
                        assert(cur[j as int] == v@[j as int]@);
                    }
                }
                j += 1;
            }
            if found {
                let pos = j - 1;
                proof {
                    assert(ws_has(cur, w@.agent_name, w@.workload_name));
                    let x = ws_idx(cur, w@.agent_name, w@.workload_name);
                    assert(0 <= x < cur.len() && cur[x].agent_name == w@.agent_name
                        && cur[x].workload_name == w@.workload_name);
                    assert(x == pos as int);
                }
                v.set(pos, w);
                proof {
                    let upd = ws_list_view(v@);
                    assert(upd =~= cur.update(pos as int, rv[i as int]));
                    assert forall|x: int, y: int| 0 <= x < y < upd.len() implies !((
                    #[trigger] upd[x]).agent_name == (#[trigger] upd[y]).agent_name
                        && upd[x].workload_name == upd[y].workload_name) by {
                        assert(!(cur[x].agent_name == cur[y].agent_name && cur[x].workload_name
                            == cur[y].workload_name));
                        if x == pos as int {
                            assert(upd[x].agent_name == cur[x].agent_name && upd[x].workload_name
                                == cur[x].workload_name);
                        } else if y == pos as int {
                            assert(upd[y].agent_name == cur[y].agent_name && upd[y].workload_name
                                == cur[y].workload_name);
                        }
                    }
                }
            } else {
                proof {
                    assert(!ws_has(cur, w@.agent_name, w@.workload_name));
                }
                v.push(w);
                proof {
                    let upd = ws_list_view(v@);
                    assert(upd =~= cur.push(rv[i as int]));
                    assert forall|x: int, y: int| 0 <= x < y < upd.len() implies !((
                    #[trigger] upd[x]).agent_name == (#[trigger] upd[y]).agent_name
                        && upd[x].workload_name == upd[y].workload_name) by {
                        if y == cur.len() {
                            assert(!(cur[x].agent_name == upd[y].agent_name
                                && cur[x].workload_name == upd[y].workload_name));
                        } else {
                            assert(!(cur[x].agent_name == cur[y].agent_name
                                && cur[x].workload_name == cur[y].workload_name));
                        }
                    }
                }
            }
            i += 1;
        }
        core::mem::swap(&mut self.states, &mut v);
        proof {
            assert(ws_put_all_from(self@, rv, nr as int) == self@);
        }
    }

    /// A snapshot of all reported workload states.
    pub fn get_all_workload_states(&self) -> (r: Vec<WorkloadState>)
        ensures
            ws_list_view(r@) == self@,
    {
        let mut out: Vec<WorkloadState> = Vec::new();
        let n = self.states.len();
        let mut i: usize = 0;
        while i < n
            invariant
                n == self.states@.len(),
                i <= n,
                out@.len() == i,
                forall|j: int| 0 <= j < i ==> (#[trigger] out@[j])@ == self.states@[j]@,
            decreases n - i,
        {
            out.push(self.states[i].duplicate());
            i += 1;
        }
        proof {
            assert(ws_list_view(out@) =~= ws_list_view(self.states@));
        }
        out
    }
}

impl Default for WorkloadStateDB {
    fn default() -> (db: WorkloadStateDB)
        ensures
            db@ == Seq::<WorkloadStateView>::empty(),
    {
        WorkloadStateDB::new()
    }
}

} // verus!
