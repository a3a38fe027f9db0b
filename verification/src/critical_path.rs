//! Scheduling a network by the critical path method: earliest and latest
//! start and finish of every task, its slack, and the tasks without slack.

use vstd::prelude::*;
use crate::graph::{
    has_edge, edges_in_range, is_topo_order, petgraph_toposort, in_neighbors, out_neighbors,
    pos_in, lemma_in_neighbors, lemma_out_neighbors, on_cycle,
};
use crate::aoe::{AoeNet, AoeError, Task, spec_pert};

verus! {

/// A bound on the size of any task's PERT estimate: `6 * 2^31 < 2^35`.
pub open spec fn dur_bound() -> int {
    0x8_0000_0000
}

/// The PERT estimate of the task that node `v` stands for.
pub open spec fn node_dur(tasks: Seq<Task>, v: usize) -> int {
    spec_pert(tasks[v as int]) as int
}

/// The task has a successor.
pub open spec fn has_succ(edges: Seq<(usize, usize)>, v: usize) -> bool {
    exists|i: int| 0 <= i < edges.len() && (#[trigger] edges[i]).0 == v
}

/// The first `k` nodes of `ord` have their earliest start and finish:
/// finish is start plus duration, and start is the latest finish among the
/// predecessors, or 0 without one.
pub open spec fn forward_ok(
    tasks: Seq<Task>,
    edges: Seq<(usize, usize)>,
    ord: Seq<usize>,
    es: Seq<i128>,
    ef: Seq<i128>,
    k: int,
) -> bool {
    forall|i: int| #![trigger ord[i]] 0 <= i < k ==> {
        let v = ord[i];
        &&& ef[v as int] == es[v as int] + node_dur(tasks, v)
        &&& es[v as int] >= 0
        &&& ef[v as int] <= (i + 1) * dur_bound()
        &&& forall|p: usize| #[trigger] has_edge(edges, p, v) ==> ef[p as int] <= es[v as int]
        &&& es[v as int] == 0 || exists|p: usize| #[trigger] has_edge(edges, p, v) && ef[p as int] == es[v as int]
    }
}

fn zeros(n: usize) -> (v: Vec<i128>)
    ensures
        v@.len() == n,
{
    let mut v: Vec<i128> = Vec::new();
    let mut i: usize = 0;
    while i < n
        invariant
            i <= n,
            v@.len() == i,
        decreases n - i,
    {
        v.push(0);
        i += 1;
    }
    v
}

/// Earliest start and finish of every node, indexed by node.
fn forward_pass(net: &AoeNet, ord: &Vec<usize>) -> (r: (Vec<i128>, Vec<i128>))
    requires
        net.wf(),
        is_topo_order(net.tasks@.len(), net.edges(), ord@),
    ensures
        r.0@.len() == net.tasks@.len(),
        r.1@.len() == net.tasks@.len(),
        forward_ok(net.tasks@, net.edges(), ord@, r.0@, r.1@, ord@.len() as int),
{
    let n = ord.len();
    let ghost tasks = net.tasks@;
    let ghost edges = net.edges();
    let mut es = zeros(n);
    let mut ef = zeros(n);
    let mut k: usize = 0;
    while k < n
        invariant
            net.wf(),
            tasks == net.tasks@,
            edges == net.edges(),
            n == ord@.len() == tasks.len(),
            is_topo_order(n as nat, edges, ord@),
            k <= n,
            es@.len() == n,
            ef@.len() == n,
            forward_ok(tasks, edges, ord@, es@, ef@, k as int),
        decreases n - k,
    {
        let v = ord[k];
        let dur = net.task(v).pert();
        let preds = net.predecessors(v);
        let mut m: i128 = 0;
        let mut t: usize = 0;
        while t < preds.len()
            invariant
                net.wf(),
                tasks == net.tasks@,
                edges == net.edges(),
                n == ord@.len() == tasks.len(),
                is_topo_order(n as nat, edges, ord@),
                k < n,
                v == ord@[k as int],
                ef@.len() == n,
                preds@ == in_neighbors(edges, v),
                forward_ok(tasks, edges, ord@, es@, ef@, k as int),
                t <= preds.len(),
                0 <= m <= k * dur_bound(),
                forall|t2: int| 0 <= t2 < t ==> ef@[#[trigger] preds@[t2] as int] <= m,
                m == 0 || exists|t2: int| 0 <= t2 < t && ef@[#[trigger] preds@[t2] as int] == m,
            decreases preds.len() - t,
        {
            let p = preds[t];
            proof {
                lemma_in_neighbors(edges, v, p);
                assert(preds@.contains(p)) by {
                    assert(preds@[t as int] == p);
                }
                let e = choose|e: int| 0 <= e < edges.len() && edges[e] == (p, v);
                assert(edges[e].0 < n);
                assert(ord@.contains(p));
                let j = pos_in(ord@, p);
                assert(ord@[j] == p);
                assert(j < k);
                assert(ef@[p as int] <= (j + 1) * dur_bound());
            }
            if ef[p] > m {
                m = ef[p];
            }
            t += 1;
        }
        proof {
            assert forall|p: usize| #[trigger] has_edge(edges, p, v) implies ef@[p as int] <= m by {
                lemma_in_neighbors(edges, v, p);
                let t2 = choose|t2: int| 0 <= t2 < preds@.len() && preds@[t2] == p;
                assert(ef@[preds@[t2] as int] <= m);
            }
            if m != 0 {
                let t2 = choose|t2: int| 0 <= t2 < preds@.len() && ef@[#[trigger] preds@[t2] as int] == m;
                let p = preds@[t2];
                lemma_in_neighbors(edges, v, p);
                assert(preds@.contains(p));
                assert(has_edge(edges, p, v));
            }
            assert(v < n);
        }
        let ghost es0 = es@;
        let ghost ef0 = ef@;
        es.set(v, m);
        ef.set(v, m + dur as i128);
        proof {
            assert forall|i: int| #![trigger ord@[i]] 0 <= i < k + 1 implies {
                let w = ord@[i];
                &&& ef@[w as int] == es@[w as int] + node_dur(tasks, w)
                &&& es@[w as int] >= 0
                &&& ef@[w as int] <= (i + 1) * dur_bound()
                &&& forall|p: usize| #[trigger] has_edge(edges, p, w) ==> ef@[p as int] <= es@[w as int]
                &&& es@[w as int] == 0 || exists|p: usize| #[trigger] has_edge(edges, p, w) && ef@[p as int] == es@[w as int]
            } by {
                let w = ord@[i];
                if i < k {
                    assert(w != v);
                    assert forall|p: usize| #[trigger] has_edge(edges, p, w) implies p != v by {
                        if p == v {
                            assert(has_edge(edges, ord@[k as int], ord@[i]));
                        }
                    }
                    if es0[w as int] != 0 {
                        let p = choose|p: usize| #[trigger] has_edge(edges, p, w) && ef0[p as int] == es0[w as int];
                        assert(p != v);
                        assert(ef@[p as int] == es@[w as int]);
                    }
                } else {
                    assert(w == v);
                    assert forall|p: usize| #[trigger] has_edge(edges, p, w) implies ef@[p as int] <= es@[w as int] by {
                        if p == v {
                            assert(has_edge(edges, ord@[k as int], ord@[k as int]));
                        }
                    }
                    if m != 0 {
                        let p = choose|p: usize| #[trigger] has_edge(edges, p, v) && ef0[p as int] == m;
                        if p == v {
                            assert(has_edge(edges, ord@[k as int], ord@[k as int]));
                        }
                        assert(ef@[p as int] == es@[w as int]);
                    }
                }
            }
        }
        k += 1;
    }
    (es, ef)
}


/// `pd` is the largest earliest finish (0 without tasks).
pub open spec fn pd_ok(ord: Seq<usize>, ef: Seq<i128>, pd: int) -> bool {
    &&& pd >= 0
    &&& forall|i: int| 0 <= i < ord.len() ==> ef[#[trigger] ord[i] as int] <= pd
    &&& pd == 0 || exists|i: int| 0 <= i < ord.len() && ef[#[trigger] ord[i] as int] == pd
}

fn project_duration_of(ord: &Vec<usize>, ef: &Vec<i128>) -> (pd: i128)
    requires
        forall|i: int| 0 <= i < ord@.len() ==> ord@[i] < ef@.len(),
    ensures
        pd_ok(ord@, ef@, pd as int),
{
    let mut pd: i128 = 0;
    let mut k: usize = 0;
    while k < ord.len()
        invariant
            k <= ord@.len(),
            forall|i: int| 0 <= i < ord@.len() ==> ord@[i] < ef@.len(),
            pd >= 0,
            forall|i: int| 0 <= i < k ==> ef@[#[trigger] ord@[i] as int] <= pd,
            pd == 0 || exists|i: int| 0 <= i < k && ef@[#[trigger] ord@[i] as int] == pd,
        decreases ord@.len() - k,
    {
        let v = ord[k];
        if ef[v] > pd {
            pd = ef[v];
        }
        k += 1;
    }
    pd
}

proof fn lemma_pd_bounded(tasks: Seq<Task>, edges: Seq<(usize, usize)>, ord: Seq<usize>, es: Seq<i128>, ef: Seq<i128>, pd: int)
    requires
        forward_ok(tasks, edges, ord, es, ef, ord.len() as int),
        pd_ok(ord, ef, pd),
    ensures
        0 <= pd <= ord.len() * dur_bound(),
{
    if pd != 0 {
        let i = choose|i: int| 0 <= i < ord.len() && ef[#[trigger] ord[i] as int] == pd;
        assert(ef[ord[i] as int] <= (i + 1) * dur_bound());
    }
}

/// The nodes of `ord` from position `k` on have their latest finish and
/// start: start is finish minus duration, finish is the earliest latest
/// start among the successors, or the project duration without one.
pub open spec fn backward_ok(
    tasks: Seq<Task>,
    edges: Seq<(usize, usize)>,
    ord: Seq<usize>,
    ef: Seq<i128>,
    ls: Seq<i128>,
    lf: Seq<i128>,
    pd: int,
    k: int,
) -> bool {
    forall|i: int| #![trigger ord[i]] k <= i < ord.len() ==> {
        let v = ord[i];
        &&& lf[v as int] == ls[v as int] + node_dur(tasks, v)
        &&& lf[v as int] >= ef[v as int]
        &&& lf[v as int] <= pd + (ord.len() - i) * dur_bound()
        &&& !has_succ(edges, v) ==> lf[v as int] == pd
        &&& forall|s: usize| #[trigger] has_edge(edges, v, s) ==> lf[v as int] <= ls[s as int]
        &&& has_succ(edges, v) ==> exists|s: usize| #[trigger] has_edge(edges, v, s) && ls[s as int] == lf[v as int]
    }
}

proof fn lemma_has_succ(edges: Seq<(usize, usize)>, v: usize)
    ensures
        has_succ(edges, v) <==> out_neighbors(edges, v).len() > 0,
{
    let s = out_neighbors(edges, v);
    if has_succ(edges, v) {
        let i = choose|i: int| 0 <= i < edges.len() && (#[trigger] edges[i]).0 == v;
        let x = edges[i].1;
        assert(edges[i] == (v, x));
        lemma_out_neighbors(edges, v, x);
    }
    if s.len() > 0 {
        let x = s[0];
        lemma_out_neighbors(edges, v, x);
        assert(s.contains(x));
        let i = choose|i: int| 0 <= i < edges.len() && edges[i] == (v, x);
        assert(edges[i].0 == v);
    }
}

/// Latest start and finish of every node, indexed by node.
fn backward_pass(net: &AoeNet, ord: &Vec<usize>, es: &Vec<i128>, ef: &Vec<i128>, pd: i128) -> (r: (Vec<i128>, Vec<i128>))
    requires
        net.wf(),
        is_topo_order(net.tasks@.len(), net.edges(), ord@),
        es@.len() == net.tasks@.len(),
        ef@.len() == net.tasks@.len(),
        forward_ok(net.tasks@, net.edges(), ord@, es@, ef@, ord@.len() as int),
        pd_ok(ord@, ef@, pd as int),
        pd <= net.tasks@.len() * dur_bound(),
    ensures
        r.0@.len() == net.tasks@.len(),
        r.1@.len() == net.tasks@.len(),
        backward_ok(net.tasks@, net.edges(), ord@, ef@, r.0@, r.1@, pd as int, 0),
{
    let n = ord.len();
    let ghost tasks = net.tasks@;
    let ghost edges = net.edges();
    let mut ls = zeros(n);
    let mut lf = zeros(n);
    let mut k: usize = n;
    while k > 0
        invariant
            net.wf(),
            tasks == net.tasks@,
            edges == net.edges(),
            n == ord@.len() == tasks.len(),
            is_topo_order(n as nat, edges, ord@),
            k <= n,
            es@.len() == n,
            ef@.len() == n,
            ls@.len() == n,
            lf@.len() == n,
            forward_ok(tasks, edges, ord@, es@, ef@, n as int),
            pd_ok(ord@, ef@, pd as int),
            pd <= n * dur_bound(),
            backward_ok(tasks, edges, ord@, ef@, ls@, lf@, pd as int, k as int),
        decreases k,
    {
        let idx = k - 1;
        let v = ord[idx];
        let dur = net.task(v).pert();
        let succs = net.successors(v);
        proof {
            lemma_has_succ(edges, v);
            assert(ef@[v as int] == es@[v as int] + node_dur(tasks, v));
        }
        let ghost ls0 = ls@;
        proof {
            assert forall|s: usize| #[trigger] has_edge(edges, v, s) implies s < n && ls@[s as int] >= ef@[v as int]
                && idx < pos_in(ord@, s) && ls@[s as int] <= pd + (n - idx) * dur_bound() by {
                let e = choose|e: int| 0 <= e < edges.len() && edges[e] == (v, s);
                assert(edges[e].1 < n);
                assert(ord@.contains(s));
                let j = pos_in(ord@, s);
                assert(ord@[j] == s);
                assert(has_edge(edges, ord@[idx as int], ord@[j]));
                assert(idx < j);
                assert(ef@[v as int] <= es@[s as int]);
                assert(ef@[s as int] == es@[s as int] + node_dur(tasks, s));
                assert(lf@[s as int] == ls@[s as int] + node_dur(tasks, s));
            }
        }
        let mut m: i128 = pd;
        if succs.len() > 0 {
            proof {
                lemma_out_neighbors(edges, v, succs@[0]);
                assert(succs@.contains(succs@[0]));
            }
            m = ls[succs[0]];
            let mut t: usize = 0;
            while t < succs.len()
                invariant
                    net.wf(),
                    edges == net.edges(),
                    tasks == net.tasks@,
                    n == ord@.len() == tasks.len(),
                    is_topo_order(n as nat, edges, ord@),
                    idx < n,
                    v == ord@[idx as int],
                    ls@.len() == n,
                    lf@.len() == n,
                    es@.len() == n,
                    ef@.len() == n,
                    succs@ == out_neighbors(edges, v),
                    succs@.len() > 0,
                    forward_ok(tasks, edges, ord@, es@, ef@, n as int),
                    backward_ok(tasks, edges, ord@, ef@, ls@, lf@, pd as int, k as int),
                    t <= succs.len(),
                    pd <= n * dur_bound(),
                    m >= ef@[v as int],
                    m <= pd + (n - idx) * dur_bound(),
                    forall|s: usize| #[trigger] has_edge(edges, v, s) ==> s < n && ls@[s as int] >= ef@[v as int]
                        && ls@[s as int] <= pd + (n - idx) * dur_bound(),
                    forall|t2: int| 0 <= t2 < t ==> m <= ls@[#[trigger] succs@[t2] as int],
                    exists|t2: int| 0 <= t2 < succs@.len() && ls@[#[trigger] succs@[t2] as int] == m,
                decreases succs.len() - t,
            {
                let s = succs[t];
                proof {
                    lemma_out_neighbors(edges, v, s);
                    assert(succs@.contains(s)) by {
                        assert(succs@[t as int] == s);
                    }
                }
                if ls[s] < m {
                    m = ls[s];
                }
                t += 1;
            }
            proof {
                assert forall|s: usize| #[trigger] has_edge(edges, v, s) implies m <= ls@[s as int] by {
                    lemma_out_neighbors(edges, v, s);
                    let t2 = choose|t2: int| 0 <= t2 < succs@.len() && succs@[t2] == s;
                    assert(m <= ls@[succs@[t2] as int]);
                }
                let t2 = choose|t2: int| 0 <= t2 < succs@.len() && ls@[#[trigger] succs@[t2] as int] == m;
                let s = succs@[t2];
                lemma_out_neighbors(edges, v, s);
                assert(succs@.contains(s));
                assert(has_edge(edges, v, s));
            }
        } else {
            proof {
                let i = pos_in(ord@, v);
                assert(ord@.contains(v)) by {
                    assert(ord@[idx as int] == v);
                }
                assert(ef@[ord@[i] as int] <= pd);
            }
        }
        proof {
            assert(v < n);
        }
        let ghost lf0 = lf@;
        lf.set(v, m);
        ls.set(v, m - dur as i128);
        proof {
            assert forall|i: int| #![trigger ord@[i]] k - 1 <= i < ord@.len() implies {
                let w = ord@[i];
                &&& lf@[w as int] == ls@[w as int] + node_dur(tasks, w)
                &&& lf@[w as int] >= ef@[w as int]
                &&& lf@[w as int] <= pd + (ord@.len() - i) * dur_bound()
                &&& !has_succ(edges, w) ==> lf@[w as int] == pd
                &&& forall|s: usize| #[trigger] has_edge(edges, w, s) ==> lf@[w as int] <= ls@[s as int]
                &&& has_succ(edges, w) ==> exists|s: usize| #[trigger] has_edge(edges, w, s) && ls@[s as int] == lf@[w as int]
            } by {
                let w = ord@[i];
                if i >= k {
                    assert(w != v);
                    assert forall|s: usize| #[trigger] has_edge(edges, w, s) implies s != v by {
                        if s == v {
                            assert(has_edge(edges, ord@[i], ord@[idx as int]));
                        }
                    }
                    if has_succ(edges, w) {
                        let s = choose|s: usize| #[trigger] has_edge(edges, w, s) && ls0[s as int] == lf0[w as int];
                        assert(s != v);
                        assert(ls@[s as int] == lf@[w as int]);
                    }
                } else {
                    assert(w == v);
                    assert forall|s: usize| #[trigger] has_edge(edges, w, s) implies lf@[w as int] <= ls@[s as int] by {
                        if s == v {
                            assert(has_edge(edges, ord@[idx as int], ord@[idx as int]));
                        }
                    }
                    if has_succ(edges, w) {
                        let s = choose|s: usize| #[trigger] has_edge(edges, v, s) && ls0[s as int] == m;
                        if s == v {
                            assert(has_edge(edges, ord@[idx as int], ord@[idx as int]));
                        }
                        assert(ls@[s as int] == lf@[w as int]);
                    }
                }
            }
        }
        k -= 1;
    }
    (ls, lf)
}


/// The schedule of one task.
#[derive(Debug, Clone, PartialEq, Eq)]
pub struct TaskSchedule {
    pub task_id: String,
    pub task_name: String,
    pub duration: i64,
    pub earliest_start: i128,
    pub earliest_finish: i128,
    pub latest_start: i128,
    pub latest_finish: i128,
    pub slack: i128,
    pub is_critical: bool,
}

/// The schedule of a whole project: one entry per task in topological
/// order, the ids of the tasks without slack in that order, and the
/// project's duration. All times are in sixths of a milli-day.
#[derive(Debug, Clone, PartialEq, Eq)]
pub struct CriticalPathResult {
    pub schedules: Vec<TaskSchedule>,
    pub critical_path: Vec<String>,
    pub project_duration: i128,
}

/// An entry describes task `t`: its duration is the PERT estimate, finish is
/// start plus duration, slack is latest start minus earliest start, and the
/// task is critical exactly when it has no slack.
pub open spec fn entry_matches(t: Task, e: TaskSchedule) -> bool {
    &&& e.task_id@ == t.id@
    &&& e.task_name@ == t.name@
    &&& e.duration == spec_pert(t)
    &&& e.earliest_finish == e.earliest_start + e.duration
    &&& e.latest_finish == e.latest_start + e.duration
    &&& e.slack == e.latest_start - e.earliest_start
    &&& e.is_critical == (e.slack == 0)
}

/// A task starts at the latest earliest finish of its predecessors, or at 0
/// without one.
pub open spec fn start_rule(edges: Seq<(usize, usize)>, ord: Seq<usize>, s: Seq<TaskSchedule>) -> bool {
    &&& forall|k: int| 0 <= k < s.len() ==> (#[trigger] s[k]).earliest_start >= 0
    &&& forall|j: int, k: int|
        0 <= j < s.len() && 0 <= k < s.len() && has_edge(edges, ord[j], ord[k])
            ==> (#[trigger] s[j]).earliest_finish <= (#[trigger] s[k]).earliest_start
    &&& forall|k: int| 0 <= k < s.len() ==> (#[trigger] s[k]).earliest_start == 0
        || exists|j: int| 0 <= j < s.len() && has_edge(edges, ord[j], ord[k])
            && (#[trigger] s[j]).earliest_finish == s[k].earliest_start
}

/// The project lasts as long as the latest earliest finish.
pub open spec fn duration_rule(s: Seq<TaskSchedule>, pd: int) -> bool {
    &&& pd >= 0
    &&& forall|k: int| 0 <= k < s.len() ==> (#[trigger] s[k]).earliest_finish <= pd
    &&& pd == 0 || exists|k: int| 0 <= k < s.len() && (#[trigger] s[k]).earliest_finish == pd
}

/// Some successor of the task at `k` has a latest start equal to its latest
/// finish.
pub open spec fn finish_attained(edges: Seq<(usize, usize)>, ord: Seq<usize>, s: Seq<TaskSchedule>, k: int) -> bool {
    exists|j: int| 0 <= j < s.len() && has_edge(edges, ord[k], ord[j])
        && (#[trigger] s[j]).latest_start == s[k].latest_finish
}

/// A task must finish by the earliest latest start of its successors, or by
/// the end of the project without one.
pub open spec fn finish_rule(edges: Seq<(usize, usize)>, ord: Seq<usize>, s: Seq<TaskSchedule>, pd: int) -> bool {
    &&& forall|k: int| 0 <= k < s.len() && !has_succ(edges, ord[k]) ==> (#[trigger] s[k]).latest_finish == pd
    &&& forall|j: int, k: int|
        0 <= j < s.len() && 0 <= k < s.len() && has_edge(edges, ord[k], ord[j])
            ==> (#[trigger] s[k]).latest_finish <= (#[trigger] s[j]).latest_start
    &&& forall|k: int| 0 <= k < s.len() && has_succ(edges, ord[k]) ==> #[trigger] finish_attained(edges, ord, s, k)
}

/// `s` schedules the nodes of `ord` in that order by the critical path
/// method, with project duration `pd`.
pub open spec fn schedule_ok(tasks: Seq<Task>, edges: Seq<(usize, usize)>, ord: Seq<usize>, s: Seq<TaskSchedule>, pd: int) -> bool {
    &&& s.len() == ord.len()
    &&& forall|k: int| 0 <= k < s.len() ==> entry_matches(tasks[ord[k] as int], #[trigger] s[k])
    &&& start_rule(edges, ord, s)
    &&& duration_rule(s, pd)
    &&& finish_rule(edges, ord, s, pd)
}

/// The ids of the critical entries, in order.
pub open spec fn critical_ids(s: Seq<TaskSchedule>) -> Seq<Seq<char>>
    decreases s.len(),
{
    if s.len() == 0 {
        Seq::empty()
    } else if s.last().is_critical {
        critical_ids(s.drop_last()).push(s.last().task_id@)
    } else {
        critical_ids(s.drop_last())
    }
}

/// The views of a list of strings.
pub open spec fn string_views(v: Seq<String>) -> Seq<Seq<char>> {
    v.map_values(|x: String| x@)
}

/// `r` is the critical path schedule of the tasks and edges in the order
/// `ord`.
pub open spec fn result_ok(tasks: Seq<Task>, edges: Seq<(usize, usize)>, ord: Seq<usize>, r: CriticalPathResult) -> bool {
    &&& schedule_ok(tasks, edges, ord, r.schedules@, r.project_duration as int)
    &&& string_views(r.critical_path@) == critical_ids(r.schedules@)
}

/// Entry `i` of `s` holds the times of node `ord[i]`.
pub open spec fn entries_from(tasks: Seq<Task>, ord: Seq<usize>, es: Seq<i128>, ls: Seq<i128>, s: Seq<TaskSchedule>, k: int) -> bool {
    forall|i: int| #![trigger s[i]] 0 <= i < k ==> {
        let v = ord[i] as int;
        &&& entry_matches(tasks[v], s[i])
        &&& s[i].earliest_start == es[v]
        &&& s[i].latest_start == ls[v]
    }
}

fn assemble(net: &AoeNet, order: &Vec<usize>, es: &Vec<i128>, ef: &Vec<i128>, ls: &Vec<i128>, lf: &Vec<i128>, Ghost(pd): Ghost<int>) -> (r: (Vec<TaskSchedule>, Vec<String>))
    requires
        net.wf(),
        is_topo_order(net.tasks@.len(), net.edges(), order@),
        es@.len() == net.tasks@.len(),
        ef@.len() == net.tasks@.len(),
        ls@.len() == net.tasks@.len(),
        lf@.len() == net.tasks@.len(),
        forward_ok(net.tasks@, net.edges(), order@, es@, ef@, order@.len() as int),
        backward_ok(net.tasks@, net.edges(), order@, ef@, ls@, lf@, pd, 0),
        0 <= pd <= order@.len() * dur_bound(),
    ensures
        r.0@.len() == order@.len(),
        entries_from(net.tasks@, order@, es@, ls@, r.0@, order@.len() as int),
        string_views(r.1@) == critical_ids(r.0@),
{
    let ghost tasks = net.tasks@;
    let ghost edges = net.edges();
    let n = order.len();
    let mut schedules: Vec<TaskSchedule> = Vec::new();
    let mut critical_path: Vec<String> = Vec::new();
    let mut k: usize = 0;
    while k < n
        invariant
            net.wf(),
            tasks == net.tasks@,
            edges == net.edges(),
            n == order@.len() == tasks.len(),
            is_topo_order(n as nat, edges, order@),
            k <= n,
            es@.len() == n,
            ef@.len() == n,
            ls@.len() == n,
            lf@.len() == n,
            forward_ok(tasks, edges, order@, es@, ef@, n as int),
            backward_ok(tasks, edges, order@, ef@, ls@, lf@, pd, 0),
            0 <= pd <= n * dur_bound(),
            schedules@.len() == k,
            entries_from(tasks, order@, es@, ls@, schedules@, k as int),
            string_views(critical_path@) == critical_ids(schedules@),
        decreases n - k,
    {
        let v = order[k];
        let task = net.task(v);
        let dur = task.pert();
        proof {
            assert(v < n);
            let w = order@[k as int];
            assert(ef@[w as int] == es@[w as int] + node_dur(tasks, w));
            assert(lf@[w as int] == ls@[w as int] + node_dur(tasks, w));
        }
        let slack = ls[v] - es[v];
        let is_critical = slack == 0;
        let entry = TaskSchedule {
            task_id: task.id.clone(),
            task_name: task.name.clone(),
            duration: dur,
            earliest_start: es[v],
            earliest_finish: ef[v],
            latest_start: ls[v],
            latest_finish: lf[v],
            slack,
            is_critical,
        };
        let ghost before = schedules@;
        let ghost cp_before = critical_path@;
        schedules.push(entry);
        if is_critical {
            critical_path.push(task.id.clone());
        }
        proof {
            assert(schedules@.drop_last() =~= before);
            if is_critical {
                assert(string_views(critical_path@) =~= string_views(cp_before).push(task.id@));
            } else {
                assert(critical_path@ == cp_before);
            }
        }
        k += 1;
    }
    (schedules, critical_path)
}

proof fn lemma_entry_times(
    tasks: Seq<Task>,
    ord: Seq<usize>,
    es: Seq<i128>,
    ef: Seq<i128>,
    ls: Seq<i128>,
    lf: Seq<i128>,
    s: Seq<TaskSchedule>,
)
    requires
        s.len() == ord.len(),
        forall|i: int| 0 <= i < ord.len() ==> #[trigger] ord[i] < tasks.len(),
        es.len() == tasks.len(),
        ef.len() == tasks.len(),
        ls.len() == tasks.len(),
        lf.len() == tasks.len(),
        forall|i: int| #![trigger ord[i]] 0 <= i < ord.len() ==> ef[ord[i] as int] == es[ord[i] as int]
            + node_dur(tasks, ord[i]) && lf[ord[i] as int] == ls[ord[i] as int] + node_dur(tasks, ord[i]),
        entries_from(tasks, ord, es, ls, s, ord.len() as int),
    ensures
        forall|k: int| #![trigger s[k]] 0 <= k < s.len() ==> s[k].earliest_finish == ef[ord[k] as int]
            && s[k].latest_finish == lf[ord[k] as int] && s[k].earliest_start == es[ord[k] as int]
            && s[k].latest_start == ls[ord[k] as int],
{
    assert forall|k: int| #![trigger s[k]] 0 <= k < s.len() implies s[k].earliest_finish == ef[ord[k] as int]
        && s[k].latest_finish == lf[ord[k] as int] && s[k].earliest_start == es[ord[k] as int]
        && s[k].latest_start == ls[ord[k] as int] by {
        assert(ord[k] == ord[k]);
    }
}

proof fn lemma_start_rule(
    tasks: Seq<Task>,
    edges: Seq<(usize, usize)>,
    ord: Seq<usize>,
    es: Seq<i128>,
    ef: Seq<i128>,
    s: Seq<TaskSchedule>,
)
    requires
        edges_in_range(edges, tasks.len()),
        is_topo_order(tasks.len(), edges, ord),
        es.len() == tasks.len(),
        ef.len() == tasks.len(),
        forward_ok(tasks, edges, ord, es, ef, ord.len() as int),
        s.len() == ord.len(),
        forall|k: int| #![trigger s[k]] 0 <= k < s.len() ==> s[k].earliest_finish == ef[ord[k] as int]
            && s[k].earliest_start == es[ord[k] as int],
    ensures
        start_rule(edges, ord, s),
{
    let n = tasks.len();
    assert forall|j: int, k: int|
        0 <= j < s.len() && 0 <= k < s.len() && has_edge(edges, ord[j], ord[k])
            implies (#[trigger] s[j]).earliest_finish <= (#[trigger] s[k]).earliest_start by {
        assert(ord[k] == ord[k]);
    }
    assert forall|k: int| 0 <= k < s.len() implies (#[trigger] s[k]).earliest_start == 0
        || exists|j: int| 0 <= j < s.len() && has_edge(edges, ord[j], ord[k])
            && (#[trigger] s[j]).earliest_finish == s[k].earliest_start by {
        let v = ord[k];
        if es[v as int] != 0 {
            let p = choose|p: usize| #[trigger] has_edge(edges, p, v) && ef[p as int] == es[v as int];
            let e = choose|e: int| 0 <= e < edges.len() && edges[e] == (p, v);
            assert(edges[e].0 < n);
            assert(ord.contains(p));
            let j = pos_in(ord, p);
            assert(ord[j] == p);
            assert(s[j].earliest_finish == ef[p as int]);
        }
    }
}

proof fn lemma_finish_rule(
    tasks: Seq<Task>,
    edges: Seq<(usize, usize)>,
    ord: Seq<usize>,
    ef: Seq<i128>,
    ls: Seq<i128>,
    lf: Seq<i128>,
    pd: int,
    s: Seq<TaskSchedule>,
)
    requires
        edges_in_range(edges, tasks.len()),
        is_topo_order(tasks.len(), edges, ord),
        ls.len() == tasks.len(),
        lf.len() == tasks.len(),
        backward_ok(tasks, edges, ord, ef, ls, lf, pd, 0),
        s.len() == ord.len(),
        forall|k: int| #![trigger s[k]] 0 <= k < s.len() ==> s[k].latest_finish == lf[ord[k] as int]
            && s[k].latest_start == ls[ord[k] as int],
    ensures
        finish_rule(edges, ord, s, pd),
{
    let n = tasks.len();
    assert forall|k: int| 0 <= k < s.len() && !has_succ(edges, ord[k]) implies (#[trigger] s[k]).latest_finish == pd by {
        assert(ord[k] == ord[k]);
    }
    assert forall|j: int, k: int|
        0 <= j < s.len() && 0 <= k < s.len() && has_edge(edges, ord[k], ord[j])
            implies (#[trigger] s[k]).latest_finish <= (#[trigger] s[j]).latest_start by {
        assert(ord[k] == ord[k]);
    }
    assert forall|k: int| 0 <= k < s.len() && has_succ(edges, ord[k]) implies #[trigger] finish_attained(edges, ord, s, k) by {
        let v = ord[k];
        assert(exists|q: usize| #[trigger] has_edge(edges, v, q) && ls[q as int] == lf[v as int]);
        let q = choose|q: usize| #[trigger] has_edge(edges, v, q) && ls[q as int] == lf[v as int];
        let e = choose|e: int| 0 <= e < edges.len() && edges[e] == (v, q);
        assert(edges[e].1 < n);
        assert(ord.contains(q));
        let j = pos_in(ord, q);
        assert(ord[j] == q);
        assert(s[j].latest_start == ls[q as int]);
        assert(s[k].latest_finish == lf[v as int]);
        assert(has_edge(edges, ord[k], ord[j]));
        assert(0 <= j < s.len());
    }
}

proof fn lemma_schedule_ok(
    tasks: Seq<Task>,
    edges: Seq<(usize, usize)>,
    ord: Seq<usize>,
    es: Seq<i128>,
    ef: Seq<i128>,
    ls: Seq<i128>,
    lf: Seq<i128>,
    pd: int,
    s: Seq<TaskSchedule>,
)
    requires
        edges_in_range(edges, tasks.len()),
        is_topo_order(tasks.len(), edges, ord),
        es.len() == tasks.len(),
        ef.len() == tasks.len(),
        ls.len() == tasks.len(),
        lf.len() == tasks.len(),
        forward_ok(tasks, edges, ord, es, ef, ord.len() as int),
        pd_ok(ord, ef, pd),
        backward_ok(tasks, edges, ord, ef, ls, lf, pd, 0),
        s.len() == ord.len(),
        entries_from(tasks, ord, es, ls, s, ord.len() as int),
    ensures
        schedule_ok(tasks, edges, ord, s, pd),
{
    assert forall|i: int| #![trigger ord[i]] 0 <= i < ord.len() implies ef[ord[i] as int] == es[ord[i] as int]
        + node_dur(tasks, ord[i]) && lf[ord[i] as int] == ls[ord[i] as int] + node_dur(tasks, ord[i]) by {}
    lemma_entry_times(tasks, ord, es, ef, ls, lf, s);
    lemma_start_rule(tasks, edges, ord, es, ef, s);
    lemma_finish_rule(tasks, edges, ord, ef, ls, lf, pd, s);
    assert forall|k: int| 0 <= k < s.len() implies (#[trigger] s[k]).earliest_finish <= pd by {
        assert(ef[ord[k] as int] <= pd);
    }
    if pd != 0 {
        let i = choose|i: int| 0 <= i < ord.len() && ef[#[trigger] ord[i] as int] == pd;
        assert(s[i].earliest_finish == pd);
    }
}

/// Schedules a network whose nodes are visited in the topological order
/// `order` (in `compute_critical_path`, the order that `petgraph` picks).
pub fn critical_path_for_order(net: &AoeNet, order: &Vec<usize>) -> (r: CriticalPathResult)
    requires
        net.wf(),
        is_topo_order(net.tasks@.len(), net.edges(), order@),
    ensures
        result_ok(net.tasks@, net.edges(), order@, r),
{
    let (es, ef) = forward_pass(net, order);
    let pd = project_duration_of(order, &ef);
    proof {
        lemma_pd_bounded(net.tasks@, net.edges(), order@, es@, ef@, pd as int);
    }
    let (ls, lf) = backward_pass(net, order, &es, &ef, pd);
    let (schedules, critical_path) = assemble(net, order, &es, &ef, &ls, &lf, Ghost(pd as int));
    proof {
        lemma_schedule_ok(net.tasks@, net.edges(), order@, es@, ef@, ls@, lf@, pd as int, schedules@);
    }
    CriticalPathResult { schedules, critical_path, project_duration: pd }
}

/// Schedules a network in the topological order that `petgraph` picks, or
/// reports the task at which it found a cycle.
pub fn compute_critical_path(net: &AoeNet) -> (r: Result<CriticalPathResult, AoeError>)
    requires
        net.wf(),
    ensures
        match petgraph_toposort(net.nodes(), net.edges()) {
            Ok(ord) => r matches Ok(res) && is_topo_order(net.tasks@.len(), net.edges(), ord)
                && result_ok(net.tasks@, net.edges(), ord, res),
            Err(c) => r matches Err(AoeError::CycleDetected { node }) && c < net.tasks@.len()
                && node@ == net.tasks@[c as int].id@ && on_cycle(net.edges(), c),
        },
{
    let topo_order = net.topological_order()?;
    Ok(critical_path_for_order(net, &topo_order))
}


/// Every task of the list has a PERT estimate of zero or more.
pub open spec fn durations_nonnegative(tasks: Seq<Task>) -> bool {
    forall|i: int| 0 <= i < tasks.len() ==> spec_pert(#[trigger] tasks[i]) >= 0
}

proof fn lemma_finish_covers(
    tasks: Seq<Task>,
    edges: Seq<(usize, usize)>,
    ord: Seq<usize>,
    s: Seq<TaskSchedule>,
    pd: int,
    k: int,
)
    requires
        edges_in_range(edges, tasks.len()),
        is_topo_order(tasks.len(), edges, ord),
        schedule_ok(tasks, edges, ord, s, pd),
        0 <= k < s.len(),
    ensures
        s[k].earliest_finish <= s[k].latest_finish,
    decreases s.len() - k,
{
    assert(entry_matches(tasks[ord[k] as int], s[k]));
    if has_succ(edges, ord[k]) {
        assert(finish_attained(edges, ord, s, k));
        let j = choose|j: int| 0 <= j < s.len() && has_edge(edges, ord[k], ord[j])
            && (#[trigger] s[j]).latest_start == s[k].latest_finish;
        assert(k < j);
        lemma_finish_covers(tasks, edges, ord, s, pd, j);
        assert(entry_matches(tasks[ord[j] as int], s[j]));
        assert(s[k].earliest_finish <= s[j].earliest_start);
    }
}

proof fn lemma_latest_finish_bounded(
    tasks: Seq<Task>,
    edges: Seq<(usize, usize)>,
    ord: Seq<usize>,
    s: Seq<TaskSchedule>,
    pd: int,
    k: int,
)
    requires
        edges_in_range(edges, tasks.len()),
        is_topo_order(tasks.len(), edges, ord),
        schedule_ok(tasks, edges, ord, s, pd),
        durations_nonnegative(tasks),
        0 <= k < s.len(),
    ensures
        s[k].latest_finish <= pd,
    decreases s.len() - k,
{
    if has_succ(edges, ord[k]) {
        assert(finish_attained(edges, ord, s, k));
        let j = choose|j: int| 0 <= j < s.len() && has_edge(edges, ord[k], ord[j])
            && (#[trigger] s[j]).latest_start == s[k].latest_finish;
        assert(k < j);
        lemma_latest_finish_bounded(tasks, edges, ord, s, pd, j);
        assert(entry_matches(tasks[ord[j] as int], s[j]));
        assert(ord[j] < tasks.len());
        assert(spec_pert(tasks[ord[j] as int]) >= 0);
    }
}

/// Every schedule of a non-empty project whose PERT estimates are not
/// negative has a critical task, and one of them finishes exactly when the
/// project does.
pub proof fn lemma_critical_task_exists(
    tasks: Seq<Task>,
    edges: Seq<(usize, usize)>,
    ord: Seq<usize>,
    s: Seq<TaskSchedule>,
    pd: int,
)
    requires
        edges_in_range(edges, tasks.len()),
        is_topo_order(tasks.len(), edges, ord),
        schedule_ok(tasks, edges, ord, s, pd),
        durations_nonnegative(tasks),
        s.len() > 0,
    ensures
        exists|k: int| 0 <= k < s.len() && (#[trigger] s[k]).is_critical && s[k].earliest_finish == pd,
{
    let k = if pd == 0 {
        0
    } else {
        choose|k: int| 0 <= k < s.len() && (#[trigger] s[k]).earliest_finish == pd
    };
    assert(s[k].earliest_finish <= pd);
    assert(entry_matches(tasks[ord[k] as int], s[k]));
    assert(ord[k] < tasks.len());
    assert(spec_pert(tasks[ord[k] as int]) >= 0);
    lemma_latest_finish_bounded(tasks, edges, ord, s, pd, k);
    lemma_finish_covers(tasks, edges, ord, s, pd, k);
    assert(s[k].earliest_finish == pd);
}

/// A critical task that starts after time 0 follows a critical predecessor
/// that finishes exactly when it starts; so the critical tasks chain back to
/// the start of the project.
pub proof fn lemma_critical_predecessor(
    tasks: Seq<Task>,
    edges: Seq<(usize, usize)>,
    ord: Seq<usize>,
    s: Seq<TaskSchedule>,
    pd: int,
    k: int,
)
    requires
        edges_in_range(edges, tasks.len()),
        is_topo_order(tasks.len(), edges, ord),
        schedule_ok(tasks, edges, ord, s, pd),
        0 <= k < s.len(),
        s[k].is_critical,
        s[k].earliest_start > 0,
    ensures
        exists|j: int| 0 <= j < s.len() && has_edge(edges, ord[j], ord[k]) && (#[trigger] s[j]).is_critical
            && s[j].earliest_finish == s[k].earliest_start,
{
    let j = choose|j: int| 0 <= j < s.len() && has_edge(edges, ord[j], ord[k])
        && (#[trigger] s[j]).earliest_finish == s[k].earliest_start;
    assert(entry_matches(tasks[ord[k] as int], s[k]));
    assert(entry_matches(tasks[ord[j] as int], s[j]));
    assert(s[j].latest_finish <= s[k].latest_start);
    lemma_finish_covers(tasks, edges, ord, s, pd, j);
}

/// No task's latest start comes before its earliest start (slack is never
/// negative, whatever the estimates); and when no PERT estimate is
/// negative, no task's latest finish comes after the end of the project.
pub proof fn lemma_slack_nonnegative(
    tasks: Seq<Task>,
    edges: Seq<(usize, usize)>,
    ord: Seq<usize>,
    s: Seq<TaskSchedule>,
    pd: int,
    k: int,
)
    requires
        edges_in_range(edges, tasks.len()),
        is_topo_order(tasks.len(), edges, ord),
        schedule_ok(tasks, edges, ord, s, pd),
        0 <= k < s.len(),
    ensures
        s[k].earliest_start <= s[k].latest_start,
        s[k].earliest_finish <= s[k].latest_finish,
        durations_nonnegative(tasks) ==> s[k].latest_finish <= pd,
{
    assert(entry_matches(tasks[ord[k] as int], s[k]));
    lemma_finish_covers(tasks, edges, ord, s, pd, k);
    if durations_nonnegative(tasks) {
        lemma_latest_finish_bounded(tasks, edges, ord, s, pd, k);
    }
}


proof fn lemma_starts_agree(
    tasks: Seq<Task>,
    edges: Seq<(usize, usize)>,
    ord1: Seq<usize>,
    s1: Seq<TaskSchedule>,
    pd1: int,
    ord2: Seq<usize>,
    s2: Seq<TaskSchedule>,
    pd2: int,
    k: int,
)
    requires
        edges_in_range(edges, tasks.len()),
        is_topo_order(tasks.len(), edges, ord1),
        is_topo_order(tasks.len(), edges, ord2),
        schedule_ok(tasks, edges, ord1, s1, pd1),
        schedule_ok(tasks, edges, ord2, s2, pd2),
        0 <= k <= s1.len(),
    ensures
        forall|i: int, j: int| #![trigger s1[i], s2[j]] 0 <= i < k && 0 <= j < s2.len() && ord1[i] == ord2[j]
            ==> s1[i].earliest_start == s2[j].earliest_start,
    decreases k,
{
    if k > 0 {
        lemma_starts_agree(tasks, edges, ord1, s1, pd1, ord2, s2, pd2, k - 1);
        let i = k - 1;
        assert forall|j: int| #![trigger s2[j]] 0 <= j < s2.len() && ord1[i] == ord2[j]
            implies s1[i].earliest_start == s2[j].earliest_start by {
            assert(entry_matches(tasks[ord1[i] as int], s1[i]));
            assert(entry_matches(tasks[ord2[j] as int], s2[j]));
            if s1[i].earliest_start != 0 {
                let a = choose|a: int| 0 <= a < s1.len() && has_edge(edges, ord1[a], ord1[i])
                    && (#[trigger] s1[a]).earliest_finish == s1[i].earliest_start;
                assert(a < i);
                assert(ord2.contains(ord1[a]));
                let b = choose|b: int| 0 <= b < ord2.len() && ord2[b] == ord1[a];
                assert(entry_matches(tasks[ord1[a] as int], s1[a]));
                assert(entry_matches(tasks[ord2[b] as int], s2[b]));
                assert(s1[a].earliest_start == s2[b].earliest_start);
                assert(s2[b].earliest_finish <= s2[j].earliest_start);
            }
            if s2[j].earliest_start != 0 {
                let b = choose|b: int| 0 <= b < s2.len() && has_edge(edges, ord2[b], ord2[j])
                    && (#[trigger] s2[b]).earliest_finish == s2[j].earliest_start;
                assert(ord1.contains(ord2[b]));
                let a = choose|a: int| 0 <= a < ord1.len() && ord1[a] == ord2[b];
                assert(has_edge(edges, ord1[a], ord1[i]));
                assert(a < i);
                assert(entry_matches(tasks[ord1[a] as int], s1[a]));
                assert(entry_matches(tasks[ord2[b] as int], s2[b]));
                assert(s1[a].earliest_start == s2[b].earliest_start);
                assert(s1[a].earliest_finish <= s1[i].earliest_start);
            }
        }
    }
}

proof fn lemma_finishes_agree(
    tasks: Seq<Task>,
    edges: Seq<(usize, usize)>,
    ord1: Seq<usize>,
    s1: Seq<TaskSchedule>,
    ord2: Seq<usize>,
    s2: Seq<TaskSchedule>,
    pd: int,
    k: int,
)
    requires
        edges_in_range(edges, tasks.len()),
        is_topo_order(tasks.len(), edges, ord1),
        is_topo_order(tasks.len(), edges, ord2),
        schedule_ok(tasks, edges, ord1, s1, pd),
        schedule_ok(tasks, edges, ord2, s2, pd),
        0 <= k <= s1.len(),
    ensures
        forall|i: int, j: int| #![trigger s1[i], s2[j]] k <= i < s1.len() && 0 <= j < s2.len() && ord1[i] == ord2[j]
            ==> s1[i].latest_finish == s2[j].latest_finish,
    decreases s1.len() - k,
{
    if k < s1.len() {
        lemma_finishes_agree(tasks, edges, ord1, s1, ord2, s2, pd, k + 1);
        let i = k;
        assert forall|j: int| #![trigger s2[j]] 0 <= j < s2.len() && ord1[i] == ord2[j]
            implies s1[i].latest_finish == s2[j].latest_finish by {
            if has_succ(edges, ord1[i]) {
                assert(finish_attained(edges, ord1, s1, i));
                assert(finish_attained(edges, ord2, s2, j));
                let a = choose|a: int| 0 <= a < s1.len() && has_edge(edges, ord1[i], ord1[a])
                    && (#[trigger] s1[a]).latest_start == s1[i].latest_finish;
                assert(i < a);
                assert(ord2.contains(ord1[a]));
                let b = choose|b: int| 0 <= b < ord2.len() && ord2[b] == ord1[a];
                assert(entry_matches(tasks[ord1[a] as int], s1[a]));
                assert(entry_matches(tasks[ord2[b] as int], s2[b]));
                assert(s1[a].latest_finish == s2[b].latest_finish);
                assert(s2[j].latest_finish <= s2[b].latest_start);
                let b2 = choose|b2: int| 0 <= b2 < s2.len() && has_edge(edges, ord2[j], ord2[b2])
                    && (#[trigger] s2[b2]).latest_start == s2[j].latest_finish;
                assert(ord1.contains(ord2[b2]));
                let a2 = choose|a2: int| 0 <= a2 < ord1.len() && ord1[a2] == ord2[b2];
                assert(has_edge(edges, ord1[i], ord1[a2]));
                assert(i < a2);
                assert(entry_matches(tasks[ord1[a2] as int], s1[a2]));
                assert(entry_matches(tasks[ord2[b2] as int], s2[b2]));
                assert(s1[a2].latest_finish == s2[b2].latest_finish);
                assert(s1[i].latest_finish <= s1[a2].latest_start);
            } else {
                assert(!has_succ(edges, ord2[j]));
            }
        }
    }
}

/// The schedule does not depend on the topological order in which it was
/// computed: two schedules of the same network, in any two topological
/// orders, that both follow the scheduling rules give the project the same
/// duration and every task the same times, slack and criticality. In
/// particular there is only one schedule for a given order.
pub proof fn lemma_schedule_unique(
    tasks: Seq<Task>,
    edges: Seq<(usize, usize)>,
    ord1: Seq<usize>,
    s1: Seq<TaskSchedule>,
    pd1: int,
    ord2: Seq<usize>,
    s2: Seq<TaskSchedule>,
    pd2: int,
)
    requires
        edges_in_range(edges, tasks.len()),
        is_topo_order(tasks.len(), edges, ord1),
        is_topo_order(tasks.len(), edges, ord2),
        schedule_ok(tasks, edges, ord1, s1, pd1),
        schedule_ok(tasks, edges, ord2, s2, pd2),
    ensures
        pd1 == pd2,
        forall|i: int, j: int| #![trigger s1[i], s2[j]] 0 <= i < s1.len() && 0 <= j < s2.len() && ord1[i] == ord2[j] ==> {
            &&& s1[i].earliest_start == s2[j].earliest_start
            &&& s1[i].earliest_finish == s2[j].earliest_finish
            &&& s1[i].latest_start == s2[j].latest_start
            &&& s1[i].latest_finish == s2[j].latest_finish
            &&& s1[i].slack == s2[j].slack
            &&& s1[i].is_critical == s2[j].is_critical
        },
{
    lemma_starts_agree(tasks, edges, ord1, s1, pd1, ord2, s2, pd2, s1.len() as int);
    if pd1 != 0 {
        let k = choose|k: int| 0 <= k < s1.len() && (#[trigger] s1[k]).earliest_finish == pd1;
        assert(ord2.contains(ord1[k]));
        let j = choose|j: int| 0 <= j < ord2.len() && ord2[j] == ord1[k];
        assert(entry_matches(tasks[ord1[k] as int], s1[k]));
        assert(entry_matches(tasks[ord2[j] as int], s2[j]));
        assert(s2[j].earliest_finish <= pd2);
    }
    if pd2 != 0 {
        let j = choose|j: int| 0 <= j < s2.len() && (#[trigger] s2[j]).earliest_finish == pd2;
        assert(ord1.contains(ord2[j]));
        let k = choose|k: int| 0 <= k < ord1.len() && ord1[k] == ord2[j];
        assert(entry_matches(tasks[ord1[k] as int], s1[k]));
        assert(entry_matches(tasks[ord2[j] as int], s2[j]));
        assert(s1[k].earliest_finish <= pd1);
    }
    lemma_finishes_agree(tasks, edges, ord1, s1, ord2, s2, pd1, 0);
    assert forall|i: int, j: int| #![trigger s1[i], s2[j]] 0 <= i < s1.len() && 0 <= j < s2.len() && ord1[i] == ord2[j] implies {
        &&& s1[i].earliest_start == s2[j].earliest_start
        &&& s1[i].earliest_finish == s2[j].earliest_finish
        &&& s1[i].latest_start == s2[j].latest_start
        &&& s1[i].latest_finish == s2[j].latest_finish
        &&& s1[i].slack == s2[j].slack
        &&& s1[i].is_critical == s2[j].is_critical
    } by {
        assert(entry_matches(tasks[ord1[i] as int], s1[i]));
        assert(entry_matches(tasks[ord2[j] as int], s2[j]));
    }
}

} // verus!
