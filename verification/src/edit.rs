//! Editing a project by hand: the id of a new task, adding a task with its
//! dependencies, removing a task, and checking a new task's fields.

use vstd::prelude::*;
use vstd::set_lib::{lemma_int_range, lemma_map_size, lemma_len_subset, set_int_range};
use crate::aoe::{
    Task, Dependency, ProjectData, task_ids, dep_views, copy_task, first_unknown, dep_edges, last_index,
    lemma_last_index, lemma_all_known, lemma_first_unknown_none,
};
use crate::graph::{has_cycle, has_edge, is_walk, on_cycle};
use crate::critical_path::string_views;
use crate::text::{trimmed, str_trim};

verus! {

/// The decimal digit `d`.
pub open spec fn digit_char(d: int) -> char {
    if d == 0 {
        '0'
    } else if d == 1 {
        '1'
    } else if d == 2 {
        '2'
    } else if d == 3 {
        '3'
    } else if d == 4 {
        '4'
    } else if d == 5 {
        '5'
    } else if d == 6 {
        '6'
    } else if d == 7 {
        '7'
    } else if d == 8 {
        '8'
    } else {
        '9'
    }
}

/// The decimal digits of `n`, without leading zeros.
pub open spec fn decimal(n: nat) -> Seq<char>
    decreases n,
{
    if n < 10 {
        seq![digit_char(n as int)]
    } else {
        decimal(n / 10).push(digit_char((n % 10) as int))
    }
}

/// `c` is one of the characters `0` to `9`.
pub open spec fn is_digit(c: char) -> bool {
    '0' as int <= c as int && c as int <= '9' as int
}

/// The number that a text of decimal digits reads as, most significant
/// digit first.
pub open spec fn digits_value(s: Seq<char>) -> int
    decreases s.len(),
{
    if s.len() == 0 {
        0
    } else {
        10 * digits_value(s.drop_last()) + (s.last() as int - '0' as int)
    }
}

/// The id `T<i>` of the `i`-th numbered task.
pub open spec fn task_id_text(i: nat) -> Seq<char> {
    seq!['T'] + decimal(i)
}

/// `decimal(n)` is the usual decimal notation of `n`: the digit `d` is the
/// character with code `'0' + d`, every character is a digit, the digits
/// read as `n`, and there is no leading zero except in "0". So the id of
/// task `i` is `T` followed by that notation.
pub proof fn lemma_decimal_notation(n: nat)
    ensures
        forall|d: int| 0 <= d < 10 ==> #[trigger] digit_char(d) as int == '0' as int + d,
        decimal(n).len() >= 1,
        forall|i: int| 0 <= i < decimal(n).len() ==> is_digit(#[trigger] decimal(n)[i]),
        digits_value(decimal(n)) == n,
        decimal(n)[0] == '0' ==> n == 0,
        task_id_text(n)[0] == 'T',
        task_id_text(n).drop_first() == decimal(n),
    decreases n,
{
    assert forall|d: int| 0 <= d < 10 implies #[trigger] digit_char(d) as int == '0' as int + d by {
        assert(d == 0 || d == 1 || d == 2 || d == 3 || d == 4 || d == 5 || d == 6 || d == 7 || d == 8 || d == 9);
    }
    let s = decimal(n);
    if n < 10 {
        assert(s == seq![digit_char(n as int)]);
        assert(s.drop_last() =~= Seq::<char>::empty());
        assert(digits_value(s) == 10 * digits_value(s.drop_last()) + (s.last() as int - '0' as int));
    } else {
        lemma_decimal_notation(n / 10);
        let p = decimal(n / 10);
        assert(s == p.push(digit_char((n % 10) as int)));
        assert(s.drop_last() =~= p);
        assert(digit_char((n % 10) as int) as int == '0' as int + (n % 10));
        assert forall|i: int| 0 <= i < s.len() implies is_digit(#[trigger] s[i]) by {
            if i < p.len() {
                assert(s[i] == p[i]);
            }
        }
        assert(s[0] == p[0]);
        assert(n == 10 * (n / 10) + n % 10);
    }
    assert(task_id_text(n).drop_first() =~= decimal(n));
}

proof fn lemma_decimal_len(n: nat)
    ensures
        decimal(n).len() >= 1,
        decimal(n).len() == 1 <==> n < 10,
    decreases n,
{
    if n >= 10 {
        lemma_decimal_len(n / 10);
    }
}

proof fn lemma_decimal_injective(a: nat, b: nat)
    requires
        decimal(a) == decimal(b),
    ensures
        a == b,
    decreases a,
{
    lemma_decimal_len(a);
    lemma_decimal_len(b);
    if a >= 10 && b >= 10 {
        let da = decimal(a);
        let db = decimal(b);
        assert(da.last() == db.last());
        assert(da.drop_last() =~= decimal(a / 10));
        assert(db.drop_last() =~= decimal(b / 10));
        lemma_decimal_injective(a / 10, b / 10);
        assert(digit_char((a % 10) as int) == digit_char((b % 10) as int));
        assert(a % 10 == b % 10);
        assert(a == 10 * (a / 10) + a % 10);
        assert(b == 10 * (b / 10) + b % 10);
    } else if a < 10 && b < 10 {
        let sa = seq![digit_char(a as int)];
        let sb = seq![digit_char(b as int)];
        assert(decimal(a) == sa);
        assert(decimal(b) == sb);
        assert(sa[0] == sb[0]);
    }
}

proof fn lemma_task_id_injective(a: nat, b: nat)
    requires
        task_id_text(a) == task_id_text(b),
    ensures
        a == b,
{
    assert(task_id_text(a).drop_first() =~= decimal(a));
    assert(task_id_text(b).drop_first() =~= decimal(b));
    lemma_decimal_injective(a, b);
}

/// The decimal digit `d` as text.
fn digit_text(d: u128) -> (r: &'static str)
    requires
        d < 10,
    ensures
        r@ == seq![digit_char(d as int)],
{
    proof {
        reveal_strlit("0");
        reveal_strlit("1");
        reveal_strlit("2");
        reveal_strlit("3");
        reveal_strlit("4");
        reveal_strlit("5");
        reveal_strlit("6");
        reveal_strlit("7");
        reveal_strlit("8");
        reveal_strlit("9");
    }
    match d {
        0 => "0",
        1 => "1",
        2 => "2",
        3 => "3",
        4 => "4",
        5 => "5",
        6 => "6",
        7 => "7",
        8 => "8",
        _ => "9",
    }
}

/// The decimal digits of `n`, without leading zeros.
fn decimal_text(n: u128) -> (r: String)
    ensures
        r@ == decimal(n as nat),
    decreases n,
{
    if n < 10 {
        String::from_str(digit_text(n))
    } else {
        let head = decimal_text(n / 10);
        let r = head.concat(digit_text(n % 10));
        proof {
            assert(r@ =~= decimal((n / 10) as nat).push(digit_char((n % 10) as int)));
        }
        r
    }
}

/// The id `T<i>`.
fn task_id_of(i: u128) -> (r: String)
    ensures
        r@ == task_id_text(i as nat),
{
    proof {
        reveal_strlit("T");
    }
    String::from_str("T").concat(decimal_text(i).as_str())
}

/// Some task of the list carries the id `id`.
pub fn id_in_use(tasks: &Vec<Task>, id: &String) -> (r: bool)
    ensures
        r == task_ids(tasks@).contains(id@),
{
    let mut i: usize = 0;
    while i < tasks.len()
        invariant
            i <= tasks@.len(),
            forall|j: int| 0 <= j < i ==> tasks@[j].id@ != id@,
        decreases tasks@.len() - i,
    {
        if tasks[i].id == *id {
            proof {
                assert(task_ids(tasks@)[i as int] == id@);
            }
            return true;
        }
        i += 1;
    }
    proof {
        if task_ids(tasks@).contains(id@) {
            let j = choose|j: int| 0 <= j < tasks@.len() && task_ids(tasks@)[j] == id@;
            assert(tasks@[j].id@ == id@);
        }
    }
    false
}

proof fn lemma_ids_run_out(ids: Seq<Seq<char>>)
    ensures
        !(forall|j: nat| 1 <= j <= ids.len() + 1 ==> #[trigger] ids.contains(task_id_text(j))),
{
    if forall|j: nat| 1 <= j <= ids.len() + 1 ==> #[trigger] ids.contains(task_id_text(j)) {
        let n = ids.len();
        let x = set_int_range(1, n as int + 2);
        let f = |i: int| task_id_text(i as nat);
        lemma_int_range(1, n as int + 2);
        assert forall|a: int, b: int| x.contains(a) && x.contains(b) && #[trigger] f(a) == #[trigger] f(b) implies a == b by {
            lemma_task_id_injective(a as nat, b as nat);
        }
        let y = x.map(f);
        lemma_map_size(x, y, f);
        assert forall|s: Seq<char>| y.contains(s) implies ids.to_set().contains(s) by {
            let i = choose|i: int| x.contains(i) && f(i) == s;
            assert(ids.contains(task_id_text(i as nat)));
        }
        ids.lemma_cardinality_of_set();
        lemma_len_subset(y, ids.to_set());
    }
}

/// `id` is `T<i>` for the least `i >= 1` that none of `ids` is.
pub open spec fn is_next_id(ids: Seq<Seq<char>>, id: Seq<char>) -> bool {
    &&& exists|i: nat| 1 <= i && id == task_id_text(i)
        && forall|j: nat| 1 <= j < i ==> #[trigger] ids.contains(task_id_text(j))
    &&& !ids.contains(id)
}

/// The id for a new task: `T<i>` for the least `i >= 1` that no task uses.
pub fn next_task_id(data: &ProjectData) -> (r: String)
    ensures
        is_next_id(task_ids(data.tasks@), r@),
{
    let ghost ids = task_ids(data.tasks@);
    let n = data.tasks.len();
    let mut i: u128 = 1;
    proof {
        lemma_ids_run_out(ids);
    }
    loop
        invariant
            ids == task_ids(data.tasks@),
            n == ids.len(),
            1 <= i <= n + 1,
            forall|j: nat| 1 <= j < i ==> #[trigger] ids.contains(task_id_text(j)),
            !(forall|j: nat| 1 <= j <= ids.len() + 1 ==> #[trigger] ids.contains(task_id_text(j))),
        decreases n + 1 - i,
    {
        let candidate = task_id_of(i);
        if !id_in_use(&data.tasks, &candidate) {
            return candidate;
        }
        if i == n as u128 + 1 {
            proof {
                assert forall|j: nat| 1 <= j <= ids.len() + 1 implies #[trigger] ids.contains(task_id_text(j)) by {
                    if j == i {
                        assert(candidate@ == task_id_text(j));
                    }
                }
            }
        }
        i += 1;
    }
}


/// `a` comes before `b` in the lexicographic order of characters by code
/// point (a proper prefix comes first).
pub open spec fn chars_lt(a: Seq<char>, b: Seq<char>) -> bool
    decreases a.len(),
{
    if a.len() == 0 {
        b.len() > 0
    } else if b.len() == 0 {
        false
    } else if a[0] != b[0] {
        (a[0] as u32) < (b[0] as u32)
    } else {
        chars_lt(a.drop_first(), b.drop_first())
    }
}

/// `p` is `q` or comes before it: by the first component, then the second.
pub open spec fn pair_le(p: (Seq<char>, Seq<char>), q: (Seq<char>, Seq<char>)) -> bool {
    p == q || chars_lt(p.0, q.0) || (p.0 == q.0 && chars_lt(p.1, q.1))
}

/// Each element comes strictly before the next.
pub open spec fn strictly_ascending(s: Seq<(Seq<char>, Seq<char>)>) -> bool {
    forall|i: int| 0 <= i < s.len() - 1 ==> #[trigger] pair_le(s[i], s[i + 1]) && s[i] != s[i + 1]
}

/// The views of a list of string pairs.
pub open spec fn pair_views(v: Seq<(String, String)>) -> Seq<(Seq<char>, Seq<char>)> {
    v.map_values(|p: (String, String)| (p.0@, p.1@))
}

/// Wraps `slice::sort` on string pairs. Tuples are ordered by their first
/// component and then their second, and strings byte by byte, which for
/// UTF-8 is the order of their characters by code point; the sort permutes
/// the elements.
#[verifier::external_body]
fn sort_pairs(v: &mut Vec<(String, String)>)
    ensures
        final(v)@.to_multiset() == old(v)@.to_multiset(),
        forall|i: int| 0 <= i < final(v)@.len() - 1 ==> #[trigger] pair_le(pair_views(final(v)@)[i], pair_views(final(v)@)[i + 1]),
{
    v.sort();
}

proof fn lemma_same_pairs(s1: Seq<(String, String)>, s2: Seq<(String, String)>, x: (Seq<char>, Seq<char>))
    requires
        s1.to_multiset() == s2.to_multiset(),
    ensures
        pair_views(s1).contains(x) ==> pair_views(s2).contains(x),
{
    s1.to_multiset_ensures();
    s2.to_multiset_ensures();
    if pair_views(s1).contains(x) {
        let i = choose|i: int| 0 <= i < s1.len() && pair_views(s1)[i] == x;
        let e = s1[i];
        assert(s1.contains(e));
        assert(s1.to_multiset().count(e) > 0);
        assert(s2.to_multiset().count(e) > 0);
        assert(s2.contains(e));
        let j = choose|j: int| 0 <= j < s2.len() && s2[j] == e;
        assert(pair_views(s2)[j] == x);
    }
}

/// Turns sorted pairs into dependencies, dropping repeats.
fn dedup_sorted(pairs: &Vec<(String, String)>) -> (r: Vec<Dependency>)
    requires
        forall|i: int| 0 <= i < pairs@.len() - 1 ==> #[trigger] pair_le(pair_views(pairs@)[i], pair_views(pairs@)[i + 1]),
    ensures
        strictly_ascending(dep_views(r@)),
        forall|x: (Seq<char>, Seq<char>)| dep_views(r@).contains(x) <==> pair_views(pairs@).contains(x),
{
    let ghost pv = pair_views(pairs@);
    let mut out: Vec<Dependency> = Vec::new();
    let mut i: usize = 0;
    while i < pairs.len()
        invariant
            pv == pair_views(pairs@),
            forall|k: int| 0 <= k < pairs@.len() - 1 ==> #[trigger] pair_le(pv[k], pv[k + 1]),
            i <= pairs@.len(),
            i > 0 ==> out@.len() > 0 && dep_views(out@).last() == pv[i - 1],
            i == 0 ==> out@.len() == 0,
            strictly_ascending(dep_views(out@)),
            forall|x: (Seq<char>, Seq<char>)| dep_views(out@).contains(x) <==> pv.take(i as int).contains(x),
        decreases pairs@.len() - i,
    {
        let ghost x = pv[i as int];
        let fresh = if out.len() == 0 {
            true
        } else {
            let last = out.len() - 1;
            !(out[last].from == pairs[i].0 && out[last].to == pairs[i].1)
        };
        let ghost before = out@;
        if fresh {
            out.push(Dependency { from: pairs[i].0.clone(), to: pairs[i].1.clone() });
            proof {
                assert(dep_views(out@) =~= dep_views(before).push(x));
                if i > 0 {
                    let k = i - 1;
                    assert(pair_le(pv[k], pv[k + 1]));
                    let m = before.len() - 1;
                    assert(dep_views(out@)[m] == pv[k]);
                    assert(dep_views(out@)[m + 1] == x);
                    assert(dep_views(out@)[m] != x);
                }
                let dv = dep_views(out@);
                assert forall|k: int| 0 <= k < dv.len() - 1 implies #[trigger] pair_le(dv[k], dv[k + 1]) && dv[k] != dv[k + 1] by {
                    if k < dv.len() - 2 {
                        assert(dv[k] == dep_views(before)[k]);
                        assert(dv[k + 1] == dep_views(before)[k + 1]);
                    }
                }
            }
        }
        proof {
            assert(pv.take(i + 1) =~= pv.take(i as int).push(x));
            assert forall|y: (Seq<char>, Seq<char>)| dep_views(out@).contains(y) <==> pv.take(i + 1).contains(y) by {
                if dep_views(out@).contains(y) && !fresh {
                    assert(pv.take(i as int).contains(y));
                    let k = choose|k: int| 0 <= k < i && pv.take(i as int)[k] == y;
                    assert(pv.take(i + 1)[k] == y);
                }
                if dep_views(out@).contains(y) && fresh && y != x {
                    let k = choose|k: int| 0 <= k < out@.len() && dep_views(out@)[k] == y;
                    assert(k < before.len());
                    assert(dep_views(before)[k] == y);
                    assert(dep_views(before).contains(y));
                    assert(pv.take(i as int).contains(y));
                    let k2 = choose|k2: int| 0 <= k2 < i && pv.take(i as int)[k2] == y;
                    assert(pv.take(i + 1)[k2] == y);
                }
                if dep_views(out@).contains(y) && fresh && y == x {
                    assert(pv.take(i + 1)[i as int] == y);
                }
                if pv.take(i + 1).contains(y) {
                    let t1 = pv.take(i + 1);
                    let k = choose|k: int| 0 <= k < t1.len() && t1[k] == y;
                    if k < i {
                        assert(pv.take(i as int)[k] == y);
                        assert(pv.take(i as int).contains(y));
                        assert(dep_views(before).contains(y));
                        let k2 = choose|k2: int| 0 <= k2 < before.len() && dep_views(before)[k2] == y;
                        assert(dep_views(out@)[k2] == y);
                    } else {
                        assert(y == x);
                        assert(dep_views(out@)[out@.len() - 1] == y);
                    }
                }
            }
        }
        i += 1;
    }
    proof {
        assert(pv.take(pairs@.len() as int) =~= pv);
    }
    out
}


/// `x` is a dependency that adding task `new_id` brings: from one of the
/// chosen predecessors that exists, or to one of the chosen successors that
/// exists.
pub open spec fn added_dependency(
    ids: Seq<Seq<char>>,
    new_id: Seq<char>,
    preds: Seq<Seq<char>>,
    succs: Seq<Seq<char>>,
    x: (Seq<char>, Seq<char>),
) -> bool {
    ||| x.1 == new_id && preds.contains(x.0) && ids.contains(x.0)
    ||| x.0 == new_id && succs.contains(x.1) && ids.contains(x.1)
}

/// `x` links `new_id` with one of `ends` that exists: from it when
/// `incoming`, to it otherwise.
pub open spec fn link_to(ids: Seq<Seq<char>>, new_id: Seq<char>, ends: Seq<Seq<char>>, incoming: bool, x: (Seq<char>, Seq<char>)) -> bool {
    if incoming {
        x.1 == new_id && ends.contains(x.0) && ids.contains(x.0)
    } else {
        x.0 == new_id && ends.contains(x.1) && ids.contains(x.1)
    }
}

/// The links of `link_to`, as a set.
pub open spec fn link_set(ids: Seq<Seq<char>>, new_id: Seq<char>, ends: Seq<Seq<char>>, incoming: bool) -> Set<(Seq<char>, Seq<char>)> {
    Set::new(|x: (Seq<char>, Seq<char>)| link_to(ids, new_id, ends, incoming, x))
}

fn push_links(pairs: &mut Vec<(String, String)>, ends: &Vec<String>, new_id: &String, tasks: &Vec<Task>, incoming: bool)
    ensures
        pair_views(final(pairs)@).to_set() == pair_views(old(pairs)@).to_set().union(
            link_set(task_ids(tasks@), new_id@, string_views(ends@), incoming)),
{
    broadcast use vstd::seq_lib::group_seq_properties;
    let ghost ids = task_ids(tasks@);
    let ghost ev = string_views(ends@);
    let ghost start = pair_views(pairs@);
    proof {
        assert(link_set(ids, new_id@, ev.take(0), incoming) =~= Set::empty());
        assert(start.to_set().union(Set::empty()) =~= start.to_set());
    }
    let mut k: usize = 0;
    while k < ends.len()
        invariant
            k <= ends@.len(),
            ids == task_ids(tasks@),
            ev == string_views(ends@),
            start == pair_views(old(pairs)@),
            pair_views(pairs@).to_set() == start.to_set().union(link_set(ids, new_id@, ev.take(k as int), incoming)),
        decreases ends@.len() - k,
    {
        let e = &ends[k];
        let ghost kk = k as int;
        let ghost before = pair_views(pairs@);
        let exists = id_in_use(tasks, e);
        if exists {
            if incoming {
                pairs.push((e.clone(), new_id.clone()));
            } else {
                pairs.push((new_id.clone(), e.clone()));
            }
        }
        proof {
            let y = if incoming { (e@, new_id@) } else { (new_id@, e@) };
            assert(ev.take(kk + 1) =~= ev.take(kk).push(e@));
            let old_links = link_set(ids, new_id@, ev.take(kk), incoming);
            let new_links = link_set(ids, new_id@, ev.take(kk + 1), incoming);
            assert forall|x: (Seq<char>, Seq<char>)| new_links.contains(x) <==> (old_links.contains(x) || (exists && x == y)) by {
                let end = if incoming { x.0 } else { x.1 };
                if ev.take(kk + 1).contains(end) {
                    let t = ev.take(kk + 1);
                    let j = choose|j: int| 0 <= j < t.len() && t[j] == end;
                    if j < kk {
                        assert(ev.take(kk)[j] == end);
                    }
                }
                if ev.take(kk).contains(end) {
                    let t = ev.take(kk);
                    let j = choose|j: int| 0 <= j < t.len() && t[j] == end;
                    assert(ev.take(kk + 1)[j] == end);
                }
                if x == y {
                    assert(ev.take(kk + 1)[kk] == e@);
                }
            }
            if exists {
                assert(pair_views(pairs@) =~= before.push(y));
                assert(new_links =~= old_links.insert(y));
                before.lemma_push_to_set_commute(y);
                assert(pair_views(pairs@).to_set() =~= before.to_set().insert(y));
                assert(pair_views(pairs@).to_set() =~= start.to_set().union(new_links));
            } else {
                assert(pair_views(pairs@) =~= before);
                assert(new_links =~= old_links);
            }
        }
        k += 1;
    }
    proof {
        assert(ev.take(ends@.len() as int) =~= ev);
    }
}

/// `d` is `data` with a task added under the id `id`: `id` is the next free
/// id, the new task comes last with the name `name` (trimmed) and the given
/// estimates, and the dependencies, sorted by their ends without repeats,
/// are those of `data` and those of `added_dependency`.
pub open spec fn task_added(
    data: ProjectData,
    name: Seq<char>,
    optimistic: i32,
    normal: i32,
    pessimistic: i32,
    preds: Seq<Seq<char>>,
    succs: Seq<Seq<char>>,
    d: ProjectData,
    id: Seq<char>,
) -> bool {
    &&& is_next_id(task_ids(data.tasks@), id)
    &&& d.tasks@.len() == data.tasks@.len() + 1
    &&& d.tasks@.drop_last() == data.tasks@
    &&& d.tasks@.last().id@ == id
    &&& d.tasks@.last().name@ == trimmed(name)
    &&& d.tasks@.last().duration_optimistic == optimistic
    &&& d.tasks@.last().duration_normal == normal
    &&& d.tasks@.last().duration_pessimistic == pessimistic
    &&& strictly_ascending(dep_views(d.dependencies@))
    &&& forall|x: (Seq<char>, Seq<char>)| #[trigger] dep_views(d.dependencies@).contains(x) <==> (dep_views(data.dependencies@).contains(x)
        || added_dependency(task_ids(data.tasks@), id, preds, succs, x))
}

/// Adds a task called `name` (trimmed) with the given estimates, under the next free
/// id, depending on those of `preds` that exist and with those of `succs`
/// that exist depending on it. The dependencies are then sorted by their
/// ends and repeats dropped. Returns the new project and the new id.
pub fn add_task(
    data: &ProjectData,
    name: &str,
    optimistic: i32,
    normal: i32,
    pessimistic: i32,
    preds: &Vec<String>,
    succs: &Vec<String>,
) -> (r: (ProjectData, String))
    ensures
        task_added(*data, name@, optimistic, normal, pessimistic, string_views(preds@), string_views(succs@), r.0, r.1@),
{
    let ghost ids = task_ids(data.tasks@);
    let new_id = next_task_id(data);
    let mut pairs: Vec<(String, String)> = Vec::new();
    let mut i: usize = 0;
    while i < data.dependencies.len()
        invariant
            i <= data.dependencies@.len(),
            pair_views(pairs@) == dep_views(data.dependencies@.take(i as int)),
        decreases data.dependencies@.len() - i,
    {
        let d = &data.dependencies[i];
        let ghost before = pairs@;
        pairs.push((d.from.clone(), d.to.clone()));
        proof {
            assert(data.dependencies@.take(i + 1) =~= data.dependencies@.take(i as int).push(*d));
            assert(pair_views(pairs@) =~= pair_views(before).push((d.from@, d.to@)));
            assert(pair_views(pairs@) =~= dep_views(data.dependencies@.take(i + 1)));
        }
        i += 1;
    }
    proof {
        assert(data.dependencies@.take(data.dependencies@.len() as int) =~= data.dependencies@);
    }
    let ghost base = pair_views(pairs@);
    push_links(&mut pairs, preds, &new_id, &data.tasks, true);
    let ghost with_preds = pair_views(pairs@);
    push_links(&mut pairs, succs, &new_id, &data.tasks, false);
    let ghost unsorted = pairs@;
    sort_pairs(&mut pairs);
    proof {
        assert forall|x: (Seq<char>, Seq<char>)| pair_views(pairs@).contains(x) <==> pair_views(unsorted).contains(x) by {
            lemma_same_pairs(pairs@, unsorted, x);
            lemma_same_pairs(unsorted, pairs@, x);
        }
    }
    let dependencies = dedup_sorted(&pairs);
    let mut tasks = data.copy().tasks;
    tasks.push(Task {
        id: new_id.clone(),
        name: String::from_str(str_trim(name)),
        duration_optimistic: optimistic,
        duration_normal: normal,
        duration_pessimistic: pessimistic,
    });
    proof {
        assert(tasks@.drop_last() =~= data.tasks@);
        assert forall|x: (Seq<char>, Seq<char>)| dep_views(dependencies@).contains(x) <==> (dep_views(data.dependencies@).contains(x)
            || added_dependency(ids, new_id@, string_views(preds@), string_views(succs@), x)) by {
            assert(pair_views(unsorted).to_set().contains(x) <==> (with_preds.to_set().contains(x)
                || link_set(ids, new_id@, string_views(succs@), false).contains(x)));
            assert(with_preds.to_set().contains(x) <==> (base.to_set().contains(x)
                || link_set(ids, new_id@, string_views(preds@), true).contains(x)));
        }
    }
    (ProjectData { tasks, dependencies }, new_id)
}


/// Position of the first task with id `id`, or -1.
pub open spec fn first_with_id(tasks: Seq<Task>, id: Seq<char>) -> int
    decreases tasks.len(),
{
    if tasks.len() == 0 {
        -1
    } else if first_with_id(tasks.drop_last(), id) >= 0 {
        first_with_id(tasks.drop_last(), id)
    } else if tasks.last().id@ == id {
        tasks.len() - 1
    } else {
        -1
    }
}

proof fn lemma_first_with_id(tasks: Seq<Task>, id: Seq<char>)
    ensures
        -1 <= first_with_id(tasks, id) < tasks.len(),
        first_with_id(tasks, id) >= 0 ==> tasks[first_with_id(tasks, id)].id@ == id,
        forall|j: int| 0 <= j < tasks.len() && (first_with_id(tasks, id) == -1 || j < first_with_id(tasks, id))
            ==> tasks[j].id@ != id,
    decreases tasks.len(),
{
    if tasks.len() > 0 {
        let pre = tasks.drop_last();
        lemma_first_with_id(pre, id);
        assert forall|j: int| 0 <= j < tasks.len() && (first_with_id(tasks, id) == -1 || j < first_with_id(tasks, id))
            implies tasks[j].id@ != id by {
            if j < tasks.len() - 1 {
                assert(pre[j] == tasks[j]);
            }
        }
    }
}

/// Finds the first task with id `id`.
fn find_task(tasks: &Vec<Task>, id: &String) -> (r: Option<usize>)
    ensures
        match r {
            Some(i) => i as int == first_with_id(tasks@, id@) && i < tasks@.len(),
            None => first_with_id(tasks@, id@) == -1,
        },
{
    let mut i: usize = 0;
    while i < tasks.len()
        invariant
            i <= tasks@.len(),
            first_with_id(tasks@.take(i as int), id@) == -1,
        decreases tasks@.len() - i,
    {
        proof {
            assert(tasks@.take(i + 1).drop_last() =~= tasks@.take(i as int));
        }
        if tasks[i].id == *id {
            proof {
                lemma_first_with_id_prefix(tasks@, id@, i + 1);
            }
            return Some(i);
        }
        i += 1;
    }
    proof {
        assert(tasks@.take(tasks@.len() as int) =~= tasks@);
    }
    None
}

proof fn lemma_first_with_id_prefix(tasks: Seq<Task>, id: Seq<char>, m: int)
    requires
        0 <= m <= tasks.len(),
        first_with_id(tasks.take(m), id) >= 0,
    ensures
        first_with_id(tasks, id) == first_with_id(tasks.take(m), id),
    decreases tasks.len(),
{
    if m < tasks.len() {
        assert(tasks.drop_last().take(m) =~= tasks.take(m));
        lemma_first_with_id_prefix(tasks.drop_last(), id, m);
    } else {
        assert(tasks.take(m) =~= tasks);
    }
}

/// The tasks other than those with id `id`, in order.
pub open spec fn tasks_without(tasks: Seq<Task>, id: Seq<char>) -> Seq<Task> {
    tasks.filter(|t: Task| t.id@ != id)
}

/// The dependencies that do not touch `id`, in order.
pub open spec fn deps_without(deps: Seq<Dependency>, id: Seq<char>) -> Seq<Dependency> {
    deps.filter(|d: Dependency| d.from@ != id && d.to@ != id)
}

/// `d` is `data` without the tasks with id `id` and without the
/// dependencies that touch it, and `name` is the name of the first of those
/// tasks, of which there is at least one.
pub open spec fn task_removed(data: ProjectData, id: Seq<char>, d: ProjectData, name: Seq<char>) -> bool {
    &&& first_with_id(data.tasks@, id) >= 0
    &&& name == data.tasks@[first_with_id(data.tasks@, id)].name@
    &&& d.tasks@ == tasks_without(data.tasks@, id)
    &&& d.dependencies@ == deps_without(data.dependencies@, id)
}

/// Removes the task with id `node_id` (every task with that id) and the
/// dependencies that touch it; returns the new project and the name of the
/// first task with that id, or nothing when there is no such task.
pub fn remove_task(data: &ProjectData, node_id: &String) -> (r: Option<(ProjectData, String)>)
    ensures
        r is Some <==> first_with_id(data.tasks@, node_id@) >= 0,
        r matches Some((d, name)) ==> task_removed(*data, node_id@, d, name@),
{
    broadcast use vstd::seq_lib::group_filter_ensures;
    let found = find_task(&data.tasks, node_id);
    let first = match found {
        Some(i) => i,
        None => return None,
    };
    let name = data.tasks[first].name.clone();
    let mut tasks: Vec<Task> = Vec::new();
    let mut i: usize = 0;
    while i < data.tasks.len()
        invariant
            i <= data.tasks@.len(),
            tasks@ == tasks_without(data.tasks@.take(i as int), node_id@),
        decreases data.tasks@.len() - i,
    {
        proof {
            let pre = data.tasks@.take(i as int);
            assert(data.tasks@.take(i + 1) =~= pre.push(data.tasks@[i as int]));
            pre.lemma_filter_push(data.tasks@[i as int], |t: Task| t.id@ != node_id@);
        }
        if !(data.tasks[i].id == *node_id) {
            tasks.push(copy_task(&data.tasks[i]));
        }
        i += 1;
    }
    let mut deps: Vec<Dependency> = Vec::new();
    let mut j: usize = 0;
    while j < data.dependencies.len()
        invariant
            j <= data.dependencies@.len(),
            deps@ == deps_without(data.dependencies@.take(j as int), node_id@),
        decreases data.dependencies@.len() - j,
    {
        proof {
            let pre = data.dependencies@.take(j as int);
            assert(data.dependencies@.take(j + 1) =~= pre.push(data.dependencies@[j as int]));
            pre.lemma_filter_push(data.dependencies@[j as int], |d: Dependency| d.from@ != node_id@ && d.to@ != node_id@);
        }
        let d = &data.dependencies[j];
        if !(d.from == *node_id) && !(d.to == *node_id) {
            deps.push(crate::aoe::copy_dependency(d));
        }
        j += 1;
    }
    proof {
        assert(data.tasks@.take(data.tasks@.len() as int) =~= data.tasks@);
        assert(data.dependencies@.take(data.dependencies@.len() as int) =~= data.dependencies@);
    }
    Some((ProjectData { tasks, dependencies: deps }, name))
}

proof fn lemma_tasks_without_absent(tasks: Seq<Task>, id: Seq<char>)
    requires
        forall|i: int| 0 <= i < tasks.len() ==> (#[trigger] tasks[i]).id@ != id,
    ensures
        tasks_without(tasks, id) == tasks,
    decreases tasks.len(),
{
    reveal(Seq::filter);
    if tasks.len() > 0 {
        assert forall|i: int| 0 <= i < tasks.drop_last().len() implies (#[trigger] tasks.drop_last()[i]).id@ != id by {
            assert(tasks.drop_last()[i] == tasks[i]);
        }
        lemma_tasks_without_absent(tasks.drop_last(), id);
        assert(tasks.last() == tasks[tasks.len() - 1]);
        assert(tasks.drop_last().push(tasks.last()) =~= tasks);
    }
}

proof fn lemma_tasks_without_last(tasks: Seq<Task>, t: Task, id: Seq<char>)
    requires
        t.id@ == id,
    ensures
        tasks_without(tasks.push(t), id) == tasks_without(tasks, id),
{
    reveal(Seq::filter);
    assert(tasks.push(t).drop_last() =~= tasks);
}

proof fn lemma_deps_without_views(deps: Seq<Dependency>, id: Seq<char>, x: (Seq<char>, Seq<char>))
    ensures
        dep_views(deps_without(deps, id)).contains(x) <==> (dep_views(deps).contains(x) && x.0 != id && x.1 != id),
    decreases deps.len(),
{
    reveal(Seq::filter);
    if deps.len() > 0 {
        let pre = deps.drop_last();
        let last = deps.last();
        let lv = (last.from@, last.to@);
        lemma_deps_without_views(pre, id, x);
        assert(dep_views(deps) =~= dep_views(pre).push(lv));
        let dv = dep_views(deps);
        if dv.contains(x) && !dep_views(pre).contains(x) {
            let k = choose|k: int| 0 <= k < dv.len() && dv[k] == x;
            if k < pre.len() {
                assert(dep_views(pre)[k] == x);
            }
        }
        if dep_views(pre).contains(x) {
            let k = choose|k: int| 0 <= k < pre.len() && dep_views(pre)[k] == x;
            assert(dv[k] == x);
        }
        assert(dv[pre.len() as int] == lv);
        if last.from@ != id && last.to@ != id {
            let w = dep_views(deps_without(pre, id));
            assert(deps_without(deps, id) == deps_without(pre, id).push(last));
            assert(dep_views(deps_without(deps, id)) =~= w.push(lv));
            if w.push(lv).contains(x) && !w.contains(x) {
                let k = choose|k: int| 0 <= k < w.len() + 1 && w.push(lv)[k] == x;
                if k < w.len() {
                    assert(w[k] == x);
                }
            }
            if w.contains(x) {
                let k = choose|k: int| 0 <= k < w.len() && w[k] == x;
                assert(w.push(lv)[k] == x);
            }
            assert(w.push(lv)[w.len() as int] == lv);
        } else {
            assert(deps_without(deps, id) == deps_without(pre, id));
        }
    }
}

/// Removing the task that `add_task` has just added undoes the addition,
/// for a project whose dependencies all name its tasks: the tasks are those
/// of before, in order, the removed task bears the name given to it, and
/// the dependencies are those of before as a set (adding a task sorts them
/// and drops repeats).
pub proof fn lemma_remove_undoes_add(
    before: ProjectData,
    name: Seq<char>,
    optimistic: i32,
    normal: i32,
    pessimistic: i32,
    preds: Seq<Seq<char>>,
    succs: Seq<Seq<char>>,
    added: ProjectData,
    id: Seq<char>,
    after: ProjectData,
    removed_name: Seq<char>,
)
    requires
        first_unknown(task_ids(before.tasks@), before.dependencies@) is None,
        task_added(before, name, optimistic, normal, pessimistic, preds, succs, added, id),
        task_removed(added, id, after, removed_name),
    ensures
        after.tasks@ == before.tasks@,
        removed_name == trimmed(name),
        dep_views(after.dependencies@).to_set() == dep_views(before.dependencies@).to_set(),
{
    let ids = task_ids(before.tasks@);
    assert(!ids.contains(id));
    lemma_first_with_id(before.tasks@, id);
    if first_with_id(before.tasks@, id) >= 0 {
        assert(ids[first_with_id(before.tasks@, id)] == id);
    }
    assert(added.tasks@.drop_last() == before.tasks@);
    assert(first_with_id(added.tasks@, id) == before.tasks@.len());
    assert forall|i: int| 0 <= i < before.tasks@.len() implies (#[trigger] before.tasks@[i]).id@ != id by {
        assert(ids[i] == before.tasks@[i].id@);
    }
    lemma_tasks_without_absent(before.tasks@, id);
    assert(added.tasks@ =~= before.tasks@.push(added.tasks@.last()));
    lemma_tasks_without_last(before.tasks@, added.tasks@.last(), id);
    crate::aoe::lemma_first_unknown_none(ids, before.dependencies@);
    assert forall|x: (Seq<char>, Seq<char>)| #[trigger] dep_views(after.dependencies@).to_set().contains(x)
        <==> dep_views(before.dependencies@).to_set().contains(x) by {
        lemma_deps_without_views(added.dependencies@, id, x);
        if dep_views(before.dependencies@).contains(x) {
            let k = choose|k: int| 0 <= k < before.dependencies@.len() && dep_views(before.dependencies@)[k] == x;
            let d = before.dependencies@[k];
            assert(ids.contains(d.from@) && ids.contains(d.to@));
        }
    }
    assert(dep_views(after.dependencies@).to_set() =~= dep_views(before.dependencies@).to_set());
}

proof fn lemma_ids_without(tasks: Seq<Task>, id: Seq<char>, x: Seq<char>)
    ensures
        task_ids(tasks_without(tasks, id)).contains(x) <==> (task_ids(tasks).contains(x) && x != id),
    decreases tasks.len(),
{
    reveal(Seq::filter);
    if tasks.len() > 0 {
        let pre = tasks.drop_last();
        let t = tasks.last();
        lemma_ids_without(pre, id, x);
        assert(task_ids(tasks) =~= task_ids(pre).push(t.id@));
        let w = task_ids(tasks_without(pre, id));
        if t.id@ != id {
            assert(tasks_without(tasks, id) == tasks_without(pre, id).push(t));
            assert(task_ids(tasks_without(tasks, id)) =~= w.push(t.id@));
        } else {
            assert(tasks_without(tasks, id) == tasks_without(pre, id));
        }
        let a = task_ids(tasks);
        let b = task_ids(tasks_without(tasks, id));
        if a.contains(x) && !task_ids(pre).contains(x) {
            let k = choose|k: int| 0 <= k < a.len() && a[k] == x;
            if k < pre.len() {
                assert(task_ids(pre)[k] == x);
            }
        }
        if task_ids(pre).contains(x) {
            let k = choose|k: int| 0 <= k < pre.len() && task_ids(pre)[k] == x;
            assert(a[k] == x);
        }
        if b.contains(x) && !w.contains(x) {
            let k = choose|k: int| 0 <= k < b.len() && b[k] == x;
            if k < w.len() {
                assert(w[k] == x);
            }
        }
        if w.contains(x) && t.id@ != id {
            let k = choose|k: int| 0 <= k < w.len() && w[k] == x;
            assert(b[k] == x);
        }
        assert(a[pre.len() as int] == t.id@);
        if t.id@ != id {
            assert(b[w.len() as int] == t.id@);
        }
    }
}

/// Removing a task from a project that can be scheduled gives a project
/// that can be scheduled: no dependency names an unknown task, and the
/// dependencies form no cycle.
pub proof fn lemma_remove_keeps_project_valid(before: ProjectData, id: Seq<char>, after: ProjectData, name: Seq<char>)
    requires
        first_unknown(task_ids(before.tasks@), before.dependencies@) is None,
        !has_cycle(dep_edges(task_ids(before.tasks@), before.dependencies@)),
        task_removed(before, id, after, name),
    ensures
        first_unknown(task_ids(after.tasks@), after.dependencies@) is None,
        !has_cycle(dep_edges(task_ids(after.tasks@), after.dependencies@)),
{
    broadcast use vstd::seq_lib::group_filter_ensures;
    let ids = task_ids(before.tasks@);
    let ids2 = task_ids(after.tasks@);
    let deps = before.dependencies@;
    let deps2 = after.dependencies@;
    lemma_first_unknown_none(ids, deps);
    assert(before.tasks.len() == before.tasks@.len());
    assert forall|k: int| 0 <= k < deps2.len() implies ids2.contains((#[trigger] deps2[k]).from@) && ids2.contains(deps2[k].to@)
        && deps.contains(deps2[k]) by {
        let d = deps2[k];
        assert(deps_without(deps, id).contains(d));
        lemma_deps_without_contains(deps, id, d);
        let k0 = choose|k0: int| 0 <= k0 < deps.len() && deps[k0] == d;
        assert(ids.contains(deps[k0].from@) && ids.contains(deps[k0].to@));
        lemma_ids_without(before.tasks@, id, d.from@);
        lemma_ids_without(before.tasks@, id, d.to@);
    }
    lemma_all_known(ids2, deps2);
    let e1 = dep_edges(ids, deps);
    let e2 = dep_edges(ids2, deps2);
    // an edge of the smaller network, carried over by task id, is an edge of the larger one
    let h = |a: usize| last_index(ids, ids2[a as int]) as usize;
    assert forall|a: usize, b: usize| has_edge(e2, a, b) implies has_edge(e1, h(a), h(b)) by {
        let k = choose|k: int| 0 <= k < e2.len() && e2[k] == (a, b);
        let d = deps2[k];
        lemma_last_index(ids2, d.from@);
        lemma_last_index(ids2, d.to@);
        assert(ids2[a as int] == d.from@);
        assert(ids2[b as int] == d.to@);
        let k0 = choose|k0: int| 0 <= k0 < deps.len() && deps[k0] == d;
        assert(e1[k0] == (h(a), h(b)));
    }
    if has_cycle(e2) {
        let v = choose|v: usize| on_cycle(e2, v);
        let p2 = choose|p: Seq<usize>| is_walk(e2, p) && p[0] == v && #[trigger] p.last() == v;
        let p1 = p2.map_values(h);
        assert forall|i: int| 0 <= i < p1.len() - 1 implies has_edge(e1, #[trigger] p1[i], p1[i + 1]) by {
            assert(has_edge(e2, p2[i], p2[i + 1]));
        }
        assert(is_walk(e1, p1));
        assert(p1.last() == p1[0]);
        assert(on_cycle(e1, h(v)));
        assert(has_cycle(e1));
    }
}

proof fn lemma_deps_without_contains(deps: Seq<Dependency>, id: Seq<char>, d: Dependency)
    requires
        deps_without(deps, id).contains(d),
    ensures
        deps.contains(d),
    decreases deps.len(),
{
    reveal(Seq::filter);
    if deps.len() > 0 {
        let pre = deps.drop_last();
        if deps_without(pre, id).contains(d) {
            lemma_deps_without_contains(pre, id, d);
            let k = choose|k: int| 0 <= k < pre.len() && pre[k] == d;
            assert(deps[k] == d);
        } else {
            let last = deps.last();
            if last.from@ != id && last.to@ != id {
                assert(deps_without(deps, id) == deps_without(pre, id).push(last));
                let w = deps_without(pre, id);
                let k = choose|k: int| 0 <= k < w.len() + 1 && w.push(last)[k] == d;
                if k < w.len() {
                    assert(w[k] == d);
                }
                assert(deps[deps.len() - 1] == d);
            } else {
                assert(deps_without(deps, id) == deps_without(pre, id));
            }
        }
    }
}

/// How a task is shown in lists: its id, a space, and its name.
pub open spec fn label_text(t: Task) -> Seq<char> {
    t.id@ + " "@ + t.name@
}

/// The label of a task; see `label_text`.
pub fn label_of(t: &Task) -> (r: String)
    ensures
        r@ == label_text(*t),
{
    t.id.clone().concat(" ").concat(t.name.as_str())
}

/// The label of the first task with id `task_id`, if there is one.
pub fn task_label(data: &ProjectData, task_id: &String) -> (r: Option<String>)
    ensures
        first_with_id(data.tasks@, task_id@) == -1 ==> r is None,
        first_with_id(data.tasks@, task_id@) >= 0 ==> (r matches Some(s)
            && s@ == label_text(data.tasks@[first_with_id(data.tasks@, task_id@)])),
{
    match find_task(&data.tasks, task_id) {
        Some(i) => Some(label_of(&data.tasks[i])),
        None => None,
    }
}


/// The task at the other end of `d`, when `d` enters `id` (`incoming`) or
/// leaves it.
pub open spec fn related_id(d: Dependency, id: Seq<char>, incoming: bool) -> Option<Seq<char>> {
    if incoming && d.to@ == id {
        Some(d.from@)
    } else if !incoming && d.from@ == id {
        Some(d.to@)
    } else {
        None
    }
}

/// The labels of the tasks at the other end of the dependencies that enter
/// (or leave) `id`, in the order of the dependencies, skipping ends that
/// name no task.
pub open spec fn ref_labels(tasks: Seq<Task>, deps: Seq<Dependency>, id: Seq<char>, incoming: bool) -> Seq<Seq<char>>
    decreases deps.len(),
{
    if deps.len() == 0 {
        Seq::empty()
    } else {
        let rest = ref_labels(tasks, deps.drop_last(), id, incoming);
        match related_id(deps.last(), id, incoming) {
            Some(x) => if first_with_id(tasks, x) >= 0 {
                rest.push(label_text(tasks[first_with_id(tasks, x)]))
            } else {
                rest
            },
            None => rest,
        }
    }
}

/// The parts joined with `sep` between them.
pub open spec fn join_text(parts: Seq<Seq<char>>, sep: Seq<char>) -> Seq<char>
    decreases parts.len(),
{
    if parts.len() == 0 {
        Seq::empty()
    } else if parts.len() == 1 {
        parts[0]
    } else {
        join_text(parts.drop_last(), sep) + sep + parts.last()
    }
}

/// The text listing a task's predecessors (`incoming`) or successors.
pub open spec fn refs_text(tasks: Seq<Task>, deps: Seq<Dependency>, id: Seq<char>, incoming: bool) -> Seq<char> {
    let labels = ref_labels(tasks, deps, id, incoming);
    if labels.len() == 0 {
        "无"@
    } else {
        join_text(labels, ", "@)
    }
}

/// Dependency `d` enters (when `incoming`) or leaves task `id`, and its
/// other end is the id of some task.
pub open spec fn is_listed(tasks: Seq<Task>, id: Seq<char>, incoming: bool, d: Dependency) -> bool {
    if incoming {
        d.to@ == id && exists|i: int| 0 <= i < tasks.len() && #[trigger] tasks[i].id@ == d.from@
    } else {
        d.from@ == id && exists|i: int| 0 <= i < tasks.len() && #[trigger] tasks[i].id@ == d.to@
    }
}

/// The dependencies of `is_listed`, in order.
pub open spec fn listed_dependencies(tasks: Seq<Task>, deps: Seq<Dependency>, id: Seq<char>, incoming: bool) -> Seq<Dependency> {
    deps.filter(|d: Dependency| is_listed(tasks, id, incoming, d))
}

/// A task's reference list has one label per dependency that enters (or
/// leaves) it and names a task at its other end, in the order of the
/// dependencies; each is the label of a task that carries that other id.
pub proof fn lemma_refs_one_per_dependency(tasks: Seq<Task>, deps: Seq<Dependency>, id: Seq<char>, incoming: bool)
    ensures
        ref_labels(tasks, deps, id, incoming).len() == listed_dependencies(tasks, deps, id, incoming).len(),
        forall|k: int| #![trigger ref_labels(tasks, deps, id, incoming)[k]]
            0 <= k < ref_labels(tasks, deps, id, incoming).len() ==> {
            let d = listed_dependencies(tasks, deps, id, incoming)[k];
            let other = if incoming { d.from@ } else { d.to@ };
            exists|i: int| 0 <= i < tasks.len() && tasks[i].id@ == other
                && ref_labels(tasks, deps, id, incoming)[k] == label_text(tasks[i])
        },
    decreases deps.len(),
{
    reveal(Seq::filter);
    if deps.len() > 0 {
        let pre = deps.drop_last();
        let d = deps.last();
        lemma_refs_one_per_dependency(tasks, pre, id, incoming);
        let l0 = ref_labels(tasks, pre, id, incoming);
        let f0 = listed_dependencies(tasks, pre, id, incoming);
        let l = ref_labels(tasks, deps, id, incoming);
        let f = listed_dependencies(tasks, deps, id, incoming);
        let other = if incoming { d.from@ } else { d.to@ };
        lemma_first_with_id(tasks, other);
        let found = first_with_id(tasks, other);
        if is_listed(tasks, id, incoming, d) {
            let i = choose|i: int| 0 <= i < tasks.len() && #[trigger] tasks[i].id@ == other;
            assert(found >= 0);
            assert(f == f0.push(d));
            assert(l == l0.push(label_text(tasks[found])));
            assert forall|k: int| #![trigger l[k]] 0 <= k < l.len() implies {
                let dk = f[k];
                let ok = if incoming { dk.from@ } else { dk.to@ };
                exists|i: int| 0 <= i < tasks.len() && tasks[i].id@ == ok && l[k] == label_text(tasks[i])
            } by {
                if k < l0.len() {
                    assert(l[k] == l0[k] && f[k] == f0[k]);
                    assert(l0[k] == l0[k]);
                } else {
                    assert(f[k] == d);
                    assert(tasks[found].id@ == other && l[k] == label_text(tasks[found]));
                }
            }
        } else {
            assert(f == f0);
            if related_id(d, id, incoming) is Some {
                if found >= 0 {
                    assert(tasks[found].id@ == other);
                }
            }
            assert(l == l0);
            assert forall|k: int| #![trigger l[k]] 0 <= k < l.len() implies {
                let dk = f[k];
                let ok = if incoming { dk.from@ } else { dk.to@ };
                exists|i: int| 0 <= i < tasks.len() && tasks[i].id@ == ok && l[k] == label_text(tasks[i])
            } by {
                assert(l0[k] == l0[k]);
            }
        }
    }
}

/// Lists the labels of a task's predecessors (`incoming`) or successors,
/// separated by ", ", or "无" when there is none.
pub fn task_refs_for(data: &ProjectData, task_id: &String, incoming: bool) -> (r: String)
    ensures
        r@ == refs_text(data.tasks@, data.dependencies@, task_id@, incoming),
{
    let ghost tasks = data.tasks@;
    let ghost deps = data.dependencies@;
    let mut out = String::new();
    let mut count: usize = 0;
    let mut j: usize = 0;
    while j < data.dependencies.len()
        invariant
            tasks == data.tasks@,
            deps == data.dependencies@,
            j <= deps.len(),
            count as int == ref_labels(tasks, deps.take(j as int), task_id@, incoming).len(),
            count <= j,
            out@ == join_text(ref_labels(tasks, deps.take(j as int), task_id@, incoming), ", "@),
        decreases deps.len() - j,
    {
        proof {
            assert(deps.take(j + 1).drop_last() =~= deps.take(j as int));
            assert(deps.take(j + 1).last() == deps[j as int]);
        }
        let d = &data.dependencies[j];
        let related: Option<&String> = if incoming && d.to == *task_id {
            Some(&d.from)
        } else if !incoming && d.from == *task_id {
            Some(&d.to)
        } else {
            None
        };
        let ghost labels = ref_labels(tasks, deps.take(j as int), task_id@, incoming);
        let ghost labels2 = ref_labels(tasks, deps.take(j + 1), task_id@, incoming);
        if let Some(x) = related {
            if let Some(i) = find_task(&data.tasks, x) {
                let label = label_of(&data.tasks[i]);
                proof {
                    assert(labels2 == labels.push(label@));
                    assert(labels2.drop_last() =~= labels);
                    if count == 0 {
                        assert(labels2.len() == 1);
                        assert(join_text(labels2, ", "@) == label@);
                        assert(out@ =~= Seq::<char>::empty());
                    }
                }
                if count > 0 {
                    out.append(", ");
                }
                out.append(label.as_str());
                proof {
                    if count == 0 {
                        assert(out@ =~= label@);
                    }
                }
                count = count + 1;
            } else {
                proof {
                    assert(labels2 == labels);
                }
            }
        } else {
            proof {
                assert(labels2 == labels);
            }
        }
        j += 1;
    }
    proof {
        assert(deps.take(deps.len() as int) =~= deps);
    }
    if count == 0 {
        String::from_str("无")
    } else {
        out
    }
}

/// Why the fields of a new task are refused.
#[derive(Debug, Clone, Copy, PartialEq, Eq)]
pub enum NewTaskError {
    EmptyName,
    NotANumber,
    NotPositive,
    OutOfOrder,
    BothWays,
}

/// Some task is chosen both as a predecessor and as a successor.
pub open spec fn shares_task(preds: Seq<Seq<char>>, succs: Seq<Seq<char>>) -> bool {
    exists|x: Seq<char>| preds.contains(x) && succs.contains(x)
}

/// Checks the fields of a new task, in this order: the name must not be
/// blank, the estimates must be numbers (`None` stands for an estimate that
/// is not), all positive and with optimistic <= normal <= pessimistic, and
/// no task may be both a predecessor and a successor.
pub fn check_new_task(name: &str, estimates: Option<(i32, i32, i32)>, preds: &Vec<String>, succs: &Vec<String>) -> (r: Option<NewTaskError>)
    ensures
        r == if trimmed(name@).len() == 0 {
            Some(NewTaskError::EmptyName)
        } else {
            match estimates {
                None => Some(NewTaskError::NotANumber),
                Some((o, n, p)) => if o <= 0 || n <= 0 || p <= 0 {
                    Some(NewTaskError::NotPositive)
                } else if !(o <= n && n <= p) {
                    Some(NewTaskError::OutOfOrder)
                } else if shares_task(string_views(preds@), string_views(succs@)) {
                    Some(NewTaskError::BothWays)
                } else {
                    None
                },
            }
        },
{
    if str_trim(name).is_empty() {
        return Some(NewTaskError::EmptyName);
    }
    let (o, n, p) = match estimates {
        None => return Some(NewTaskError::NotANumber),
        Some(e) => e,
    };
    if o <= 0 || n <= 0 || p <= 0 {
        return Some(NewTaskError::NotPositive);
    }
    if !(o <= n && n <= p) {
        return Some(NewTaskError::OutOfOrder);
    }
    let ghost pv = string_views(preds@);
    let ghost sv = string_views(succs@);
    let mut i: usize = 0;
    while i < preds.len()
        invariant
            pv == string_views(preds@),
            sv == string_views(succs@),
            i <= preds@.len(),
            trimmed(name@).len() != 0,
            estimates == Some((o, n, p)),
            o > 0 && n > 0 && p > 0 && o <= n && n <= p,
            forall|k: int| 0 <= k < i ==> !sv.contains(#[trigger] pv[k]),
        decreases preds@.len() - i,
    {
        let mut j: usize = 0;
        while j < succs.len()
            invariant
                pv == string_views(preds@),
                sv == string_views(succs@),
                i < preds@.len(),
                j <= succs@.len(),
                trimmed(name@).len() != 0,
                estimates == Some((o, n, p)),
                o > 0 && n > 0 && p > 0 && o <= n && n <= p,
                forall|k: int| 0 <= k < j ==> sv[k] != pv[i as int],
            decreases succs@.len() - j,
        {
            if preds[i] == succs[j] {
                proof {
                    assert(pv.contains(pv[i as int]));
                    assert(sv[j as int] == pv[i as int]);
                    assert(sv.contains(pv[i as int]));
                    assert(shares_task(pv, sv));
                }
                return Some(NewTaskError::BothWays);
            }
            j += 1;
        }
        i += 1;
    }
    proof {
        if shares_task(pv, sv) {
            let x = choose|x: Seq<char>| pv.contains(x) && sv.contains(x);
            let k = choose|k: int| 0 <= k < pv.len() && pv[k] == x;
            assert(!sv.contains(pv[k]));
        }
    }
    None
}

} // verus!
