//! Collecting the per-process outcomes into a table of groups.
//!
//! The aggregator consumes every (outcome, process) pair once all
//! extractions are done, groups the processes by outcome — equal
//! outcomes share a group, each outcome keys exactly one group — and
//! orders the groups by population, smallest first. The table holds
//! exactly the pairs that went in: no process is lost, duplicated or
//! moved to a foreign group.

use vstd::prelude::*;
use vstd::multiset::Multiset;
use crate::outcome::EnvVal;
use crate::outcome::EnvValView;
use crate::outcome::Group;
use crate::outcome::GroupView;

verus! {

broadcast use
    vstd::seq_lib::group_to_multiset_ensures,
    vstd::seq_lib::lemma_multiset_commutative,
    vstd::multiset::group_multiset_axioms;

/// The mathematical shape of a list of (outcome, process) pairs.
pub open spec fn pairs_view(ps: Seq<(EnvVal, u32)>) -> Seq<(EnvValView, u32)> {
    ps.map_values(|p: (EnvVal, u32)| (p.0@, p.1))
}

/// The mathematical shape of a list of groups.
pub open spec fn groups_view(gs: Seq<Group>) -> Seq<GroupView> {
    gs.map_values(|g: Group| g@)
}

/// The pairs one group stands for: its outcome beside each of its
/// processes, in order.
pub open spec fn pairs_of(outcome: EnvValView, pids: Seq<u32>) -> Seq<(EnvValView, u32)>
    decreases pids.len(),
{
    if pids.len() == 0 {
        Seq::empty()
    } else {
        pairs_of(outcome, pids.drop_last()).push((outcome, pids.last()))
    }
}

/// The pairs one group stands for.
pub open spec fn group_pairs(g: GroupView) -> Seq<(EnvValView, u32)> {
    pairs_of(g.outcome, g.pids)
}

/// Every pair the whole table stands for, group after group.
pub open spec fn flatten_pairs(gs: Seq<GroupView>) -> Seq<(EnvValView, u32)>
    decreases gs.len(),
{
    if gs.len() == 0 {
        Seq::empty()
    } else {
        flatten_pairs(gs.drop_last()) + group_pairs(gs.last())
    }
}

/// The total population of the table: the sizes of its groups, summed.
pub open spec fn sum_sizes(gs: Seq<GroupView>) -> nat
    decreases gs.len(),
{
    if gs.len() == 0 {
        0
    } else {
        sum_sizes(gs.drop_last()) + gs.last().pids.len()
    }
}

/// No two groups of the table share an outcome.
pub open spec fn distinct_keys(gs: Seq<GroupView>) -> bool {
    forall|i: int, j: int| 0 <= i < j < gs.len() ==> gs[i].outcome != gs[j].outcome
}

/// Group sizes never decrease along the table.
pub open spec fn sorted_by_size(gs: Seq<GroupView>) -> bool {
    forall|i: int, j: int| 0 <= i <= j < gs.len() ==> gs[i].pids.len() <= gs[j].pids.len()
}

/// Every group of the table holds at least one process.
pub open spec fn all_nonempty(gs: Seq<GroupView>) -> bool {
    forall|i: int| 0 <= i < gs.len() ==> gs[i].pids.len() > 0
}

/// A group stands for as many pairs as it has processes, and the pair
/// at each place is the group's outcome beside the process at that
/// place.
pub proof fn lemma_pairs_of(outcome: EnvValView, pids: Seq<u32>)
    ensures
        pairs_of(outcome, pids).len() == pids.len(),
        forall|k: int| 0 <= k < pids.len() ==> pairs_of(outcome, pids)[k] == (outcome, pids[k]),
    decreases pids.len(),
{
    if pids.len() > 0 {
        lemma_pairs_of(outcome, pids.drop_last());
    }
}

/// Flattening distributes over concatenation of tables.
pub proof fn lemma_flatten_concat(a: Seq<GroupView>, b: Seq<GroupView>)
    ensures
        flatten_pairs(a + b) == flatten_pairs(a) + flatten_pairs(b),
    decreases b.len(),
{
    if b.len() == 0 {
        assert(a + b =~= a);
        assert(flatten_pairs(a) + flatten_pairs(b) =~= flatten_pairs(a));
    } else {
        lemma_flatten_concat(a, b.drop_last());
        assert((a + b).drop_last() =~= a + b.drop_last());
        assert((a + b).last() == b.last());
        assert(flatten_pairs(a) + flatten_pairs(b.drop_last()) + group_pairs(b.last())
            =~= flatten_pairs(a) + (flatten_pairs(b.drop_last()) + group_pairs(b.last())));
    }
}

/// A table of one group stands for that group's pairs.
pub proof fn lemma_flatten_singleton(g: GroupView)
    ensures
        flatten_pairs(seq![g]) == group_pairs(g),
{
    let s = seq![g];
    assert(s.drop_last() =~= Seq::<GroupView>::empty());
    assert(flatten_pairs(Seq::<GroupView>::empty()) == Seq::<(EnvValView, u32)>::empty());
    assert(s.last() == g);
    assert(Seq::<(EnvValView, u32)>::empty() + group_pairs(g) =~= group_pairs(g));
}

/// Decompose a table around one position: its pairs are the pairs
/// before, the group's own, and the pairs after.
proof fn lemma_flatten_split(gs: Seq<GroupView>, k: int)
    requires
        0 <= k < gs.len(),
    ensures
        flatten_pairs(gs) == flatten_pairs(gs.take(k)) + group_pairs(gs[k]) + flatten_pairs(
            gs.skip(k + 1),
        ),
{
    assert(gs =~= gs.take(k) + seq![gs[k]] + gs.skip(k + 1));
    lemma_flatten_concat(gs.take(k) + seq![gs[k]], gs.skip(k + 1));
    lemma_flatten_concat(gs.take(k), seq![gs[k]]);
    lemma_flatten_singleton(gs[k]);
}

/// Search the table for the group keyed by the given outcome.
fn find_group(gs: &Vec<Group>, v: &EnvVal) -> (r: Option<usize>)
    ensures
        match r {
            Some(k) => k < gs@.len() && gs@[k as int]@.outcome == v@,
            None => forall|i: int| 0 <= i < gs@.len() ==> gs@[i]@.outcome != v@,
        },
{
    let mut i: usize = 0;
    while i < gs.len()
        invariant
            i <= gs@.len(),
            forall|k: int| 0 <= k < i ==> gs@[k]@.outcome != v@,
        decreases gs@.len() - i,
    {
        if gs[i].outcome.eq(v) {
            return Some(i);
        }
        i = i + 1;
    }
    None
}

/// Build the table from the collected pairs: the first pair with a new
/// outcome opens a group, every later pair with the same outcome joins
/// it. The table stands for exactly the pairs that came in, its
/// outcomes are pairwise distinct, and no group is empty.
pub fn group_outcomes(pairs: Vec<(EnvVal, u32)>) -> (r: Vec<Group>)
    ensures
        flatten_pairs(groups_view(r@)).to_multiset() == pairs_view(pairs@).to_multiset(),
        distinct_keys(groups_view(r@)),
        all_nonempty(groups_view(r@)),
{
    let ghost ps0 = pairs@;
    let mut rest = pairs;
    let mut r: Vec<Group> = Vec::new();
    proof {
        assert(groups_view(r@) =~= Seq::<GroupView>::empty());
        assert(flatten_pairs(groups_view(r@)).to_multiset().add(
            pairs_view(rest@).to_multiset(),
        ) =~= pairs_view(ps0).to_multiset());
    }
    while rest.len() > 0
        invariant
            flatten_pairs(groups_view(r@)).to_multiset().add(pairs_view(rest@).to_multiset())
                == pairs_view(ps0).to_multiset(),
            distinct_keys(groups_view(r@)),
            all_nonempty(groups_view(r@)),
        decreases rest@.len(),
    {
        let ghost prev = rest@;
        let p = rest.pop().unwrap();
        let ghost pv = (p.0@, p.1);
        proof {
            assert(pairs_view(prev) =~= pairs_view(rest@).push(pv));
        }
        let (v, pid) = p;
        let ghost gprev = groups_view(r@);
        match find_group(&r, &v) {
            Some(k) => {
                let mut g = r.remove(k);
                let ghost gv = g@;
                g.pids.push(pid);
                let ghost gv2 = g@;
                r.insert(k, g);
                proof {
                    assert(groups_view(r@) =~= gprev.update(k as int, gv2));
                    lemma_flatten_split(gprev, k as int);
                    lemma_flatten_split(gprev.update(k as int, gv2), k as int);
                    assert(gprev.update(k as int, gv2).take(k as int) =~= gprev.take(k as int));
                    assert(gprev.update(k as int, gv2).skip(k as int + 1) =~= gprev.skip(
                        k as int + 1,
                    ));
                    assert(gv2.pids.drop_last() =~= gv.pids);
                    assert(group_pairs(gv2) == group_pairs(gv).push(pv));
                    assert(flatten_pairs(gprev.update(k as int, gv2)).to_multiset()
                        =~= flatten_pairs(gprev).to_multiset().insert(pv));
                    assert(flatten_pairs(groups_view(r@)).to_multiset().add(
                        pairs_view(rest@).to_multiset(),
                    ) =~= pairs_view(ps0).to_multiset());
                }
            },
            None => {
                let mut pids: Vec<u32> = Vec::new();
                pids.push(pid);
                let ng = Group { outcome: v, pids };
                r.push(ng);
                proof {
                    assert(groups_view(r@) =~= gprev.push(ng@));
                    assert(gprev.push(ng@).drop_last() =~= gprev);
                    assert(ng@.pids =~= seq![pid]);
                    assert(ng@.pids.drop_last() =~= Seq::<u32>::empty());
                    assert(pairs_of(ng@.outcome, Seq::<u32>::empty())
                        == Seq::<(EnvValView, u32)>::empty());
                    assert(group_pairs(ng@) =~= Seq::<(EnvValView, u32)>::empty().push(pv));
                    assert(flatten_pairs(gprev.push(ng@)) == flatten_pairs(gprev) + group_pairs(
                        ng@,
                    ));
                    assert(flatten_pairs(groups_view(r@)).to_multiset() =~= flatten_pairs(
                        gprev,
                    ).to_multiset().insert(pv));
                    assert(flatten_pairs(groups_view(r@)).to_multiset().add(
                        pairs_view(rest@).to_multiset(),
                    ) =~= pairs_view(ps0).to_multiset());
                }
            },
        }
    }
    proof {
        assert(pairs_view(rest@) =~= Seq::<(EnvValView, u32)>::empty());
        assert(pairs_view(rest@).to_multiset() =~= Multiset::<(EnvValView, u32)>::empty());
        assert(flatten_pairs(groups_view(r@)).to_multiset() =~= pairs_view(ps0).to_multiset());
    }
    r
}

/// Index of a smallest group of a non-empty table.
fn find_min(gs: &Vec<Group>) -> (m: usize)
    requires
        gs@.len() > 0,
    ensures
        m < gs@.len(),
        forall|i: int| 0 <= i < gs@.len() ==> gs@[m as int]@.pids.len() <= gs@[i]@.pids.len(),
{
    let mut m: usize = 0;
    let mut i: usize = 1;
    while i < gs.len()
        invariant
            m < i <= gs@.len(),
            forall|k: int| 0 <= k < i ==> gs@[m as int]@.pids.len() <= gs@[k]@.pids.len(),
        decreases gs@.len() - i,
    {
        if gs[i].pids.len() < gs[m].pids.len() {
            m = i;
        }
        i = i + 1;
    }
    m
}

/// Order the table by group population, smallest group first. The
/// result holds exactly the groups that came in, rearranged.
pub fn sort_groups(gs: Vec<Group>) -> (r: Vec<Group>)
    ensures
        groups_view(r@).to_multiset() == groups_view(gs@).to_multiset(),
        sorted_by_size(groups_view(r@)),
{
    let ghost g0 = groups_view(gs@);
    let mut rest = gs;
    let mut r: Vec<Group> = Vec::new();
    proof {
        assert(groups_view(r@) =~= Seq::<GroupView>::empty());
        assert(groups_view(r@).to_multiset().add(groups_view(rest@).to_multiset())
            =~= g0.to_multiset());
    }
    while rest.len() > 0
        invariant
            groups_view(r@).to_multiset().add(groups_view(rest@).to_multiset())
                == g0.to_multiset(),
            sorted_by_size(groups_view(r@)),
            forall|i: int, j: int|
                0 <= i < r@.len() && 0 <= j < rest@.len() ==> r@[i]@.pids.len()
                    <= rest@[j]@.pids.len(),
        decreases rest@.len(),
    {
        let m = find_min(&rest);
        let ghost rprev = groups_view(rest@);
        let ghost sprev = groups_view(r@);
        let g = rest.swap_remove(m);
        r.push(g);
        proof {
            let n = rprev.len() as int;
            let u = rprev.update(m as int, rprev.last());
            assert(groups_view(rest@) =~= u.drop_last());
            assert(u.drop_last() =~= u.remove(n - 1));
            assert(u[n - 1] == rprev.last());
            assert(rprev.contains(rprev.last()));
            assert(rprev.contains(rprev[m as int]));
            assert(u.remove(n - 1).to_multiset() == u.to_multiset().remove(rprev.last()));
            assert(groups_view(rest@).to_multiset() =~= rprev.to_multiset().remove(
                rprev[m as int],
            ));
            assert(groups_view(r@) =~= sprev.push(g@));
            assert(g@ == rprev[m as int]);
            assert(groups_view(r@).to_multiset().add(groups_view(rest@).to_multiset())
                =~= sprev.to_multiset().add(rprev.to_multiset()));
        }
    }
    proof {
        assert(groups_view(rest@) =~= Seq::<GroupView>::empty());
        assert(groups_view(rest@).to_multiset() =~= Multiset::<GroupView>::empty());
        assert(groups_view(r@).to_multiset() =~= g0.to_multiset());
    }
    r
}

/// Rearranging a table's groups does not change the pairs it stands
/// for.
proof fn lemma_perm_flatten(gs1: Seq<GroupView>, gs2: Seq<GroupView>)
    requires
        gs1.to_multiset() == gs2.to_multiset(),
    ensures
        flatten_pairs(gs1).to_multiset() == flatten_pairs(gs2).to_multiset(),
    decreases gs1.len(),
{
    if gs1.len() == 0 {
        assert(gs1.to_multiset().len() == gs1.len());
        assert(gs2.to_multiset().len() == gs2.len());
        assert(gs2.len() == 0);
        assert(flatten_pairs(gs1).to_multiset() =~= flatten_pairs(gs2).to_multiset());
    } else {
        let g = gs1.last();
        assert(gs1.contains(g));
        assert(gs2.to_multiset().count(g) > 0);
        assert(gs2.contains(g));
        let j = choose|j: int| 0 <= j < gs2.len() && gs2[j] == g;
        assert(gs1.drop_last() =~= gs1.remove(gs1.len() - 1));
        assert(gs1.drop_last().to_multiset() == gs1.to_multiset().remove(g));
        assert(gs2.remove(j).to_multiset() == gs2.to_multiset().remove(g));
        lemma_perm_flatten(gs1.drop_last(), gs2.remove(j));
        lemma_flatten_split(gs2, j);
        assert(gs2.remove(j) =~= gs2.take(j) + gs2.skip(j + 1));
        lemma_flatten_concat(gs2.take(j), gs2.skip(j + 1));
        assert(flatten_pairs(gs1).to_multiset() =~= flatten_pairs(gs2).to_multiset());
    }
}

/// Rearranging a table's groups keeps its outcomes pairwise distinct.
proof fn lemma_perm_distinct(gs1: Seq<GroupView>, gs2: Seq<GroupView>)
    requires
        gs1.to_multiset() == gs2.to_multiset(),
        distinct_keys(gs1),
    ensures
        distinct_keys(gs2),
{
    assert(gs1.no_duplicates());
    gs1.lemma_multiset_has_no_duplicates();
    gs2.lemma_multiset_has_no_duplicates_conv();
    assert forall|i: int, j: int| 0 <= i < j < gs2.len() implies gs2[i].outcome
        != gs2[j].outcome by {
        if gs2[i].outcome == gs2[j].outcome {
            assert(gs2.contains(gs2[i]));
            assert(gs2.contains(gs2[j]));
            assert(gs1.to_multiset().count(gs2[i]) > 0);
            assert(gs1.to_multiset().count(gs2[j]) > 0);
            assert(gs1.contains(gs2[i]));
            assert(gs1.contains(gs2[j]));
            let a = choose|a: int| 0 <= a < gs1.len() && gs1[a] == gs2[i];
            let b = choose|b: int| 0 <= b < gs1.len() && gs1[b] == gs2[j];
            assert(gs2[i] != gs2[j]);
            assert(a != b);
            assert(gs1[a].outcome != gs1[b].outcome);
        }
    };
}

/// Rearranging a table's groups leaves none of them empty.
proof fn lemma_perm_nonempty(gs1: Seq<GroupView>, gs2: Seq<GroupView>)
    requires
        gs1.to_multiset() == gs2.to_multiset(),
        all_nonempty(gs1),
    ensures
        all_nonempty(gs2),
{
    assert forall|i: int| 0 <= i < gs2.len() implies gs2[i].pids.len() > 0 by {
        assert(gs2.contains(gs2[i]));
        assert(gs1.to_multiset().count(gs2[i]) > 0);
        assert(gs1.contains(gs2[i]));
        let a = choose|a: int| 0 <= a < gs1.len() && gs1[a] == gs2[i];
        assert(gs1[a].pids.len() > 0);
    };
}

/// The whole aggregation: group the collected pairs by outcome, then
/// order the groups by population, smallest first. The finished table
/// stands for exactly the pairs that came in, keys each outcome to one
/// group, leaves no group empty, and never puts a larger group before
/// a smaller one.
pub fn aggregate(pairs: Vec<(EnvVal, u32)>) -> (r: Vec<Group>)
    ensures
        flatten_pairs(groups_view(r@)).to_multiset() == pairs_view(pairs@).to_multiset(),
        sorted_by_size(groups_view(r@)),
        distinct_keys(groups_view(r@)),
        all_nonempty(groups_view(r@)),
{
    let grouped = group_outcomes(pairs);
    let ghost gv = groups_view(grouped@);
    let r = sort_groups(grouped);
    proof {
        lemma_perm_flatten(gv, groups_view(r@));
        lemma_perm_distinct(gv, groups_view(r@));
        lemma_perm_nonempty(gv, groups_view(r@));
    }
    r
}

/// A table stands for as many pairs as the sum of its group sizes.
proof fn lemma_flatten_len(gs: Seq<GroupView>)
    ensures
        flatten_pairs(gs).len() == sum_sizes(gs),
    decreases gs.len(),
{
    if gs.len() > 0 {
        lemma_flatten_len(gs.drop_last());
        lemma_pairs_of(gs.last().outcome, gs.last().pids);
    }
}

/// Completeness: when a table stands for exactly the collected pairs,
/// the sum of its group sizes is the number of pairs — one per
/// enumerated process.
pub proof fn lemma_completeness(ps: Seq<(EnvValView, u32)>, gs: Seq<GroupView>)
    requires
        flatten_pairs(gs).to_multiset() == ps.to_multiset(),
    ensures
        sum_sizes(gs) == ps.len(),
{
    lemma_flatten_len(gs);
    assert(flatten_pairs(gs).to_multiset().len() == flatten_pairs(gs).len());
    assert(ps.to_multiset().len() == ps.len());
}

/// How often the given process occurs in a list of processes.
pub open spec fn count_in(pids: Seq<u32>, pid: u32) -> nat
    decreases pids.len(),
{
    if pids.len() == 0 {
        0
    } else {
        count_in(pids.drop_last(), pid) + if pids.last() == pid {
            1nat
        } else {
            0nat
        }
    }
}

/// How often the given process occurs in the whole table: its
/// occurrences in every group, summed.
pub open spec fn table_count(gs: Seq<GroupView>, pid: u32) -> nat
    decreases gs.len(),
{
    if gs.len() == 0 {
        0
    } else {
        table_count(gs.drop_last(), pid) + count_in(gs.last().pids, pid)
    }
}

/// How many of the pairs concern the given process.
pub open spec fn pid_count(s: Seq<(EnvValView, u32)>, pid: u32) -> nat
    decreases s.len(),
{
    if s.len() == 0 {
        0
    } else {
        pid_count(s.drop_last(), pid) + if s.last().1 == pid {
            1nat
        } else {
            0nat
        }
    }
}

/// Counting pairs distributes over concatenation.
proof fn lemma_pid_count_concat(a: Seq<(EnvValView, u32)>, b: Seq<(EnvValView, u32)>, pid: u32)
    ensures
        pid_count(a + b, pid) == pid_count(a, pid) + pid_count(b, pid),
    decreases b.len(),
{
    if b.len() == 0 {
        assert(a + b =~= a);
    } else {
        lemma_pid_count_concat(a, b.drop_last(), pid);
        assert((a + b).drop_last() =~= a + b.drop_last());
        assert((a + b).last() == b.last());
    }
}

/// Within one group's pairs, the process occurs as often as in the
/// group's own list.
proof fn lemma_group_pid_count(outcome: EnvValView, pids: Seq<u32>, pid: u32)
    ensures
        pid_count(pairs_of(outcome, pids), pid) == count_in(pids, pid),
    decreases pids.len(),
{
    if pids.len() > 0 {
        lemma_group_pid_count(outcome, pids.drop_last(), pid);
        lemma_pairs_of(outcome, pids);
        assert(pairs_of(outcome, pids).drop_last() =~= pairs_of(outcome, pids.drop_last()));
    }
}

/// The table's occurrence count is the pair count of what it stands
/// for.
proof fn lemma_table_count(gs: Seq<GroupView>, pid: u32)
    ensures
        table_count(gs, pid) == pid_count(flatten_pairs(gs), pid),
    decreases gs.len(),
{
    if gs.len() > 0 {
        lemma_table_count(gs.drop_last(), pid);
        lemma_pid_count_concat(flatten_pairs(gs.drop_last()), group_pairs(gs.last()), pid);
        lemma_group_pid_count(gs.last().outcome, gs.last().pids, pid);
    }
}

/// Taking one pair out lowers the count exactly when that pair
/// concerns the process.
proof fn lemma_pid_count_remove(s: Seq<(EnvValView, u32)>, j: int, pid: u32)
    requires
        0 <= j < s.len(),
    ensures
        pid_count(s, pid) == pid_count(s.remove(j), pid) + if s[j].1 == pid {
            1nat
        } else {
            0nat
        },
    decreases s.len(),
{
    if j == s.len() - 1 {
        assert(s.remove(j) =~= s.drop_last());
    } else {
        lemma_pid_count_remove(s.drop_last(), j, pid);
        assert(s.remove(j).drop_last() =~= s.drop_last().remove(j));
        assert(s.remove(j).last() == s.last());
    }
}

/// Lists with the same pairs, in whatever order, count every process
/// alike.
proof fn lemma_pid_count_congruent(
    s1: Seq<(EnvValView, u32)>,
    s2: Seq<(EnvValView, u32)>,
    pid: u32,
)
    requires
        s1.to_multiset() == s2.to_multiset(),
    ensures
        pid_count(s1, pid) == pid_count(s2, pid),
    decreases s1.len(),
{
    if s1.len() == 0 {
        assert(s1.to_multiset().len() == s1.len());
        assert(s2.to_multiset().len() == s2.len());
    } else {
        let p = s1.last();
        assert(s1.contains(p));
        assert(s2.to_multiset().count(p) > 0);
        assert(s2.contains(p));
        let j = choose|j: int| 0 <= j < s2.len() && s2[j] == p;
        assert(s1.drop_last() =~= s1.remove(s1.len() - 1));
        assert(s1.drop_last().to_multiset() == s1.to_multiset().remove(p));
        assert(s2.remove(j).to_multiset() == s2.to_multiset().remove(p));
        lemma_pid_count_congruent(s1.drop_last(), s2.remove(j), pid);
        lemma_pid_count_remove(s2, j, pid);
    }
}

/// A process that no pair concerns has count zero.
proof fn lemma_pid_count_absent(s: Seq<(EnvValView, u32)>, pid: u32)
    requires
        forall|k: int| 0 <= k < s.len() ==> s[k].1 != pid,
    ensures
        pid_count(s, pid) == 0,
    decreases s.len(),
{
    if s.len() > 0 {
        lemma_pid_count_absent(s.drop_last(), pid);
    }
}

/// Among pairs with pairwise distinct processes, an enumerated process
/// is counted exactly once.
proof fn lemma_pid_count_distinct(ps: Seq<(EnvValView, u32)>, pid: u32)
    requires
        forall|i: int, j: int| 0 <= i < j < ps.len() ==> ps[i].1 != ps[j].1,
        exists|i: int| 0 <= i < ps.len() && ps[i].1 == pid,
    ensures
        pid_count(ps, pid) == 1,
    decreases ps.len(),
{
    let prefix = ps.drop_last();
    if ps.last().1 == pid {
        assert(forall|k: int| 0 <= k < prefix.len() ==> prefix[k] == ps[k]);
        lemma_pid_count_absent(prefix, pid);
    } else {
        let i = choose|i: int| 0 <= i < ps.len() && ps[i].1 == pid;
        assert(prefix[i] == ps[i]);
        lemma_pid_count_distinct(prefix, pid);
    }
}

/// Partition: when a table stands for exactly the collected pairs and
/// no process was enumerated twice, every enumerated process occurs
/// exactly once in the whole table — one group holds it once and every
/// other group misses it — and a process that was not enumerated
/// occurs nowhere.
pub proof fn lemma_partition(ps: Seq<(EnvValView, u32)>, gs: Seq<GroupView>, pid: u32)
    requires
        flatten_pairs(gs).to_multiset() == ps.to_multiset(),
        forall|i: int, j: int| 0 <= i < j < ps.len() ==> ps[i].1 != ps[j].1,
    ensures
        (exists|i: int| 0 <= i < ps.len() && ps[i].1 == pid) ==> table_count(gs, pid) == 1,
        !(exists|i: int| 0 <= i < ps.len() && ps[i].1 == pid) ==> table_count(gs, pid) == 0,
{
    lemma_table_count(gs, pid);
    lemma_pid_count_congruent(flatten_pairs(gs), ps, pid);
    if exists|i: int| 0 <= i < ps.len() && ps[i].1 == pid {
        lemma_pid_count_distinct(ps, pid);
    } else {
        assert(forall|k: int| 0 <= k < ps.len() ==> ps[k].1 != pid);
        lemma_pid_count_absent(ps, pid);
    }
}

} // verus!
