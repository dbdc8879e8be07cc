//! Assigning each Folding@home core a group of CPUs.

use crate::arg::{ids_of, CpuGroup};
use crate::error::{Error, Result};
use crate::fah::FahCore;
use crate::order::{
    key_sum, lemma_filter_split, lemma_sort_contains, lemma_sort_key_sum, lemma_sort_of_sorted,
    lemma_sort_sorted, lemma_sort_filter_key_sum, lemma_split_point, sort_by_key, sort_stable, sorted_by_key, Keyed,
};
use crate::sched_affinity::{all_below, words_for, AffinityManager, CpuSet};
use vstd::prelude::*;

verus! {

/// How a list of cores is placed: the masks in the order they are assigned, or the error that
/// stops the placement.
pub enum Plan {
    Done(Seq<(usize, Set<usize>)>),
    Failed(Error),
}

/// `cmds` assigned before the plan `p`.
pub open spec fn prepend_all(cmds: Seq<(usize, Set<usize>)>, p: Plan) -> Plan {
    match p {
        Plan::Done(rest) => Plan::Done(cmds + rest),
        other => other,
    }
}

/// The placement of `cores`, from the last one down, into `groups`, whose last group is taken
/// to be the largest: the last core goes to the last group, which must have at least as many
/// CPUs left as the core has threads; the core gets the mask of all of the group's CPUs; the
/// group's count drops by the core's threads, the group leaves the list when none are left,
/// and the list is sorted again by count, keeping the order of equal counts.
pub open spec fn plan(ncpu: usize, cores: Seq<FahCore>, groups: Seq<CpuGroup>) -> Plan
    decreases cores.len(),
{
    if cores.len() == 0 {
        Plan::Done(Seq::empty())
    } else {
        let core = cores.last();
        if groups.len() == 0 {
            Plan::Failed(Error::OutOfCpuGroups)
        } else {
            let g = groups.last();
            let ids = ids_of(g@.cpus);
            if core.threads > g.total_cpus {
                Plan::Failed(Error::OutOfCpuGroups)
            } else if !all_below(ids, ncpu) {
                Plan::Failed(Error::CpuIndexTooHigh)
            } else {
                let left = CpuGroup { cpus: g.cpus, total_cpus: (g.total_cpus - core.threads) as usize };
                let rest = if left.total_cpus == 0 {
                    groups.drop_last()
                } else {
                    groups.drop_last().push(left)
                };
                prepend_all(
                    seq![(core.pid, ids.to_set())],
                    plan(ncpu, cores.drop_last(), sort_by_key(rest)),
                )
            }
        }
    }
}

/// The sum of the cores' thread counts.
pub open spec fn threads_sum(cores: Seq<FahCore>) -> int
    decreases cores.len(),
{
    if cores.len() == 0 {
        0
    } else {
        threads_sum(cores.drop_last()) + cores.last().threads
    }
}

/// A full placement gives each core one mask, the last core first.
pub proof fn law_plan_one_mask_per_core(ncpu: usize, cores: Seq<FahCore>, groups: Seq<CpuGroup>)
    ensures
        plan(ncpu, cores, groups) matches Plan::Done(cmds) ==> cmds.len() == cores.len()
            && forall|i: int| 0 <= i < cmds.len() ==> #[trigger] cmds[i].0 == cores[cores.len() - 1 - i].pid,
    decreases cores.len(),
{
    if cores.len() > 0 && groups.len() > 0 {
        let core = cores.last();
        let g = groups.last();
        let ids = ids_of(g@.cpus);
        if core.threads <= g.total_cpus && all_below(ids, ncpu) {
            let left = CpuGroup { cpus: g.cpus, total_cpus: (g.total_cpus - core.threads) as usize };
            let rest = if left.total_cpus == 0 {
                groups.drop_last()
            } else {
                groups.drop_last().push(left)
            };
            law_plan_one_mask_per_core(ncpu, cores.drop_last(), sort_by_key(rest));
            if let Plan::Done(tail) = plan(ncpu, cores.drop_last(), sort_by_key(rest)) {
                let cmds = seq![(core.pid, ids.to_set())] + tail;
                assert forall|i: int| 0 <= i < cmds.len() implies #[trigger] cmds[i].0 == cores[cores.len() - 1 - i].pid by {
                    if i > 0 {
                        assert(cmds[i] == tail[i - 1]);
                        assert(cores.drop_last()[cores.len() - 1 - 1 - (i - 1)] == cores[cores.len() - 1 - i]);
                    }
                }
            }
        }
    }
}

/// A full placement needs no more threads in all than the groups have CPUs in all: where the
/// cores' threads add up to more, the placement fails.
pub proof fn law_plan_threads_fit(ncpu: usize, cores: Seq<FahCore>, groups: Seq<CpuGroup>)
    ensures
        plan(ncpu, cores, groups) is Done ==> threads_sum(cores) <= key_sum(groups),
    decreases cores.len(),
{
    lemma_totals_nonnegative(groups);
    if cores.len() > 0 && groups.len() > 0 {
        let core = cores.last();
        let g = groups.last();
        let ids = ids_of(g@.cpus);
        if core.threads <= g.total_cpus && all_below(ids, ncpu) {
            let left = CpuGroup { cpus: g.cpus, total_cpus: (g.total_cpus - core.threads) as usize };
            let rest = if left.total_cpus == 0 {
                groups.drop_last()
            } else {
                groups.drop_last().push(left)
            };
            law_plan_threads_fit(ncpu, cores.drop_last(), sort_by_key(rest));
            lemma_sort_key_sum(rest);
            if left.total_cpus != 0 {
                assert(groups.drop_last().push(left).drop_last() =~= groups.drop_last());
            }
        }
    }
}

/// A full placement needs, for each core, a group with at least as many CPUs as the core has
/// threads: where a core has more threads than every group has CPUs, the placement fails.
pub proof fn law_plan_core_fits_a_group(ncpu: usize, cores: Seq<FahCore>, groups: Seq<CpuGroup>)
    ensures
        plan(ncpu, cores, groups) is Done ==> forall|i: int|
            0 <= i < cores.len() ==> exists|j: int|
                0 <= j < groups.len() && (#[trigger] groups[j]).total_cpus >= (#[trigger] cores[i]).threads,
    decreases cores.len(),
{
    if cores.len() > 0 && groups.len() > 0 {
        let core = cores.last();
        let g = groups.last();
        let ids = ids_of(g@.cpus);
        if core.threads <= g.total_cpus && all_below(ids, ncpu) {
            let left = CpuGroup { cpus: g.cpus, total_cpus: (g.total_cpus - core.threads) as usize };
            let rest = if left.total_cpus == 0 {
                groups.drop_last()
            } else {
                groups.drop_last().push(left)
            };
            let next = sort_by_key(rest);
            let d = cores.drop_last();
            law_plan_core_fits_a_group(ncpu, d, next);
            if plan(ncpu, cores, groups) is Done {
                let last = groups.len() - 1;
                assert forall|i: int| 0 <= i < cores.len() implies exists|j: int|
                    0 <= j < groups.len() && (#[trigger] groups[j]).total_cpus >= (#[trigger] cores[i]).threads by {
                    if i == cores.len() - 1 {
                        assert(groups[last].total_cpus >= cores[i].threads);
                    } else {
                        assert(d[i] == cores[i]);
                        let j = choose|j: int| 0 <= j < next.len() && (#[trigger] next[j]).total_cpus >= (#[trigger] d[i]).threads;
                        lemma_sort_contains(rest, next[j]);
                        assert(next.contains(next[j]));
                        let k = choose|k: int| 0 <= k < rest.len() && rest[k] == next[j];
                        if k < last {
                            assert(rest[k] == groups[k]);
                            assert(groups[k].total_cpus >= cores[i].threads);
                        } else {
                            assert(groups[last].total_cpus >= cores[i].threads);
                        }
                    }
                }
            }
        }
    }
}

/// The `k`-th largest core, counted from the last, has at most as many threads as the `k`-th
/// largest group, counted from the last, has CPUs, and there are no more cores than groups.
pub open spec fn fits_pairwise(cores: Seq<FahCore>, groups: Seq<CpuGroup>) -> bool {
    &&& cores.len() <= groups.len()
    &&& forall|k: int|
        0 <= k < cores.len() ==> (#[trigger] cores[cores.len() - 1 - k]).threads
            <= groups[groups.len() - 1 - k].total_cpus
}

/// Where the groups are sorted by count, name only CPUs of the machine, and the cores fit them
/// pairwise from the largest down, the placement succeeds.
pub proof fn law_plan_succeeds(ncpu: usize, cores: Seq<FahCore>, groups: Seq<CpuGroup>)
    requires
        sorted_by_key(groups),
        fits_pairwise(cores, groups),
        forall|j: int| 0 <= j < groups.len() ==> all_below(ids_of((#[trigger] groups[j])@.cpus), ncpu),
    ensures
        plan(ncpu, cores, groups) is Done,
    decreases cores.len(),
{
    if cores.len() > 0 {
        let n = cores.len();
        let m = groups.len();
        let core = cores.last();
        let g = groups.last();
        assert(cores[n - 1 - 0] == core);
        assert(groups[m - 1] == g);
        let d = groups.drop_last();
        let left = CpuGroup { cpus: g.cpus, total_cpus: (g.total_cpus - core.threads) as usize };
        let rest = if left.total_cpus == 0 {
            d
        } else {
            d.push(left)
        };
        let next = sort_by_key(rest);
        assert(sorted_by_key(d)) by {
            assert forall|i: int, j: int| 0 <= i <= j < d.len() implies d[i].key() <= d[j].key() by {
                assert(d[i] == groups[i] && d[j] == groups[j]);
            }
        }
        lemma_sort_sorted(rest);
        // `next` is at least as large as `d`, position by position from the end.
        assert(next.len() >= d.len() && forall|k: int|
            0 <= k < d.len() ==> #[trigger] next[next.len() - 1 - k].total_cpus >= d[d.len() - 1 - k].total_cpus) by {
            lemma_sort_of_sorted(d);
            if left.total_cpus != 0 {
                let p = lemma_split_point(d, left.key());
                lemma_filter_split(d, left.key(), p);
                assert(rest.drop_last() =~= d);
                let e = d.take(p).push(left) + d.skip(p);
                assert(next == e);
                assert forall|k: int| 0 <= k < d.len() implies #[trigger] next[next.len() - 1 - k].total_cpus >= d[d.len() - 1 - k].total_cpus by {
                    let l = d.len();
                    let q = l - 1 - k;
                    if l - k > p {
                        assert(next[l - k] == d[q]);
                    } else if l - k == p {
                        assert(next[l - k] == left);
                        assert(d[q].key() <= left.key());
                    } else {
                        assert(next[l - k] == d[l - k]);
                        assert(d[q].key() <= d[l - k].key());
                    }
                }
            }
        }
        let dc = cores.drop_last();
        assert forall|k: int| 0 <= k < dc.len() implies (#[trigger] dc[dc.len() - 1 - k]).threads
            <= next[next.len() - 1 - k].total_cpus by {
            assert(dc[dc.len() - 1 - k] == cores[n - 1 - (k + 1)]);
            assert(d[d.len() - 1 - k] == groups[m - 1 - (k + 1)]);
        }
        assert forall|j: int| 0 <= j < next.len() implies all_below(ids_of((#[trigger] next[j])@.cpus), ncpu) by {
            lemma_sort_contains(rest, next[j]);
            assert(next.contains(next[j]));
            let i = choose|i: int| 0 <= i < rest.len() && rest[i] == next[j];
            if i < d.len() {
                assert(rest[i] == groups[i]);
            } else {
                assert(rest[i] == left);
                assert(left@.cpus == g@.cpus);
            }
        }
        law_plan_succeeds(ncpu, dc, next);
    }
}

/// With cores of at least one thread each, the sum of the threads is at least the number of
/// cores, and never negative.
proof fn lemma_threads_sum_bounds(cores: Seq<FahCore>)
    ensures
        threads_sum(cores) >= 0,
        (forall|i: int| 0 <= i < cores.len() ==> (#[trigger] cores[i]).threads >= 1)
            ==> threads_sum(cores) >= cores.len(),
    decreases cores.len(),
{
    if cores.len() > 0 {
        let d = cores.drop_last();
        lemma_threads_sum_bounds(d);
        if forall|i: int| 0 <= i < cores.len() ==> (#[trigger] cores[i]).threads >= 1 {
            assert forall|i: int| 0 <= i < d.len() implies (#[trigger] d[i]).threads >= 1 by {
                assert(d[i] == cores[i]);
            }
            assert(cores[cores.len() - 1].threads >= 1);
        }
    }
}

/// Where the groups are sorted by count and name only CPUs of the machine, and the threads of
/// all cores (each of at least one thread) add up to no more than the largest group has CPUs,
/// every core is placed, however many cores there are.
pub proof fn law_plan_fits_largest_group(ncpu: usize, cores: Seq<FahCore>, groups: Seq<CpuGroup>)
    requires
        sorted_by_key(groups),
        groups.len() > 0,
        forall|j: int| 0 <= j < groups.len() ==> all_below(ids_of((#[trigger] groups[j])@.cpus), ncpu),
        forall|i: int| 0 <= i < cores.len() ==> (#[trigger] cores[i]).threads >= 1,
        threads_sum(cores) <= groups.last().total_cpus,
    ensures
        plan(ncpu, cores, groups) is Done,
    decreases cores.len(),
{
    if cores.len() > 0 {
        let core = cores.last();
        let g = groups.last();
        let d = groups.drop_last();
        let dc = cores.drop_last();
        assert forall|i: int| 0 <= i < dc.len() implies (#[trigger] dc[i]).threads >= 1 by {
            assert(dc[i] == cores[i]);
        }
        lemma_threads_sum_bounds(dc);
        assert(groups[groups.len() - 1] == g);
        let left = CpuGroup { cpus: g.cpus, total_cpus: (g.total_cpus - core.threads) as usize };
        let rest = if left.total_cpus == 0 {
            d
        } else {
            d.push(left)
        };
        let next = sort_by_key(rest);
        if dc.len() > 0 {
            assert(left.total_cpus >= 1);
            assert(rest == d.push(left));
            assert(rest[rest.len() - 1] == left);
            lemma_sort_contains(rest, left);
            lemma_sort_sorted(rest);
            let i = choose|i: int| 0 <= i < next.len() && next[i] == left;
            assert(next[i].key() <= next[next.len() - 1].key());
            assert forall|j: int| 0 <= j < next.len() implies all_below(ids_of((#[trigger] next[j])@.cpus), ncpu) by {
                lemma_sort_contains(rest, next[j]);
                assert(next.contains(next[j]));
                let k = choose|k: int| 0 <= k < rest.len() && rest[k] == next[j];
                if k < d.len() {
                    assert(rest[k] == groups[k]);
                } else {
                    assert(left@.cpus == g@.cpus);
                }
            }
            law_plan_fits_largest_group(ncpu, dc, next);
        }
    }
}

/// The largest core, the last one, gets the mask of the last group, the largest where the
/// groups are sorted.
pub proof fn law_plan_largest_core_to_largest_group(ncpu: usize, cores: Seq<FahCore>, groups: Seq<CpuGroup>)
    ensures
        plan(ncpu, cores, groups) matches Plan::Done(cmds) ==> cores.len() > 0 ==> groups.len() > 0
            && cmds[0] == (cores.last().pid, ids_of(groups.last()@.cpus).to_set()),
{
    law_plan_one_mask_per_core(ncpu, cores, groups);
}

/// Holds of the groups whose CPUs are exactly `cpus`.
pub open spec fn cpus_are(cpus: Set<usize>) -> spec_fn(CpuGroup) -> bool {
    |g: CpuGroup| ids_of(g@.cpus).to_set() == cpus
}

/// The threads of the cores, taken from the last down, whose mask in `cmds` is `cpus`.
pub open spec fn threads_on(cores: Seq<FahCore>, cmds: Seq<(usize, Set<usize>)>, cpus: Set<usize>) -> int
    decreases cores.len(),
{
    if cores.len() == 0 || cmds.len() == 0 {
        0
    } else {
        (if cmds[0].1 == cpus {
            cores.last().threads as int
        } else {
            0
        }) + threads_on(cores.drop_last(), cmds.drop_first(), cpus)
    }
}

/// In a full placement no set of CPUs gets more threads than the groups with exactly those CPUs
/// have CPUs in all: no group is oversubscribed.
pub proof fn law_plan_within_totals(ncpu: usize, cores: Seq<FahCore>, groups: Seq<CpuGroup>, cpus: Set<usize>)
    ensures
        plan(ncpu, cores, groups) matches Plan::Done(cmds) ==> threads_on(cores, cmds, cpus)
            <= key_sum(groups.filter(cpus_are(cpus))),
    decreases cores.len(),
{
    reveal(Seq::filter);
    let pr = cpus_are(cpus);
    lemma_totals_nonnegative(groups.filter(pr));
    if cores.len() > 0 && groups.len() > 0 {
        let core = cores.last();
        let g = groups.last();
        let ids = ids_of(g@.cpus);
        if core.threads <= g.total_cpus && all_below(ids, ncpu) {
            let d = groups.drop_last();
            let left = CpuGroup { cpus: g.cpus, total_cpus: (g.total_cpus - core.threads) as usize };
            let rest = if left.total_cpus == 0 {
                d
            } else {
                d.push(left)
            };
            let next = sort_by_key(rest);
            law_plan_within_totals(ncpu, cores.drop_last(), next, cpus);
            lemma_sort_filter_key_sum(rest, pr);
            assert(pr(left) == pr(g));
            assert(groups == d.push(g));
            lemma_totals_nonnegative(d.filter(pr));
            if pr(g) {
                assert(d.filter(pr).push(g).drop_last() =~= d.filter(pr));
                if left.total_cpus != 0 {
                    assert(d.push(left).drop_last() == d);
                    assert(d.filter(pr).push(left).drop_last() =~= d.filter(pr));
                }
            } else if left.total_cpus != 0 {
                assert(d.push(left).drop_last() == d);
            }
            if let Plan::Done(tail) = plan(ncpu, cores.drop_last(), next) {
                let cmds = seq![(core.pid, ids.to_set())] + tail;
                assert(cmds.drop_first() =~= tail);
                assert(cmds[0].1 == ids.to_set());
            }
        }
    }
}

/// Sums of totals are never negative.
proof fn lemma_totals_nonnegative(groups: Seq<CpuGroup>)
    ensures
        key_sum(groups) >= 0,
    decreases groups.len(),
{
    if groups.len() > 0 {
        lemma_totals_nonnegative(groups.drop_last());
    }
}

/// Every group of `gs` holds the CPUs of some group of `orig`.
pub open spec fn cpus_from(gs: Seq<CpuGroup>, orig: Seq<CpuGroup>) -> bool {
    forall|i: int| 0 <= i < gs.len() ==> exists|j: int| 0 <= j < orig.len() && (#[trigger] gs[i]).cpus == (#[trigger] orig[j]).cpus
}

/// What the placement does to the groups keeps their CPU lists: every mask is the CPU set of
/// one of the groups `orig`.
proof fn lemma_plan_groups(ncpu: usize, cores: Seq<FahCore>, groups: Seq<CpuGroup>, orig: Seq<CpuGroup>)
    requires
        cpus_from(groups, orig),
    ensures
        plan(ncpu, cores, groups) matches Plan::Done(cmds) ==> forall|i: int| 0 <= i < cmds.len() ==> exists|j: int| 0 <= j < orig.len() && (#[trigger] cmds[i]).1 == ids_of(orig[j]@.cpus).to_set(),
    decreases cores.len(),
{
    if cores.len() > 0 && groups.len() > 0 {
        let core = cores.last();
        let g = groups.last();
        let ids = ids_of(g@.cpus);
        let j0 = choose|j: int| 0 <= j < orig.len() && groups[groups.len() - 1].cpus == orig[j].cpus;
        assert(groups[groups.len() - 1] == g);
        if core.threads <= g.total_cpus && all_below(ids, ncpu) {
            let left = CpuGroup { cpus: g.cpus, total_cpus: (g.total_cpus - core.threads) as usize };
            let rest = if left.total_cpus == 0 {
                groups.drop_last()
            } else {
                groups.drop_last().push(left)
            };
            let next = sort_by_key(rest);
            assert forall|i: int| 0 <= i < next.len() implies exists|j: int| 0 <= j < orig.len() && (#[trigger] next[i]).cpus == (#[trigger] orig[j]).cpus by {
                lemma_sort_contains(rest, next[i]);
                assert(next.contains(next[i]));
                let k = choose|k: int| 0 <= k < rest.len() && rest[k] == next[i];
                if k < groups.len() - 1 {
                    assert(rest[k] == groups[k]);
                    let j = choose|j: int| 0 <= j < orig.len() && groups[k].cpus == orig[j].cpus;
                    assert(next[i].cpus == orig[j].cpus);
                } else {
                    assert(rest[k] == left);
                    assert(next[i].cpus == orig[j0].cpus);
                }
            }
            lemma_plan_groups(ncpu, cores.drop_last(), next, orig);
            if let Plan::Done(tail) = plan(ncpu, cores.drop_last(), next) {
                let cmds = seq![(core.pid, ids.to_set())] + tail;
                assert forall|i: int| 0 <= i < cmds.len() implies exists|j: int| 0 <= j < orig.len() && (#[trigger] cmds[i]).1 == ids_of(orig[j]@.cpus).to_set() by {
                    if i > 0 {
                        assert(cmds[i] == tail[i - 1]);
                    } else {
                        assert(g@.cpus == orig[j0]@.cpus);
                        assert(cmds[i].1 == ids_of(orig[j0]@.cpus).to_set());
                    }
                }
            }
        }
    }
}

/// Every mask that a full placement assigns is the CPU set of one of the groups.
pub proof fn law_plan_masks_are_groups(ncpu: usize, cores: Seq<FahCore>, groups: Seq<CpuGroup>)
    ensures
        plan(ncpu, cores, groups) matches Plan::Done(cmds) ==> forall|i: int| 0 <= i < cmds.len() ==> exists|j: int| 0 <= j < groups.len() && (#[trigger] cmds[i]).1 == ids_of(groups[j]@.cpus).to_set(),
{
    assert forall|i: int| 0 <= i < groups.len() implies exists|j: int| 0 <= j < groups.len() && (#[trigger] groups[i]).cpus == (#[trigger] groups[j]).cpus by {
        assert(groups[i].cpus == groups[i].cpus);
    }
    lemma_plan_groups(ncpu, cores, groups, groups);
}

/// The commands are the plan's masks, for a machine with `ncpu` CPUs.
pub open spec fn commands_match(
    ncpu: usize,
    commands: Seq<(usize, CpuSet)>,
    cmds: Seq<(usize, Set<usize>)>,
) -> bool {
    &&& commands.len() == cmds.len()
    &&& forall|i: int|
        0 <= i < cmds.len() ==> {
            &&& (#[trigger] commands[i]).0 == cmds[i].0
            &&& commands[i].1.0@.len() == words_for(ncpu)
            &&& commands[i].1.cpus() == cmds[i].1
        }
}

/// Assigns each core, from the last one down, the CPUs of the group with the most CPUs left;
/// see [`plan`].
pub fn schedule(
    affinity_manager: AffinityManager,
    fah_cores: Vec<FahCore>,
    cpu_groups: Vec<CpuGroup>,
) -> (r: Result<Vec<(usize, CpuSet)>>)
    ensures
        match plan(affinity_manager.ncpu(), fah_cores@, cpu_groups@) {
            Plan::Done(cmds) => r matches Ok(v) && commands_match(
                affinity_manager.ncpu(),
                v@,
                cmds,
            ),
            Plan::Failed(e) => r matches Err(e2) && e2 == e,
        },
{
    let ghost n = affinity_manager.ncpu();
    let ghost whole = plan(n, fah_cores@, cpu_groups@);
    let mut fah_cores = fah_cores;
    let mut cpu_groups = cpu_groups;
    let mut commands: Vec<(usize, CpuSet)> = Vec::new();
    let ghost mut cmds: Seq<(usize, Set<usize>)> = Seq::empty();
    proof {
        assert(cmds + Seq::<(usize, Set<usize>)>::empty() =~= cmds);
        match whole {
            Plan::Done(s) => {
                assert(cmds + s =~= s);
            },
            _ => {},
        }
    }
    #[verifier::loop_isolation(false)]
    while fah_cores.len() > 0
        invariant
            n == affinity_manager.ncpu(),
            whole == prepend_all(cmds, plan(n, fah_cores@, cpu_groups@)),
            commands_match(n, commands@, cmds),
        decreases fah_cores@.len(),
    {
        let ghost cores_before = fah_cores@;
        let ghost groups_before = cpu_groups@;
        let core = fah_cores.pop().unwrap();
        proof {
            assert(fah_cores@ =~= cores_before.drop_last());
        }
        if cpu_groups.len() == 0 {
            return Err(Error::OutOfCpuGroups);
        }
        let mut group = cpu_groups.pop().unwrap();
        proof {
            assert(cpu_groups@ =~= groups_before.drop_last());
        }
        if core.threads > group.total_cpus {
            return Err(Error::OutOfCpuGroups);
        }
        let ghost ids = ids_of(group@.cpus);
        let mask = match CpuSet::from_cpu_group(affinity_manager, &group) {
            Ok(mask) => mask,
            Err(e) => return Err(e),
        };
        let ghost cmd = (core.pid, ids.to_set());
        proof {
            assert(mask.cpus() =~= ids.to_set());
        }
        let ghost commands_before = commands@;
        commands.push((core.pid, mask));
        group.total_cpus = group.total_cpus - core.threads;
        if group.total_cpus != 0 {
            cpu_groups.push(group);
        }
        sort_stable(&mut cpu_groups);
        proof {
            let next = plan(n, fah_cores@, cpu_groups@);
            assert(plan(n, cores_before, groups_before) == prepend_all(seq![cmd], next));
            match next {
                Plan::Done(s) => {
                    assert(cmds + (seq![cmd] + s) =~= cmds.push(cmd) + s);
                },
                _ => {},
            }
            cmds = cmds.push(cmd);
            assert forall|i: int| 0 <= i < cmds.len() implies {
                &&& (#[trigger] commands@[i]).0 == cmds[i].0
                &&& commands@[i].1.0@.len() == words_for(n)
                &&& commands@[i].1.cpus() == cmds[i].1
            } by {
                if i < commands_before.len() {
                    assert(commands@[i] == commands_before[i]);
                }
            }
        }
    }
    proof {
        assert(cmds + Seq::<(usize, Set<usize>)>::empty() =~= cmds);
    }
    Ok(commands)
}

} // verus!
