//! CPU groups as the user writes them: `0-11`, `12,14,16-19`, one group per argument.

use crate::error::{Error, Result};
use crate::order::{
    key_eq, key_gt, key_le, lemma_sort_sorted, lemma_sort_stable, sort_by_key, sort_stable, sorted_by_key, Keyed,
    KeyedExec,
};
use crate::text::{
    decimal_text, law_decimal_round_trip, lemma_decimal_text, lemma_first_index_at,
    lemma_first_index_none, decimal_usize, parse_error, parse_usize, split, split_char, split_once, split_once_char, views,
};
use core::ops::RangeInclusive;
use vstd::prelude::*;
use vstd::std_specs::range::RangeInclusiveView;

verus! {

/// One CPU, or an inclusive range of CPUs.
#[derive(Clone, Debug, PartialEq)]
pub enum Cpu {
    Single(usize),
    Range(RangeInclusive<usize>),
}

/// What a [`Cpu`] holds.
pub enum CpuView {
    Single(usize),
    Range(RangeInclusiveView<usize>),
}

impl View for Cpu {
    type V = CpuView;

    open spec fn view(&self) -> CpuView {
        match self {
            Cpu::Single(id) => CpuView::Single(*id),
            Cpu::Range(r) => CpuView::Range(r@),
        }
    }
}

/// The CPU ids that a [`Cpu`] names, in increasing order.
pub open spec fn cpu_ids(c: CpuView) -> Seq<usize> {
    match c {
        CpuView::Single(id) => seq![id],
        CpuView::Range(r) => if r.exhausted || r.end < r.start {
            Seq::empty()
        } else {
            Seq::new((r.end - r.start + 1) as nat, |k: int| (r.start + k) as usize)
        },
    }
}

/// A single CPU names its id alone; a range that has not been iterated names the ids from its
/// start to its end, each once, in increasing order.
pub proof fn law_cpu_ids(c: CpuView)
    ensures
        c matches CpuView::Single(id) ==> cpu_ids(c) == seq![id],
        c matches CpuView::Range(r) ==> (!r.exhausted ==> (forall|x: usize|
            #[trigger] cpu_ids(c).contains(x) <==> r.start <= x <= r.end) && (r.start <= r.end
            ==> cpu_ids(c).len() == r.end - r.start + 1) && forall|i: int, j: int|
            0 <= i < j < cpu_ids(c).len() ==> cpu_ids(c)[i] < cpu_ids(c)[j]),
{
    if let CpuView::Range(r) = c {
        if !r.exhausted {
            assert forall|x: usize| #[trigger] cpu_ids(c).contains(x) <==> r.start <= x <= r.end by {
                if r.start <= x <= r.end {
                    assert(cpu_ids(c)[x - r.start] == x);
                }
            }
        }
    }
}

/// How many CPUs a [`Cpu`] counts for in a group's total: one, or `end - start + 1`.
pub open spec fn cpu_count(c: CpuView) -> int {
    match c {
        CpuView::Single(_) => 1,
        CpuView::Range(r) => r.end - r.start + 1,
    }
}

/// The CPU ids of a list of [`Cpu`]s, in order.
pub open spec fn ids_of(cs: Seq<CpuView>) -> Seq<usize>
    decreases cs.len(),
{
    if cs.len() == 0 {
        Seq::empty()
    } else {
        ids_of(cs.drop_last()) + cpu_ids(cs.last())
    }
}

/// The ids of a list are those of a prefix followed by those of the rest.
pub proof fn lemma_ids_of_split(cs: Seq<CpuView>, k: int)
    requires
        0 <= k <= cs.len(),
    ensures
        ids_of(cs) == ids_of(cs.take(k)) + ids_of(cs.skip(k)),
    decreases cs.len(),
{
    if k == cs.len() {
        assert(cs.take(k) =~= cs);
        assert(cs.skip(k) =~= Seq::<CpuView>::empty());
        assert(ids_of(cs) + Seq::<usize>::empty() =~= ids_of(cs));
    } else {
        let d = cs.drop_last();
        lemma_ids_of_split(d, k);
        assert(d.take(k) =~= cs.take(k));
        assert(cs.skip(k).drop_last() =~= d.skip(k));
        assert(cs.skip(k).last() == cs.last());
        assert(ids_of(cs.take(k)) + ids_of(d.skip(k)) + cpu_ids(cs.last()) =~= ids_of(cs.take(k))
            + (ids_of(d.skip(k)) + cpu_ids(cs.last())));
    }
}

/// The sum of the counts of a list of [`Cpu`]s.
pub open spec fn count_of(cs: Seq<CpuView>) -> int
    decreases cs.len(),
{
    if cs.len() == 0 {
        0
    } else {
        count_of(cs.drop_last()) + cpu_count(cs.last())
    }
}

/// `x` reduced modulo `usize::MAX + 1`, as wrapping `usize` arithmetic leaves it.
pub open spec fn wrap(x: int) -> usize {
    (x % (usize::MAX as int + 1)) as usize
}

/// What a text names as one CPU: `N`, or `A-B` with `A < B`.
pub open spec fn cpu_from_text(s: Seq<char>) -> core::result::Result<CpuView, Error> {
    match split_once_char(s, '-') {
        Some((a, b)) => match decimal_usize(a) {
            None => Err(Error::ParseInt(parse_error(a))),
            Some(start) => match decimal_usize(b) {
                None => Err(Error::ParseInt(parse_error(b))),
                Some(end) => if start >= end {
                    Err(Error::InvalidCpuRange)
                } else {
                    Ok(CpuView::Range(RangeInclusiveView { start, end, exhausted: false }))
                },
            },
        },
        None => match decimal_usize(s) {
            None => Err(Error::ParseInt(parse_error(s))),
            Some(id) => Ok(CpuView::Single(id)),
        },
    }
}

/// Reading a CPU written in decimal gives it back: `N` reads as CPU `N`, and `A-B` with
/// `A < B` as the range from `A` to `B`.
pub proof fn law_cpu_round_trip(a: usize, b: usize)
    ensures
        cpu_from_text(decimal_text(a as nat)) == Ok::<CpuView, Error>(CpuView::Single(a)),
        a < b ==> cpu_from_text(decimal_text(a as nat) + seq!['-'] + decimal_text(b as nat))
            == Ok::<CpuView, Error>(
            CpuView::Range(RangeInclusiveView { start: a, end: b, exhausted: false }),
        ),
{
    let ta = decimal_text(a as nat);
    let tb = decimal_text(b as nat);
    lemma_decimal_text(a as nat);
    lemma_decimal_text(b as nat);
    law_decimal_round_trip(a);
    law_decimal_round_trip(b);
    assert forall|j: int| 0 <= j < ta.len() implies ta[j] != '-' by {
        assert(crate::text::is_digit(ta[j]));
    }
    lemma_first_index_none(ta, '-');
    let t = ta + seq!['-'] + tb;
    assert forall|j: int| 0 <= j < ta.len() implies t[j] != '-' by {
        assert(t[j] == ta[j]);
    }
    assert(t[ta.len() as int] == '-');
    lemma_first_index_at(t, '-', ta.len() as int);
    assert(t.take(ta.len() as int) =~= ta);
    assert(t.skip(ta.len() + 1int) =~= tb);
}

/// A result holding a [`Cpu`], taken by its view.
pub open spec fn cpu_result_view(r: Result<Cpu>) -> core::result::Result<CpuView, Error> {
    match r {
        Ok(c) => Ok(c@),
        Err(e) => Err(e),
    }
}

/// A range value is not determined by its view, so the contract of `try_from` is stated over
/// views (see `cpu_from_text`) rather than through this trait's spec function.
impl<'a> vstd::std_specs::convert::TryFromSpecImpl<&'a str> for Cpu {
    open spec fn obeys_try_from_spec() -> bool {
        false
    }

    open spec fn try_from_spec(s: &'a str) -> Result<Cpu> {
        choose|r: Result<Cpu>| cpu_result_view(r) == cpu_from_text(s@)
    }
}

impl<'a> TryFrom<&'a str> for Cpu {
    type Error = Error;

    /// Reads `N` as CPU `N`, and `A-B` as the CPUs `A` to `B` inclusive, where `A < B`.
    fn try_from(s: &'a str) -> (r: Result<Cpu>)
        ensures
            cpu_result_view(r) == cpu_from_text(s@),
    {
        match split_once(s, '-') {
            Some((a, b)) => {
                let start = match parse_usize(a) {
                    Ok(v) => v,
                    Err(e) => return Err(Error::ParseInt(e)),
                };
                let end = match parse_usize(b) {
                    Ok(v) => v,
                    Err(e) => return Err(Error::ParseInt(e)),
                };
                if start >= end {
                    return Err(Error::InvalidCpuRange);
                }
                Ok(Cpu::Range(start..=end))
            },
            None => match parse_usize(s) {
                Ok(v) => Ok(Cpu::Single(v)),
                Err(e) => Err(Error::ParseInt(e)),
            },
        }
    }
}

/// The CPUs that one argument names, with their count.
#[derive(Clone, Debug, PartialEq)]
pub struct CpuGroup {
    pub cpus: Vec<Cpu>,
    pub total_cpus: usize,
}

/// What a [`CpuGroup`] holds.
pub struct GroupView {
    pub cpus: Seq<CpuView>,
    pub total_cpus: usize,
}

/// The views of a list of [`Cpu`]s.
pub open spec fn cpu_views(cs: Seq<Cpu>) -> Seq<CpuView> {
    cs.map_values(|c: Cpu| c@)
}

impl View for CpuGroup {
    type V = GroupView;

    open spec fn view(&self) -> GroupView {
        GroupView { cpus: cpu_views(self.cpus@), total_cpus: self.total_cpus }
    }
}

impl CpuGroup {
    /// The CPUs of the group, in the order they were written.
    pub fn cpus(&self) -> (r: &[Cpu])
        ensures
            cpu_views(r@) == self@.cpus,
    {
        self.cpus.as_slice()
    }
}

/// The CPUs that the texts name, one each, or the first error among them.
pub open spec fn cpus_from_texts(ps: Seq<Seq<char>>) -> core::result::Result<Seq<CpuView>, Error>
    decreases ps.len(),
{
    if ps.len() == 0 {
        Ok(Seq::empty())
    } else {
        match cpus_from_texts(ps.drop_last()) {
            Err(e) => Err(e),
            Ok(cs) => match cpu_from_text(ps.last()) {
                Err(e) => Err(e),
                Ok(c) => Ok(cs.push(c)),
            },
        }
    }
}

/// An error in some prefix of the texts is the error of all of them.
proof fn lemma_cpus_prefix_err(ps: Seq<Seq<char>>, k: int)
    requires
        0 <= k <= ps.len(),
        cpus_from_texts(ps.take(k)) is Err,
    ensures
        cpus_from_texts(ps) == cpus_from_texts(ps.take(k)),
    decreases ps.len() - k,
{
    if k < ps.len() {
        assert(ps.take(k + 1).drop_last() =~= ps.take(k));
        lemma_cpus_prefix_err(ps, k + 1);
    } else {
        assert(ps.take(k) =~= ps);
    }
}

/// Reading texts as CPUs succeeds exactly when each reads as a CPU, and then gives one CPU per
/// text, in order; a failure is that of the first text that does not read.
pub proof fn law_cpus_from_texts(ps: Seq<Seq<char>>)
    ensures
        cpus_from_texts(ps) is Ok <==> forall|k: int| 0 <= k < ps.len() ==> (#[trigger] cpu_from_text(ps[k])) is Ok,
        cpus_from_texts(ps) matches Ok(cs) ==> cs.len() == ps.len() && forall|k: int|
            0 <= k < ps.len() ==> #[trigger] cpu_from_text(ps[k]) == Ok::<CpuView, Error>(cs[k]),
        cpus_from_texts(ps) matches Err(e) ==> exists|k: int|
            0 <= k < ps.len() && cpu_from_text(ps[k]) == Err::<CpuView, Error>(e) && forall|j: int|
                0 <= j < k ==> (#[trigger] cpu_from_text(ps[j])) is Ok,
    decreases ps.len(),
{
    if ps.len() > 0 {
        let d = ps.drop_last();
        let l = ps.len() - 1;
        law_cpus_from_texts(d);
        assert forall|k: int| 0 <= k < d.len() implies #[trigger] cpu_from_text(ps[k]) == cpu_from_text(d[k]) by {
            assert(ps[k] == d[k]);
        }
        assert(ps[l] == ps.last());
        if let Err(e) = cpus_from_texts(d) {
            let k = choose|k: int|
                0 <= k < d.len() && cpu_from_text(d[k]) == Err::<CpuView, Error>(e) && forall|j: int|
                    0 <= j < k ==> (#[trigger] cpu_from_text(d[j])) is Ok;
            assert(cpu_from_text(ps[k]) == Err::<CpuView, Error>(e));
            assert forall|j: int| 0 <= j < k implies (#[trigger] cpu_from_text(ps[j])) is Ok by {
                assert(cpu_from_text(d[j]) is Ok);
            }
        } else if let Err(e) = cpu_from_text(ps.last()) {
            assert forall|j: int| 0 <= j < l implies (#[trigger] cpu_from_text(ps[j])) is Ok by {
                assert(cpu_from_text(d[j]) is Ok);
            }
        } else {
            let cs = cpus_from_texts(d)->Ok_0;
            let c = cpu_from_text(ps.last())->Ok_0;
            assert forall|k: int| 0 <= k < ps.len() implies #[trigger] cpu_from_text(ps[k]) == Ok::<CpuView, Error>(cs.push(c)[k]) by {
                if k < l {
                    assert(cpu_from_text(d[k]) == Ok::<CpuView, Error>(cs[k]));
                }
            }
        }
    }
}

/// A group reads one CPU from each comma-separated piece of its text, in order: it reads
/// exactly when every piece reads as a CPU, its CPUs are those of the pieces, one each, and a
/// failure is that of the first piece that does not read. Its ids are those of its CPUs.
pub proof fn law_group_pieces(s: Seq<char>)
    ensures
        group_from_text(s) is Ok <==> forall|k: int|
            0 <= k < split_char(s, ',').len() ==> (#[trigger] cpu_from_text(split_char(s, ',')[k])) is Ok,
        group_from_text(s) matches Ok(g) ==> g.cpus.len() == split_char(s, ',').len() && forall|k: int|
            0 <= k < g.cpus.len() ==> #[trigger] cpu_from_text(split_char(s, ',')[k]) == Ok::<CpuView, Error>(g.cpus[k]),
        group_from_text(s) matches Err(e) ==> exists|k: int|
            0 <= k < split_char(s, ',').len() && cpu_from_text(split_char(s, ',')[k]) == Err::<CpuView, Error>(e),
        group_from_text(s) matches Ok(g) ==> forall|x: usize| #[trigger] ids_of(g.cpus).contains(x) <==> exists|k: int|
            0 <= k < g.cpus.len() && cpu_ids(g.cpus[k]).contains(x),
{
    law_cpus_from_texts(split_char(s, ','));
    if let Ok(g) = group_from_text(s) {
        assert forall|x: usize| #[trigger] ids_of(g.cpus).contains(x) <==> exists|k: int|
            0 <= k < g.cpus.len() && cpu_ids(g.cpus[k]).contains(x) by {
            lemma_ids_of_contains(g.cpus, x);
        }
    }
}

/// An id of a list of CPUs is an id of one of them.
proof fn lemma_ids_of_contains(cs: Seq<CpuView>, x: usize)
    ensures
        ids_of(cs).contains(x) <==> exists|k: int| 0 <= k < cs.len() && cpu_ids(cs[k]).contains(x),
    decreases cs.len(),
{
    if cs.len() > 0 {
        let d = cs.drop_last();
        let l = cs.len() - 1;
        lemma_ids_of_contains(d, x);
        crate::sched_affinity::lemma_contains_concat(ids_of(d), cpu_ids(cs.last()), x);
        if exists|k: int| 0 <= k < d.len() && cpu_ids(d[k]).contains(x) {
            let k = choose|k: int| 0 <= k < d.len() && cpu_ids(d[k]).contains(x);
            assert(cs[k] == d[k]);
        }
        if exists|k: int| 0 <= k < cs.len() && cpu_ids(cs[k]).contains(x) {
            let k = choose|k: int| 0 <= k < cs.len() && cpu_ids(cs[k]).contains(x);
            if k < l {
                assert(cs[k] == d[k]);
            } else {
                assert(cs[k] == cs.last());
            }
        }
        assert(cs[l] == cs.last());
    }
}

/// What a text names as a group: the CPUs of its comma-separated pieces, and the sum of their
/// counts modulo `usize::MAX + 1`.
pub open spec fn group_from_text(s: Seq<char>) -> core::result::Result<GroupView, Error> {
    match cpus_from_texts(split_char(s, ',')) {
        Err(e) => Err(e),
        Ok(cs) => Ok(GroupView { cpus: cs, total_cpus: wrap(count_of(cs)) }),
    }
}

/// A result holding a [`CpuGroup`], taken by its view.
pub open spec fn group_result_view(r: Result<CpuGroup>) -> core::result::Result<GroupView, Error> {
    match r {
        Ok(g) => Ok(g@),
        Err(e) => Err(e),
    }
}

/// Wrapping addition is addition modulo `usize::MAX + 1`.
proof fn lemma_wrapping_add(x: usize, y: usize)
    ensures
        vstd::wrapping::usize_specs::wrapping_add(x, y) == wrap(x + y),
{
    let m = usize::MAX as int + 1;
    if x + y <= usize::MAX {
        vstd::arithmetic::div_mod::lemma_small_mod((x + y) as nat, m as nat);
    } else {
        vstd::arithmetic::div_mod::lemma_mod_add_multiples_vanish(x + y - m, m);
        vstd::arithmetic::div_mod::lemma_small_mod((x + y - m) as nat, m as nat);
    }
}

/// Reducing a partial sum first does not change the reduced total.
proof fn lemma_wrap_add(a: int, b: int)
    ensures
        wrap(wrap(a) + wrap(b)) == wrap(a + b),
{
    vstd::arithmetic::div_mod::lemma_add_mod_noop(a, b, usize::MAX as int + 1);
    vstd::arithmetic::div_mod::lemma_mod_twice(a + b, usize::MAX as int + 1);
}

impl<'a> vstd::std_specs::convert::TryFromSpecImpl<&'a str> for CpuGroup {
    open spec fn obeys_try_from_spec() -> bool {
        false
    }

    open spec fn try_from_spec(s: &'a str) -> Result<CpuGroup> {
        choose|r: Result<CpuGroup>| group_result_view(r) == group_from_text(s@)
    }
}

impl<'a> TryFrom<&'a str> for CpuGroup {
    type Error = Error;

    /// Reads comma-separated CPUs and ranges; the total counts each CPU and each range's span,
    /// added with wrapping arithmetic.
    fn try_from(s: &'a str) -> (r: Result<CpuGroup>)
        ensures
            group_result_view(r) == group_from_text(s@),
    {
        let pieces = split(s, ',');
        let ghost texts = views(pieces@);
        let mut cpus: Vec<Cpu> = Vec::new();
        let mut total: usize = 0;
        let mut i: usize = 0;
        proof {
            assert(texts.take(0) =~= Seq::<Seq<char>>::empty());
            assert(cpu_views(cpus@) =~= Seq::<CpuView>::empty());
            vstd::arithmetic::div_mod::lemma_small_mod(0, usize::MAX as nat + 1);
        }
        while i < pieces.len()
            invariant
                i <= pieces@.len(),
                texts == views(pieces@),
                texts == split_char(s@, ','),
                cpus_from_texts(texts.take(i as int)) == Ok::<Seq<CpuView>, Error>(
                    cpu_views(cpus@),
                ),
                total == wrap(count_of(cpu_views(cpus@))),
            decreases pieces@.len() - i,
        {
            let ghost before = cpu_views(cpus@);
            proof {
                assert(texts.take(i + 1).drop_last() =~= texts.take(i as int));
                assert(texts.take(i + 1).last() == pieces@[i as int]@);
            }
            let c = match Cpu::try_from(pieces[i]) {
                Ok(c) => c,
                Err(e) => {
                    proof {
                        lemma_cpus_prefix_err(texts, i + 1);
                    }
                    return Err(e);
                },
            };
            let count: usize = match &c {
                Cpu::Single(_) => 1,
                Cpu::Range(range) => (*range.end() - *range.start()).wrapping_add(1),
            };
            proof {
                lemma_wrapping_add(total, count);
                lemma_wrap_add(count_of(before), cpu_count(c@));
                match c@ {
                    CpuView::Single(_) => {
                        vstd::arithmetic::div_mod::lemma_small_mod(1, usize::MAX as nat + 1);
                    },
                    CpuView::Range(rv) => {
                        lemma_wrapping_add((rv.end - rv.start) as usize, 1);
                    },
                }
            }
            total = total.wrapping_add(count);
            cpus.push(c);
            proof {
                assert(cpu_views(cpus@) =~= before.push(c@));
                assert(cpu_views(cpus@).drop_last() =~= before);
            }
            i += 1;
        }
        proof {
            assert(texts.take(i as int) =~= texts);
        }
        Ok(CpuGroup { cpus, total_cpus: total })
    }
}

impl Keyed for GroupView {
    open spec fn key(&self) -> int {
        self.total_cpus as int
    }
}

impl Keyed for CpuGroup {
    open spec fn key(&self) -> int {
        self.total_cpus as int
    }
}

impl KeyedExec for CpuGroup {
    fn exec_key(&self) -> (k: usize) {
        self.total_cpus
    }
}

/// The view of each group.
pub open spec fn group_view_fn() -> spec_fn(CpuGroup) -> GroupView {
    |g: CpuGroup| g@
}

/// The views of a list of groups.
pub open spec fn group_views(gs: Seq<CpuGroup>) -> Seq<GroupView> {
    gs.map_values(group_view_fn())
}

/// The CPU ids of a list of groups, group after group.
pub open spec fn groups_ids(gs: Seq<GroupView>) -> Seq<usize>
    decreases gs.len(),
{
    if gs.len() == 0 {
        Seq::empty()
    } else {
        groups_ids(gs.drop_last()) + ids_of(gs.last().cpus)
    }
}

/// The ids of a list of groups are those of a prefix followed by those of the rest.
pub proof fn lemma_groups_ids_split(gs: Seq<GroupView>, k: int)
    requires
        0 <= k <= gs.len(),
    ensures
        groups_ids(gs) == groups_ids(gs.take(k)) + groups_ids(gs.skip(k)),
    decreases gs.len(),
{
    if k == gs.len() {
        assert(gs.take(k) =~= gs);
        assert(gs.skip(k) =~= Seq::<GroupView>::empty());
        assert(groups_ids(gs) + Seq::<usize>::empty() =~= groups_ids(gs));
    } else {
        let d = gs.drop_last();
        lemma_groups_ids_split(d, k);
        assert(d.take(k) =~= gs.take(k));
        assert(gs.skip(k).drop_last() =~= d.skip(k));
        assert(gs.skip(k).last() == gs.last());
        assert(groups_ids(gs.take(k)) + groups_ids(d.skip(k)) + ids_of(gs.last().cpus)
            =~= groups_ids(gs.take(k)) + (groups_ids(d.skip(k)) + ids_of(gs.last().cpus)));
    }
}

/// Marking `id` as used among CPUs `0..n`: refused where it is not below `n` or already used.
pub open spec fn mark_one(seen: Set<usize>, id: usize, n: usize) -> core::result::Result<
    Set<usize>,
    Error,
> {
    if id >= n {
        Err(Error::CpuIndexTooHigh)
    } else if seen.contains(id) {
        Err(Error::CpuIndexOverlaps)
    } else {
        Ok(seen.insert(id))
    }
}

/// Marking the ids in turn, stopping at the first refusal.
pub open spec fn mark_all(seen: Set<usize>, ids: Seq<usize>, n: usize) -> core::result::Result<
    Set<usize>,
    Error,
>
    decreases ids.len(),
{
    if ids.len() == 0 {
        Ok(seen)
    } else {
        match mark_all(seen, ids.drop_last(), n) {
            Err(e) => Err(e),
            Ok(s) => mark_one(s, ids.last(), n),
        }
    }
}

/// Marking two lists in a row is marking their concatenation.
pub proof fn lemma_mark_all_append(seen: Set<usize>, a: Seq<usize>, b: Seq<usize>, n: usize)
    ensures
        mark_all(seen, a + b, n) == match mark_all(seen, a, n) {
            Err(e) => Err(e),
            Ok(s) => mark_all(s, b, n),
        },
    decreases b.len(),
{
    if b.len() == 0 {
        assert(a + b =~= a);
    } else {
        lemma_mark_all_append(seen, a, b.drop_last(), n);
        assert((a + b).drop_last() =~= a + b.drop_last());
    }
}

/// A refusal within a prefix is the outcome of the whole list.
pub proof fn lemma_mark_all_prefix_err(seen: Set<usize>, ids: Seq<usize>, k: int, n: usize)
    requires
        0 <= k <= ids.len(),
        mark_all(seen, ids.take(k), n) is Err,
    ensures
        mark_all(seen, ids, n) == mark_all(seen, ids.take(k), n),
    decreases ids.len() - k,
{
    if k < ids.len() {
        assert(ids.take(k + 1).drop_last() =~= ids.take(k));
        lemma_mark_all_prefix_err(seen, ids, k + 1, n);
    } else {
        assert(ids.take(k) =~= ids);
    }
}

/// The groups that the texts name, one each, or the first error among them.
pub open spec fn groups_from_texts(ps: Seq<Seq<char>>) -> core::result::Result<
    Seq<GroupView>,
    Error,
>
    decreases ps.len(),
{
    if ps.len() == 0 {
        Ok(Seq::empty())
    } else {
        match groups_from_texts(ps.drop_last()) {
            Err(e) => Err(e),
            Ok(gs) => match group_from_text(ps.last()) {
                Err(e) => Err(e),
                Ok(g) => Ok(gs.push(g)),
            },
        }
    }
}

/// An error in some prefix of the texts is the error of all of them.
proof fn lemma_groups_prefix_err(ps: Seq<Seq<char>>, k: int)
    requires
        0 <= k <= ps.len(),
        groups_from_texts(ps.take(k)) is Err,
    ensures
        groups_from_texts(ps) == groups_from_texts(ps.take(k)),
    decreases ps.len() - k,
{
    if k < ps.len() {
        assert(ps.take(k + 1).drop_last() =~= ps.take(k));
        lemma_groups_prefix_err(ps, k + 1);
    } else {
        assert(ps.take(k) =~= ps);
    }
}

/// The views of a list of strings.
pub open spec fn string_views(ss: Seq<String>) -> Seq<Seq<char>> {
    ss.map_values(|s: String| s@)
}

/// What the arguments name, for a machine whose CPU ids are below `ncpu`: the groups, sorted
/// by total with equal totals kept in argument order; refused where an argument does not read
/// as a group, where there is no group, and where, group after group in that order, a CPU id
/// is not below `ncpu` or was already named.
pub open spec fn groups_from_args(args: Seq<Seq<char>>, ncpu: usize) -> core::result::Result<
    Seq<GroupView>,
    Error,
> {
    match groups_from_texts(args) {
        Err(e) => Err(e),
        Ok(gs) => if gs.len() == 0 {
            Err(Error::NoCpuGroups)
        } else {
            let sorted = sort_by_key(gs);
            match mark_all(Set::empty(), groups_ids(sorted), ncpu) {
                Err(e) => Err(e),
                Ok(_) => Ok(sorted),
            }
        },
    }
}

/// The CPU groups given on the command line.
pub struct Arg {
    pub cpu_groups: Vec<CpuGroup>,
}

impl Arg {
    /// Reads one group per argument, for a machine whose CPU ids are below `ncpu`.
    pub fn parse(args: &[String], ncpu: usize) -> (r: Result<Self>)
        ensures
            match groups_from_args(string_views(args@), ncpu) {
                Ok(gs) => r matches Ok(a) && group_views(a.cpu_groups@) == gs,
                Err(e) => r matches Err(e2) && e2 == e,
            },
    {
        let ghost texts = string_views(args@);
        let mut groups: Vec<CpuGroup> = Vec::new();
        let mut i: usize = 0;
        proof {
            assert(texts.take(0) =~= Seq::<Seq<char>>::empty());
            assert(group_views(groups@) =~= Seq::<GroupView>::empty());
        }
        while i < args.len()
            invariant
                i <= args@.len(),
                texts == string_views(args@),
                groups_from_texts(texts.take(i as int)) == Ok::<Seq<GroupView>, Error>(
                    group_views(groups@),
                ),
            decreases args@.len() - i,
        {
            proof {
                assert(texts.take(i + 1).drop_last() =~= texts.take(i as int));
                assert(texts.take(i + 1).last() == args@[i as int]@);
            }
            let g = match CpuGroup::try_from(args[i].as_str()) {
                Ok(g) => g,
                Err(e) => {
                    proof {
                        lemma_groups_prefix_err(texts, i + 1);
                    }
                    return Err(e);
                },
            };
            let ghost before = groups@;
            groups.push(g);
            proof {
                assert(group_views(groups@) =~= group_views(before).push(g@));
            }
            i += 1;
        }
        proof {
            assert(texts.take(i as int) =~= texts);
        }
        if groups.len() == 0 {
            return Err(Error::NoCpuGroups);
        }
        let ghost unsorted = groups@;
        sort_stable(&mut groups);
        let ghost sorted = group_views(groups@);
        proof {
            crate::order::lemma_sort_map(unsorted, group_view_fn());
        }
        let mut seen = SeenCpus::new(ncpu);
        let mut j: usize = 0;
        proof {
            assert(sorted.take(0) =~= Seq::<GroupView>::empty());
            assert(mark_all(Set::empty(), Seq::<usize>::empty(), ncpu) == Ok::<Set<usize>, Error>(
                Set::empty(),
            ));
        }
        while j < groups.len()
            invariant
                j <= groups@.len(),
                sorted == group_views(groups@),
                texts == string_views(args@),
                groups_from_texts(texts) == Ok::<Seq<GroupView>, Error>(group_views(unsorted)),
                group_views(unsorted).len() > 0,
                sort_by_key(group_views(unsorted)) == sorted,
                seen.seen_cpus@.len() == ncpu,
                mark_all(Set::empty(), groups_ids(sorted.take(j as int)), ncpu) == Ok::<
                    Set<usize>,
                    Error,
                >(seen.marked()),
            decreases groups@.len() - j,
        {
            proof {
                assert(sorted.take(j + 1).drop_last() =~= sorted.take(j as int));
                assert(sorted.take(j + 1).last() == groups@[j as int]@);
                lemma_mark_all_append(
                    Set::empty(),
                    groups_ids(sorted.take(j as int)),
                    ids_of(groups@[j as int]@.cpus),
                    ncpu,
                );
            }
            match seen.mark_group(&groups[j]) {
                Ok(()) => {},
                Err(e) => {
                    proof {
                        lemma_groups_ids_split(sorted, j + 1);
                        lemma_mark_all_append(
                            Set::empty(),
                            groups_ids(sorted.take(j + 1)),
                            groups_ids(sorted.skip(j + 1)),
                            ncpu,
                        );
                    }
                    return Err(e);
                },
            }
            j += 1;
        }
        proof {
            assert(sorted.take(j as int) =~= sorted);
        }
        Ok(Arg { cpu_groups: groups })
    }
}

/// A [`Cpu`] as reading a text gives it: a single CPU, or a range `A-B` with `A < B`.
pub open spec fn well_formed(c: CpuView) -> bool {
    match c {
        CpuView::Single(_) => true,
        CpuView::Range(r) => !r.exhausted && r.start < r.end,
    }
}

/// Every CPU read from texts is well formed.
proof fn lemma_cpus_from_texts_well_formed(ps: Seq<Seq<char>>)
    ensures
        cpus_from_texts(ps) matches Ok(cs) ==> forall|i: int|
            0 <= i < cs.len() ==> well_formed(#[trigger] cs[i]),
    decreases ps.len(),
{
    if ps.len() > 0 {
        lemma_cpus_from_texts_well_formed(ps.drop_last());
    }
}

/// The count of a list of well-formed CPUs is the number of ids it names.
proof fn lemma_count_is_len(cs: Seq<CpuView>)
    requires
        forall|i: int| 0 <= i < cs.len() ==> well_formed(#[trigger] cs[i]),
    ensures
        count_of(cs) == ids_of(cs).len(),
    decreases cs.len(),
{
    if cs.len() > 0 {
        lemma_count_is_len(cs.drop_last());
        assert(well_formed(cs[cs.len() - 1]));
    }
}

/// A group's total is the number of CPU ids it names, where that number fits in `usize`.
pub proof fn law_group_total(s: Seq<char>)
    ensures
        group_from_text(s) matches Ok(g) ==> (ids_of(g.cpus).len() <= usize::MAX ==> g.total_cpus
            == ids_of(g.cpus).len()),
{
    let ps = split_char(s, ',');
    lemma_cpus_from_texts_well_formed(ps);
    if let Ok(cs) = cpus_from_texts(ps) {
        lemma_count_is_len(cs);
        if ids_of(cs).len() <= usize::MAX {
            vstd::arithmetic::div_mod::lemma_small_mod(ids_of(cs).len(), usize::MAX as nat + 1);
        }
    }
}

/// All ids are below `n` and none is already marked.
pub open spec fn fresh_below(seen: Set<usize>, ids: Seq<usize>, n: usize) -> bool {
    forall|i: int| 0 <= i < ids.len() ==> ids[i] < n && !seen.contains(#[trigger] ids[i])
}

/// No id occurs twice.
pub open spec fn distinct(ids: Seq<usize>) -> bool {
    forall|i: int, j: int| 0 <= i < j < ids.len() ==> ids[i] != ids[j]
}

/// Marking succeeds exactly when the ids are below `n` and distinct from each other and from
/// those already marked; the marked set then gains exactly the ids.
pub proof fn lemma_mark_all_ok(seen: Set<usize>, ids: Seq<usize>, n: usize)
    ensures
        mark_all(seen, ids, n) is Ok <==> fresh_below(seen, ids, n) && distinct(ids),
        mark_all(seen, ids, n) matches Ok(s) ==> forall|x: usize|
            #[trigger] s.contains(x) <==> seen.contains(x) || ids.contains(x),
    decreases ids.len(),
{
    if ids.len() > 0 {
        let d = ids.drop_last();
        let x = ids.last();
        let last = ids.len() - 1;
        lemma_mark_all_ok(seen, d, n);
        if fresh_below(seen, ids, n) && distinct(ids) {
            assert forall|i: int| 0 <= i < d.len() implies d[i] < n && !seen.contains(
                #[trigger] d[i],
            ) by {
                assert(d[i] == ids[i]);
            }
            assert forall|i: int, j: int| 0 <= i < j < d.len() implies d[i] != d[j] by {
                assert(d[i] == ids[i] && d[j] == ids[j]);
            }
            assert(!d.contains(x)) by {
                if d.contains(x) {
                    let i = choose|i: int| 0 <= i < d.len() && d[i] == x;
                    assert(ids[i] == ids[last]);
                }
            }
            assert(ids[last] == x);
        }
        if let Ok(s) = mark_all(seen, d, n) {
            if x < n && !s.contains(x) {
                assert forall|i: int| 0 <= i < ids.len() implies ids[i] < n && !seen.contains(
                    #[trigger] ids[i],
                ) by {
                    if i < last {
                        assert(d[i] == ids[i]);
                    }
                }
                assert forall|i: int, j: int| 0 <= i < j < ids.len() implies ids[i] != ids[j] by {
                    assert(d[i] == ids[i]);
                    if j < last {
                        assert(d[j] == ids[j]);
                    } else {
                        assert(d.contains(d[i]));
                    }
                }
                assert forall|y: usize| #[trigger]
                    s.insert(x).contains(y) <==> seen.contains(y) || ids.contains(y) by {
                    if d.contains(y) {
                        let i = choose|i: int| 0 <= i < d.len() && d[i] == y;
                        assert(ids[i] == y);
                    }
                    if ids.contains(y) && y != x {
                        let i = choose|i: int| 0 <= i < ids.len() && ids[i] == y;
                        assert(d[i] == y);
                    }
                    if y == x {
                        assert(ids[last] == y);
                    }
                }
            }
        }
    } else {
        assert(mark_all(seen, ids, n) == Ok::<Set<usize>, Error>(seen));
    }
}

/// How many times `x` occurs in `s`.
pub open spec fn occurrences(s: Seq<usize>, x: usize) -> nat
    decreases s.len(),
{
    if s.len() == 0 {
        0
    } else {
        occurrences(s.drop_last(), x) + if s.last() == x {
            1nat
        } else {
            0nat
        }
    }
}

/// Occurrences in a concatenation add up.
proof fn lemma_occurrences_append(a: Seq<usize>, b: Seq<usize>, x: usize)
    ensures
        occurrences(a + b, x) == occurrences(a, x) + occurrences(b, x),
    decreases b.len(),
{
    if b.len() == 0 {
        assert(a + b =~= a);
    } else {
        lemma_occurrences_append(a, b.drop_last(), x);
        assert((a + b).drop_last() =~= a + b.drop_last());
    }
}

/// An element occurs where it is contained.
proof fn lemma_occurrences_contains(s: Seq<usize>, x: usize)
    ensures
        s.contains(x) <==> occurrences(s, x) > 0,
    decreases s.len(),
{
    if s.len() > 0 {
        let d = s.drop_last();
        lemma_occurrences_contains(d, x);
        if d.contains(x) {
            let i = choose|i: int| 0 <= i < d.len() && d[i] == x;
            assert(s[i] == x);
        }
        if s.contains(x) && s.last() != x {
            let i = choose|i: int| 0 <= i < s.len() && s[i] == x;
            assert(d[i] == x);
        }
        if s.last() == x {
            assert(s[s.len() - 1] == x);
        }
    }
}

/// No id occurs twice exactly when each occurs at most once.
proof fn lemma_distinct_occurrences(s: Seq<usize>)
    ensures
        distinct(s) <==> forall|x: usize| #[trigger] occurrences(s, x) <= 1,
    decreases s.len(),
{
    if s.len() > 0 {
        let d = s.drop_last();
        let y = s.last();
        let l = s.len() - 1;
        lemma_distinct_occurrences(d);
        lemma_occurrences_contains(d, y);
        if distinct(s) {
            assert forall|i: int, j: int| 0 <= i < j < d.len() implies d[i] != d[j] by {
                assert(d[i] == s[i] && d[j] == s[j]);
            }
            if d.contains(y) {
                let i = choose|i: int| 0 <= i < d.len() && d[i] == y;
                assert(s[i] == s[l]);
            }
            assert forall|x: usize| #[trigger] occurrences(s, x) <= 1 by {
                assert(occurrences(d, x) <= 1);
            }
        }
        if forall|x: usize| #[trigger] occurrences(s, x) <= 1 {
            assert forall|x: usize| #[trigger] occurrences(d, x) <= 1 by {
                assert(occurrences(s, x) <= 1);
            }
            assert(occurrences(s, y) <= 1);
            assert forall|i: int, j: int| 0 <= i < j < s.len() implies s[i] != s[j] by {
                if j < l {
                    assert(d[i] == s[i] && d[j] == s[j]);
                } else {
                    assert(d[i] == s[i]);
                    assert(d.contains(d[i]));
                }
            }
        }
    }
}

/// Two lists in which every id occurs equally often agree on being below `n` and on being
/// free of repeats.
proof fn lemma_same_occurrences(a: Seq<usize>, b: Seq<usize>, n: usize)
    requires
        forall|x: usize| #[trigger] occurrences(a, x) == occurrences(b, x),
    ensures
        fresh_below(Set::empty(), a, n) <==> fresh_below(Set::empty(), b, n),
        distinct(a) <==> distinct(b),
{
    lemma_distinct_occurrences(a);
    lemma_distinct_occurrences(b);
    if distinct(a) {
        assert forall|x: usize| #[trigger] occurrences(b, x) <= 1 by {
            assert(occurrences(a, x) <= 1);
        }
    }
    if distinct(b) {
        assert forall|x: usize| #[trigger] occurrences(a, x) <= 1 by {
            assert(occurrences(b, x) <= 1);
        }
    }
    if fresh_below(Set::empty(), a, n) {
        assert forall|i: int| 0 <= i < b.len() implies b[i] < n && !Set::<usize>::empty().contains(
            #[trigger] b[i],
        ) by {
            lemma_occurrences_contains(b, b[i]);
            lemma_occurrences_contains(a, b[i]);
            assert(occurrences(a, b[i]) == occurrences(b, b[i]));
        }
    }
    if fresh_below(Set::empty(), b, n) {
        assert forall|i: int| 0 <= i < a.len() implies a[i] < n && !Set::<usize>::empty().contains(
            #[trigger] a[i],
        ) by {
            lemma_occurrences_contains(b, a[i]);
            lemma_occurrences_contains(a, a[i]);
            assert(occurrences(a, a[i]) == occurrences(b, a[i]));
        }
    }
}

/// The ids of two lists of groups in a row.
proof fn lemma_groups_ids_append(a: Seq<GroupView>, b: Seq<GroupView>)
    ensures
        groups_ids(a + b) == groups_ids(a) + groups_ids(b),
    decreases b.len(),
{
    if b.len() == 0 {
        assert(a + b =~= a);
        assert(groups_ids(a) + Seq::<usize>::empty() =~= groups_ids(a));
    } else {
        lemma_groups_ids_append(a, b.drop_last());
        assert((a + b).drop_last() =~= a + b.drop_last());
        assert(groups_ids(a) + groups_ids(b.drop_last()) + ids_of(b.last().cpus) =~= groups_ids(a)
            + (groups_ids(b.drop_last()) + ids_of(b.last().cpus)));
    }
}

/// Splitting the groups by total keeps how often each id occurs.
proof fn lemma_groups_split_occurrences(t: Seq<GroupView>, k: int, x: usize)
    ensures
        occurrences(groups_ids(t.filter(key_le::<GroupView>(k))), x) + occurrences(
            groups_ids(t.filter(key_gt::<GroupView>(k))),
            x,
        ) == occurrences(groups_ids(t), x),
    decreases t.len(),
{
    reveal(Seq::filter);
    if t.len() > 0 {
        let d = t.drop_last();
        let g = t.last();
        lemma_groups_split_occurrences(d, k, x);
        lemma_occurrences_append(groups_ids(d), ids_of(g.cpus), x);
        if g.total_cpus <= k {
            let f = d.filter(key_le::<GroupView>(k));
            assert(f.push(g).drop_last() =~= f);
            lemma_occurrences_append(groups_ids(f), ids_of(g.cpus), x);
        } else {
            let f = d.filter(key_gt::<GroupView>(k));
            assert(f.push(g).drop_last() =~= f);
            lemma_occurrences_append(groups_ids(f), ids_of(g.cpus), x);
        }
    }
}

/// Sorting the groups keeps how often each id occurs among their ids.
pub proof fn lemma_sort_groups_occurrences(gs: Seq<GroupView>, x: usize)
    ensures
        occurrences(groups_ids(sort_by_key(gs)), x) == occurrences(groups_ids(gs), x),
    decreases gs.len(),
{
    if gs.len() > 0 {
        let d = gs.drop_last();
        let g = gs.last();
        let t = sort_by_key(d);
        lemma_sort_groups_occurrences(d, x);
        let a = t.filter(key_le::<GroupView>(g.key()));
        let b = t.filter(key_gt::<GroupView>(g.key()));
        lemma_groups_ids_append(a.push(g), b);
        assert(a.push(g).drop_last() =~= a);
        lemma_occurrences_append(groups_ids(a.push(g)), groups_ids(b), x);
        lemma_occurrences_append(groups_ids(a), ids_of(g.cpus), x);
        lemma_groups_split_occurrences(t, g.key(), x);
        lemma_occurrences_append(groups_ids(d), ids_of(g.cpus), x);
    }
}

/// A refusal of an id too high names an id not below `n`; a refusal of an overlap names an id
/// that occurs twice.
proof fn lemma_mark_all_err(ids: Seq<usize>, n: usize)
    ensures
        mark_all(Set::empty(), ids, n) == Err::<Set<usize>, Error>(Error::CpuIndexTooHigh)
            ==> exists|i: int| 0 <= i < ids.len() && ids[i] >= n,
        mark_all(Set::empty(), ids, n) == Err::<Set<usize>, Error>(Error::CpuIndexOverlaps)
            ==> !distinct(ids),
    decreases ids.len(),
{
    if ids.len() > 0 {
        let d = ids.drop_last();
        let l = ids.len() - 1;
        lemma_mark_all_err(d, n);
        lemma_mark_all_ok(Set::empty(), d, n);
        if mark_all(Set::empty(), d, n) is Err {
            if exists|i: int| 0 <= i < d.len() && d[i] >= n {
                let i = choose|i: int| 0 <= i < d.len() && d[i] >= n;
                assert(ids[i] == d[i]);
            }
            if !distinct(d) {
                let (i, j) = choose|i: int, j: int| 0 <= i < j < d.len() && d[i] == d[j];
                assert(ids[i] == d[i] && ids[j] == d[j]);
            }
        } else {
            assert(ids[l] == ids.last());
            let st = mark_all(Set::empty(), d, n)->Ok_0;
            if st.contains(ids.last()) {
                assert(d.contains(ids.last()));
                let i = choose|i: int| 0 <= i < d.len() && d[i] == ids.last();
                assert(ids[i] == ids[l]);
            }
        }
    }
}

/// Reading the arguments succeeds exactly when every argument reads as a group, there is at
/// least one, and the ids of all groups are below `ncpu` and pairwise distinct; the result is
/// then the groups sorted by total. A refusal of an id too high names an id not below `ncpu`,
/// and a refusal of an overlap names an id given twice.
pub proof fn law_parse_outcome(args: Seq<Seq<char>>, ncpu: usize)
    ensures
        groups_from_args(args, ncpu) is Ok <==> (groups_from_texts(args) matches Ok(gs) && (gs.len()
            > 0 && fresh_below(Set::empty(), groups_ids(gs), ncpu) && distinct(groups_ids(gs)))),
        groups_from_texts(args) matches Ok(gs) ==> (groups_from_args(args, ncpu) is Ok
            ==> groups_from_args(args, ncpu) == Ok::<Seq<GroupView>, Error>(sort_by_key(gs))),
        groups_from_args(args, ncpu) == Err::<Seq<GroupView>, Error>(Error::CpuIndexTooHigh)
            ==> (groups_from_texts(args) matches Ok(gs) && exists|i: int|
            0 <= i < groups_ids(gs).len() && groups_ids(gs)[i] >= ncpu),
        groups_from_args(args, ncpu) == Err::<Seq<GroupView>, Error>(Error::CpuIndexOverlaps)
            ==> (groups_from_texts(args) matches Ok(gs) && !distinct(groups_ids(gs))),
{
    if let Ok(gs) = groups_from_texts(args) {
        let sorted = sort_by_key(gs);
        let a = groups_ids(sorted);
        let b = groups_ids(gs);
        assert forall|x: usize| #[trigger] occurrences(a, x) == occurrences(b, x) by {
            lemma_sort_groups_occurrences(gs, x);
        }
        lemma_same_occurrences(a, b, ncpu);
        lemma_mark_all_ok(Set::empty(), a, ncpu);
        lemma_mark_all_err(a, ncpu);
        if exists|i: int| 0 <= i < a.len() && a[i] >= ncpu {
            let i = choose|i: int| 0 <= i < a.len() && a[i] >= ncpu;
            let x = a[i];
            assert(a.contains(x));
            lemma_occurrences_contains(a, x);
            lemma_occurrences_contains(b, x);
            assert(occurrences(a, x) == occurrences(b, x));
            let j = choose|j: int| 0 <= j < b.len() && b[j] == x;
            assert(b[j] >= ncpu);
        }
    } else {
        lemma_texts_errors(args);
    }
}

/// Reading texts as groups fails only for a number that does not read or a range whose start is
/// not below its end.
proof fn lemma_texts_errors(ps: Seq<Seq<char>>)
    ensures
        groups_from_texts(ps) matches Err(e) ==> (e is ParseInt || e is InvalidCpuRange),
    decreases ps.len(),
{
    if ps.len() > 0 {
        lemma_texts_errors(ps.drop_last());
        lemma_cpus_texts_errors(split_char(ps.last(), ','));
    }
}

/// Reading texts as CPUs fails only for a number that does not read or a range whose start is
/// not below its end.
proof fn lemma_cpus_texts_errors(ps: Seq<Seq<char>>)
    ensures
        cpus_from_texts(ps) matches Err(e) ==> (e is ParseInt || e is InvalidCpuRange),
    decreases ps.len(),
{
    if ps.len() > 0 {
        lemma_cpus_texts_errors(ps.drop_last());
    }
}

/// The groups that the arguments give are sorted by total, hold the groups of the arguments
/// with, for each total, those of that total in argument order, and name CPU ids that are all
/// below `ncpu` and pairwise distinct across all groups.
pub proof fn law_parsed_groups(args: Seq<Seq<char>>, ncpu: usize)
    ensures
        groups_from_args(args, ncpu) matches Ok(gs) ==> {
            &&& gs.len() > 0
            &&& sorted_by_key(gs)
            &&& groups_from_texts(args) matches Ok(written) && forall|k: int|
                gs.filter(key_eq::<GroupView>(k)) == written.filter(key_eq::<GroupView>(k))
            &&& fresh_below(Set::empty(), groups_ids(gs), ncpu)
            &&& distinct(groups_ids(gs))
        },
{
    if let Ok(written) = groups_from_texts(args) {
        lemma_sort_sorted(written);
        assert forall|k: int|
            sort_by_key(written).filter(key_eq::<GroupView>(k)) == written.filter(
                key_eq::<GroupView>(k),
            ) by {
            lemma_sort_stable(written, k);
        }
        lemma_mark_all_ok(Set::empty(), groups_ids(sort_by_key(written)), ncpu);
    }
}

/// Marking CPU `id` in a table of used CPUs: the outcome and the table after.
pub open spec fn mark_table(seen: Seq<bool>, id: usize) -> (Result<()>, Seq<bool>) {
    if id >= seen.len() {
        (Err(Error::CpuIndexTooHigh), seen)
    } else if seen[id as int] {
        (Err(Error::CpuIndexOverlaps), seen)
    } else {
        (Ok(()), seen.update(id as int, true))
    }
}

/// The table after marking the ids in turn, whatever each outcome.
pub open spec fn mark_table_all(seen: Seq<bool>, ids: Seq<usize>) -> Seq<bool>
    decreases ids.len(),
{
    if ids.len() == 0 {
        seen
    } else {
        mark_table(mark_table_all(seen, ids.drop_last()), ids.last()).1
    }
}

/// Marking never changes the table's length and never clears an entry.
pub proof fn law_mark_keeps_marks(seen: Seq<bool>, ids: Seq<usize>)
    ensures
        mark_table_all(seen, ids).len() == seen.len(),
        forall|j: int| 0 <= j < seen.len() && seen[j] ==> #[trigger] mark_table_all(seen, ids)[j],
    decreases ids.len(),
{
    if ids.len() > 0 {
        law_mark_keeps_marks(seen, ids.drop_last());
    }
}

/// Once marking CPU `i` succeeds, marking it again after any further marks is refused as an
/// overlap.
pub proof fn law_mark_twice_overlaps(seen: Seq<bool>, i: usize, later: Seq<usize>)
    requires
        mark_table(seen, i).0 is Ok,
    ensures
        mark_table(mark_table_all(mark_table(seen, i).1, later), i).0 == Err::<(), Error>(
            Error::CpuIndexOverlaps,
        ),
{
    let after = mark_table(seen, i).1;
    assert(after[i as int]);
    law_mark_keeps_marks(after, later);
}

/// Which of the CPUs `0..n` the groups read so far use.
struct SeenCpus {
    seen_cpus: Vec<bool>,
}

impl SeenCpus {
    /// The CPUs marked as used.
    spec fn marked(&self) -> Set<usize> {
        Set::new(|i: usize| i < self.seen_cpus@.len() && self.seen_cpus@[i as int])
    }

    /// No CPU among `0..ncpu` used yet.
    fn new(ncpu: usize) -> (s: Self)
        ensures
            s.seen_cpus@.len() == ncpu,
            s.marked() == Set::<usize>::empty(),
    {
        let s = SeenCpus { seen_cpus: vec![false; ncpu] };
        assert(s.marked() =~= Set::<usize>::empty());
        s
    }

    /// Marks CPU `cpu_id` as used; refuses an id out of range or already used.
    fn mark(&mut self, cpu_id: usize) -> (r: Result<()>)
        ensures
            final(self).seen_cpus@.len() == old(self).seen_cpus@.len(),
            match mark_one(old(self).marked(), cpu_id, old(self).seen_cpus@.len() as usize) {
                Ok(s) => r is Ok && final(self).marked() == s && final(self).seen_cpus@ == old(
                    self,
                ).seen_cpus@.update(cpu_id as int, true),
                Err(e) => r == Err::<(), Error>(e) && final(self).seen_cpus@ == old(self).seen_cpus@,
            },
            (r, final(self).seen_cpus@) == mark_table(old(self).seen_cpus@, cpu_id),
    {
        if cpu_id >= self.seen_cpus.len() {
            return Err(Error::CpuIndexTooHigh);
        }
        if self.seen_cpus[cpu_id] {
            return Err(Error::CpuIndexOverlaps);
        }
        let ghost before = self.marked();
        self.seen_cpus.set(cpu_id, true);
        assert(self.marked() =~= before.insert(cpu_id));
        Ok(())
    }

    /// Marks every CPU that `cpu` names, in increasing order.
    fn mark_cpu(&mut self, cpu: &Cpu) -> (r: Result<()>)
        ensures
            final(self).seen_cpus@.len() == old(self).seen_cpus@.len(),
            match mark_all(old(self).marked(), cpu_ids(cpu@), old(self).seen_cpus@.len() as usize) {
                Ok(s) => r is Ok && final(self).marked() == s,
                Err(e) => r == Err::<(), Error>(e),
            },
    {
        let n = self.seen_cpus.len();
        let ghost s0 = self.marked();
        match cpu {
            Cpu::Single(id) => {
                assert(cpu_ids(cpu@).drop_last() =~= Seq::<usize>::empty());
                assert(mark_all(s0, Seq::<usize>::empty(), n) == Ok::<Set<usize>, Error>(s0));
                assert(mark_all(s0, cpu_ids(cpu@), n) == mark_one(s0, *id, n));
                self.mark(*id)
            },
            Cpu::Range(range) => {
                let ghost ids = cpu_ids(cpu@);
                if range.is_empty() {
                    assert(ids =~= Seq::<usize>::empty());
                    return Ok(());
                }
                let start = *range.start();
                let end = *range.end();
                let count = end - start;
                let mut k: usize = 0;
                proof {
                    assert(ids.take(0) =~= Seq::<usize>::empty());
                }
                loop
                    invariant_except_break
                        mark_all(s0, ids.take(k as int), n) == Ok::<Set<usize>, Error>(
                            self.marked(),
                        ),
                    invariant
                        k <= count,
                        count == end - start,
                        ids == cpu_ids(cpu@),
                        ids.len() == count + 1,
                        forall|j: int| 0 <= j < ids.len() ==> ids[j] == start + j,
                        n == self.seen_cpus@.len(),
                        n == old(self).seen_cpus@.len(),
                        s0 == old(self).marked(),
                    ensures
                        n == self.seen_cpus@.len(),
                        mark_all(s0, ids, n) == Ok::<Set<usize>, Error>(self.marked()),
                    decreases count - k,
                {
                    let ghost before = self.marked();
                    proof {
                        assert(ids.take(k + 1).drop_last() =~= ids.take(k as int));
                        assert(ids.take(k + 1).last() == start + k);
                    }
                    match self.mark(start + k) {
                        Ok(()) => {},
                        Err(e) => {
                            proof {
                                lemma_mark_all_prefix_err(s0, ids, k + 1, n);
                            }
                            return Err(e);
                        },
                    }
                    if k == count {
                        assert(ids.take(k + 1) =~= ids);
                        break;
                    }
                    k += 1;
                }
                assert(mark_all(s0, ids, n) == Ok::<Set<usize>, Error>(self.marked()));
                Ok(())
            },
        }
    }

    /// Marks every CPU of the group, in the order written.
    fn mark_group(&mut self, group: &CpuGroup) -> (r: Result<()>)
        ensures
            final(self).seen_cpus@.len() == old(self).seen_cpus@.len(),
            match mark_all(
                old(self).marked(),
                ids_of(group@.cpus),
                old(self).seen_cpus@.len() as usize,
            ) {
                Ok(s) => r is Ok && final(self).marked() == s,
                Err(e) => r == Err::<(), Error>(e),
            },
    {
        let n = self.seen_cpus.len();
        let ghost s0 = self.marked();
        let cpus = group.cpus();
        let ghost cs = group@.cpus;
        let mut c: usize = 0;
        proof {
            assert(cs.take(0) =~= Seq::<CpuView>::empty());
        }
        while c < cpus.len()
            invariant
                c <= cpus@.len(),
                cs == cpu_views(cpus@),
                n == self.seen_cpus@.len(),
                n == old(self).seen_cpus@.len(),
                s0 == old(self).marked(),
                cs == group@.cpus,
                mark_all(s0, ids_of(cs.take(c as int)), n) == Ok::<Set<usize>, Error>(
                    self.marked(),
                ),
            decreases cpus@.len() - c,
        {
            proof {
                assert(cs.take(c + 1).drop_last() =~= cs.take(c as int));
                assert(cs.take(c + 1).last() == cpus@[c as int]@);
                lemma_mark_all_append(s0, ids_of(cs.take(c as int)), cpu_ids(cpus@[c as int]@), n);
            }
            match self.mark_cpu(&cpus[c]) {
                Ok(()) => {},
                Err(e) => {
                    proof {
                        lemma_ids_of_split(cs, c + 1);
                        lemma_mark_all_append(
                            s0,
                            ids_of(cs.take(c + 1)),
                            ids_of(cs.skip(c + 1)),
                            n,
                        );
                    }
                    return Err(e);
                },
            }
            c += 1;
        }
        proof {
            assert(cs.take(c as int) =~= cs);
        }
        Ok(())
    }
}

} // verus!
