//! The number of CPUs of the machine, from the entries of `/sys/devices/system/cpu`.

use crate::arg::string_views;
use crate::text::{decimal_usize, parse_usize};
use vstd::prelude::*;
use vstd::string::StrSliceExecFns;

verus! {

/// The number in an entry name `cpuN`: the name starts with `cpu` and the rest reads as a
/// number.
pub open spec fn cpu_number(name: Seq<char>) -> Option<usize> {
    if name.len() >= 3 && name[0] == 'c' && name[1] == 'p' && name[2] == 'u' {
        decimal_usize(name.skip(3))
    } else {
        None
    }
}

/// How many CPUs an entry `cpuN` shows there are at least: `N + 1`, kept within `usize`.
pub open spec fn cpus_up_to(n: usize) -> usize {
    if n < usize::MAX {
        (n + 1) as usize
    } else {
        usize::MAX
    }
}

/// The number of CPUs that the entry names show: one more than the largest `N` among the
/// names `cpuN` (kept within `usize`), or 0 where there is none.
pub open spec fn cpu_count(names: Seq<Seq<char>>) -> usize
    decreases names.len(),
{
    if names.len() == 0 {
        0
    } else {
        let m = cpu_count(names.drop_last());
        match cpu_number(names.last()) {
            Some(v) => if cpus_up_to(v) > m {
                cpus_up_to(v)
            } else {
                m
            },
            None => m,
        }
    }
}

/// The count depends only on the numbers of the `cpuN` entries: it covers each of them, and it
/// is 0 or the count that one of them gives. Entries of other names change nothing.
pub proof fn law_cpu_count(names: Seq<Seq<char>>)
    ensures
        forall|i: int|
            0 <= i < names.len() && (#[trigger] cpu_number(names[i])) is Some ==> cpus_up_to(
                cpu_number(names[i])->0,
            ) <= cpu_count(names),
        cpu_count(names) == 0 || exists|i: int|
            0 <= i < names.len() && (#[trigger] cpu_number(names[i])) is Some && cpus_up_to(
                cpu_number(names[i])->0,
            ) == cpu_count(names),
    decreases names.len(),
{
    if names.len() > 0 {
        let d = names.drop_last();
        law_cpu_count(d);
        assert forall|i: int|
            0 <= i < names.len() && (#[trigger] cpu_number(names[i])) is Some implies cpus_up_to(
                cpu_number(names[i])->0,
            ) <= cpu_count(names) by {
            if i < names.len() - 1 {
                assert(names[i] == d[i]);
            }
        }
        if cpu_count(names) != 0 {
            if cpu_count(names) == cpu_count(d) {
                let i = choose|i: int|
                    0 <= i < d.len() && (#[trigger] cpu_number(d[i])) is Some && cpus_up_to(
                        cpu_number(d[i])->0,
                    ) == cpu_count(d);
                assert(names[i] == d[i]);
            } else {
                assert(cpu_number(names[names.len() - 1]) == cpu_number(names.last()));
            }
        }
    }
}

/// The number in an entry name `cpuN`.
pub fn cpu_entry_number(name: &str) -> (r: Option<usize>)
    ensures
        r == cpu_number(name@),
{
    let n = name.unicode_len();
    if n < 3 || name.get_char(0) != 'c' || name.get_char(1) != 'p' || name.get_char(2) != 'u' {
        return None;
    }
    match parse_usize(name.substring_char(3, n)) {
        Ok(v) => Some(v),
        Err(_) => None,
    }
}

/// The number of CPUs that the entry names of `/sys/devices/system/cpu` show: CPUs `0..=N`
/// for the largest `N` among the names `cpuN`, or none.
pub fn ncpu(entry_names: &[String]) -> (r: usize)
    ensures
        r == cpu_count(string_views(entry_names@)),
{
    let ghost names = string_views(entry_names@);
    let mut count: usize = 0;
    let mut i: usize = 0;
    proof {
        assert(names.take(0) =~= Seq::<Seq<char>>::empty());
    }
    while i < entry_names.len()
        invariant
            i <= entry_names@.len(),
            names == string_views(entry_names@),
            count == cpu_count(names.take(i as int)),
        decreases entry_names@.len() - i,
    {
        proof {
            assert(names.take(i + 1).drop_last() =~= names.take(i as int));
            assert(names.take(i + 1).last() == entry_names@[i as int]@);
        }
        match cpu_entry_number(entry_names[i].as_str()) {
            Some(v) => {
                let up_to = if v < usize::MAX {
                    v + 1
                } else {
                    usize::MAX
                };
                if up_to > count {
                    count = up_to;
                }
            },
            None => {},
        }
        i += 1;
    }
    proof {
        assert(names.take(i as int) =~= names);
    }
    count
}

} // verus!
