//! CPU affinity masks: one bit per CPU, in 64-bit words, as `sched_setaffinity` takes them.

use crate::arg::{string_views, cpu_ids, ids_of, lemma_ids_of_split, Cpu, CpuGroup, CpuView};
use crate::error::{Error, Result};
use crate::ncpu::{cpu_count, ncpu};
use vstd::prelude::*;

verus! {

/// What the affinity masks are sized for: the number of CPUs of the machine.
#[derive(Copy, Clone)]
pub struct AffinityManager {
    ncpu: usize,
}

impl AffinityManager {
    /// The number of CPUs that masks built by this manager hold: CPUs `0..ncpu`.
    pub closed spec fn ncpu(&self) -> usize {
        self.ncpu
    }

    /// A manager for the machine whose `/sys/devices/system/cpu` holds these entry names: its
    /// CPUs are `0..=N` for the largest `N` among the names `cpuN`.
    pub fn new(entry_names: &[String]) -> (m: Self)
        ensures
            m.ncpu() == cpu_count(string_views(entry_names@)),
    {
        Self { ncpu: ncpu(entry_names) }
    }

    /// A manager for a machine with `ncpu` CPUs.
    pub fn mock_new(ncpu: usize) -> (m: Self)
        ensures
            m.ncpu() == ncpu,
    {
        Self { ncpu }
    }

    /// The number of CPUs that masks built by this manager hold.
    pub fn cpu_count(&self) -> (n: usize)
        ensures
            n == self.ncpu(),
    {
        self.ncpu
    }
}

/// The number of 64-bit words that hold `ncpu` bits: `ncpu.div_ceil(64)`.
pub open spec fn words_for(ncpu: usize) -> nat {
    ((ncpu as nat + 63) / 64) as nat
}

/// Bit `b` of `w`, counted from the least significant.
pub open spec fn bit_of(w: u64, b: usize) -> bool {
    (w >> (b as u64)) & 1u64 == 1u64
}

/// The CPUs whose bit a list of words sets: CPU `id` is bit `id % 64` of word `id / 64`.
pub open spec fn cpus_of(words: Seq<u64>) -> Set<usize> {
    Set::new(|id: usize| id / 64 < words.len() && bit_of(words[(id / 64) as int], id % 64))
}

/// Setting a bit sets that bit and leaves the others.
proof fn lemma_bit_set(w: u64, k: u64, b: u64)
    by (bit_vector)
    requires
        k < 64,
        b < 64,
    ensures
        ((w | (1u64 << k)) >> b) & 1u64 == 1u64 <==> (((w >> b) & 1u64 == 1u64) || b == k),
{
}

/// No bit of zero is set.
proof fn lemma_zero_bits(b: u64)
    by (bit_vector)
    requires
        b < 64,
    ensures
        (0u64 >> b) & 1u64 != 1u64,
{
}

/// Every id is below `n`.
pub open spec fn all_below(ids: Seq<usize>, n: usize) -> bool {
    forall|i: int| 0 <= i < ids.len() ==> ids[i] < n
}

/// Membership in a concatenation.
pub proof fn lemma_contains_concat(a: Seq<usize>, b: Seq<usize>, x: usize)
    ensures
        (a + b).contains(x) <==> a.contains(x) || b.contains(x),
{
    if a.contains(x) {
        let i = choose|i: int| 0 <= i < a.len() && a[i] == x;
        assert((a + b)[i] == x);
    }
    if b.contains(x) {
        let i = choose|i: int| 0 <= i < b.len() && b[i] == x;
        assert((a + b)[a.len() + i] == x);
    }
    if (a + b).contains(x) {
        let i = choose|i: int| 0 <= i < (a + b).len() && (a + b)[i] == x;
        if i < a.len() {
            assert(a[i] == x);
        } else {
            assert(b[i - a.len()] == x);
        }
    }
}

/// Setting the same CPU's bit twice gives the words that setting it once gives.
pub proof fn law_set_twice(words: Seq<u64>, id: usize)
    requires
        id / 64 < words.len(),
    ensures
        ({
            let i = (id / 64) as int;
            let bit = 1u64 << ((id % 64) as u64);
            let once = words.update(i, words[i] | bit);
            once.update(i, once[i] | bit) == once
        }),
{
    let i = (id / 64) as int;
    let w = words[i];
    let k = (id % 64) as u64;
    assert((w | (1u64 << k)) | (1u64 << k) == w | (1u64 << k)) by (bit_vector);
    let once = words.update(i, w | (1u64 << k));
    assert(once.update(i, once[i] | (1u64 << k)) =~= once);
}

/// An affinity mask: bit `id % 64` of word `id / 64` is set when CPU `id` is allowed.
#[derive(Debug, PartialEq)]
pub struct CpuSet(pub Vec<u64>);

impl CpuSet {
    /// The CPUs that the mask allows.
    pub open spec fn cpus(&self) -> Set<usize> {
        cpus_of(self.0@)
    }

    /// A mask with no CPU, of `ncpu.div_ceil(64)` words.
    fn zeroed(ncpu: usize) -> (s: Self)
        ensures
            s.0@.len() == words_for(ncpu),
            forall|i: int| 0 <= i < s.0@.len() ==> s.0@[i] == 0,
            s.cpus() == Set::<usize>::empty(),
    {
        let words = ncpu / 64 + if ncpu % 64 == 0 {
            0
        } else {
            1
        };
        let s = CpuSet(vec![0u64; words]);
        proof {
            assert forall|i: int| 0 <= i < s.0@.len() implies s.0@[i] == 0 by {
                assert(vstd::pervasive::cloned(0u64, s.0@[i]));
            }
            assert forall|id: usize| !s.cpus().contains(id) by {
                if id / 64 < s.0@.len() {
                    lemma_zero_bits((id % 64) as u64);
                }
            }
            assert(s.cpus() =~= Set::<usize>::empty());
        }
        s
    }

    /// An empty mask sized for the manager's machine.
    pub fn new(affinity_manager: AffinityManager) -> (s: Self)
        ensures
            s.0@.len() == words_for(affinity_manager.ncpu()),
            forall|i: int| 0 <= i < s.0@.len() ==> s.0@[i] == 0,
            s.cpus() == Set::<usize>::empty(),
    {
        Self::zeroed(affinity_manager.ncpu)
    }

    /// An empty mask sized for a machine with `ncpu` CPUs.
    pub fn mock_new(ncpu: usize) -> (s: Self)
        ensures
            s.0@.len() == words_for(ncpu),
            forall|i: int| 0 <= i < s.0@.len() ==> s.0@[i] == 0,
            s.cpus() == Set::<usize>::empty(),
    {
        Self::zeroed(ncpu)
    }

    /// Sets the bit of CPU `id`, whose word must exist.
    pub fn mock_set(&mut self, id: usize)
        requires
            id / 64 < old(self).0@.len(),
        ensures
            final(self).0@ == old(self).0@.update(
                (id / 64) as int,
                old(self).0@[(id / 64) as int] | (1u64 << ((id % 64) as u64)),
            ),
            final(self).cpus() == old(self).cpus().insert(id),
    {
        let i = id / 64;
        let w = self.0[i];
        let ghost before = self.0@;
        self.0.set(i, w | (1u64 << ((id % 64) as u64)));
        proof {
            assert forall|x: usize| #[trigger]
                self.cpus().contains(x) == (cpus_of(before).contains(x) || x == id) by {
                if x / 64 < before.len() {
                    lemma_bit_set(before[(x / 64) as int], (id % 64) as u64, (x % 64) as u64);
                }
            }
            assert(self.cpus() =~= cpus_of(before).insert(id));
        }
    }

    /// Sets the bit of CPU `id`; refuses an id that is not a CPU of the manager's machine.
    fn set(&mut self, affinity_manager: AffinityManager, id: usize) -> (r: Result<()>)
        requires
            old(self).0@.len() == words_for(affinity_manager.ncpu()),
        ensures
            final(self).0@.len() == old(self).0@.len(),
            id >= affinity_manager.ncpu() ==> r == Err::<(), Error>(Error::CpuIndexTooHigh)
                && final(self).0@ == old(self).0@,
            id < affinity_manager.ncpu() ==> r is Ok && final(self).cpus() == old(
                self,
            ).cpus().insert(id),
    {
        if id >= affinity_manager.ncpu {
            Err(Error::CpuIndexTooHigh)
        } else {
            self.mock_set(id);
            Ok(())
        }
    }

    /// Sets the bits of the CPUs that `cpu` names, in increasing order; refuses an id that is
    /// not a CPU of the manager's machine.
    fn set_cpu(&mut self, affinity_manager: AffinityManager, cpu: &Cpu) -> (r: Result<()>)
        requires
            old(self).0@.len() == words_for(affinity_manager.ncpu()),
        ensures
            final(self).0@.len() == old(self).0@.len(),
            all_below(cpu_ids(cpu@), affinity_manager.ncpu()) ==> r is Ok && forall|x: usize|
                #[trigger] final(self).cpus().contains(x) <==> old(self).cpus().contains(x)
                    || cpu_ids(cpu@).contains(x),
            !all_below(cpu_ids(cpu@), affinity_manager.ncpu()) ==> r == Err::<(), Error>(
                Error::CpuIndexTooHigh,
            ),
    {
        let ghost n = affinity_manager.ncpu();
        let ghost ids = cpu_ids(cpu@);
        match cpu {
            Cpu::Single(id) => {
                assert(ids[0] == *id);
                let r = self.set(affinity_manager, *id);
                proof {
                    assert forall|x: usize| ids.contains(x) <==> x == *id by {
                        if x == *id {
                            assert(ids[0] == x);
                        }
                    }
                }
                r
            },
            Cpu::Range(range) => {
                if range.is_empty() {
                    assert(ids =~= Seq::<usize>::empty());
                    return Ok(());
                }
                let start = *range.start();
                let end = *range.end();
                let count = end - start;
                let mut k: usize = 0;
                let ghost s0 = self.cpus();
                proof {
                    assert(ids.take(0) =~= Seq::<usize>::empty());
                }
                loop
                    invariant_except_break
                        all_below(ids.take(k as int), n),
                        forall|x: usize| #[trigger]
                            self.cpus().contains(x) <==> s0.contains(x) || ids.take(
                                k as int,
                            ).contains(x),
                    invariant
                        k <= count,
                        count == end - start,
                        ids == cpu_ids(cpu@),
                        ids.len() == count + 1,
                        forall|j: int| 0 <= j < ids.len() ==> ids[j] == start + j,
                        n == affinity_manager.ncpu(),
                        self.0@.len() == words_for(n),
                        self.0@.len() == old(self).0@.len(),
                        s0 == old(self).cpus(),
                    ensures
                        self.0@.len() == old(self).0@.len(),
                        all_below(ids, n),
                        forall|x: usize| #[trigger]
                            self.cpus().contains(x) <==> s0.contains(x) || ids.contains(x),
                    decreases count - k,
                {
                    let ghost pre = ids.take(k as int);
                    let ghost next = ids.take(k + 1);
                    proof {
                        assert(next.drop_last() =~= pre);
                        assert(next.last() == start + k);
                    }
                    let id = start + k;
                    match self.set(affinity_manager, id) {
                        Ok(()) => {},
                        Err(e) => {
                            assert(ids[k as int] == id);
                            return Err(e);
                        },
                    }
                    proof {
                        assert(next =~= pre.push(id));
                        lemma_contains_concat(pre, seq![id], id);
                        assert forall|x: usize| #[trigger]
                            self.cpus().contains(x) <==> s0.contains(x) || next.contains(x) by {
                            lemma_contains_concat(pre, seq![id], x);
                            assert(pre + seq![id] =~= next);
                            if x == id {
                                assert(seq![id][0] == x);
                            }
                        }
                    }
                    if k == count {
                        assert(next =~= ids);
                        break;
                    }
                    k += 1;
                }
                Ok(())
            },
        }
    }

    /// The mask of the group's CPUs, sized for the manager's machine; refused where the group
    /// names a CPU that is not one of the machine's.
    pub fn from_cpu_group(affinity_manager: AffinityManager, cpu_group: &CpuGroup) -> (r: Result<Self>)
        ensures
            all_below(ids_of(cpu_group@.cpus), affinity_manager.ncpu()) <==> r is Ok,
            r matches Ok(s) ==> s.0@.len() == words_for(affinity_manager.ncpu()) && forall|x: usize|
                #[trigger] s.cpus().contains(x) <==> ids_of(cpu_group@.cpus).contains(x),
            r matches Err(e) ==> e == Error::CpuIndexTooHigh,
    {
        let ghost n = affinity_manager.ncpu();
        let mut cpu_set = Self::new(affinity_manager);
        let cpus = cpu_group.cpus();
        let ghost cs = cpu_group@.cpus;
        let ghost all = ids_of(cs);
        let mut c: usize = 0;
        proof {
            assert(cs.take(0) =~= Seq::<CpuView>::empty());
        }
        while c < cpus.len()
            invariant
                c <= cpus@.len(),
                cs == crate::arg::cpu_views(cpus@),
                cs == cpu_group@.cpus,
                all == ids_of(cs),
                n == affinity_manager.ncpu(),
                cpu_set.0@.len() == words_for(n),
                all_below(ids_of(cs.take(c as int)), n),
                forall|x: usize| #[trigger]
                    cpu_set.cpus().contains(x) <==> ids_of(cs.take(c as int)).contains(x),
            decreases cpus@.len() - c,
        {
            let ghost pre = ids_of(cs.take(c as int));
            let ghost cur = cpu_ids(cs[c as int]);
            let ghost next = ids_of(cs.take(c + 1));
            proof {
                assert(cs.take(c + 1).drop_last() =~= cs.take(c as int));
                assert(cs.take(c + 1).last() == cs[c as int]);
                assert(next == pre + cur);
                lemma_ids_of_split(cs, c + 1);
                assert(cs[c as int] == cpus@[c as int]@);
            }
            match cpu_set.set_cpu(affinity_manager, &cpus[c]) {
                Ok(()) => {},
                Err(e) => {
                    proof {
                        let i = choose|i: int| 0 <= i < cur.len() && !(cur[i] < n);
                        assert(all[pre.len() + i] == cur[i]);
                    }
                    return Err(e);
                },
            }
            proof {
                assert forall|i: int| 0 <= i < next.len() implies next[i] < n by {
                    if i >= pre.len() {
                        assert(next[i] == cur[i - pre.len()]);
                    }
                }
                assert forall|x: usize| #[trigger]
                    cpu_set.cpus().contains(x) <==> next.contains(x) by {
                    lemma_contains_concat(pre, cur, x);
                }
            }
            c += 1;
        }
        proof {
            assert(cs.take(c as int) =~= cs);
        }
        Ok(cpu_set)
    }

    /// Whether the two masks hold the same words.
    pub fn same_words(&self, other: &CpuSet) -> (r: bool)
        ensures
            r == (self.0@ == other.0@),
    {
        let n = self.0.len();
        if n != other.0.len() {
            return false;
        }
        let mut i: usize = 0;
        while i < n
            invariant
                i <= n,
                n == self.0@.len(),
                n == other.0@.len(),
                forall|j: int| 0 <= j < i ==> self.0@[j] == other.0@[j],
            decreases n - i,
        {
            if self.0[i] != other.0[i] {
                return false;
            }
            i += 1;
        }
        assert(self.0@ =~= other.0@);
        true
    }

    /// The outcome of asking the kernel for this mask when it then reports `applied`: refused
    /// where the two differ.
    pub fn check_applied(&self, applied: &CpuSet) -> (r: Result<()>)
        ensures
            r is Ok <==> self.0@ == applied.0@,
            r matches Err(e) ==> e == Error::KernelIgnoredSchedSetAffinity,
    {
        if self.same_words(applied) {
            Ok(())
        } else {
            Err(Error::KernelIgnoredSchedSetAffinity)
        }
    }

    /// The size of the mask in bytes.
    pub fn bytes(&self) -> (n: usize)
        requires
            self.0@.len() * 8 <= usize::MAX,
        ensures
            n == self.0@.len() * 8,
    {
        proof {
            broadcast use vstd::layout::layout_of_primitives;
        }
        self.0.len() * core::mem::size_of::<u64>()
    }
}

} // verus!
