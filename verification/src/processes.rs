//! Processes that hold GPU memory: per-process sums, the names shown for them,
//! and their order.
use vstd::prelude::*;

use crate::order::{
    lemma_distinct_counts_once, lemma_repeat_counts_twice, ranked, sort_ranked, Ranked,
};
use crate::snapshot::{
    add_to_pid, capped_sum, distinct_pids, lemma_pid_bytes_at, pid_bytes, pid_listed, sat_add,
};
use crate::text::{decimal_of, push_decimal, string_from_chars};

verus! {

broadcast use vstd::seq_lib::group_to_multiset_ensures;

// ---------------------------------------------------------------------------
// Per-process sums
// ---------------------------------------------------------------------------

/// Some entry is for process `p`.
pub open spec fn has_entry(entries: Seq<(u32, u64)>, p: u32) -> bool {
    exists|i: int| 0 <= i < entries.len() && #[trigger] entries[i].0 == p
}

/// The bytes of all entries for process `p`, capped at `u64::MAX`.
pub open spec fn entry_total(entries: Seq<(u32, u64)>, p: u32) -> u64
    decreases entries.len(),
{
    if entries.len() == 0 {
        0
    } else if entries.last().0 == p {
        sat_add(entry_total(entries.drop_last(), p), entries.last().1)
    } else {
        entry_total(entries.drop_last(), p)
    }
}

/// `by_pid` has one entry per process of `entries`, holding its capped total.
pub open spec fn sums_by_pid(entries: Seq<(u32, u64)>, by_pid: Seq<(u32, u64)>) -> bool {
    &&& distinct_pids(by_pid)
    &&& forall|p: u32| #[trigger] pid_listed(by_pid, p) <==> has_entry(entries, p)
    &&& forall|p: u32| #[trigger] pid_bytes(by_pid, p) == entry_total(entries, p)
}

proof fn lemma_has_entry_push(entries: Seq<(u32, u64)>, e: (u32, u64), p: u32)
    ensures
        has_entry(entries.push(e), p) == (has_entry(entries, p) || e.0 == p),
{
    let s = entries.push(e);
    if has_entry(entries, p) {
        let i = choose|i: int| 0 <= i < entries.len() && #[trigger] entries[i].0 == p;
        assert(s[i].0 == p);
    }
    if e.0 == p {
        assert(s[entries.len() as int].0 == p);
    }
    if has_entry(s, p) {
        let i = choose|i: int| 0 <= i < s.len() && #[trigger] s[i].0 == p;
        if i < entries.len() {
            assert(entries[i].0 == p);
        }
    }
}

/// Sums the bytes of `entries` per process id (stopping at `u64::MAX`); the
/// grand total is kept.
pub fn sum_by_pid(entries: &Vec<(u32, u64)>) -> (r: Vec<(u32, u64)>)
    ensures
        sums_by_pid(entries@, r@),
        capped_sum(r@) == capped_sum(entries@),
{
    let mut by_pid: Vec<(u32, u64)> = Vec::new();
    let n = entries.len();
    let mut i: usize = 0;
    assert(entries@.take(0) =~= Seq::<(u32, u64)>::empty());
    while i < n
        invariant
            n == entries@.len(),
            i <= n,
            sums_by_pid(entries@.take(i as int), by_pid@),
            capped_sum(by_pid@) == capped_sum(entries@.take(i as int)),
        decreases n - i,
    {
        let ghost prefix = entries@.take(i as int);
        let ghost next = entries@.take(i + 1);
        assert(next.drop_last() == prefix);
        let (pid, bytes) = entries[i];
        assert(next.last() == (pid, bytes));
        add_to_pid(&mut by_pid, pid, bytes);
        proof {
            assert forall|p: u32| #[trigger] pid_listed(by_pid@, p) <==> has_entry(next, p) by {
                lemma_has_entry_push(prefix, (pid, bytes), p);
            }
        }
        i = i + 1;
    }
    assert(entries@.take(n as int) == entries@);
    by_pid
}

// ---------------------------------------------------------------------------
// Processes as shown
// ---------------------------------------------------------------------------

/// A process with the GPU memory it holds.
pub struct GpuProcess {
    pub pid: u32,
    pub name: String,
    pub used_bytes: u64,
}

impl Ranked for GpuProcess {
    /// More memory first; equal memory by process id.
    open spec fn goes_before(&self, other: &Self) -> bool {
        self.used_bytes > other.used_bytes || (self.used_bytes == other.used_bytes && self.pid
            < other.pid)
    }

    fn ranks_before(&self, other: &Self) -> (r: bool) {
        self.used_bytes > other.used_bytes || (self.used_bytes == other.used_bytes && self.pid
            < other.pid)
    }

    proof fn lemma_irreflexive(a: &Self) {
    }

    proof fn lemma_transitive(a: &Self, b: &Self, c: &Self) {
    }
}

/// `PID ` followed by the process id in decimal.
pub open spec fn pid_label(pid: u32) -> Seq<char> {
    seq!['P', 'I', 'D', ' '] + decimal_of(pid as nat)
}

/// The name of process `pid` in the process table `names` (its first entry),
/// or `PID <pid>` where the table has no entry for it.
pub open spec fn process_label(names: Seq<(u32, String)>, pid: u32) -> Seq<char> {
    if exists|k: int| 0 <= k < names.len() && #[trigger] names[k].0 == pid {
        names[choose|k: int|
            0 <= k < names.len() && #[trigger] names[k].0 == pid && forall|j: int|
                0 <= j < k ==> names[j].0 != pid].1@
    } else {
        pid_label(pid)
    }
}

/// `procs` lists exactly the processes for which `bytes_of` is positive, each
/// once, with those bytes and its label from `names`, most memory first and
/// equal memory by process id.
pub open spec fn processes_from(
    procs: Seq<GpuProcess>,
    bytes_of: spec_fn(u32) -> u64,
    names: Seq<(u32, String)>,
) -> bool {
    &&& ranked(procs)
    &&& most_memory_first(procs)
    &&& forall|i: int, j: int|
        0 <= i < procs.len() && 0 <= j < procs.len() && i != j ==> #[trigger] procs[i].pid
            != #[trigger] procs[j].pid
    &&& forall|i: int|
        0 <= i < procs.len() ==> {
            &&& (#[trigger] procs[i]).used_bytes == bytes_of(procs[i].pid)
            &&& procs[i].used_bytes > 0
            &&& procs[i].name@ == process_label(names, procs[i].pid)
        }
    &&& forall|p: u32|
        #[trigger] bytes_of(p) > 0 ==> exists|i: int| 0 <= i < procs.len() && #[trigger] procs[i].pid == p
}

/// Each process holds at least as many bytes as every later one, and of two
/// that hold the same number of bytes the one with the smaller process id
/// comes first.
pub open spec fn most_memory_first(procs: Seq<GpuProcess>) -> bool {
    forall|i: int, j: int|
        #![trigger procs[i], procs[j]]
        0 <= i < j < procs.len() ==> procs[i].used_bytes >= procs[j].used_bytes && (
        procs[i].used_bytes == procs[j].used_bytes ==> procs[i].pid < procs[j].pid)
}

/// Processes ranked as the list shows them, with distinct process ids, hold
/// non-increasing byte counts (the full `u64` values), equal counts by
/// ascending process id.
pub proof fn law_ranked_processes_most_memory_first(procs: Seq<GpuProcess>)
    requires
        ranked(procs),
        forall|i: int, j: int|
            0 <= i < procs.len() && 0 <= j < procs.len() && i != j ==> #[trigger] procs[i].pid
                != #[trigger] procs[j].pid,
    ensures
        most_memory_first(procs),
{
    assert forall|i: int, j: int| 0 <= i < j < procs.len() implies procs[i].used_bytes
        >= procs[j].used_bytes && (procs[i].used_bytes == procs[j].used_bytes ==> procs[i].pid
        < procs[j].pid) by {
        assert(!procs[j].goes_before(&procs[i]));
        assert(procs[i].pid != procs[j].pid);
    }
}

/// The name of process `pid`: its entry in the process table, else `PID <pid>`.
fn label_of(names: &Vec<(u32, String)>, pid: u32) -> (r: String)
    ensures
        r@ == process_label(names@, pid),
{
    let n = names.len();
    let mut k: usize = 0;
    while k < n
        invariant
            n == names@.len(),
            k <= n,
            forall|j: int| 0 <= j < k ==> (#[trigger] names@[j]).0 != pid,
        decreases n - k,
    {
        if names[k].0 == pid {
            proof {
                let c = choose|c: int|
                    0 <= c < names@.len() && #[trigger] names@[c].0 == pid && forall|j: int|
                        0 <= j < c ==> names@[j].0 != pid;
                assert(names@[k as int].0 == pid);
                if c < k {
                    assert(names@[c].0 != pid);
                } else if c > k {
                    assert(names@[k as int].0 != pid);
                }
            }
            return names[k].1.clone();
        }
        k = k + 1;
    }
    let mut chars: Vec<char> = vec!['P', 'I', 'D', ' '];
    push_decimal(&mut chars, pid);
    string_from_chars(&chars)
}

/// The processes of `by_pid` that hold memory, with their names from the
/// process table `names`, most memory first (equal memory by process id).
pub fn collect_processes(by_pid: &Vec<(u32, u64)>, names: &Vec<(u32, String)>) -> (r: Vec<
    GpuProcess,
>)
    requires
        distinct_pids(by_pid@),
    ensures
        processes_from(r@, |p: u32| pid_bytes(by_pid@, p), names@),
{
    let mut list: Vec<GpuProcess> = Vec::new();
    let n = by_pid.len();
    let mut i: usize = 0;
    while i < n
        invariant
            n == by_pid@.len(),
            i <= n,
            distinct_pids(by_pid@),
            forall|k: int|
                0 <= k < list@.len() ==> exists|j: int|
                    0 <= j < i && (#[trigger] list@[k]).pid == #[trigger] by_pid@[j].0,
            forall|k: int|
                0 <= k < list@.len() ==> {
                    &&& (#[trigger] list@[k]).used_bytes == pid_bytes(by_pid@, list@[k].pid)
                    &&& list@[k].used_bytes > 0
                    &&& list@[k].name@ == process_label(names@, list@[k].pid)
                },
            forall|a: int, b: int|
                0 <= a < list@.len() && 0 <= b < list@.len() && a != b ==> #[trigger] list@[a].pid
                    != #[trigger] list@[b].pid,
            forall|j: int|
                0 <= j < i && (#[trigger] by_pid@[j]).1 > 0 ==> exists|k: int|
                    0 <= k < list@.len() && #[trigger] list@[k].pid == by_pid@[j].0,
        decreases n - i,
    {
        let (pid, bytes) = by_pid[i];
        proof {
            lemma_pid_bytes_at(by_pid@, i as int);
        }
        if bytes > 0 {
            let name = label_of(names, pid);
            let ghost before = list@;
            list.push(GpuProcess { pid, name, used_bytes: bytes });
            proof {
                assert forall|k: int| 0 <= k < list@.len() implies exists|j: int|
                    0 <= j < i + 1 && (#[trigger] list@[k]).pid == #[trigger] by_pid@[j].0 by {
                    if k < before.len() {
                        assert(list@[k] == before[k]);
                        let j = choose|j: int| 0 <= j < i && before[k].pid == #[trigger] by_pid@[j].0;
                        assert(list@[k].pid == by_pid@[j].0);
                    } else {
                        assert(list@[k].pid == by_pid@[i as int].0);
                    }
                }
                assert forall|a: int, b: int|
                    0 <= a < list@.len() && 0 <= b < list@.len() && a != b implies #[trigger] list@[a].pid
                    != #[trigger] list@[b].pid by {
                    if a < before.len() && b < before.len() {
                        assert(list@[a] == before[a] && list@[b] == before[b]);
                    } else {
                        let o = if a < before.len() { a } else { b };
                        assert(o < before.len());
                        assert(list@[o] == before[o]);
                        let j = choose|j: int| 0 <= j < i && before[o].pid == #[trigger] by_pid@[j].0;
                        assert(by_pid@[j].0 != by_pid@[i as int].0);
                    }
                }
                assert forall|j: int| 0 <= j < i + 1 && (#[trigger] by_pid@[j]).1 > 0 implies exists|k: int|
                    0 <= k < list@.len() && #[trigger] list@[k].pid == by_pid@[j].0 by {
                    if j < i {
                        let k = choose|k: int| 0 <= k < before.len() && #[trigger] before[k].pid == by_pid@[j].0;
                        assert(list@[k] == before[k]);
                    } else {
                        assert(list@[before.len() as int].pid == by_pid@[j].0);
                    }
                }
            }
        }
        i = i + 1;
    }
    let ghost pre = list@;
    let sorted = sort_ranked(list);
    proof {
        let s = sorted@;
        assert(s.to_multiset() == pre.to_multiset());
        assert forall|k: int| 0 <= k < s.len() implies pre.contains(#[trigger] s[k]) by {
            assert(s.contains(s[k]));
            assert(s.to_multiset().count(s[k]) > 0);
            assert(pre.to_multiset().count(s[k]) > 0);
        }
        assert forall|k: int| 0 <= k < s.len() implies {
            &&& (#[trigger] s[k]).used_bytes == pid_bytes(by_pid@, s[k].pid)
            &&& s[k].used_bytes > 0
            &&& s[k].name@ == process_label(names@, s[k].pid)
        } by {
            assert(pre.contains(s[k]));
        }
        assert forall|a: int, b: int|
            0 <= a < s.len() && 0 <= b < s.len() && a != b implies #[trigger] s[a].pid
            != #[trigger] s[b].pid by {
            if s[a].pid == s[b].pid {
                assert(pre.contains(s[a]) && pre.contains(s[b]));
                let ka = choose|k: int| 0 <= k < pre.len() && pre[k] == s[a];
                let kb = choose|k: int| 0 <= k < pre.len() && pre[k] == s[b];
                assert(ka == kb);
                lemma_repeat_counts_twice(s, a, b);
                assert(pre.no_duplicates()) by {
                    assert forall|x: int, y: int| 0 <= x < pre.len() && 0 <= y < pre.len() && x != y implies pre[x] != pre[y] by {
                        assert(pre[x].pid != pre[y].pid);
                    }
                }
                lemma_distinct_counts_once(pre, ka);
            }
        }
        assert forall|p: u32| #[trigger] pid_bytes(by_pid@, p) > 0 implies exists|i: int|
            0 <= i < s.len() && #[trigger] s[i].pid == p by {
            if pid_listed(by_pid@, p) {
                let j = choose|j: int| 0 <= j < by_pid@.len() && #[trigger] by_pid@[j].0 == p;
                lemma_pid_bytes_at(by_pid@, j);
                let k = choose|k: int| 0 <= k < pre.len() && #[trigger] pre[k].pid == by_pid@[j].0;
                assert(pre.contains(pre[k]));
                assert(pre.to_multiset().count(pre[k]) > 0);
                assert(s.to_multiset().count(pre[k]) > 0);
                assert(s.contains(pre[k]));
            }
        }
    }
    proof {
        law_ranked_processes_most_memory_first(sorted@);
    }
    sorted
}

// ---------------------------------------------------------------------------
// Processes as NVML reports them
// ---------------------------------------------------------------------------

/// A process that NVML lists on a device, with the memory it uses where NVML
/// can tell (`None` for `UsedGpuMemory::Unavailable`).
pub struct NvmlProcess {
    pub pid: u32,
    pub used: Option<u64>,
}

/// The (process id, bytes) entries of the processes whose memory is known.
pub open spec fn known_usage(procs: Seq<NvmlProcess>) -> Seq<(u32, u64)>
    decreases procs.len(),
{
    if procs.len() == 0 {
        Seq::empty()
    } else {
        let rest = known_usage(procs.drop_last());
        match procs.last().used {
            Some(b) => rest.push((procs.last().pid, b)),
            None => rest,
        }
    }
}

/// The list of a failed query counts as empty.
pub open spec fn listed_or_none(procs: Option<Vec<NvmlProcess>>) -> Seq<NvmlProcess> {
    match procs {
        Some(v) => v@,
        None => Seq::empty(),
    }
}

fn append_known(out: &mut Vec<(u32, u64)>, procs: &Vec<NvmlProcess>)
    ensures
        final(out)@ == old(out)@ + known_usage(procs@),
{
    let n = procs.len();
    let mut i: usize = 0;
    assert(procs@.take(0) =~= Seq::<NvmlProcess>::empty());
    assert(old(out)@ + known_usage(procs@.take(0)) =~= old(out)@);
    while i < n
        invariant
            n == procs@.len(),
            i <= n,
            out@ == old(out)@ + known_usage(procs@.take(i as int)),
        decreases n - i,
    {
        assert(procs@.take(i + 1).drop_last() == procs@.take(i as int));
        assert(procs@.take(i + 1).last() == procs@[i as int]);
        match procs[i].used {
            Some(b) => {
                out.push((procs[i].pid, b));
            },
            None => {},
        }
        i = i + 1;
    }
    assert(procs@.take(n as int) == procs@);
}

/// Memory per process on one device: the compute and the graphics processes
/// together (a failed list counts as empty), only where the memory is known,
/// summed per process id (stopping at `u64::MAX`).
pub fn nvml_processes(compute: &Option<Vec<NvmlProcess>>, graphics: &Option<Vec<NvmlProcess>>) -> (r:
    Vec<(u32, u64)>)
    ensures
        sums_by_pid(
            known_usage(listed_or_none(*compute)) + known_usage(listed_or_none(*graphics)),
            r@,
        ),
{
    let mut entries: Vec<(u32, u64)> = Vec::new();
    match compute {
        Some(v) => append_known(&mut entries, v),
        None => {},
    }
    match graphics {
        Some(v) => append_known(&mut entries, v),
        None => {},
    }
    assert(entries@ =~= known_usage(listed_or_none(*compute)) + known_usage(
        listed_or_none(*graphics),
    ));
    sum_by_pid(&entries)
}

} // verus!
