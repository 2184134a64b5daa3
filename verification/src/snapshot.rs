//! GPU memory and utilization per adapter, gathered from the per-process
//! counter instances (`GPU Process Memory(*)\Dedicated Usage` and
//! `GPU Engine(*)\Utilization Percentage`).
use vstd::prelude::*;

use crate::instance::{instance_of, parse_instance, Luid};

verus! {

/// One instance of a wildcard counter: its name and its value. Memory values
/// are whole bytes; utilization values are whole percents.
pub struct CounterValue {
    pub instance: String,
    pub value: u64,
}

/// The dedicated memory that processes hold on one adapter.
pub struct LuidMem {
    pub luid: (u32, u32),
    pub total_bytes: u64,
    /// (process id, bytes); each process id occurs once.
    pub by_pid: Vec<(u32, u64)>,
}

/// One reading of the GPU counters: memory per adapter, ordered by LUID, and
/// the busiest engine's utilization per adapter, ordered by LUID.
pub struct GpuSnapshot {
    pub mem: Vec<LuidMem>,
    pub util: Vec<((u32, u32), u64)>,
}

// ---------------------------------------------------------------------------
// Arithmetic that stops at the largest `u64`
// ---------------------------------------------------------------------------

/// `a + b`, or `u64::MAX` where the sum does not fit.
pub open spec fn sat_add(a: u64, b: u64) -> u64 {
    if a + b > u64::MAX {
        u64::MAX
    } else {
        (a + b) as u64
    }
}

/// The sum of the second components, capped at `u64::MAX`.
pub open spec fn capped_sum(v: Seq<(u32, u64)>) -> u64
    decreases v.len(),
{
    if v.len() == 0 {
        0
    } else {
        sat_add(capped_sum(v.drop_last()), v.last().1)
    }
}

/// The exact sum of the second components.
pub open spec fn plain_sum(v: Seq<(u32, u64)>) -> int
    decreases v.len(),
{
    if v.len() == 0 {
        0
    } else {
        plain_sum(v.drop_last()) + v.last().1
    }
}

pub proof fn lemma_capped_sum_is_min(v: Seq<(u32, u64)>)
    ensures
        capped_sum(v) == (if plain_sum(v) > u64::MAX {
            u64::MAX as int
        } else {
            plain_sum(v)
        }),
        plain_sum(v) >= 0,
    decreases v.len(),
{
    if v.len() > 0 {
        lemma_capped_sum_is_min(v.drop_last());
    }
}

proof fn lemma_plain_sum_update(v: Seq<(u32, u64)>, k: int, x: (u32, u64))
    requires
        0 <= k < v.len(),
    ensures
        plain_sum(v.update(k, x)) == plain_sum(v) - v[k].1 + x.1,
    decreases v.len(),
{
    let w = v.update(k, x);
    if k == v.len() - 1 {
        assert(w.drop_last() == v.drop_last());
    } else {
        assert(w.drop_last() == v.drop_last().update(k, x));
        lemma_plain_sum_update(v.drop_last(), k, x);
    }
}

pub fn add_capped(a: u64, b: u64) -> (r: u64)
    ensures
        r == sat_add(a, b),
{
    a.saturating_add(b)
}

// ---------------------------------------------------------------------------
// Memory records
// ---------------------------------------------------------------------------

/// A memory instance that counts: (LUID, process id, bytes), for instances
/// whose name carries a LUID, with a non-zero process id and a non-zero value.
pub open spec fn mem_record(instance: Seq<char>, value: u64) -> Option<(Luid, u32, u64)> {
    match instance_of(instance) {
        Some((pid, Some(luid))) => {
            if value == 0 || pid == 0 {
                None
            } else {
                Some((luid, pid, value))
            }
        },
        _ => None,
    }
}

/// The memory records of the counter values, in order.
pub open spec fn mem_records(vals: Seq<CounterValue>) -> Seq<(Luid, u32, u64)>
    decreases vals.len(),
{
    if vals.len() == 0 {
        Seq::empty()
    } else {
        let rest = mem_records(vals.drop_last());
        match mem_record(vals.last().instance@, vals.last().value) {
            Some(r) => rest.push(r),
            None => rest,
        }
    }
}

/// Bytes on adapter `l` over all records, capped at `u64::MAX`.
pub open spec fn luid_total(recs: Seq<(Luid, u32, u64)>, l: Luid) -> u64
    decreases recs.len(),
{
    if recs.len() == 0 {
        0
    } else if recs.last().0 == l {
        sat_add(luid_total(recs.drop_last(), l), recs.last().2)
    } else {
        luid_total(recs.drop_last(), l)
    }
}

/// Bytes of process `p` on adapter `l` over all records, capped at `u64::MAX`.
pub open spec fn pid_total(recs: Seq<(Luid, u32, u64)>, l: Luid, p: u32) -> u64
    decreases recs.len(),
{
    if recs.len() == 0 {
        0
    } else if recs.last().0 == l && recs.last().1 == p {
        sat_add(pid_total(recs.drop_last(), l, p), recs.last().2)
    } else {
        pid_total(recs.drop_last(), l, p)
    }
}

/// Some record is on adapter `l`.
pub open spec fn has_luid(recs: Seq<(Luid, u32, u64)>, l: Luid) -> bool {
    exists|i: int| 0 <= i < recs.len() && #[trigger] recs[i].0 == l
}

/// Some record is of process `p` on adapter `l`.
pub open spec fn has_pid(recs: Seq<(Luid, u32, u64)>, l: Luid, p: u32) -> bool {
    exists|i: int| 0 <= i < recs.len() && #[trigger] recs[i].0 == l && recs[i].1 == p
}

/// Process `p` has an entry in `by_pid`.
pub open spec fn pid_listed(by_pid: Seq<(u32, u64)>, p: u32) -> bool {
    exists|k: int| 0 <= k < by_pid.len() && #[trigger] by_pid[k].0 == p
}

/// No process id occurs twice in `by_pid`.
pub open spec fn distinct_pids(by_pid: Seq<(u32, u64)>) -> bool {
    forall|i: int, j: int|
        0 <= i < by_pid.len() && 0 <= j < by_pid.len() && i != j ==> #[trigger] by_pid[i].0
            != #[trigger] by_pid[j].0
}

/// LUIDs in the order of `(high, low)` as tuples compare.
pub open spec fn luid_less(a: Luid, b: Luid) -> bool {
    a.0 < b.0 || (a.0 == b.0 && a.1 < b.1)
}

/// Tests `luid_less(a, b)`.
pub fn luid_lt(a: (u32, u32), b: (u32, u32)) -> (r: bool)
    ensures
        r == luid_less(a, b),
{
    a.0 < b.0 || (a.0 == b.0 && a.1 < b.1)
}

/// Adapter `l` has an entry in `mem`.
pub open spec fn luid_listed(mem: Seq<LuidMem>, l: Luid) -> bool {
    exists|i: int| 0 <= i < mem.len() && #[trigger] mem[i].luid == l
}

/// The entries are ordered by strictly increasing LUID.
pub open spec fn mem_sorted(mem: Seq<LuidMem>) -> bool {
    forall|i: int, j: int|
        0 <= i < j < mem.len() ==> luid_less(#[trigger] mem[i].luid, #[trigger] mem[j].luid)
}

/// `m` is what the records say of its adapter: the capped total, one entry per
/// process with the capped bytes of that process, and a total that is the
/// capped sum of the per-process entries.
pub open spec fn entry_of(recs: Seq<(Luid, u32, u64)>, m: LuidMem) -> bool {
    &&& m.total_bytes == luid_total(recs, m.luid)
    &&& m.total_bytes == capped_sum(m.by_pid@)
    &&& distinct_pids(m.by_pid@)
    &&& forall|p: u32| #[trigger] has_pid(recs, m.luid, p) <==> pid_listed(m.by_pid@, p)
    &&& forall|p: u32| #[trigger] pid_bytes(m.by_pid@, p) == pid_total(recs, m.luid, p)
}

/// `mem` is the per-adapter summary of the records: one entry per adapter that
/// has records, ordered by LUID, each as `entry_of` says.
pub open spec fn summarizes(recs: Seq<(Luid, u32, u64)>, mem: Seq<LuidMem>) -> bool {
    &&& mem_sorted(mem)
    &&& forall|l: Luid| #[trigger] has_luid(recs, l) <==> luid_listed(mem, l)
    &&& forall|i: int| 0 <= i < mem.len() ==> #[trigger] entry_of(recs, mem[i])
}

// ---------------------------------------------------------------------------
// Lemmas on adding one record
// ---------------------------------------------------------------------------

proof fn lemma_has_luid_push(recs: Seq<(Luid, u32, u64)>, r: (Luid, u32, u64), l: Luid)
    ensures
        has_luid(recs.push(r), l) == (has_luid(recs, l) || r.0 == l),
{
    let s = recs.push(r);
    if has_luid(recs, l) {
        let i = choose|i: int| 0 <= i < recs.len() && #[trigger] recs[i].0 == l;
        assert(s[i].0 == l);
    }
    if r.0 == l {
        assert(s[recs.len() as int].0 == l);
    }
    if has_luid(s, l) {
        let i = choose|i: int| 0 <= i < s.len() && #[trigger] s[i].0 == l;
        if i < recs.len() {
            assert(recs[i].0 == l);
        }
    }
}

proof fn lemma_has_pid_push(recs: Seq<(Luid, u32, u64)>, r: (Luid, u32, u64), l: Luid, p: u32)
    ensures
        has_pid(recs.push(r), l, p) == (has_pid(recs, l, p) || (r.0 == l && r.1 == p)),
{
    let s = recs.push(r);
    if has_pid(recs, l, p) {
        let i = choose|i: int| 0 <= i < recs.len() && #[trigger] recs[i].0 == l && recs[i].1 == p;
        assert(s[i].0 == l && s[i].1 == p);
    }
    if r.0 == l && r.1 == p {
        assert(s[recs.len() as int].0 == l);
    }
    if has_pid(s, l, p) {
        let i = choose|i: int| 0 <= i < s.len() && #[trigger] s[i].0 == l && s[i].1 == p;
        if i < recs.len() {
            assert(recs[i].0 == l);
        }
    }
}

proof fn lemma_no_pid_without_luid(recs: Seq<(Luid, u32, u64)>, l: Luid, p: u32)
    requires
        !has_luid(recs, l),
    ensures
        !has_pid(recs, l, p),
        pid_total(recs, l, p) == 0,
        luid_total(recs, l) == 0,
    decreases recs.len(),
{
    if has_pid(recs, l, p) {
        let i = choose|i: int| 0 <= i < recs.len() && #[trigger] recs[i].0 == l && recs[i].1 == p;
        assert(recs[i].0 == l);
    }
    if recs.len() > 0 {
        let d = recs.drop_last();
        if has_luid(d, l) {
            let i = choose|i: int| 0 <= i < d.len() && #[trigger] d[i].0 == l;
            assert(recs[i].0 == l);
        }
        assert(recs[recs.len() - 1].0 != l);
        lemma_no_pid_without_luid(d, l, p);
    }
}

// ---------------------------------------------------------------------------
// Adding a record to a per-process list
// ---------------------------------------------------------------------------

/// The bytes listed for process `p` in `by_pid`, 0 when it has no entry.
pub open spec fn pid_bytes(by_pid: Seq<(u32, u64)>, p: u32) -> u64 {
    if pid_listed(by_pid, p) {
        by_pid[choose|k: int| 0 <= k < by_pid.len() && #[trigger] by_pid[k].0 == p].1
    } else {
        0
    }
}

pub proof fn lemma_pid_bytes_at(v: Seq<(u32, u64)>, k: int)
    requires
        distinct_pids(v),
        0 <= k < v.len(),
    ensures
        pid_listed(v, v[k].0),
        pid_bytes(v, v[k].0) == v[k].1,
{
    assert(v[k].0 == v[k].0);
    let j = choose|j: int| 0 <= j < v.len() && #[trigger] v[j].0 == v[k].0;
    if j != k {
        assert(v[j].0 != v[k].0);
    }
}

/// Adds `bytes` to the entry of `pid`, or appends an entry for it.
pub fn add_to_pid(by_pid: &mut Vec<(u32, u64)>, pid: u32, bytes: u64)
    requires
        distinct_pids(old(by_pid)@),
    ensures
        distinct_pids(final(by_pid)@),
        capped_sum(final(by_pid)@) == sat_add(capped_sum(old(by_pid)@), bytes),
        pid_listed(final(by_pid)@, pid),
        forall|p: u32|
            p != pid ==> (#[trigger] pid_listed(final(by_pid)@, p) <==> pid_listed(old(by_pid)@, p)),
        forall|p: u32|
            #[trigger] pid_bytes(final(by_pid)@, p) == (if p == pid {
                sat_add(pid_bytes(old(by_pid)@, p), bytes)
            } else {
                pid_bytes(old(by_pid)@, p)
            }),
{
    let ghost before = by_pid@;
    let n = by_pid.len();
    let mut k: usize = 0;
    while k < n
        invariant
            n == by_pid@.len(),
            by_pid@ == before,
            before == old(by_pid)@,
            distinct_pids(before),
            k <= n,
            forall|j: int| 0 <= j < k ==> (#[trigger] by_pid@[j]).0 != pid,
        decreases n - k,
    {
        if by_pid[k].0 == pid {
            let old_bytes = by_pid[k].1;
            let ghost w = before.update(k as int, (pid, sat_add(old_bytes, bytes)));
            proof {
                lemma_capped_sum_is_min(before);
                lemma_capped_sum_is_min(w);
                lemma_plain_sum_update(before, k as int, (pid, sat_add(old_bytes, bytes)));
                lemma_part_le_sum(before, k as int);
                lemma_pid_bytes_at(before, k as int);
                assert(capped_sum(w) == sat_add(capped_sum(before), bytes));
            }
            by_pid.set(k, (pid, add_capped(old_bytes, bytes)));
            assert(by_pid@ == w);
            proof {
                assert(distinct_pids(w)) by {
                    assert forall|i: int, j: int|
                        0 <= i < w.len() && 0 <= j < w.len() && i != j implies #[trigger] w[i].0
                        != #[trigger] w[j].0 by {
                        assert(before[i].0 != before[j].0);
                    }
                }
                lemma_pid_bytes_at(w, k as int);
                assert forall|p: u32| p != pid implies (#[trigger] pid_listed(w, p)
                    <==> pid_listed(before, p)) by {
                    if pid_listed(w, p) {
                        let i = choose|i: int| 0 <= i < w.len() && #[trigger] w[i].0 == p;
                        assert(before[i].0 == p);
                    }
                    if pid_listed(before, p) {
                        let i = choose|i: int| 0 <= i < before.len() && #[trigger] before[i].0 == p;
                        assert(w[i].0 == p);
                    }
                }
                assert(forall|p: u32| p != pid ==> (#[trigger] pid_listed(by_pid@, p) <==> pid_listed(before, p)));
                assert forall|p: u32| #[trigger] pid_bytes(w, p) == (if p == pid {
                    sat_add(pid_bytes(before, p), bytes)
                } else {
                    pid_bytes(before, p)
                }) by {
                    if p != pid && pid_listed(w, p) {
                        let i = choose|i: int| 0 <= i < w.len() && #[trigger] w[i].0 == p;
                        lemma_pid_bytes_at(w, i);
                        lemma_pid_bytes_at(before, i);
                    }
                }
            }
            return;
        }
        k = k + 1;
    }
    assert(!pid_listed(before, pid));
    by_pid.push((pid, bytes));
    proof {
        let w = by_pid@;
        assert(w.drop_last() == before);
        assert(distinct_pids(w)) by {
            assert forall|i: int, j: int|
                0 <= i < w.len() && 0 <= j < w.len() && i != j implies #[trigger] w[i].0
                != #[trigger] w[j].0 by {
                if i < n && j < n {
                    assert(before[i].0 != before[j].0);
                } else if i < n {
                    assert(before[i].0 != pid);
                } else {
                    assert(before[j].0 != pid);
                }
            }
        }
        lemma_pid_bytes_at(w, n as int);
        assert forall|p: u32| p != pid implies (#[trigger] pid_listed(w, p) <==> pid_listed(before, p)) by {
            if pid_listed(w, p) {
                let i = choose|i: int| 0 <= i < w.len() && #[trigger] w[i].0 == p;
                assert(i < n);
                assert(before[i].0 == p);
            }
            if pid_listed(before, p) {
                let i = choose|i: int| 0 <= i < before.len() && #[trigger] before[i].0 == p;
                assert(w[i].0 == p);
            }
        }
        assert forall|p: u32| #[trigger] pid_bytes(w, p) == (if p == pid {
            sat_add(pid_bytes(before, p), bytes)
        } else {
            pid_bytes(before, p)
        }) by {
            if p != pid && pid_listed(w, p) {
                let i = choose|i: int| 0 <= i < w.len() && #[trigger] w[i].0 == p;
                lemma_pid_bytes_at(w, i);
                lemma_pid_bytes_at(before, i);
            }
        }
    }
}

proof fn lemma_part_le_sum(v: Seq<(u32, u64)>, k: int)
    requires
        0 <= k < v.len(),
    ensures
        v[k].1 <= plain_sum(v),
    decreases v.len(),
{
    lemma_capped_sum_is_min(v.drop_last());
    if k < v.len() - 1 {
        lemma_part_le_sum(v.drop_last(), k);
    }
}

proof fn lemma_entry_other(recs: Seq<(Luid, u32, u64)>, r: (Luid, u32, u64), e: LuidMem)
    requires
        entry_of(recs, e),
        e.luid != r.0,
    ensures
        entry_of(recs.push(r), e),
{
    let s = recs.push(r);
    assert(s.drop_last() == recs);
    assert forall|p: u32| #[trigger] has_pid(s, e.luid, p) <==> pid_listed(e.by_pid@, p) by {
        lemma_has_pid_push(recs, r, e.luid, p);
    }
    assert forall|p: u32| #[trigger] pid_bytes(e.by_pid@, p) == pid_total(s, e.luid, p) by {
        assert(pid_total(s, e.luid, p) == pid_total(recs, e.luid, p));
    }
}

/// Adds the record `(luid, pid, bytes)` to a summary of `recs`.
fn add_record(
    mem: &mut Vec<LuidMem>,
    luid: (u32, u32),
    pid: u32,
    bytes: u64,
    Ghost(recs): Ghost<Seq<(Luid, u32, u64)>>,
)
    requires
        summarizes(recs, old(mem)@),
    ensures
        summarizes(recs.push((luid, pid, bytes)), final(mem)@),
{
    let ghost r = (luid, pid, bytes);
    let ghost recs2 = recs.push(r);
    let ghost before = mem@;
    assert(recs2.drop_last() == recs);
    let n = mem.len();
    let mut pos: usize = 0;
    while pos < n && luid_lt(mem[pos].luid, luid)
        invariant
            n == mem@.len(),
            mem@ == before,
            pos <= n,
            forall|j: int| 0 <= j < pos ==> luid_less(#[trigger] before[j].luid, luid),
        decreases n - pos,
    {
        pos = pos + 1;
    }
    if pos < n && mem[pos].luid.0 == luid.0 && mem[pos].luid.1 == luid.1 {
        let mut e = mem.remove(pos);
        let ghost old_e = e;
        assert(old_e == before[pos as int]);
        assert(entry_of(recs, old_e));
        add_to_pid(&mut e.by_pid, pid, bytes);
        e.total_bytes = add_capped(e.total_bytes, bytes);
        proof {
            assert forall|p: u32| #[trigger] has_pid(recs2, luid, p) <==> pid_listed(e.by_pid@, p) by {
                lemma_has_pid_push(recs, r, luid, p);
            }
            assert(entry_of(recs2, e));
        }
        mem.insert(pos, e);
        proof {
            let after = mem@;
            assert(after == before.update(pos as int, e));
            assert(mem_sorted(after)) by {
                assert forall|i: int, j: int| 0 <= i < j < after.len() implies luid_less(
                    #[trigger] after[i].luid,
                    #[trigger] after[j].luid,
                ) by {
                    assert(luid_less(before[i].luid, before[j].luid));
                }
            }
            assert forall|l: Luid| #[trigger] has_luid(recs2, l) <==> luid_listed(after, l) by {
                lemma_has_luid_push(recs, r, l);
                if luid_listed(after, l) {
                    let i = choose|i: int| 0 <= i < after.len() && #[trigger] after[i].luid == l;
                    assert(before[i].luid == l);
                }
                if luid_listed(before, l) {
                    let i = choose|i: int| 0 <= i < before.len() && #[trigger] before[i].luid == l;
                    assert(after[i].luid == l);
                }
            }
            assert forall|i: int| 0 <= i < after.len() implies #[trigger] entry_of(recs2, after[i]) by {
                if i != pos {
                    assert(entry_of(recs, before[i]));
                    assert(before[i].luid != luid) by {
                        if i < pos {
                            assert(luid_less(before[i].luid, before[pos as int].luid));
                        } else {
                            assert(luid_less(before[pos as int].luid, before[i].luid));
                        }
                    }
                    lemma_entry_other(recs, r, before[i]);
                }
            }
        }
    } else {
        proof {
            assert(!luid_listed(before, luid)) by {
                if luid_listed(before, luid) {
                    let i = choose|i: int| 0 <= i < before.len() && #[trigger] before[i].luid == luid;
                    if i < pos {
                        assert(luid_less(before[i].luid, luid));
                    } else if i > pos {
                        assert(luid_less(before[pos as int].luid, before[i].luid));
                    }
                }
            }
            lemma_no_pid_without_luid(recs, luid, pid);
        }
        let mut by_pid: Vec<(u32, u64)> = Vec::new();
        by_pid.push((pid, bytes));
        let e = LuidMem { luid, total_bytes: bytes, by_pid };
        proof {
            let v = e.by_pid@;
            assert(v.drop_last() =~= Seq::<(u32, u64)>::empty());
            assert(capped_sum(v.drop_last()) == 0);
            assert(v.last() == (pid, bytes));
            assert(capped_sum(v) == sat_add(0, bytes));
            lemma_pid_bytes_at(v, 0);
            assert forall|p: u32| #[trigger] has_pid(recs2, luid, p) <==> pid_listed(v, p) by {
                lemma_has_pid_push(recs, r, luid, p);
                lemma_no_pid_without_luid(recs, luid, p);
            }
            assert forall|p: u32| #[trigger] pid_bytes(v, p) == pid_total(recs2, luid, p) by {
                lemma_no_pid_without_luid(recs, luid, p);
                if p != pid {
                    assert(!pid_listed(v, p));
                }
            }
            assert(entry_of(recs2, e));
        }
        mem.insert(pos, e);
        proof {
            let after = mem@;
            assert forall|i: int| 0 <= i < after.len() implies (i < pos ==> after[i] == before[i]) && (
            i > pos ==> after[i] == before[i - 1]) by {}
            assert forall|j: int| pos <= j < before.len() implies luid_less(luid, #[trigger] before[j].luid) by {
                if j > pos {
                    assert(luid_less(before[pos as int].luid, before[j].luid));
                }
            }
            assert(mem_sorted(after)) by {
                assert forall|i: int, j: int| 0 <= i < j < after.len() implies luid_less(
                    #[trigger] after[i].luid,
                    #[trigger] after[j].luid,
                ) by {
                    if i < pos && j < pos {
                        assert(luid_less(before[i].luid, before[j].luid));
                    } else if i < pos && j > pos {
                        assert(luid_less(before[i].luid, luid));
                        assert(luid_less(luid, before[j - 1].luid));
                    } else if i > pos {
                        assert(luid_less(before[i - 1].luid, before[j - 1].luid));
                    }
                }
            }
            assert forall|l: Luid| #[trigger] has_luid(recs2, l) <==> luid_listed(after, l) by {
                lemma_has_luid_push(recs, r, l);
                if luid_listed(after, l) {
                    let i = choose|i: int| 0 <= i < after.len() && #[trigger] after[i].luid == l;
                    if i < pos {
                        assert(before[i].luid == l);
                    } else if i > pos {
                        assert(before[i - 1].luid == l);
                    }
                }
                if luid_listed(before, l) {
                    let i = choose|i: int| 0 <= i < before.len() && #[trigger] before[i].luid == l;
                    if i < pos {
                        assert(after[i].luid == l);
                    } else {
                        assert(after[i + 1].luid == l);
                    }
                }
                if l == luid {
                    assert(after[pos as int].luid == l);
                }
            }
            assert forall|i: int| 0 <= i < after.len() implies #[trigger] entry_of(recs2, after[i]) by {
                if i != pos {
                    let b = if i < pos { before[i] } else { before[i - 1] };
                    assert(entry_of(recs, b));
                    assert(b.luid != luid) by {
                        if b.luid == luid {
                            assert(luid_listed(before, luid));
                        }
                    }
                    lemma_entry_other(recs, r, b);
                }
            }
        }
    }
}

/// The dedicated memory per adapter from the instances of the
/// `GPU Process Memory(*)\Dedicated Usage` counter: instances whose name has
/// no LUID, whose process id is 0 or whose value is 0 do not count; the others
/// add up per adapter and per process (stopping at `u64::MAX`), and the
/// adapters come in order of LUID.
pub fn aggregate_memory(vals: &Vec<CounterValue>) -> (mem: Vec<LuidMem>)
    ensures
        summarizes(mem_records(vals@), mem@),
{
    let mut mem: Vec<LuidMem> = Vec::new();
    let n = vals.len();
    let mut i: usize = 0;
    proof {
        assert(vals@.take(0) =~= Seq::<CounterValue>::empty());
        assert forall|l: Luid| #[trigger] has_luid(mem_records(vals@.take(0)), l) <==> luid_listed(mem@, l) by {}
    }
    while i < n
        invariant
            n == vals@.len(),
            i <= n,
            summarizes(mem_records(vals@.take(i as int)), mem@),
        decreases n - i,
    {
        let ghost recs = mem_records(vals@.take(i as int));
        assert(vals@.take(i + 1).drop_last() == vals@.take(i as int));
        assert(vals@.take(i + 1).last() == vals@[i as int]);
        let v = &vals[i];
        let parsed = parse_instance(v.instance.as_str());
        match parsed {
            Some((pid, Some(luid))) => {
                if v.value != 0 && pid != 0 {
                    add_record(&mut mem, luid, pid, v.value, Ghost(recs));
                }
            },
            _ => {},
        }
        i = i + 1;
    }
    assert(vals@.take(n as int) == vals@);
    mem
}

// ---------------------------------------------------------------------------
// Utilization records
// ---------------------------------------------------------------------------

/// An engine instance that counts: (LUID, value), for instances whose name
/// carries a LUID.
pub open spec fn util_record(instance: Seq<char>, value: u64) -> Option<(Luid, u64)> {
    match instance_of(instance) {
        Some((_, Some(luid))) => Some((luid, value)),
        _ => None,
    }
}

/// The utilization records of the counter values, in order.
pub open spec fn util_records(vals: Seq<CounterValue>) -> Seq<(Luid, u64)>
    decreases vals.len(),
{
    if vals.len() == 0 {
        Seq::empty()
    } else {
        let rest = util_records(vals.drop_last());
        match util_record(vals.last().instance@, vals.last().value) {
            Some(r) => rest.push(r),
            None => rest,
        }
    }
}

/// The largest value recorded for adapter `l` (0 when there is none).
pub open spec fn util_max(recs: Seq<(Luid, u64)>, l: Luid) -> u64
    decreases recs.len(),
{
    if recs.len() == 0 {
        0
    } else {
        let m = util_max(recs.drop_last(), l);
        if recs.last().0 == l && recs.last().1 > m {
            recs.last().1
        } else {
            m
        }
    }
}

/// Some utilization record is on adapter `l`.
pub open spec fn has_util(recs: Seq<(Luid, u64)>, l: Luid) -> bool {
    exists|i: int| 0 <= i < recs.len() && #[trigger] recs[i].0 == l
}

/// Adapter `l` has an entry in `util`.
pub open spec fn util_listed(util: Seq<(Luid, u64)>, l: Luid) -> bool {
    exists|i: int| 0 <= i < util.len() && #[trigger] util[i].0 == l
}

/// `util` has one entry per adapter with records, in order of LUID, holding
/// the largest value recorded for it.
pub open spec fn util_summarizes(recs: Seq<(Luid, u64)>, util: Seq<(Luid, u64)>) -> bool {
    &&& forall|i: int, j: int|
        0 <= i < j < util.len() ==> luid_less(#[trigger] util[i].0, #[trigger] util[j].0)
    &&& forall|l: Luid| #[trigger] has_util(recs, l) <==> util_listed(util, l)
    &&& forall|i: int| 0 <= i < util.len() ==> #[trigger] util[i].1 == util_max(recs, util[i].0)
}

proof fn lemma_has_util_push(recs: Seq<(Luid, u64)>, r: (Luid, u64), l: Luid)
    ensures
        has_util(recs.push(r), l) == (has_util(recs, l) || r.0 == l),
{
    let s = recs.push(r);
    if has_util(recs, l) {
        let i = choose|i: int| 0 <= i < recs.len() && #[trigger] recs[i].0 == l;
        assert(s[i].0 == l);
    }
    if r.0 == l {
        assert(s[recs.len() as int].0 == l);
    }
    if has_util(s, l) {
        let i = choose|i: int| 0 <= i < s.len() && #[trigger] s[i].0 == l;
        if i < recs.len() {
            assert(recs[i].0 == l);
        }
    }
}

proof fn lemma_util_max_absent(recs: Seq<(Luid, u64)>, l: Luid)
    requires
        !has_util(recs, l),
    ensures
        util_max(recs, l) == 0,
    decreases recs.len(),
{
    if recs.len() > 0 {
        let d = recs.drop_last();
        if has_util(d, l) {
            let i = choose|i: int| 0 <= i < d.len() && #[trigger] d[i].0 == l;
            assert(recs[i].0 == l);
        }
        assert(recs[recs.len() - 1].0 != l);
        lemma_util_max_absent(d, l);
    }
}

/// An adapter's utilization is that of its busiest engine: no engine of the
/// adapter reports more, and where it has engines, one reports exactly that.
pub proof fn law_utilization_is_busiest_engine(recs: Seq<(Luid, u64)>, l: Luid)
    ensures
        forall|i: int| 0 <= i < recs.len() && (#[trigger] recs[i]).0 == l ==> recs[i].1 <= util_max(recs, l),
        has_util(recs, l) ==> exists|i: int| 0 <= i < recs.len() && (#[trigger] recs[i]).0 == l && recs[i].1 == util_max(recs, l),
    decreases recs.len(),
{
    if recs.len() > 0 {
        let d = recs.drop_last();
        law_utilization_is_busiest_engine(d, l);
        assert forall|i: int| 0 <= i < recs.len() && (#[trigger] recs[i]).0 == l implies recs[i].1 <= util_max(recs, l) by {
            if i < d.len() {
                assert(d[i] == recs[i]);
            }
        }
        if has_util(recs, l) {
            if recs.last().0 == l && recs.last().1 > util_max(d, l) {
                assert(recs[recs.len() - 1].0 == l);
            } else if has_util(d, l) {
                let i = choose|i: int| 0 <= i < d.len() && (#[trigger] d[i]).0 == l && d[i].1 == util_max(d, l);
                assert(recs[i] == d[i]);
            } else {
                lemma_util_max_absent(d, l);
                assert(recs[recs.len() - 1].0 == l) by {
                    let i = choose|i: int| 0 <= i < recs.len() && #[trigger] recs[i].0 == l;
                    if i < d.len() {
                        assert(d[i].0 == l);
                    }
                }
            }
        }
    }
}

/// Adds the record `(luid, value)` to a summary of `recs`.
fn add_util(
    util: &mut Vec<((u32, u32), u64)>,
    luid: (u32, u32),
    value: u64,
    Ghost(recs): Ghost<Seq<(Luid, u64)>>,
)
    requires
        util_summarizes(recs, old(util)@),
    ensures
        util_summarizes(recs.push((luid, value)), final(util)@),
{
    let ghost r = (luid, value);
    let ghost recs2 = recs.push(r);
    let ghost before = util@;
    assert(recs2.drop_last() == recs);
    let n = util.len();
    let mut pos: usize = 0;
    while pos < n && luid_lt(util[pos].0, luid)
        invariant
            n == util@.len(),
            util@ == before,
            pos <= n,
            forall|j: int| 0 <= j < pos ==> luid_less(#[trigger] before[j].0, luid),
        decreases n - pos,
    {
        pos = pos + 1;
    }
    if pos < n && util[pos].0.0 == luid.0 && util[pos].0.1 == luid.1 {
        let cur = util[pos].1;
        if value > cur {
            util.set(pos, (luid, value));
        }
        proof {
            let after = util@;
            assert(after[pos as int].1 == util_max(recs2, luid));
            assert forall|i: int, j: int| 0 <= i < j < after.len() implies luid_less(
                #[trigger] after[i].0,
                #[trigger] after[j].0,
            ) by {
                assert(luid_less(before[i].0, before[j].0));
            }
            assert forall|l: Luid| #[trigger] has_util(recs2, l) <==> util_listed(after, l) by {
                lemma_has_util_push(recs, r, l);
                if util_listed(after, l) {
                    let i = choose|i: int| 0 <= i < after.len() && #[trigger] after[i].0 == l;
                    assert(before[i].0 == l);
                }
                if util_listed(before, l) {
                    let i = choose|i: int| 0 <= i < before.len() && #[trigger] before[i].0 == l;
                    assert(after[i].0 == l);
                }
            }
            assert forall|i: int| 0 <= i < after.len() implies #[trigger] after[i].1 == util_max(
                recs2,
                after[i].0,
            ) by {
                if i != pos {
                    assert(before[i].0 != luid) by {
                        if i < pos {
                            assert(luid_less(before[i].0, before[pos as int].0));
                        } else {
                            assert(luid_less(before[pos as int].0, before[i].0));
                        }
                    }
                    assert(after[i] == before[i]);
                }
            }
        }
    } else {
        proof {
            assert(!util_listed(before, luid)) by {
                if util_listed(before, luid) {
                    let i = choose|i: int| 0 <= i < before.len() && #[trigger] before[i].0 == luid;
                    if i < pos {
                        assert(luid_less(before[i].0, luid));
                    } else if i > pos {
                        assert(luid_less(before[pos as int].0, before[i].0));
                    }
                }
            }
            lemma_util_max_absent(recs, luid);
        }
        util.insert(pos, (luid, value));
        proof {
            let after = util@;
            assert forall|i: int| 0 <= i < after.len() implies (i < pos ==> after[i] == before[i]) && (
            i > pos ==> after[i] == before[i - 1]) by {}
            assert forall|j: int| pos <= j < before.len() implies luid_less(luid, #[trigger] before[j].0) by {
                if j > pos {
                    assert(luid_less(before[pos as int].0, before[j].0));
                }
            }
            assert forall|i: int, j: int| 0 <= i < j < after.len() implies luid_less(
                #[trigger] after[i].0,
                #[trigger] after[j].0,
            ) by {
                if i < pos && j < pos {
                    assert(luid_less(before[i].0, before[j].0));
                } else if i < pos && j > pos {
                    assert(luid_less(before[i].0, luid));
                    assert(luid_less(luid, before[j - 1].0));
                } else if i > pos {
                    assert(luid_less(before[i - 1].0, before[j - 1].0));
                }
            }
            assert forall|l: Luid| #[trigger] has_util(recs2, l) <==> util_listed(after, l) by {
                lemma_has_util_push(recs, r, l);
                if util_listed(after, l) {
                    let i = choose|i: int| 0 <= i < after.len() && #[trigger] after[i].0 == l;
                    if i < pos {
                        assert(before[i].0 == l);
                    } else if i > pos {
                        assert(before[i - 1].0 == l);
                    }
                }
                if util_listed(before, l) {
                    let i = choose|i: int| 0 <= i < before.len() && #[trigger] before[i].0 == l;
                    if i < pos {
                        assert(after[i].0 == l);
                    } else {
                        assert(after[i + 1].0 == l);
                    }
                }
                if l == luid {
                    assert(after[pos as int].0 == l);
                }
            }
            assert forall|i: int| 0 <= i < after.len() implies #[trigger] after[i].1 == util_max(
                recs2,
                after[i].0,
            ) by {
                if i != pos {
                    let b = if i < pos { before[i] } else { before[i - 1] };
                    assert(b.0 != luid) by {
                        if b.0 == luid {
                            assert(util_listed(before, luid));
                        }
                    }
                }
            }
        }
    }
}

/// The utilization per adapter from the instances of the
/// `GPU Engine(*)\Utilization Percentage` counter: instances whose name has
/// no LUID do not count; each adapter gets the largest value of its engines,
/// and the adapters come in order of LUID.
pub fn aggregate_utilization(vals: &Vec<CounterValue>) -> (util: Vec<((u32, u32), u64)>)
    ensures
        util_summarizes(util_records(vals@), util@),
{
    let mut util: Vec<((u32, u32), u64)> = Vec::new();
    let n = vals.len();
    let mut i: usize = 0;
    assert(vals@.take(0) =~= Seq::<CounterValue>::empty());
    while i < n
        invariant
            n == vals@.len(),
            i <= n,
            util_summarizes(util_records(vals@.take(i as int)), util@),
        decreases n - i,
    {
        let ghost recs = util_records(vals@.take(i as int));
        assert(vals@.take(i + 1).drop_last() == vals@.take(i as int));
        assert(vals@.take(i + 1).last() == vals@[i as int]);
        let v = &vals[i];
        let parsed = parse_instance(v.instance.as_str());
        match parsed {
            Some((_, Some(luid))) => {
                add_util(&mut util, luid, v.value, Ghost(recs));
            },
            _ => {},
        }
        i = i + 1;
    }
    assert(vals@.take(n as int) == vals@);
    util
}

// ---------------------------------------------------------------------------
// The sampling query
// ---------------------------------------------------------------------------

/// The state of the GPU counter query between two readings: how many
/// collections have succeeded (utilization is a rate and needs two).
pub struct GpuProcessQuery {
    samples: u32,
}

impl GpuProcessQuery {
    /// The number of successful collections so far (stops at `u32::MAX`).
    pub closed spec fn sample_count(&self) -> nat {
        self.samples as nat
    }

    /// A query that has collected nothing yet.
    pub fn new() -> (q: Self)
        ensures
            q.sample_count() == 0,
    {
        GpuProcessQuery { samples: 0 }
    }

    /// One reading. `collected` says whether the counters were collected;
    /// `mem` and `util` are the instances of the memory and the engine counter,
    /// `None` where they could not be read.
    ///
    /// Nothing is read where the collection failed. Otherwise the sample count
    /// goes up by one, and the result is `None` when the memory instances are
    /// missing, or when they are there, this is the second sample or a later
    /// one and the engine instances are missing. Otherwise it is the snapshot:
    /// memory per adapter, and utilization per adapter from the second
    /// sample on (none on the first).
    pub fn read(
        &mut self,
        collected: bool,
        mem: Option<Vec<CounterValue>>,
        util: Option<Vec<CounterValue>>,
    ) -> (r: Option<GpuSnapshot>)
        ensures
            !collected ==> final(self).sample_count() == old(self).sample_count() && r is None,
            collected ==> final(self).sample_count() == (if old(self).sample_count() < u32::MAX {
                old(self).sample_count() + 1
            } else {
                u32::MAX as nat
            }),
            collected ==> (r is Some <==> (mem is Some && (final(self).sample_count() < 2
                || util is Some))),
            r matches Some(snap) ==> summarizes(mem_records(mem->0@), snap.mem@),
            r matches Some(snap) ==> (if final(self).sample_count() >= 2 {
                util_summarizes(util_records(util->0@), snap.util@)
            } else {
                snap.util@.len() == 0
            }),
    {
        if !collected {
            return None;
        }
        self.samples = self.samples.saturating_add(1);
        let mem_vals = match mem {
            None => {
                return None;
            },
            Some(v) => v,
        };
        let by_luid = aggregate_memory(&mem_vals);
        let util_per_luid = if self.samples >= 2 {
            match util {
                None => {
                    return None;
                },
                Some(v) => aggregate_utilization(&v),
            }
        } else {
            Vec::new()
        };
        Some(GpuSnapshot { mem: by_luid, util: util_per_luid })
    }
}

} // verus!
