//! The GPUs as shown: per card, the memory in use and in total, utilization,
//! temperature and the processes that hold memory.
use vstd::prelude::*;

use crate::adapters::{group_adapters, grouped, AdapterGroup, AdapterInfo, NVIDIA_VENDOR_ID};
use crate::instance::Luid;
use crate::processes::{
    collect_processes, entry_total, known_usage, listed_or_none, nvml_processes, processes_from,
    sum_by_pid, GpuProcess, NvmlProcess,
};
use crate::snapshot::{
    add_capped, capped_sum, entry_of, lemma_capped_sum_is_min, pid_bytes, plain_sum, sat_add,
    summarizes, GpuSnapshot, LuidMem,
};
use crate::text::{
    chars_equal, chars_of, decimal_of, lowercase_of, push_decimal, string_from_chars,
    to_lowercase, trim, trim_of,
};

verus! {

/// What NVML reported of one device; `None` where a query failed.
pub struct NvmlReading {
    pub name: Option<String>,
    /// (used, total) bytes of device memory.
    pub memory: Option<(u64, u64)>,
    /// Degrees Celsius of the GPU sensor.
    pub temperature: Option<u32>,
    /// Percent of time the GPU was busy.
    pub utilization: Option<u32>,
    pub compute: Option<Vec<NvmlProcess>>,
    pub graphics: Option<Vec<NvmlProcess>>,
}

/// One GPU as shown.
pub struct GpuInfo {
    pub index: u32,
    pub name: String,
    pub used_bytes: u64,
    pub total_bytes: u64,
    pub gpu_util: u32,
    /// Only NVIDIA cards have one.
    pub temp: Option<u32>,
    pub processes: Vec<GpuProcess>,
}

// ---------------------------------------------------------------------------
// Per-card figures from the counter snapshot
// ---------------------------------------------------------------------------

/// The memory entries of the snapshot (none without a snapshot).
pub open spec fn snapshot_mem(snap: Option<GpuSnapshot>) -> Seq<LuidMem> {
    match snap {
        Some(s) => s.mem@,
        None => Seq::empty(),
    }
}

/// The utilization entries of the snapshot (none without a snapshot).
pub open spec fn snapshot_util(snap: Option<GpuSnapshot>) -> Seq<(Luid, u64)> {
    match snap {
        Some(s) => s.util@,
        None => Seq::empty(),
    }
}

/// The position of the first memory entry of adapter `l`.
pub open spec fn mem_position(mem: Seq<LuidMem>, l: Luid) -> Option<int>
    decreases mem.len(),
{
    if mem.len() == 0 {
        None
    } else {
        match mem_position(mem.drop_last(), l) {
            Some(i) => Some(i),
            None => if mem.last().luid == l {
                Some(mem.len() - 1)
            } else {
                None
            },
        }
    }
}

/// The position of the first utilization entry of adapter `l`.
pub open spec fn util_position(util: Seq<(Luid, u64)>, l: Luid) -> Option<int>
    decreases util.len(),
{
    if util.len() == 0 {
        None
    } else {
        match util_position(util.drop_last(), l) {
            Some(i) => Some(i),
            None => if util.last().0 == l {
                Some(util.len() - 1)
            } else {
                None
            },
        }
    }
}

/// The memory in use on the card's adapters: the total of each adapter's
/// memory entry, summed over the card's LUIDs (capped at `u64::MAX`).
pub open spec fn luids_used(mem: Seq<LuidMem>, luids: Seq<Luid>) -> u64
    decreases luids.len(),
{
    if luids.len() == 0 {
        0
    } else {
        let rest = luids_used(mem, luids.drop_last());
        match mem_position(mem, luids.last()) {
            Some(i) => sat_add(rest, mem[i].total_bytes),
            None => rest,
        }
    }
}

/// The per-process entries of the card's adapters, LUID by LUID.
pub open spec fn luids_entries(mem: Seq<LuidMem>, luids: Seq<Luid>) -> Seq<(u32, u64)>
    decreases luids.len(),
{
    if luids.len() == 0 {
        Seq::empty()
    } else {
        let rest = luids_entries(mem, luids.drop_last());
        match mem_position(mem, luids.last()) {
            Some(i) => rest + mem[i].by_pid@,
            None => rest,
        }
    }
}

/// The highest utilization among the card's adapters (0 when none has one).
pub open spec fn luids_util(util: Seq<(Luid, u64)>, luids: Seq<Luid>) -> u64
    decreases luids.len(),
{
    if luids.len() == 0 {
        0
    } else {
        let rest = luids_util(util, luids.drop_last());
        match util_position(util, luids.last()) {
            Some(i) => if util[i].1 > rest {
                util[i].1
            } else {
                rest
            },
            None => rest,
        }
    }
}

/// A utilization as a `u32`, saturating.
pub open spec fn util_u32(v: u64) -> u32 {
    if v > u32::MAX {
        u32::MAX
    } else {
        v as u32
    }
}

// ---------------------------------------------------------------------------
// Matching NVML devices by name
// ---------------------------------------------------------------------------

/// The key by which adapter and NVML device names are matched: trimmed, then
/// lower-cased.
pub open spec fn name_key(name: Seq<char>) -> Seq<char> {
    lowercase_of(trim_of(name))
}

/// NVML device `d` reported a name with key `key`.
pub open spec fn device_has_key(d: Option<NvmlReading>, key: Seq<char>) -> bool {
    match d {
        Some(r) => match r.name {
            Some(n) => name_key(n@) == key,
            None => false,
        },
        None => false,
    }
}

/// The index of the last NVML device whose name has the key `key` (later
/// devices with the same name take the place of earlier ones).
pub open spec fn nvml_match(nvml: Seq<Option<NvmlReading>>, key: Seq<char>) -> Option<int>
    decreases nvml.len(),
{
    if nvml.len() == 0 {
        None
    } else if device_has_key(nvml.last(), key) {
        Some(nvml.len() - 1)
    } else {
        nvml_match(nvml.drop_last(), key)
    }
}

/// The NVML reading that belongs to a card: NVIDIA cards only, by name.
pub open spec fn card_reading(g: AdapterGroup, nvml: Seq<Option<NvmlReading>>) -> Option<NvmlReading> {
    if g.vendor_id == NVIDIA_VENDOR_ID {
        match nvml_match(nvml, name_key(g.name@)) {
            Some(j) => nvml[j],
            None => None,
        }
    } else {
        None
    }
}

/// `info` is what is shown for card `g` at position `i`: memory in use from
/// the counters (summed over the card's adapters), total memory the card's
/// dedicated memory, the busiest adapter's utilization, and the processes of
/// all its adapters; for an NVIDIA card that NVML knows by name, the
/// temperature from NVML and, where NVML reports it, used and total memory
/// from NVML.
pub open spec fn card_gpu(
    g: AdapterGroup,
    i: int,
    snap: Option<GpuSnapshot>,
    nvml: Seq<Option<NvmlReading>>,
    names: Seq<(u32, String)>,
    info: GpuInfo,
) -> bool {
    let mem = snapshot_mem(snap);
    let reading = card_reading(g, nvml);
    let nvml_memory = match reading {
        Some(d) => d.memory,
        None => None,
    };
    &&& info.index == i as u32
    &&& info.name@ == g.name@
    &&& info.used_bytes == match nvml_memory {
        Some(m) => m.0,
        None => luids_used(mem, g.luids@),
    }
    &&& info.total_bytes == match nvml_memory {
        Some(m) => m.1,
        None => g.dedicated_bytes,
    }
    &&& info.gpu_util == util_u32(luids_util(snapshot_util(snap), g.luids@))
    &&& info.temp == match reading {
        Some(d) => d.temperature,
        None => None,
    }
    &&& processes_from(
        info.processes@,
        |p: u32| entry_total(luids_entries(mem, g.luids@), p),
        names,
    )
}

// ---------------------------------------------------------------------------
// Executable parts
// ---------------------------------------------------------------------------

fn find_mem(mem: &Vec<LuidMem>, l: (u32, u32)) -> (r: Option<usize>)
    ensures
        match r {
            Some(i) => mem_position(mem@, l) == Some(i as int) && i < mem@.len(),
            None => mem_position(mem@, l) is None,
        },
{
    let n = mem.len();
    let mut i: usize = 0;
    while i < n
        invariant
            n == mem@.len(),
            i <= n,
            mem_position(mem@.take(i as int), l) is None,
        decreases n - i,
    {
        assert(mem@.take(i + 1).drop_last() == mem@.take(i as int));
        if mem[i].luid.0 == l.0 && mem[i].luid.1 == l.1 {
            assert(mem_position(mem@.take(i + 1), l) == Some(i as int));
            proof {
                lemma_mem_position_extend(mem@, l, i as int + 1);
            }
            return Some(i);
        }
        i = i + 1;
    }
    assert(mem@.take(n as int) == mem@);
    None
}

proof fn lemma_mem_position_extend(mem: Seq<LuidMem>, l: Luid, k: int)
    requires
        0 <= k <= mem.len(),
        mem_position(mem.take(k), l) is Some,
    ensures
        mem_position(mem, l) == mem_position(mem.take(k), l),
    decreases mem.len() - k,
{
    if k < mem.len() {
        assert(mem.take(k + 1).drop_last() == mem.take(k));
        lemma_mem_position_extend(mem, l, k + 1);
    } else {
        assert(mem.take(k) == mem);
    }
}

fn find_util(util: &Vec<((u32, u32), u64)>, l: (u32, u32)) -> (r: Option<usize>)
    ensures
        match r {
            Some(i) => util_position(util@, l) == Some(i as int) && i < util@.len(),
            None => util_position(util@, l) is None,
        },
{
    let n = util.len();
    let mut i: usize = 0;
    while i < n
        invariant
            n == util@.len(),
            i <= n,
            util_position(util@.take(i as int), l) is None,
        decreases n - i,
    {
        assert(util@.take(i + 1).drop_last() == util@.take(i as int));
        if util[i].0.0 == l.0 && util[i].0.1 == l.1 {
            assert(util_position(util@.take(i + 1), l) == Some(i as int));
            proof {
                lemma_util_position_extend(util@, l, i as int + 1);
            }
            return Some(i);
        }
        i = i + 1;
    }
    assert(util@.take(n as int) == util@);
    None
}

proof fn lemma_util_position_extend(util: Seq<(Luid, u64)>, l: Luid, k: int)
    requires
        0 <= k <= util.len(),
        util_position(util.take(k), l) is Some,
    ensures
        util_position(util, l) == util_position(util.take(k), l),
    decreases util.len() - k,
{
    if k < util.len() {
        assert(util.take(k + 1).drop_last() == util.take(k));
        lemma_util_position_extend(util, l, k + 1);
    } else {
        assert(util.take(k) == util);
    }
}

/// Used memory, per-process entries and utilization of a card's adapters.
fn card_counters(mem: &Vec<LuidMem>, util: &Vec<((u32, u32), u64)>, luids: &Vec<(u32, u32)>) -> (r: (
    u64,
    Vec<(u32, u64)>,
    u64,
))
    ensures
        r.0 == luids_used(mem@, luids@),
        r.1@ == luids_entries(mem@, luids@),
        r.2 == luids_util(util@, luids@),
{
    let mut used: u64 = 0;
    let mut entries: Vec<(u32, u64)> = Vec::new();
    let mut best: u64 = 0;
    let n = luids.len();
    let mut i: usize = 0;
    assert(luids@.take(0) =~= Seq::<Luid>::empty());
    while i < n
        invariant
            n == luids@.len(),
            i <= n,
            used == luids_used(mem@, luids@.take(i as int)),
            entries@ == luids_entries(mem@, luids@.take(i as int)),
            best == luids_util(util@, luids@.take(i as int)),
        decreases n - i,
    {
        let ghost next = luids@.take(i + 1);
        assert(next.drop_last() == luids@.take(i as int));
        assert(next.last() == luids@[i as int]);
        let l = luids[i];
        match find_mem(mem, l) {
            Some(k) => {
                used = add_capped(used, mem[k].total_bytes);
                let ghost before = entries@;
                let m = mem[k].by_pid.len();
                let mut j: usize = 0;
                while j < m
                    invariant
                        m == mem@[k as int].by_pid@.len(),
                        k < mem@.len(),
                        j <= m,
                        entries@ == before + mem@[k as int].by_pid@.take(j as int),
                    decreases m - j,
                {
                    entries.push(mem[k].by_pid[j]);
                    assert(mem@[k as int].by_pid@.take(j + 1) == mem@[k as int].by_pid@.take(j as int).push(mem@[k as int].by_pid@[j as int]));
                    j = j + 1;
                }
                assert(mem@[k as int].by_pid@.take(m as int) == mem@[k as int].by_pid@);
            },
            None => {},
        }
        match find_util(util, l) {
            Some(k) => {
                if util[k].1 > best {
                    best = util[k].1;
                }
            },
            None => {},
        }
        i = i + 1;
    }
    assert(luids@.take(n as int) == luids@);
    (used, entries, best)
}

/// The key of a name: trimmed, then lower-cased.
fn key_of(name: &String) -> (r: Vec<char>)
    ensures
        r@ == name_key(name@),
{
    let chars = chars_of(name.as_str());
    let trimmed = trim(&chars);
    let s = string_from_chars(&trimmed);
    let lower = to_lowercase(s.as_str());
    chars_of(lower.as_str())
}

/// The index of the last NVML device whose name has the key `key`.
fn match_device(nvml: &Vec<Option<NvmlReading>>, key: &Vec<char>) -> (r: Option<usize>)
    ensures
        match r {
            Some(j) => nvml_match(nvml@, key@) == Some(j as int) && j < nvml@.len(),
            None => nvml_match(nvml@, key@) is None,
        },
{
    let mut i = nvml.len();
    assert(nvml@.take(i as int) == nvml@);
    while i > 0
        invariant
            i <= nvml@.len(),
            nvml_match(nvml@, key@) == nvml_match(nvml@.take(i as int), key@),
        decreases i,
    {
        let ghost pre = nvml@.take(i as int);
        assert(pre.drop_last() == nvml@.take(i - 1));
        assert(pre.last() == nvml@[i - 1]);
        let hit = match &nvml[i - 1] {
            Some(d) => match &d.name {
                Some(n) => {
                    let k = key_of(n);
                    chars_equal(&k, key)
                },
                None => false,
            },
            None => false,
        };
        if hit {
            return Some(i - 1);
        }
        i = i - 1;
    }
    assert(nvml@.take(0) =~= Seq::<Option<NvmlReading>>::empty());
    None
}

fn clone_processes(v: &Option<Vec<NvmlProcess>>) -> (r: Option<Vec<NvmlProcess>>)
    ensures
        listed_or_none(r) == listed_or_none(*v),
{
    match v {
        Some(list) => {
            let mut out: Vec<NvmlProcess> = Vec::new();
            let n = list.len();
            let mut i: usize = 0;
            while i < n
                invariant
                    n == list@.len(),
                    i <= n,
                    out@ == list@.take(i as int),
                decreases n - i,
            {
                out.push(NvmlProcess { pid: list[i].pid, used: list[i].used });
                assert(list@.take(i + 1) == list@.take(i as int).push(list@[i as int]));
                i = i + 1;
            }
            assert(list@.take(n as int) == list@);
            Some(out)
        },
        None => None,
    }
}

/// What is shown for card `g` at position `i` (see `card_gpu`).
pub fn card_info(
    g: &AdapterGroup,
    i: usize,
    snapshot: &Option<GpuSnapshot>,
    nvml: &Vec<Option<NvmlReading>>,
    names: &Vec<(u32, String)>,
) -> (info: GpuInfo)
    ensures
        card_gpu(*g, i as int, *snapshot, nvml@, names@, info),
{
    let empty_mem: Vec<LuidMem> = Vec::new();
    let empty_util: Vec<((u32, u32), u64)> = Vec::new();
    let (mem, util) = match snapshot {
        Some(s) => (&s.mem, &s.util),
        None => (&empty_mem, &empty_util),
    };
    assert(mem@ == snapshot_mem(*snapshot));
    assert(util@ == snapshot_util(*snapshot));
    let (pdh_used, entries, best) = card_counters(mem, util, &g.luids);
    let by_pid = sum_by_pid(&entries);
    let processes = collect_processes(&by_pid, names);
    proof {
        let f = |p: u32| pid_bytes(by_pid@, p);
        let h = |p: u32| entry_total(luids_entries(mem@, g.luids@), p);
        assert(f =~= h);
    }
    let mut used_bytes = pdh_used;
    let mut total_bytes = g.dedicated_bytes;
    let mut temp: Option<u32> = None;
    if g.vendor_id == NVIDIA_VENDOR_ID {
        let key = key_of(&g.name);
        match match_device(nvml, &key) {
            Some(j) => match &nvml[j] {
                Some(d) => {
                    temp = d.temperature;
                    match d.memory {
                        Some(m) => {
                            used_bytes = m.0;
                            total_bytes = m.1;
                        },
                        None => {},
                    }
                },
                None => {},
            },
            None => {},
        }
    }
    let gpu_util: u32 = if best > 0xFFFF_FFFFu64 {
        u32::MAX
    } else {
        best as u32
    };
    GpuInfo {
        index: i as u32,
        name: g.name.clone(),
        used_bytes,
        total_bytes,
        gpu_util,
        temp,
        processes,
    }
}

/// The GPUs of a machine that enumerates display adapters: one per card (see
/// `group_adapters`), NVIDIA first, each as `card_gpu` says, from the
/// counter snapshot (absent where the counters could not be read), the NVML
/// devices (by index) and the process table.
pub fn collect_all(
    adapters: &Vec<AdapterInfo>,
    snapshot: &Option<GpuSnapshot>,
    nvml: &Vec<Option<NvmlReading>>,
    names: &Vec<(u32, String)>,
) -> (r: Vec<GpuInfo>)
    ensures
        exists|gs: Seq<AdapterGroup>|
            {
                &&& grouped(adapters@, gs)
                &&& gs.len() == r@.len()
                &&& forall|i: int|
                    0 <= i < r@.len() ==> card_gpu(gs[i], i, *snapshot, nvml@, names@, #[trigger] r@[i])
            },
{
    let groups = group_adapters(adapters);
    let mut out: Vec<GpuInfo> = Vec::new();
    let n = groups.len();
    let mut i: usize = 0;
    while i < n
        invariant
            n == groups@.len(),
            i <= n,
            out@.len() == i,
            forall|k: int|
                0 <= k < i ==> card_gpu(groups@[k], k, *snapshot, nvml@, names@, #[trigger] out@[k]),
        decreases n - i,
    {
        let info = card_info(&groups[i], i, snapshot, nvml, names);
        out.push(info);
        i = i + 1;
    }
    assert(grouped(adapters@, groups@) && groups@.len() == out@.len());
    out
}

// ---------------------------------------------------------------------------
// GPUs straight from NVML
// ---------------------------------------------------------------------------

/// `GPU ` followed by the device index in decimal.
pub open spec fn gpu_label(i: u32) -> Seq<char> {
    seq!['G', 'P', 'U', ' '] + decimal_of(i as nat)
}

/// `info` is what is shown for NVML device `d` at index `i`.
pub open spec fn device_gpu(d: NvmlReading, i: int, names: Seq<(u32, String)>, info: GpuInfo) -> bool {
    &&& info.index == i as u32
    &&& info.name@ == match d.name {
        Some(n) => n@,
        None => gpu_label(i as u32),
    }
    &&& d.memory matches Some(m) && info.used_bytes == m.0 && info.total_bytes == m.1
    &&& info.gpu_util == match d.utilization {
        Some(u) => u,
        None => 0,
    }
    &&& info.temp == Some(
        match d.temperature {
            Some(t) => t,
            None => 0,
        },
    )
    &&& processes_from(
        info.processes@,
        |p: u32|
            entry_total(
                known_usage(listed_or_none(d.compute)) + known_usage(listed_or_none(d.graphics)),
                p,
            ),
        names,
    )
}

/// The indices of the devices that were read and reported their memory.
pub open spec fn shown_devices(devices: Seq<Option<NvmlReading>>) -> Seq<int>
    decreases devices.len(),
{
    if devices.len() == 0 {
        Seq::empty()
    } else {
        let rest = shown_devices(devices.drop_last());
        match devices.last() {
            Some(d) => if d.memory is Some {
                rest.push(devices.len() - 1)
            } else {
                rest
            },
            None => rest,
        }
    }
}

/// The GPUs as NVML lists them, by device index: devices that could not be
/// read or did not report their memory are left out; a device without a name
/// is called `GPU <index>`; utilization 0 and temperature 0 where NVML
/// reports none.
pub fn collect_nvml_gpus(devices: &Vec<Option<NvmlReading>>, names: &Vec<(u32, String)>) -> (r: Vec<
    GpuInfo,
>)
    ensures
        r@.len() == shown_devices(devices@).len(),
        forall|k: int|
            0 <= k < r@.len() ==> device_gpu(
                devices@[shown_devices(devices@)[k]]->0,
                shown_devices(devices@)[k],
                names@,
                #[trigger] r@[k],
            ),
{
    let mut out: Vec<GpuInfo> = Vec::new();
    let n = devices.len();
    let mut i: usize = 0;
    assert(devices@.take(0) =~= Seq::<Option<NvmlReading>>::empty());
    while i < n
        invariant
            n == devices@.len(),
            i <= n,
            out@.len() == shown_devices(devices@.take(i as int)).len(),
            forall|k: int| 0 <= k < out@.len() ==> 0 <= #[trigger] shown_devices(devices@.take(i as int))[k] < i,
            forall|k: int|
                0 <= k < out@.len() ==> device_gpu(
                    devices@[shown_devices(devices@.take(i as int))[k]]->0,
                    shown_devices(devices@.take(i as int))[k],
                    names@,
                    #[trigger] out@[k],
                ),
        decreases n - i,
    {
        let ghost prev = devices@.take(i as int);
        let ghost next = devices@.take(i + 1);
        assert(next.drop_last() == prev);
        assert(next.last() == devices@[i as int]);
        match &devices[i] {
            Some(d) => match d.memory {
                Some(m) => {
                    let name = match &d.name {
                        Some(s) => s.clone(),
                        None => {
                            let mut chars: Vec<char> = vec!['G', 'P', 'U', ' '];
                            push_decimal(&mut chars, i as u32);
                            string_from_chars(&chars)
                        },
                    };
                    let by_pid = nvml_processes(&d.compute, &d.graphics);
                    let processes = collect_processes(&by_pid, names);
                    proof {
                        let entries = known_usage(listed_or_none(d.compute)) + known_usage(
                            listed_or_none(d.graphics),
                        );
                        let f = |p: u32| pid_bytes(by_pid@, p);
                        let h = |p: u32| entry_total(entries, p);
                        assert(f =~= h);
                    }
                    let info = GpuInfo {
                        index: i as u32,
                        name,
                        used_bytes: m.0,
                        total_bytes: m.1,
                        gpu_util: match d.utilization {
                            Some(u) => u,
                            None => 0,
                        },
                        temp: Some(
                            match d.temperature {
                                Some(t) => t,
                                None => 0,
                            },
                        ),
                        processes,
                    };
                    out.push(info);
                },
                None => {},
            },
            None => {},
        }
        i = i + 1;
    }
    assert(devices@.take(n as int) == devices@);
    out
}

// ---------------------------------------------------------------------------
// Laws
// ---------------------------------------------------------------------------

proof fn lemma_plain_sum_concat(a: Seq<(u32, u64)>, b: Seq<(u32, u64)>)
    ensures
        plain_sum(a + b) == plain_sum(a) + plain_sum(b),
    decreases b.len(),
{
    if b.len() == 0 {
        assert(a + b == a);
    } else {
        assert((a + b).drop_last() == a + b.drop_last());
        lemma_plain_sum_concat(a, b.drop_last());
    }
}

proof fn lemma_capped_sum_concat(a: Seq<(u32, u64)>, b: Seq<(u32, u64)>)
    ensures
        capped_sum(a + b) == sat_add(capped_sum(a), capped_sum(b)),
{
    lemma_plain_sum_concat(a, b);
    lemma_capped_sum_is_min(a);
    lemma_capped_sum_is_min(b);
    lemma_capped_sum_is_min(a + b);
}

proof fn lemma_mem_position_bound(mem: Seq<LuidMem>, l: Luid)
    ensures
        mem_position(mem, l) matches Some(i) ==> 0 <= i < mem.len() && mem[i].luid == l,
    decreases mem.len(),
{
    if mem.len() > 0 {
        lemma_mem_position_bound(mem.drop_last(), l);
    }
}

/// The memory that the counters attribute to a card is the memory of the
/// card's per-process entries: summing the adapters' totals gives the same as
/// summing all processes on them (both capped at `u64::MAX`).
pub proof fn law_card_memory_is_process_memory(
    recs: Seq<(Luid, u32, u64)>,
    mem: Seq<LuidMem>,
    luids: Seq<Luid>,
)
    requires
        summarizes(recs, mem),
    ensures
        luids_used(mem, luids) == capped_sum(luids_entries(mem, luids)),
    decreases luids.len(),
{
    if luids.len() > 0 {
        let rest = luids.drop_last();
        law_card_memory_is_process_memory(recs, mem, rest);
        lemma_mem_position_bound(mem, luids.last());
        match mem_position(mem, luids.last()) {
            Some(i) => {
                assert(entry_of(recs, mem[i]));
                lemma_capped_sum_concat(luids_entries(mem, rest), mem[i].by_pid@);
            },
            None => {},
        }
    }
}

} // verus!
