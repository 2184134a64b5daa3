//! Display adapters: which ones count as GPUs, and how adapters that stand
//! for one card are grouped.
use vstd::prelude::*;

use crate::instance::Luid;
use crate::order::{
    lemma_distinct_counts_once, lemma_repeat_counts_twice, sort_ranked, Ranked,
};

verus! {

/// The PCI vendor id of NVIDIA.
pub const NVIDIA_VENDOR_ID: u32 = 0x10DE;

/// The vendor id of Microsoft's software renderer (Basic Display / WARP),
/// which is no real GPU.
pub const MICROSOFT_VENDOR_ID: u32 = 0x1414;

/// An adapter as the system describes it: the two halves of its LUID, its
/// description, vendor id and dedicated video memory.
pub struct AdapterDesc {
    pub luid_high: i32,
    pub luid_low: u32,
    pub description: String,
    pub vendor_id: u32,
    pub dedicated_bytes: u64,
}

/// A GPU adapter: LUID (high part as unsigned, low part), name, vendor id and
/// dedicated video memory in bytes.
pub struct AdapterInfo {
    pub luid: (u32, u32),
    pub name: String,
    pub vendor_id: u32,
    pub dedicated_bytes: u64,
}

/// `s` without its trailing NUL characters (`str::trim_end_matches('\0')`).
pub open spec fn trim_nul_end(s: Seq<char>) -> Seq<char>
    decreases s.len(),
{
    if s.len() > 0 && s.last() == '\0' {
        trim_nul_end(s.drop_last())
    } else {
        s
    }
}

/// The adapters that are real GPUs: all but Microsoft's software renderer.
pub open spec fn gpu_descs(descs: Seq<AdapterDesc>) -> Seq<AdapterDesc>
    decreases descs.len(),
{
    if descs.len() == 0 {
        Seq::empty()
    } else {
        let rest = gpu_descs(descs.drop_last());
        if descs.last().vendor_id == MICROSOFT_VENDOR_ID {
            rest
        } else {
            rest.push(descs.last())
        }
    }
}

/// `a` is what description `d` says of a GPU adapter.
pub open spec fn adapter_of(d: AdapterDesc, a: AdapterInfo) -> bool {
    &&& a.luid == (d.luid_high as u32, d.luid_low)
    &&& a.name@ == trim_nul_end(d.description@)
    &&& a.vendor_id == d.vendor_id
    &&& a.dedicated_bytes == d.dedicated_bytes
}

proof fn lemma_trim_nul_take(s: Seq<char>, k: int)
    requires
        0 <= k <= s.len(),
        forall|j: int| k <= j < s.len() ==> #[trigger] s[j] == '\0',
    ensures
        trim_nul_end(s) == trim_nul_end(s.take(k)),
    decreases s.len() - k,
{
    if k < s.len() {
        assert(s.take(s.len() - 1) == s.drop_last());
        lemma_trim_nul_take(s.drop_last(), k);
        assert(s.drop_last().take(k) == s.take(k));
    } else {
        assert(s.take(k) == s);
    }
}

/// The name of an adapter: its description without trailing NULs.
fn adapter_name(description: &String) -> (r: String)
    ensures
        r@ == trim_nul_end(description@),
{
    let chars = crate::text::chars_of(description.as_str());
    let mut end = chars.len();
    while end > 0 && chars[end - 1] == '\0'
        invariant
            end <= chars@.len(),
            forall|j: int| end <= j < chars@.len() ==> #[trigger] chars@[j] == '\0',
        decreases end,
    {
        end = end - 1;
    }
    proof {
        lemma_trim_nul_take(chars@, end as int);
        let kept = chars@.take(end as int);
        assert(kept.len() == 0 || kept.last() != '\0');
        assert(trim_nul_end(kept) == kept);
    }
    let mut out: Vec<char> = Vec::new();
    let mut i: usize = 0;
    while i < end
        invariant
            end <= chars@.len(),
            i <= end,
            out@ == chars@.take(i as int),
        decreases end - i,
    {
        out.push(chars[i]);
        i = i + 1;
    }
    crate::text::string_from_chars(&out)
}

/// The GPU adapters among those the system enumerated, in enumeration order:
/// Microsoft's software renderer is left out, the LUID's high part is taken as
/// unsigned, and trailing NULs are cut from the description.
pub fn adapters(found: Vec<AdapterDesc>) -> (r: Vec<AdapterInfo>)
    ensures
        r@.len() == gpu_descs(found@).len(),
        forall|k: int| 0 <= k < r@.len() ==> adapter_of(gpu_descs(found@)[k], #[trigger] r@[k]),
{
    let mut out: Vec<AdapterInfo> = Vec::new();
    let n = found.len();
    let mut i: usize = 0;
    assert(found@.take(0) =~= Seq::<AdapterDesc>::empty());
    while i < n
        invariant
            n == found@.len(),
            i <= n,
            out@.len() == gpu_descs(found@.take(i as int)).len(),
            forall|k: int|
                0 <= k < out@.len() ==> adapter_of(
                    gpu_descs(found@.take(i as int))[k],
                    #[trigger] out@[k],
                ),
        decreases n - i,
    {
        assert(found@.take(i + 1).drop_last() == found@.take(i as int));
        assert(found@.take(i + 1).last() == found@[i as int]);
        let d = &found[i];
        if d.vendor_id != MICROSOFT_VENDOR_ID {
            let info = AdapterInfo {
                luid: (d.luid_high as u32, d.luid_low),
                name: adapter_name(&d.description),
                vendor_id: d.vendor_id,
                dedicated_bytes: d.dedicated_bytes,
            };
            out.push(info);
        }
        i = i + 1;
    }
    assert(found@.take(n as int) == found@);
    out
}

// ---------------------------------------------------------------------------
// Grouping
// ---------------------------------------------------------------------------

/// Adapters of one card: those with the same name and vendor. The dedicated
/// memory is that of the largest instance (not their sum); the LUIDs are the
/// instances' LUIDs in enumeration order.
pub struct AdapterGroup {
    pub name: String,
    pub vendor_id: u32,
    pub dedicated_bytes: u64,
    pub luids: Vec<(u32, u32)>,
    /// Position of the card's first adapter in enumeration order.
    pub first_index: usize,
}

impl Ranked for AdapterGroup {
    /// NVIDIA before others, then by first enumeration.
    open spec fn goes_before(&self, other: &Self) -> bool {
        ||| (self.vendor_id == NVIDIA_VENDOR_ID && other.vendor_id != NVIDIA_VENDOR_ID)
        ||| ((self.vendor_id == NVIDIA_VENDOR_ID) == (other.vendor_id == NVIDIA_VENDOR_ID)
            && self.first_index < other.first_index)
    }

    fn ranks_before(&self, other: &Self) -> (r: bool) {
        let a = self.vendor_id == NVIDIA_VENDOR_ID;
        let b = other.vendor_id == NVIDIA_VENDOR_ID;
        (a && !b) || (a == b && self.first_index < other.first_index)
    }

    proof fn lemma_irreflexive(a: &Self) {
    }

    proof fn lemma_transitive(a: &Self, b: &Self, c: &Self) {
    }
}

/// Adapter `a` has the name `name` and the vendor `vendor`.
pub open spec fn has_key(a: AdapterInfo, name: Seq<char>, vendor: u32) -> bool {
    a.name@ == name && a.vendor_id == vendor
}

/// Some adapter has the name `name` and the vendor `vendor`.
pub open spec fn key_present(ads: Seq<AdapterInfo>, name: Seq<char>, vendor: u32) -> bool {
    exists|k: int| 0 <= k < ads.len() && has_key(#[trigger] ads[k], name, vendor)
}

/// The position of the first adapter with the name and vendor.
pub open spec fn first_of_key(ads: Seq<AdapterInfo>, name: Seq<char>, vendor: u32) -> int
    decreases ads.len(),
{
    if ads.len() == 0 {
        0
    } else if key_present(ads.drop_last(), name, vendor) {
        first_of_key(ads.drop_last(), name, vendor)
    } else {
        ads.len() - 1
    }
}

/// The LUIDs of the adapters with the name and vendor, in order.
pub open spec fn key_luids(ads: Seq<AdapterInfo>, name: Seq<char>, vendor: u32) -> Seq<Luid>
    decreases ads.len(),
{
    if ads.len() == 0 {
        Seq::empty()
    } else {
        let rest = key_luids(ads.drop_last(), name, vendor);
        if has_key(ads.last(), name, vendor) {
            rest.push(ads.last().luid)
        } else {
            rest
        }
    }
}

/// The largest dedicated memory of the adapters with the name and vendor.
pub open spec fn key_dedicated(ads: Seq<AdapterInfo>, name: Seq<char>, vendor: u32) -> u64
    decreases ads.len(),
{
    if ads.len() == 0 {
        0
    } else {
        let rest = key_dedicated(ads.drop_last(), name, vendor);
        if has_key(ads.last(), name, vendor) && ads.last().dedicated_bytes > rest {
            ads.last().dedicated_bytes
        } else {
            rest
        }
    }
}

/// `g` is the group of its name and vendor among `ads`.
pub open spec fn group_of(ads: Seq<AdapterInfo>, g: AdapterGroup) -> bool {
    &&& key_present(ads, g.name@, g.vendor_id)
    &&& g.luids@ == key_luids(ads, g.name@, g.vendor_id)
    &&& g.dedicated_bytes == key_dedicated(ads, g.name@, g.vendor_id)
    &&& g.first_index == first_of_key(ads, g.name@, g.vendor_id)
}

/// Some group of `gs` has the name and vendor of adapter `a`.
pub open spec fn in_some_group(gs: Seq<AdapterGroup>, a: AdapterInfo) -> bool {
    exists|i: int| 0 <= i < gs.len() && has_key(a, (#[trigger] gs[i]).name@, gs[i].vendor_id)
}

/// `a` is shown before `b`: NVIDIA before others, otherwise in the order in
/// which the cards were first enumerated.
pub open spec fn shown_before(ads: Seq<AdapterInfo>, a: AdapterGroup, b: AdapterGroup) -> bool {
    ||| (a.vendor_id == NVIDIA_VENDOR_ID && b.vendor_id != NVIDIA_VENDOR_ID)
    ||| ((a.vendor_id == NVIDIA_VENDOR_ID) == (b.vendor_id == NVIDIA_VENDOR_ID) && first_of_key(
        ads,
        a.name@,
        a.vendor_id,
    ) < first_of_key(ads, b.name@, b.vendor_id))
}

/// `gs` are the groups of `ads`: every adapter is in one, each is as
/// `group_of` says, NVIDIA cards first and then in order of first enumeration.
pub open spec fn grouped(ads: Seq<AdapterInfo>, gs: Seq<AdapterGroup>) -> bool {
    &&& forall|i: int| 0 <= i < gs.len() ==> #[trigger] group_of(ads, gs[i])
    &&& forall|k: int|
        0 <= k < ads.len() ==> in_some_group(gs, ads[k])
    &&& forall|i: int, j: int| 0 <= i < j < gs.len() ==> shown_before(ads, #[trigger] gs[i], #[trigger] gs[j])
}

proof fn lemma_key_present_push(ads: Seq<AdapterInfo>, a: AdapterInfo, name: Seq<char>, vendor: u32)
    ensures
        key_present(ads.push(a), name, vendor) == (key_present(ads, name, vendor) || has_key(
            a,
            name,
            vendor,
        )),
{
    let s = ads.push(a);
    if key_present(ads, name, vendor) {
        let k = choose|k: int| 0 <= k < ads.len() && has_key(#[trigger] ads[k], name, vendor);
        assert(s[k] == ads[k]);
    }
    if has_key(a, name, vendor) {
        assert(s[ads.len() as int] == a);
    }
    if key_present(s, name, vendor) {
        let k = choose|k: int| 0 <= k < s.len() && has_key(#[trigger] s[k], name, vendor);
        if k < ads.len() {
            assert(ads[k] == s[k]);
        }
    }
}

proof fn lemma_first_of_key_bound(ads: Seq<AdapterInfo>, name: Seq<char>, vendor: u32)
    requires
        key_present(ads, name, vendor),
    ensures
        0 <= first_of_key(ads, name, vendor) < ads.len(),
    decreases ads.len(),
{
    let d = ads.drop_last();
    if key_present(d, name, vendor) {
        lemma_first_of_key_bound(d, name, vendor);
    }
}

/// Groups adapters with equal name and vendor, in order of first appearance.
fn group_in_order(ads: &Vec<AdapterInfo>) -> (gs: Vec<AdapterGroup>)
    ensures
        forall|i: int| 0 <= i < gs@.len() ==> #[trigger] group_of(ads@, gs@[i]),
        forall|k: int|
            0 <= k < ads@.len() ==> in_some_group(gs@, ads@[k]),
        forall|i: int, j: int|
            0 <= i < j < gs@.len() ==> (#[trigger] gs@[i]).first_index < (#[trigger] gs@[j]).first_index,
{
    let mut gs: Vec<AdapterGroup> = Vec::new();
    let n = ads.len();
    let mut i: usize = 0;
    assert(ads@.take(0) =~= Seq::<AdapterInfo>::empty());
    while i < n
        invariant
            n == ads@.len(),
            i <= n,
            forall|g: int| 0 <= g < gs@.len() ==> #[trigger] group_of(ads@.take(i as int), gs@[g]),
            forall|k: int|
                0 <= k < i ==> in_some_group(gs@, ads@[k]),
            forall|g: int, h: int|
                0 <= g < h < gs@.len() ==> first_of_key(ads@.take(i as int), (#[trigger] gs@[g]).name@, gs@[g].vendor_id)
                    < first_of_key(ads@.take(i as int), (#[trigger] gs@[h]).name@, gs@[h].vendor_id),
        decreases n - i,
    {
        let ghost prev = ads@.take(i as int);
        let ghost next = ads@.take(i + 1);
        let ghost before = gs@;
        assert(next.drop_last() == prev);
        assert(next.last() == ads@[i as int]);
        let a = &ads[i];
        let m = gs.len();
        let mut g: usize = 0;
        while g < m && !(gs[g].name == a.name && gs[g].vendor_id == a.vendor_id)
            invariant
                m == gs@.len(),
                gs@ == before,
                g <= m,
                forall|h: int| 0 <= h < g ==> !has_key(*a, (#[trigger] before[h]).name@, before[h].vendor_id),
            decreases m - g,
        {
            g = g + 1;
        }
        if g < m {
            let mut grp = gs.remove(g);
            assert(grp == before[g as int]);
            grp.luids.push(a.luid);
            if a.dedicated_bytes > grp.dedicated_bytes {
                grp.dedicated_bytes = a.dedicated_bytes;
            }
            gs.insert(g, grp);
            proof {
                assert(has_key(*a, before[g as int].name@, before[g as int].vendor_id));
                assert(gs@ == before.update(g as int, grp));
                assert forall|h: int| 0 <= h < gs@.len() implies #[trigger] group_of(next, gs@[h]) by {
                    let x = gs@[h];
                    lemma_key_present_push(prev, *a, x.name@, x.vendor_id);
                    assert(group_of(prev, before[h]));
                }
                assert forall|k: int| 0 <= k < i + 1 implies in_some_group(gs@, ads@[k]) by {
                    if k < i {
                        let h = choose|h: int|
                            0 <= h < before.len() && has_key(#[trigger] ads@[k], #[trigger] before[h].name@, before[h].vendor_id);
                        assert(gs@[h].name@ == before[h].name@);
                    } else {
                        assert(gs@[g as int].name@ == before[g as int].name@);
                    }
                }
                assert forall|p: int, q: int| 0 <= p < q < gs@.len() implies first_of_key(next, (#[trigger] gs@[p]).name@, gs@[p].vendor_id)
                    < first_of_key(next, (#[trigger] gs@[q]).name@, gs@[q].vendor_id) by {
                    assert(first_of_key(prev, before[p].name@, before[p].vendor_id) < first_of_key(prev, before[q].name@, before[q].vendor_id));
                    assert(group_of(prev, before[p]) && group_of(prev, before[q]));
                }
            }
        } else {
            let mut luids: Vec<(u32, u32)> = Vec::new();
            luids.push(a.luid);
            let grp = AdapterGroup {
                name: a.name.clone(),
                vendor_id: a.vendor_id,
                dedicated_bytes: a.dedicated_bytes,
                luids,
                first_index: i,
            };
            gs.push(grp);
            proof {
                let key_name = a.name@;
                assert(!key_present(prev, key_name, a.vendor_id)) by {
                    if key_present(prev, key_name, a.vendor_id) {
                        let k = choose|k: int| 0 <= k < prev.len() && has_key(#[trigger] prev[k], key_name, a.vendor_id);
                        assert(prev[k] == ads@[k]);
                        let h = choose|h: int|
                            0 <= h < before.len() && has_key(#[trigger] ads@[k], #[trigger] before[h].name@, before[h].vendor_id);
                        assert(has_key(*a, before[h].name@, before[h].vendor_id));
                    }
                }
                lemma_absent_key(prev, key_name, a.vendor_id);
                lemma_key_present_push(prev, *a, key_name, a.vendor_id);
                assert(key_luids(prev, key_name, a.vendor_id).len() == 0);
                assert(group_of(next, grp)) by {
                    assert(key_luids(next, key_name, a.vendor_id) =~= seq![a.luid]);
                }
                assert(first_of_key(next, key_name, a.vendor_id) == i);
                assert forall|h: int| 0 <= h < gs@.len() implies #[trigger] group_of(next, gs@[h]) by {
                    if h < before.len() {
                        let x = gs@[h];
                        assert(x == before[h]);
                        lemma_key_present_push(prev, *a, x.name@, x.vendor_id);
                        assert(group_of(prev, before[h]));
                    }
                }
                assert forall|k: int| 0 <= k < i + 1 implies in_some_group(gs@, ads@[k]) by {
                    if k < i {
                        let h = choose|h: int|
                            0 <= h < before.len() && has_key(#[trigger] ads@[k], #[trigger] before[h].name@, before[h].vendor_id);
                        assert(gs@[h] == before[h]);
                    } else {
                        assert(gs@[before.len() as int] == grp);
                    }
                }
                assert forall|p: int, q: int| 0 <= p < q < gs@.len() implies first_of_key(next, (#[trigger] gs@[p]).name@, gs@[p].vendor_id)
                    < first_of_key(next, (#[trigger] gs@[q]).name@, gs@[q].vendor_id) by {
                    assert(gs@[p] == before[p]);
                    assert(group_of(prev, before[p]));
                    lemma_first_of_key_bound(prev, before[p].name@, before[p].vendor_id);
                    if q < before.len() {
                        assert(gs@[q] == before[q]);
                        assert(group_of(prev, before[q]));
                    }
                }
            }
        }
        i = i + 1;
    }
    assert(ads@.take(n as int) == ads@);
    assert forall|k: int| 0 <= k < ads@.len() implies in_some_group(gs@, ads@[k]) by {
        let a = ads@[k];
    }
    assert forall|p: int, q: int| 0 <= p < q < gs@.len() implies (#[trigger] gs@[p]).first_index < (#[trigger] gs@[q]).first_index by {
        assert(group_of(ads@, gs@[p]) && group_of(ads@, gs@[q]));
    }
    gs
}

proof fn lemma_absent_key(ads: Seq<AdapterInfo>, name: Seq<char>, vendor: u32)
    requires
        !key_present(ads, name, vendor),
    ensures
        key_luids(ads, name, vendor).len() == 0,
        key_dedicated(ads, name, vendor) == 0,
    decreases ads.len(),
{
    if ads.len() > 0 {
        let d = ads.drop_last();
        lemma_key_present_push(d, ads.last(), name, vendor);
        assert(d.push(ads.last()) == ads);
        lemma_absent_key(d, name, vendor);
    }
}

/// The cards among the adapters: adapters with equal name and vendor form one
/// group (integrated GPUs are often enumerated twice); NVIDIA cards come first,
/// the rest keep the order in which they were first enumerated.
pub fn group_adapters(ads: &Vec<AdapterInfo>) -> (gs: Vec<AdapterGroup>)
    ensures
        grouped(ads@, gs@),
{
    broadcast use vstd::seq_lib::group_to_multiset_ensures;

    let all = group_in_order(ads);
    let ghost src = all@;
    let sorted = sort_ranked(all);
    proof {
        let r = sorted@;
        assert(r.to_multiset() == src.to_multiset());
        assert forall|k: int| 0 <= k < r.len() implies src.contains(#[trigger] r[k]) by {
            assert(r.contains(r[k]));
            assert(r.to_multiset().count(r[k]) > 0);
            assert(src.to_multiset().count(r[k]) > 0);
        }
        assert forall|i: int| 0 <= i < r.len() implies #[trigger] group_of(ads@, r[i]) by {
            assert(src.contains(r[i]));
        }
        assert forall|k: int| 0 <= k < ads@.len() implies in_some_group(r, ads@[k]) by {
            let a = ads@[k];
            let h = choose|h: int|
                0 <= h < src.len() && has_key(#[trigger] ads@[k], #[trigger] src[h].name@, src[h].vendor_id);
            assert(src.contains(src[h]));
            assert(src.to_multiset().count(src[h]) > 0);
            assert(r.to_multiset().count(src[h]) > 0);
            assert(r.contains(src[h]));
            let x = choose|x: int| 0 <= x < r.len() && r[x] == src[h];
            assert(has_key(ads@[k], r[x].name@, r[x].vendor_id));
        }
        assert forall|i: int, j: int| 0 <= i < j < r.len() implies shown_before(
            ads@,
            #[trigger] r[i],
            #[trigger] r[j],
        ) by {
            assert(!r[j].goes_before(&r[i]));
            assert(group_of(ads@, r[i]) && group_of(ads@, r[j]));
            assert(src.contains(r[i]) && src.contains(r[j]));
            let p = choose|p: int| 0 <= p < src.len() && src[p] == r[i];
            let q = choose|q: int| 0 <= q < src.len() && src[q] == r[j];
            if p == q {
                lemma_repeat_counts_twice(r, i, j);
                assert(src.no_duplicates()) by {
                    assert forall|x: int, y: int| 0 <= x < src.len() && 0 <= y < src.len() && x != y implies src[x] != src[y] by {
                        if x < y {
                            assert(src[x].first_index < src[y].first_index);
                        } else {
                            assert(src[y].first_index < src[x].first_index);
                        }
                    }
                }
                lemma_distinct_counts_once(src, p);
            } else if p < q {
                assert(src[p].first_index < src[q].first_index);
            } else {
                assert(src[q].first_index < src[p].first_index);
            }
        }
    }
    sorted
}

/// Each card is one group: no two groups have the same name and vendor.
pub proof fn law_one_group_per_card(ads: Seq<AdapterInfo>, gs: Seq<AdapterGroup>, i: int, j: int)
    requires
        grouped(ads, gs),
        0 <= i < gs.len(),
        0 <= j < gs.len(),
        i != j,
    ensures
        !(gs[i].name@ == gs[j].name@ && gs[i].vendor_id == gs[j].vendor_id),
{
    if i < j {
        assert(shown_before(ads, gs[i], gs[j]));
    } else {
        assert(shown_before(ads, gs[j], gs[i]));
    }
}

proof fn lemma_key_luids_has(ads: Seq<AdapterInfo>, k: int)
    requires
        0 <= k < ads.len(),
    ensures
        key_luids(ads, ads[k].name@, ads[k].vendor_id).contains(ads[k].luid),
    decreases ads.len(),
{
    let d = ads.drop_last();
    if k < ads.len() - 1 {
        assert(d[k] == ads[k]);
        lemma_key_luids_has(d, k);
        let prev = key_luids(d, ads[k].name@, ads[k].vendor_id);
        let i = choose|i: int| 0 <= i < prev.len() && prev[i] == ads[k].luid;
        let now = key_luids(ads, ads[k].name@, ads[k].vendor_id);
        assert(now[i] == prev[i]);
    } else {
        let now = key_luids(ads, ads[k].name@, ads[k].vendor_id);
        assert(now.last() == ads[k].luid);
    }
}

/// Every GPU adapter belongs to the group of its card: the group with its name
/// and vendor lists its LUID.
pub proof fn law_adapter_in_its_group(ads: Seq<AdapterInfo>, gs: Seq<AdapterGroup>, k: int) -> (i: int)
    requires
        grouped(ads, gs),
        0 <= k < ads.len(),
    ensures
        0 <= i < gs.len(),
        has_key(ads[k], gs[i].name@, gs[i].vendor_id),
        gs[i].luids@.contains(ads[k].luid),
{
    assert(in_some_group(gs, ads[k]));
    let i = choose|i: int| 0 <= i < gs.len() && has_key(ads[k], (#[trigger] gs[i]).name@, gs[i].vendor_id);
    assert(group_of(ads, gs[i]));
    lemma_key_luids_has(ads, k);
    i
}

/// A card's dedicated memory is that of its largest adapter instance, not the
/// sum over its instances: no instance has more, and one has exactly that.
pub proof fn law_dedicated_is_largest_instance(ads: Seq<AdapterInfo>, name: Seq<char>, vendor: u32)
    ensures
        forall|k: int| 0 <= k < ads.len() && has_key(#[trigger] ads[k], name, vendor) ==> ads[k].dedicated_bytes
            <= key_dedicated(ads, name, vendor),
        key_present(ads, name, vendor) ==> exists|k: int|
            0 <= k < ads.len() && has_key(#[trigger] ads[k], name, vendor) && ads[k].dedicated_bytes
                == key_dedicated(ads, name, vendor),
    decreases ads.len(),
{
    if ads.len() > 0 {
        let d = ads.drop_last();
        law_dedicated_is_largest_instance(d, name, vendor);
        assert forall|k: int| 0 <= k < ads.len() && has_key(#[trigger] ads[k], name, vendor) implies ads[k].dedicated_bytes
            <= key_dedicated(ads, name, vendor) by {
            if k < d.len() {
                assert(d[k] == ads[k]);
            }
        }
        if key_present(ads, name, vendor) {
            lemma_key_present_push(d, ads.last(), name, vendor);
            assert(d.push(ads.last()) == ads);
            let last = ads.len() - 1;
            if has_key(ads.last(), name, vendor) && ads.last().dedicated_bytes > key_dedicated(d, name, vendor) {
                assert(ads[last] == ads.last());
            } else if key_present(d, name, vendor) {
                let k = choose|k: int|
                    0 <= k < d.len() && has_key(#[trigger] d[k], name, vendor) && d[k].dedicated_bytes
                        == key_dedicated(d, name, vendor);
                assert(ads[k] == d[k]);
            } else {
                lemma_absent_key(d, name, vendor);
                assert(ads[last] == ads.last());
            }
        }
    }
}

} // verus!
