//! The once-a-second poll: CPU frequency, network interfaces, and the
//! decisions around initializing NVML.
use vstd::prelude::*;

use crate::gpus::GpuInfo;
use crate::order::{ranked, sort_ranked, Ranked};
use crate::text::{
    chars_less, chars_of, contains, contains_run, lemma_lex_irreflexive, lemma_lex_transitive,
    lex_less, lowercase_of, string_from_chars, to_lowercase,
};

verus! {

broadcast use vstd::seq_lib::group_to_multiset_ensures;

// ---------------------------------------------------------------------------
// CPU
// ---------------------------------------------------------------------------

/// The largest of the values, 0 for none.
pub open spec fn max_of(v: Seq<u64>) -> u64
    decreases v.len(),
{
    if v.len() == 0 {
        0
    } else if v.last() > max_of(v.drop_last()) {
        v.last()
    } else {
        max_of(v.drop_last())
    }
}

/// The CPU frequency shown: the highest of the cores' frequencies (MHz), 0
/// when there are no cores.
pub fn max_frequency(freqs: &Vec<u64>) -> (r: u64)
    ensures
        r == max_of(freqs@),
        forall|i: int| 0 <= i < freqs@.len() ==> #[trigger] freqs@[i] <= r,
        freqs@.len() > 0 ==> exists|i: int| 0 <= i < freqs@.len() && #[trigger] freqs@[i] == r,
{
    let mut best: u64 = 0;
    let n = freqs.len();
    let mut i: usize = 0;
    assert(freqs@.take(0) =~= Seq::<u64>::empty());
    while i < n
        invariant
            n == freqs@.len(),
            i <= n,
            best == max_of(freqs@.take(i as int)),
            forall|j: int| 0 <= j < i ==> #[trigger] freqs@[j] <= best,
            i > 0 ==> exists|j: int| 0 <= j < i && #[trigger] freqs@[j] == best,
            i == 0 ==> best == 0,
        decreases n - i,
    {
        assert(freqs@.take(i + 1).drop_last() == freqs@.take(i as int));
        assert(freqs@.take(i + 1).last() == freqs@[i as int]);
        if freqs[i] > best {
            best = freqs[i];
        }
        i = i + 1;
    }
    assert(freqs@.take(n as int) == freqs@);
    best
}

// ---------------------------------------------------------------------------
// Network interfaces
// ---------------------------------------------------------------------------

/// One network interface: its name and the bytes it sent and received since
/// the previous refresh.
pub struct NetSample {
    pub name: String,
    pub sent_bytes: u64,
    pub recv_bytes: u64,
}

/// `wi-fi`
pub open spec fn wifi_dash() -> Seq<char> {
    seq!['w', 'i', '-', 'f', 'i']
}

/// `wifi`
pub open spec fn wifi_word() -> Seq<char> {
    seq!['w', 'i', 'f', 'i']
}

/// `wlan`
pub open spec fn wlan_word() -> Seq<char> {
    seq!['w', 'l', 'a', 'n']
}

/// `loopback`
pub open spec fn loopback_word() -> Seq<char> {
    seq!['l', 'o', 'o', 'p', 'b', 'a', 'c', 'k']
}

/// Lower-cased text that mentions `wi-fi`, `wifi` or `wlan`.
pub open spec fn mentions_wifi(lower: Seq<char>) -> bool {
    contains_run(lower, wifi_dash()) || contains_run(lower, wifi_word()) || contains_run(
        lower,
        wlan_word(),
    )
}

/// Lower-cased text that mentions `loopback`.
pub open spec fn mentions_loopback(lower: Seq<char>) -> bool {
    contains_run(lower, loopback_word())
}

/// A Wi-Fi interface: its lower-cased name mentions `wi-fi`, `wifi` or `wlan`.
pub open spec fn is_wifi_name(name: Seq<char>) -> bool {
    mentions_wifi(lowercase_of(name))
}

/// A loopback interface: its lower-cased name mentions `loopback`.
pub open spec fn is_loopback_name(name: Seq<char>) -> bool {
    mentions_loopback(lowercase_of(name))
}

/// Tests `mentions_wifi` on an already lower-cased name.
pub fn wifi_in(lower: &str) -> (r: bool)
    ensures
        r == mentions_wifi(lower@),
{
    let n = chars_of(lower);
    let a: Vec<char> = vec!['w', 'i', '-', 'f', 'i'];
    let b: Vec<char> = vec!['w', 'i', 'f', 'i'];
    let c: Vec<char> = vec!['w', 'l', 'a', 'n'];
    assert(a@ == wifi_dash() && b@ == wifi_word() && c@ == wlan_word());
    contains(&n, &a) || contains(&n, &b) || contains(&n, &c)
}

/// Tests `mentions_loopback` on an already lower-cased name.
pub fn loopback_in(lower: &str) -> (r: bool)
    ensures
        r == mentions_loopback(lower@),
{
    let n = chars_of(lower);
    let w: Vec<char> = vec!['l', 'o', 'o', 'p', 'b', 'a', 'c', 'k'];
    assert(w@ == loopback_word());
    contains(&n, &w)
}

fn wifi(name: &String) -> (r: bool)
    ensures
        r == is_wifi_name(name@),
{
    let lower = to_lowercase(name.as_str());
    wifi_in(lower.as_str())
}

fn loopback(name: &String) -> (r: bool)
    ensures
        r == is_loopback_name(name@),
{
    let lower = to_lowercase(name.as_str());
    loopback_in(lower.as_str())
}

impl Ranked for NetSample {
    /// Wi-Fi before the rest, then by name.
    open spec fn goes_before(&self, other: &Self) -> bool {
        (is_wifi_name(self.name@) && !is_wifi_name(other.name@)) || (is_wifi_name(self.name@)
            == is_wifi_name(other.name@) && lex_less(self.name@, other.name@))
    }

    fn ranks_before(&self, other: &Self) -> (r: bool) {
        let a = wifi(&self.name);
        let b = wifi(&other.name);
        if a != b {
            a
        } else {
            let x = chars_of(self.name.as_str());
            let y = chars_of(other.name.as_str());
            chars_less(&x, &y)
        }
    }

    proof fn lemma_irreflexive(a: &Self) {
        lemma_lex_irreflexive(a.name@);
    }

    proof fn lemma_transitive(a: &Self, b: &Self, c: &Self) {
        if lex_less(a.name@, b.name@) && lex_less(b.name@, c.name@) {
            lemma_lex_transitive(a.name@, b.name@, c.name@);
        }
    }
}

/// Wi-Fi interfaces come before all others, and among interfaces of the same
/// kind the whole names ascend.
pub open spec fn wifi_first_by_name(r: Seq<NetSample>) -> bool {
    forall|i: int, j: int|
        #![trigger r[i], r[j]]
        0 <= i < j < r.len() ==> (is_wifi_name(r[j].name@) ==> is_wifi_name(r[i].name@)) && (
        is_wifi_name(r[i].name@) == is_wifi_name(r[j].name@) ==> !lex_less(r[j].name@, r[i].name@))
}

/// Interfaces ranked as the list shows them are Wi-Fi first, then by name.
pub proof fn law_ranked_networks_wifi_first(r: Seq<NetSample>)
    requires
        ranked(r),
    ensures
        wifi_first_by_name(r),
{
    assert forall|i: int, j: int| 0 <= i < j < r.len() implies (is_wifi_name(r[j].name@)
        ==> is_wifi_name(r[i].name@)) && (is_wifi_name(r[i].name@) == is_wifi_name(r[j].name@)
        ==> !lex_less(r[j].name@, r[i].name@)) by {
        assert(!r[j].goes_before(&r[i]));
    }
}

/// The interfaces that are no loopback, in order.
pub open spec fn non_loopback(s: Seq<NetSample>) -> Seq<NetSample>
    decreases s.len(),
{
    if s.len() == 0 {
        Seq::empty()
    } else {
        let rest = non_loopback(s.drop_last());
        if is_loopback_name(s.last().name@) {
            rest
        } else {
            rest.push(s.last())
        }
    }
}

/// The interfaces to show: loopback interfaces left out, Wi-Fi first, then by
/// name.
pub fn order_networks(list: Vec<NetSample>) -> (r: Vec<NetSample>)
    ensures
        ranked(r@),
        wifi_first_by_name(r@),
        r@.to_multiset() == non_loopback(list@).to_multiset(),
{
    let ghost orig = list@;
    let mut kept: Vec<NetSample> = Vec::new();
    let mut rest = list;
    let total = rest.len();
    let mut taken: usize = 0;
    assert(orig.take(0) =~= Seq::<NetSample>::empty());
    assert(orig.skip(0) == orig);
    while rest.len() > 0
        invariant
            taken + rest@.len() == orig.len(),
            total == orig.len(),
            rest@ == orig.skip(taken as int),
            kept@ == non_loopback(orig.take(taken as int)),
        decreases rest@.len(),
    {
        let s = rest.remove(0);
        assert(s == orig[taken as int]);
        assert(orig.take(taken + 1).drop_last() == orig.take(taken as int));
        assert(orig.take(taken + 1).last() == s);
        if !loopback(&s.name) {
            kept.push(s);
        }
        taken = taken + 1;
        assert(rest@ == orig.skip(taken as int));
    }
    assert(orig.take(taken as int) == orig);
    let sorted = sort_ranked(kept);
    proof {
        law_ranked_networks_wifi_first(sorted@);
    }
    sorted
}

// ---------------------------------------------------------------------------
// NVML initialization and the result of a poll
// ---------------------------------------------------------------------------

/// What one poll shows of the GPUs and how long to wait before the next.
pub struct Tick {
    pub gpus: Vec<GpuInfo>,
    pub error: Option<String>,
    pub pause_secs: u64,
}

/// Whether NVML has been initialized. Until it is, each poll tries to
/// initialize it; once it is, it stays initialized.
pub struct Poller {
    nvml_ready: bool,
}

impl Poller {
    /// NVML has been initialized.
    pub closed spec fn ready(&self) -> bool {
        self.nvml_ready
    }

    /// Nothing initialized yet.
    pub fn new() -> (p: Self)
        ensures
            !p.ready(),
    {
        Poller { nvml_ready: false }
    }

    /// Whether this poll must try to initialize NVML first.
    pub fn wants_init(&self) -> (r: bool)
        ensures
            r == !self.ready(),
    {
        !self.nvml_ready
    }

    /// The outcome of an initialization attempt. On success NVML is ready and
    /// the poll goes on to collect (`None`). On failure with error text `e`
    /// the poll shows no GPUs and the error
    /// `NVML 初始化失败：<e>（请确认已安装 NVIDIA 驱动）`, and waits three seconds
    /// before the next attempt.
    pub fn on_init(&mut self, outcome: Result<(), String>) -> (r: Option<Tick>)
        ensures
            outcome is Ok ==> final(self).ready() && r is None,
            outcome is Err ==> final(self).ready() == old(self).ready() && r is Some,
            r matches Some(t) ==> t.gpus@.len() == 0 && t.pause_secs == 3 && t.error is Some
                && t.error->0@ == "NVML 初始化失败："@ + outcome->Err_0@ + "（请确认已安装 NVIDIA 驱动）"@,
    {
        match outcome {
            Ok(()) => {
                self.nvml_ready = true;
                None
            },
            Err(e) => {
                let mut text = chars_of("NVML 初始化失败：");
                let middle = chars_of(e.as_str());
                let tail = chars_of("（请确认已安装 NVIDIA 驱动）");
                let ghost head = text@;
                append_chars(&mut text, &middle);
                append_chars(&mut text, &tail);
                assert(text@ == head + middle@ + tail@);
                Some(Tick { gpus: Vec::new(), error: Some(string_from_chars(&text)), pause_secs: 3 })
            },
        }
    }

    /// The result of a poll that collected `gpus`: shown as they are when NVML
    /// is ready, with a one-second pause; otherwise no GPUs and the error
    /// `NVML 不可用`.
    pub fn on_collect(&self, gpus: Vec<GpuInfo>) -> (t: Tick)
        ensures
            t.pause_secs == 1,
            self.ready() ==> t.gpus@ == gpus@ && t.error is None,
            !self.ready() ==> t.gpus@.len() == 0 && t.error is Some && t.error->0@
                == "NVML 不可用"@,
    {
        if self.nvml_ready {
            Tick { gpus, error: None, pause_secs: 1 }
        } else {
            let text = chars_of("NVML 不可用");
            Tick { gpus: Vec::new(), error: Some(string_from_chars(&text)), pause_secs: 1 }
        }
    }
}

fn append_chars(out: &mut Vec<char>, more: &Vec<char>)
    ensures
        final(out)@ == old(out)@ + more@,
{
    let n = more.len();
    let mut i: usize = 0;
    while i < n
        invariant
            n == more@.len(),
            i <= n,
            out@ == old(out)@ + more@.take(i as int),
        decreases n - i,
    {
        out.push(more[i]);
        assert(more@.take(i + 1) == more@.take(i as int).push(more@[i as int]));
        i = i + 1;
    }
    assert(more@.take(n as int) == more@);
}

} // verus!
