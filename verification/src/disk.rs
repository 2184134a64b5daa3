//! Physical disks from the `PhysicalDisk(*)` counters: which instances are
//! disks, where each disk's read and write rates stand, and the order in which
//! the disks are shown.
use vstd::prelude::*;

use crate::order::{
    lemma_distinct_counts_once, lemma_repeat_counts_twice, ranked, sort_ranked, Ranked,
};
use crate::text::{
    chars_equal, chars_less, chars_of, is_white_space, is_whitespace, lemma_lex_asymmetric,
    lemma_lex_irreflexive, lemma_lex_total, lemma_lex_transitive, lemma_trim_start_skip, lex_less,
    parse_u32, parse_unsigned, trim_start_of,
};

verus! {

broadcast use vstd::seq_lib::group_to_multiset_ensures;

// ---------------------------------------------------------------------------
// The natural order of instance names
// ---------------------------------------------------------------------------

/// The longest prefix of `t` without whitespace.
pub open spec fn leading_word(t: Seq<char>) -> Seq<char>
    decreases t.len(),
{
    if t.len() == 0 || is_white_space(t[0]) {
        Seq::empty()
    } else {
        seq![t[0]] + leading_word(t.drop_first())
    }
}

/// The first whitespace-separated word of `s` (`str::split_whitespace().next()`).
pub open spec fn first_word(s: Seq<char>) -> Option<Seq<char>> {
    let t = trim_start_of(s);
    if t.len() == 0 {
        None
    } else {
        Some(leading_word(t))
    }
}

/// The disk number that leads an instance name such as `0 C: D:`: its first
/// word read as a decimal `u32`, or `u32::MAX` where there is none.
pub open spec fn disk_number(s: Seq<char>) -> u32 {
    match first_word(s) {
        Some(w) => match parse_unsigned(w, 10) {
            Some(n) => n,
            None => u32::MAX,
        },
        None => u32::MAX,
    }
}

/// `a` comes before `b`: by leading disk number, then by the names.
pub open spec fn natural_before(a: Seq<char>, b: Seq<char>) -> bool {
    disk_number(a) < disk_number(b) || (disk_number(a) == disk_number(b) && lex_less(a, b))
}

proof fn lemma_leading_word(t: Seq<char>, m: int)
    requires
        0 <= m <= t.len(),
        forall|j: int| 0 <= j < m ==> !is_white_space(#[trigger] t[j]),
        m == t.len() || is_white_space(t[m]),
    ensures
        leading_word(t) == t.take(m),
    decreases m,
{
    if m > 0 {
        lemma_leading_word(t.drop_first(), m - 1);
        assert(t.take(m) =~= seq![t[0]] + t.drop_first().take(m - 1));
    } else {
        assert(t.take(0) =~= Seq::<char>::empty());
    }
}

/// The leading disk number of `s`.
fn number_of(s: &Vec<char>) -> (r: u32)
    ensures
        r == disk_number(s@),
{
    let n = s.len();
    let mut start: usize = 0;
    while start < n && is_whitespace(s[start])
        invariant
            n == s@.len(),
            start <= n,
            forall|j: int| 0 <= j < start ==> is_white_space(#[trigger] s@[j]),
        decreases n - start,
    {
        start = start + 1;
    }
    proof {
        lemma_trim_start_skip(s@, start as int);
        let t = s@.skip(start as int);
        if start < n {
            assert(!is_white_space(t[0]));
        }
        assert(trim_start_of(t) == t);
    }
    if start == n {
        return u32::MAX;
    }
    let mut word: Vec<char> = Vec::new();
    let mut end = start;
    while end < n && !is_whitespace(s[end])
        invariant
            n == s@.len(),
            start <= end <= n,
            word@ == s@.subrange(start as int, end as int),
            forall|j: int| start <= j < end ==> !is_white_space(#[trigger] s@[j]),
        decreases n - end,
    {
        word.push(s[end]);
        end = end + 1;
    }
    proof {
        let t = s@.skip(start as int);
        lemma_leading_word(t, end - start);
        assert(word@ == t.take(end - start));
    }
    match parse_u32(&word, 10) {
        Some(v) => v,
        None => u32::MAX,
    }
}

/// Orders instance names by their leading disk number, so that `10 C:` comes
/// after `2 C:`; names without a number come last; equal numbers fall back to
/// the names themselves.
pub fn natural_cmp(a: &str, b: &str) -> (r: std::cmp::Ordering)
    ensures
        (r == std::cmp::Ordering::Less) == natural_before(a@, b@),
        (r == std::cmp::Ordering::Equal) == (a@ == b@),
        (r == std::cmp::Ordering::Greater) == natural_before(b@, a@),
{
    let x = chars_of(a);
    let y = chars_of(b);
    let nx = number_of(&x);
    let ny = number_of(&y);
    proof {
        lemma_lex_total(a@, b@);
        lemma_lex_irreflexive(a@);
        if lex_less(a@, b@) {
            lemma_lex_asymmetric(a@, b@);
        }
    }
    if nx < ny {
        std::cmp::Ordering::Less
    } else if ny < nx {
        std::cmp::Ordering::Greater
    } else if chars_less(&x, &y) {
        std::cmp::Ordering::Less
    } else if chars_less(&y, &x) {
        std::cmp::Ordering::Greater
    } else {
        std::cmp::Ordering::Equal
    }
}

/// The natural order is a strict order: irreflexive, transitive, and any two
/// different names are ordered one way or the other.
pub proof fn lemma_natural_order(a: Seq<char>, b: Seq<char>, c: Seq<char>)
    ensures
        !natural_before(a, a),
        natural_before(a, b) ==> !natural_before(b, a),
        natural_before(a, b) && natural_before(b, c) ==> natural_before(a, c),
        a == b || natural_before(a, b) || natural_before(b, a),
{
    lemma_lex_irreflexive(a);
    lemma_lex_total(a, b);
    if lex_less(a, b) {
        lemma_lex_asymmetric(a, b);
    }
    if lex_less(a, b) && lex_less(b, c) {
        lemma_lex_transitive(a, b, c);
    }
}

// ---------------------------------------------------------------------------
// Disk rows
// ---------------------------------------------------------------------------

/// One physical disk: its instance name, and the positions of its values in
/// the instance lists of the `% Disk Time`, `Disk Read Bytes/sec` and
/// `Disk Write Bytes/sec` counters (no position where a list lacks the name).
pub struct DiskRow {
    pub name: String,
    pub util_index: usize,
    pub read_index: Option<usize>,
    pub write_index: Option<usize>,
}

impl Ranked for DiskRow {
    open spec fn goes_before(&self, other: &Self) -> bool {
        natural_before(self.name@, other.name@) || (self.name@ == other.name@ && self.util_index
            < other.util_index)
    }

    fn ranks_before(&self, other: &Self) -> (r: bool) {
        let x = chars_of(self.name.as_str());
        let y = chars_of(other.name.as_str());
        let nx = number_of(&x);
        let ny = number_of(&y);
        if nx != ny {
            nx < ny
        } else if chars_less(&x, &y) {
            true
        } else if chars_equal(&x, &y) {
            self.util_index < other.util_index
        } else {
            false
        }
    }

    proof fn lemma_irreflexive(a: &Self) {
        lemma_natural_order(a.name@, a.name@, a.name@);
    }

    proof fn lemma_transitive(a: &Self, b: &Self, c: &Self) {
        lemma_natural_order(a.name@, b.name@, c.name@);
        lemma_natural_order(b.name@, a.name@, c.name@);
        lemma_natural_order(a.name@, c.name@, b.name@);
    }
}

/// The rows come in the natural order of their names (by leading disk number,
/// then by name), rows of equal names in the order of their `% Disk Time`
/// instances.
pub open spec fn in_natural_order(rows: Seq<DiskRow>) -> bool {
    forall|i: int, j: int|
        #![trigger rows[i], rows[j]]
        0 <= i < j < rows.len() ==> !natural_before(rows[j].name@, rows[i].name@) && (rows[i].name@
            == rows[j].name@ ==> rows[i].util_index < rows[j].util_index)
}

/// Disk rows ranked as the list shows them, with distinct positions, are in
/// the natural order of their names (`natural_cmp`).
pub proof fn law_ranked_disks_in_natural_order(rows: Seq<DiskRow>)
    requires
        ranked(rows),
        forall|i: int, j: int|
            0 <= i < rows.len() && 0 <= j < rows.len() && i != j ==> #[trigger] rows[i].util_index
                != #[trigger] rows[j].util_index,
    ensures
        in_natural_order(rows),
{
    assert forall|i: int, j: int| 0 <= i < j < rows.len() implies !natural_before(
        rows[j].name@,
        rows[i].name@,
    ) && (rows[i].name@ == rows[j].name@ ==> rows[i].util_index < rows[j].util_index) by {
        assert(!rows[j].goes_before(&rows[i]));
        assert(rows[i].util_index != rows[j].util_index);
    }
}

/// `_Total`
pub open spec fn total_name() -> Seq<char> {
    seq!['_', 'T', 'o', 't', 'a', 'l']
}

/// An instance of `% Disk Time` is a disk unless its name is empty or `_Total`.
pub open spec fn is_disk_name(name: Seq<char>) -> bool {
    name.len() > 0 && name != total_name()
}

/// The position of the first name in `names` equal to `name`.
pub open spec fn first_position(names: Seq<String>, name: Seq<char>) -> Option<usize>
    decreases names.len(),
{
    if names.len() == 0 {
        None
    } else {
        match first_position(names.drop_last(), name) {
            Some(i) => Some(i),
            None => if names.last()@ == name {
                Some((names.len() - 1) as usize)
            } else {
                None
            },
        }
    }
}

/// The disk rows of the first `n` instances of `% Disk Time`, in the order of
/// those instances.
pub open spec fn disk_rows(time: Seq<String>, read: Seq<String>, write: Seq<String>, n: int) -> Seq<
    DiskRow,
>
    decreases n,
{
    if n <= 0 {
        Seq::empty()
    } else {
        let rest = disk_rows(time, read, write, n - 1);
        let name = time[n - 1];
        if is_disk_name(name@) {
            rest.push(
                DiskRow {
                    name: name,
                    util_index: (n - 1) as usize,
                    read_index: first_position(read, name@),
                    write_index: first_position(write, name@),
                },
            )
        } else {
            rest
        }
    }
}

proof fn lemma_disk_rows_indices(time: Seq<String>, read: Seq<String>, write: Seq<String>, n: int)
    requires
        0 <= n <= time.len(),
        time.len() <= usize::MAX,
    ensures
        forall|k: int|
            0 <= k < disk_rows(time, read, write, n).len() ==> #[trigger] disk_rows(
                time,
                read,
                write,
                n,
            )[k].util_index < n,
        forall|x: int, y: int|
            0 <= x < y < disk_rows(time, read, write, n).len() ==> (#[trigger] disk_rows(
                time,
                read,
                write,
                n,
            )[x]).util_index < (#[trigger] disk_rows(time, read, write, n)[y]).util_index,
    decreases n,
{
    if n > 0 {
        lemma_disk_rows_indices(time, read, write, n - 1);
        let prev = disk_rows(time, read, write, n - 1);
        let cur = disk_rows(time, read, write, n);
        assert forall|x: int, y: int| 0 <= x < y < cur.len() implies (#[trigger] cur[x]).util_index
            < (#[trigger] cur[y]).util_index by {
            if y < prev.len() {
                assert(cur[x] == prev[x] && cur[y] == prev[y]);
            } else {
                assert(cur[x] == prev[x]);
                assert(prev[x].util_index < n - 1);
                assert(cur == prev.push(cur[y]));
                assert(cur[y].util_index == n - 1);
            }
        }
        assert forall|k: int| 0 <= k < cur.len() implies #[trigger] cur[k].util_index < n by {
            if k < prev.len() {
                assert(cur[k] == prev[k]);
            }
        }
    }
}

/// The first position in `names` of a name equal to `name`.
fn find_name(names: &Vec<String>, name: &String) -> (r: Option<usize>)
    ensures
        r == first_position(names@, name@),
{
    let n = names.len();
    let mut i: usize = 0;
    while i < n
        invariant
            n == names@.len(),
            i <= n,
            first_position(names@.take(i as int), name@) is None,
        decreases n - i,
    {
        assert(names@.take(i + 1).drop_last() == names@.take(i as int));
        if names[i] == *name {
            assert(first_position(names@.take(i + 1), name@) == Some(i));
            proof {
                lemma_first_position_extend(names@, name@, i as int + 1);
            }
            return Some(i);
        }
        i = i + 1;
    }
    assert(names@.take(n as int) == names@);
    None
}

proof fn lemma_first_position_extend(names: Seq<String>, name: Seq<char>, k: int)
    requires
        0 <= k <= names.len(),
        first_position(names.take(k), name) is Some,
    ensures
        first_position(names, name) == first_position(names.take(k), name),
    decreases names.len() - k,
{
    if k < names.len() {
        assert(names.take(k + 1).drop_last() == names.take(k));
        lemma_first_position_extend(names, name, k + 1);
    } else {
        assert(names.take(k) == names);
    }
}

/// The rows of all disks among the `% Disk Time` instances, in their order.
fn collect_rows(time: &Vec<String>, read: &Vec<String>, write: &Vec<String>) -> (r: Vec<DiskRow>)
    ensures
        r@ == disk_rows(time@, read@, write@, time@.len() as int),
{
    let total: Vec<char> = vec!['_', 'T', 'o', 't', 'a', 'l'];
    assert(total@ == total_name());
    let mut rows: Vec<DiskRow> = Vec::new();
    let n = time.len();
    let mut i: usize = 0;
    while i < n
        invariant
            n == time@.len(),
            i <= n,
            total@ == total_name(),
            rows@ == disk_rows(time@, read@, write@, i as int),
        decreases n - i,
    {
        let name = &time[i];
        let chars = chars_of(name.as_str());
        if chars.len() > 0 && !chars_equal(&chars, &total) {
            let row = DiskRow {
                name: name.clone(),
                util_index: i,
                read_index: find_name(read, name),
                write_index: find_name(write, name),
            };
            rows.push(row);
        }
        i = i + 1;
    }
    rows
}

/// The state of the disk counter query between two readings: how many
/// collections have succeeded (the counters are rates and need two).
pub struct DiskQuery {
    samples: u32,
}

impl DiskQuery {
    /// The number of successful collections so far (stops at `u32::MAX`).
    pub closed spec fn sample_count(&self) -> nat {
        self.samples as nat
    }

    /// A query that has collected nothing yet.
    pub fn new() -> (q: Self)
        ensures
            q.sample_count() == 0,
    {
        DiskQuery { samples: 0 }
    }

    /// One reading. `collected` says whether the counters were collected;
    /// `time`, `read` and `write` are the instance names of the `% Disk Time`,
    /// `Disk Read Bytes/sec` and `Disk Write Bytes/sec` counters, `None` where
    /// they could not be read.
    ///
    /// Nothing is read where the collection failed. Otherwise the sample count
    /// goes up by one; the first sample gives `None`, and so does a later one
    /// where a list is missing. Otherwise the result holds one row for each
    /// `% Disk Time` instance that is a disk (not empty, not `_Total`), with
    /// the position of its name in the read and write lists, sorted in the
    /// natural order of the names (equal names by position).
    pub fn read(
        &mut self,
        collected: bool,
        time: Option<Vec<String>>,
        read: Option<Vec<String>>,
        write: Option<Vec<String>>,
    ) -> (r: Option<Vec<DiskRow>>)
        ensures
            !collected ==> final(self).sample_count() == old(self).sample_count() && r is None,
            collected ==> final(self).sample_count() == (if old(self).sample_count() < u32::MAX {
                old(self).sample_count() + 1
            } else {
                u32::MAX as nat
            }),
            collected ==> (r is Some <==> (final(self).sample_count() >= 2 && time is Some
                && read is Some && write is Some)),
            r matches Some(rows) ==> ranked(rows@),
            r matches Some(rows) ==> in_natural_order(rows@),
            r matches Some(rows) ==> rows@.to_multiset() == disk_rows(
                time->0@,
                read->0@,
                write->0@,
                time->0@.len() as int,
            ).to_multiset(),
    {
        if !collected {
            return None;
        }
        self.samples = self.samples.saturating_add(1);
        if self.samples < 2 {
            return None;
        }
        let time = match time {
            None => {
                return None;
            },
            Some(t) => t,
        };
        let read = match read {
            None => {
                return None;
            },
            Some(t) => t,
        };
        let write = match write {
            None => {
                return None;
            },
            Some(t) => t,
        };
        let rows = collect_rows(&time, &read, &write);
        let ghost src = rows@;
        let time_len = time.len();
        proof {
            lemma_disk_rows_indices(time@, read@, write@, time@.len() as int);
        }
        let sorted = sort_ranked(rows);
        proof {
            let t = sorted@;
            assert(t.to_multiset() == src.to_multiset());
            assert(src.no_duplicates()) by {
                assert forall|x: int, y: int|
                    0 <= x < src.len() && 0 <= y < src.len() && x != y implies src[x] != src[y] by {
                    if x < y {
                        assert(src[x].util_index < src[y].util_index);
                    } else {
                        assert(src[y].util_index < src[x].util_index);
                    }
                }
            }
            assert forall|k: int| 0 <= k < t.len() implies src.contains(#[trigger] t[k]) by {
                assert(t.contains(t[k]));
                assert(t.to_multiset().count(t[k]) > 0);
                assert(src.to_multiset().count(t[k]) > 0);
            }
            assert forall|a: int, b: int|
                0 <= a < t.len() && 0 <= b < t.len() && a != b implies #[trigger] t[a].util_index
                != #[trigger] t[b].util_index by {
                if t[a].util_index == t[b].util_index {
                    assert(src.contains(t[a]) && src.contains(t[b]));
                    let ka = choose|k: int| 0 <= k < src.len() && src[k] == t[a];
                    let kb = choose|k: int| 0 <= k < src.len() && src[k] == t[b];
                    if ka != kb {
                        if ka < kb {
                            assert(src[ka].util_index < src[kb].util_index);
                        } else {
                            assert(src[kb].util_index < src[ka].util_index);
                        }
                    }
                    lemma_repeat_counts_twice(t, a, b);
                    lemma_distinct_counts_once(src, ka);
                }
            }
            law_ranked_disks_in_natural_order(t);
        }
        Some(sorted)
    }
}

} // verus!
