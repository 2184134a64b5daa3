use std::cmp::Ordering;

use vram_monitor::{natural_cmp, DiskQuery, DiskRow};

fn names(list: &[&str]) -> Vec<String> {
    list.iter().map(|s| s.to_string()).collect()
}

fn row_tuple(r: &DiskRow) -> (String, usize, Option<usize>, Option<usize>) {
    (r.name.clone(), r.util_index, r.read_index, r.write_index)
}

#[test]
fn natural_order_puts_ten_after_two() {
    assert_eq!(natural_cmp("10 C:", "2 C:"), Ordering::Greater);
    assert_eq!(natural_cmp("2 C:", "10 C:"), Ordering::Less);
}

#[test]
fn natural_order_equal_only_for_equal_names() {
    assert_eq!(natural_cmp("0 C: D:", "0 C: D:"), Ordering::Equal);
    assert_eq!(natural_cmp("0 C:", "0 D:"), Ordering::Less);
    assert_eq!(natural_cmp("0 D:", "0 C:"), Ordering::Greater);
}

#[test]
fn natural_order_puts_unnumbered_names_last() {
    assert_eq!(natural_cmp("HarddiskVolume1", "3 E:"), Ordering::Greater);
    assert_eq!(natural_cmp("", "3 E:"), Ordering::Greater);
    assert_eq!(natural_cmp("x", "y"), Ordering::Less);
}

#[test]
fn natural_order_reads_the_first_word() {
    // leading whitespace is skipped, the first word must be a whole number
    assert_eq!(natural_cmp("  4 F:", "5 G:"), Ordering::Less);
    assert_eq!(natural_cmp("4F:", "5 G:"), Ordering::Greater);
    assert_eq!(natural_cmp("+4 F:", "5 G:"), Ordering::Less);
}

#[test]
fn natural_order_is_antisymmetric_and_transitive() {
    let names = ["1 C:", "10 D:", "2 E:", "_Total", "", "2 A:", " 3 B:"];
    for a in names {
        for b in names {
            let ab = natural_cmp(a, b);
            assert_eq!(ab, natural_cmp(b, a).reverse());
            assert_eq!(ab == Ordering::Equal, a == b);
            for c in names {
                if ab == Ordering::Less && natural_cmp(b, c) == Ordering::Less {
                    assert_eq!(natural_cmp(a, c), Ordering::Less);
                }
            }
        }
    }
}

#[test]
fn first_disk_sample_gives_nothing() {
    let mut q = DiskQuery::new();
    let r = q.read(true, Some(names(&["0 C:"])), Some(names(&["0 C:"])), Some(names(&["0 C:"])));
    assert!(r.is_none());
}

#[test]
fn second_disk_sample_lists_disks_in_natural_order() {
    let mut q = DiskQuery::new();
    assert!(q.read(true, Some(vec![]), Some(vec![]), Some(vec![])).is_none());
    let time = names(&["10 E:", "_Total", "", "2 D:", "0 C:"]);
    let read = names(&["_Total", "0 C:", "10 E:"]);
    let write = names(&["2 D:", "0 C:"]);
    let rows = q.read(true, Some(time), Some(read), Some(write)).unwrap();
    let got: Vec<_> = rows.iter().map(row_tuple).collect();
    assert_eq!(
        got,
        vec![
            ("0 C:".to_string(), 4, Some(1), Some(1)),
            ("2 D:".to_string(), 3, None, Some(0)),
            ("10 E:".to_string(), 0, Some(2), None),
        ]
    );
}

#[test]
fn failed_collection_does_not_count_as_a_sample() {
    let mut q = DiskQuery::new();
    assert!(q.read(false, Some(vec![]), Some(vec![]), Some(vec![])).is_none());
    assert!(q.read(true, Some(vec![]), Some(vec![]), Some(vec![])).is_none());
    let r = q.read(true, Some(vec![]), Some(vec![]), Some(vec![]));
    assert_eq!(r.map(|v| v.len()), Some(0));
}

#[test]
fn missing_counter_list_gives_nothing() {
    let mut q = DiskQuery::new();
    q.read(true, None, None, None);
    assert!(q.read(true, Some(names(&["0 C:"])), None, Some(vec![])).is_none());
    assert!(q.read(true, None, Some(vec![]), Some(vec![])).is_none());
    assert!(q.read(true, Some(names(&["0 C:"])), Some(vec![]), None).is_none());
    assert!(q.read(true, Some(names(&["0 C:"])), Some(vec![]), Some(vec![])).is_some());
}

#[test]
fn duplicate_disk_names_keep_their_order() {
    let mut q = DiskQuery::new();
    q.read(true, None, None, None);
    let rows = q
        .read(true, Some(names(&["1 D:", "0 C:", "1 D:"])), Some(names(&["1 D:", "1 D:"])), Some(vec![]))
        .unwrap();
    let got: Vec<_> = rows.iter().map(row_tuple).collect();
    assert_eq!(
        got,
        vec![
            ("0 C:".to_string(), 1, None, None),
            ("1 D:".to_string(), 0, Some(0), None),
            ("1 D:".to_string(), 2, Some(0), None),
        ]
    );
}
