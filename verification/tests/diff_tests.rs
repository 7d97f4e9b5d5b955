use mapdiff::diff::diff_size_maps;
use mapdiff::sizes::SizeMap;

fn chars(s: &str) -> Vec<char> {
    s.chars().collect()
}

fn name_of(v: &[char]) -> String {
    v.iter().collect()
}

fn mk_map(pairs: &[(&str, u64)]) -> SizeMap {
    let mut m = SizeMap::new();
    for (k, v) in pairs {
        m.insert(chars(k), *v);
    }
    m
}

#[test]
fn additions_and_removals_are_reported() {
    let baseline = mk_map(&[("alpha", 10)]);
    let candidate = mk_map(&[("beta", 5)]);
    let report = diff_size_maps(&baseline, &candidate);
    assert_eq!(report.rows.len(), 2);
    assert_eq!(name_of(&report.rows[0].name), "alpha");
    assert_eq!(report.rows[0].old_size, 10);
    assert_eq!(report.rows[0].new_size, 0);
    assert_eq!(report.rows[0].delta, -10);
    assert_eq!(name_of(&report.rows[1].name), "beta");
    assert_eq!(report.rows[1].old_size, 0);
    assert_eq!(report.rows[1].new_size, 5);
    assert_eq!(report.rows[1].delta, 5);
}

#[test]
fn unchanged_names_get_no_row() {
    let baseline = mk_map(&[("same", 10), ("moved", 7)]);
    let candidate = mk_map(&[("same", 10), ("moved", 8)]);
    let report = diff_size_maps(&baseline, &candidate);
    assert_eq!(report.rows.len(), 1);
    assert_eq!(name_of(&report.rows[0].name), "moved");
    assert_eq!(report.rows[0].old_size, 7);
    assert_eq!(report.rows[0].new_size, 8);
    assert_eq!(report.rows[0].delta, 1);
}

#[test]
fn growth_and_shrink_both_appear() {
    let baseline = mk_map(&[("grow", 16), ("shrink", 32)]);
    let candidate = mk_map(&[("grow", 32), ("shrink", 16)]);
    let report = diff_size_maps(&baseline, &candidate);
    assert_eq!(report.rows.len(), 2);
    assert_eq!(name_of(&report.rows[0].name), "shrink");
    assert_eq!(report.rows[0].delta, -16);
    assert_eq!(name_of(&report.rows[1].name), "grow");
    assert_eq!(report.rows[1].delta, 16);
}

#[test]
fn diff_against_itself_is_empty() {
    let baseline = mk_map(&[("a", 1), ("b", 2), ("c", 3)]);
    let candidate = mk_map(&[("a", 1), ("b", 2), ("c", 3)]);
    let report = diff_size_maps(&baseline, &candidate);
    assert_eq!(report.rows.len(), 0);
}

#[test]
fn rows_sorted_by_delta_then_name() {
    let baseline = mk_map(&[("b", 10), ("a", 10), ("c", 5), ("d", 100)]);
    let candidate = mk_map(&[("b", 20), ("a", 20), ("c", 25), ("d", 1)]);
    let report = diff_size_maps(&baseline, &candidate);
    assert_eq!(report.rows.len(), 4);
    assert_eq!(name_of(&report.rows[0].name), "d");
    assert_eq!(report.rows[0].delta, -99);
    assert_eq!(name_of(&report.rows[1].name), "a");
    assert_eq!(report.rows[1].delta, 10);
    assert_eq!(name_of(&report.rows[2].name), "b");
    assert_eq!(report.rows[2].delta, 10);
    assert_eq!(name_of(&report.rows[3].name), "c");
    assert_eq!(report.rows[3].delta, 20);
    for w in report.rows.windows(2) {
        assert!(w[0].delta <= w[1].delta);
    }
}

#[test]
fn zero_sized_addition_still_counts_as_changed() {
    let baseline = mk_map(&[]);
    let candidate = mk_map(&[("empty_sym", 0)]);
    let report = diff_size_maps(&baseline, &candidate);
    assert_eq!(report.rows.len(), 1);
    assert_eq!(name_of(&report.rows[0].name), "empty_sym");
    assert_eq!(report.rows[0].old_size, 0);
    assert_eq!(report.rows[0].new_size, 0);
    assert_eq!(report.rows[0].delta, 0);
}

#[test]
fn insert_overwrites_earlier_binding() {
    let mut m = SizeMap::new();
    m.insert(chars("twice"), 1);
    m.insert(chars("twice"), 2);
    assert_eq!(m.get(&chars("twice")), Some(2));
    assert_eq!(m.get(&chars("absent")), None);
}

#[test]
fn large_sizes_do_not_overflow_delta() {
    let baseline = mk_map(&[("huge", u64::MAX)]);
    let candidate = mk_map(&[("huge", 0)]);
    let report = diff_size_maps(&baseline, &candidate);
    assert_eq!(report.rows.len(), 1);
    assert_eq!(report.rows[0].delta, -(u64::MAX as i128));
}
