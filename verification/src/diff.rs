//! The diff engine: comparing two name-to-size mappings.
//!
//! Every name in the union of the two mappings is classified: present only
//! in the candidate it is an addition, present only in the baseline a
//! removal, present in both with different sizes a change; names with equal
//! sizes in both get no row.  The report's rows are ordered by ascending
//! delta, ties broken by name, and carry one row per changed name.

use vstd::prelude::*;
use vstd::seq_lib::lemma_multiset_commutative;

use crate::scan::{chars_eq, chars_lex_le, lemma_lex_le_total, lemma_lex_le_trans, lex_le};
use crate::sizes::{entries_map, lemma_entries_map_dom, SizeMap};

verus! {

/// One row of a change report.
pub struct Row {
    pub name: Vec<char>,
    pub old_size: u64,
    pub new_size: u64,
    pub delta: i128,
}

/// Specification-level row.
pub struct RowV {
    pub name: Seq<char>,
    pub old_size: u64,
    pub new_size: u64,
    pub delta: int,
}

impl View for Row {
    type V = RowV;

    open spec fn view(&self) -> RowV {
        RowV {
            name: self.name@,
            old_size: self.old_size,
            new_size: self.new_size,
            delta: self.delta as int,
        }
    }
}

/// View of a row vector.
pub open spec fn rows_view(v: Seq<Row>) -> Seq<RowV> {
    v.map_values(|r: Row| r@)
}

/// The ranked change report.
pub struct ChangeReport {
    pub rows: Vec<Row>,
}

impl View for ChangeReport {
    type V = Seq<RowV>;

    open spec fn view(&self) -> Seq<RowV> {
        rows_view(self.rows@)
    }
}

/// A name that either mapping knows.
pub open spec fn in_union(b: Map<Seq<char>, u64>, c: Map<Seq<char>, u64>, k: Seq<char>) -> bool {
    b.dom().contains(k) || c.dom().contains(k)
}

/// A mapping's size for a name, absence counting as zero.
pub open spec fn size_or_zero(m: Map<Seq<char>, u64>, k: Seq<char>) -> u64 {
    if m.dom().contains(k) {
        m[k]
    } else {
        0
    }
}

/// A name whose size changed: additions and removals count as changed;
/// equal sizes in both mappings do not.
pub open spec fn changed(b: Map<Seq<char>, u64>, c: Map<Seq<char>, u64>, k: Seq<char>) -> bool {
    !(b.dom().contains(k) && c.dom().contains(k) && b[k] == c[k])
}

/// The one row a changed name owes the report.
pub open spec fn row_for(b: Map<Seq<char>, u64>, c: Map<Seq<char>, u64>, k: Seq<char>) -> RowV {
    RowV {
        name: k,
        old_size: size_or_zero(b, k),
        new_size: size_or_zero(c, k),
        delta: size_or_zero(c, k) - size_or_zero(b, k),
    }
}

/// Report order: ascending delta, ties broken by name.
pub open spec fn row_le(a: RowV, b: RowV) -> bool {
    a.delta < b.delta || (a.delta == b.delta && lex_le(a.name, b.name))
}

/// The full contract of a change report against its two inputs: every row
/// is the row of a changed name of the union; every changed name of the
/// union has a row; no name twice; rows ordered by ascending delta with
/// ties broken by name.
pub open spec fn diff_rows_ok(
    b: Map<Seq<char>, u64>,
    c: Map<Seq<char>, u64>,
    rows: Seq<RowV>,
) -> bool {
    &&& forall|i: int|
        0 <= i < rows.len() ==> in_union(b, c, (#[trigger] rows[i]).name) && changed(
            b,
            c,
            rows[i].name,
        ) && rows[i] == row_for(b, c, rows[i].name)
    &&& forall|k: Seq<char>|
        in_union(b, c, k) && #[trigger] changed(b, c, k) ==> exists|i: int|
            0 <= i < rows.len() && (#[trigger] rows[i]).name == k
    &&& forall|i: int, j: int| 0 <= i < j < rows.len() ==> rows[i].name != rows[j].name
    &&& forall|i: int, j: int| 0 <= i < j < rows.len() ==> row_le(rows[i], rows[j])
}

proof fn lemma_row_le_total(a: RowV, b: RowV)
    ensures
        row_le(a, b) || row_le(b, a),
{
    lemma_lex_le_total(a.name, b.name);
}

proof fn lemma_row_le_trans(a: RowV, b: RowV, c: RowV)
    requires
        row_le(a, b),
        row_le(b, c),
    ensures
        row_le(a, c),
{
    if a.delta == b.delta && b.delta == c.delta {
        lemma_lex_le_trans(a.name, b.name, c.name);
    }
}

/// Exec comparison realizing `row_le`.
fn row_le_exec(a: &Row, b: &Row) -> (r: bool)
    ensures
        r == row_le(a@, b@),
{
    if a.delta < b.delta {
        true
    } else if a.delta > b.delta {
        false
    } else {
        chars_lex_le(&a.name, &b.name)
    }
}

/// Inserting an element anywhere adds exactly it to the multiset.
proof fn lemma_to_multiset_insert(s: Seq<RowV>, p: int, v: RowV)
    requires
        0 <= p <= s.len(),
    ensures
        s.insert(p, v).to_multiset() == s.to_multiset().insert(v),
{
    broadcast use vstd::seq_lib::group_to_multiset_ensures;

    let t = s.insert(p, v);
    s.insert_ensures(p, v);
    assert(t.remove(p) =~= s);
    assert(t[p] == v);
    assert(t.remove(p).to_multiset() =~= t.to_multiset().remove(v));
    assert(t.to_multiset().contains(v));
    assert(t.to_multiset() =~= t.to_multiset().remove(v).insert(v));
}

/// Whether `k` stands in the list of names.
pub open spec fn name_listed(names: Seq<Vec<char>>, k: Seq<char>) -> bool {
    exists|i: int| 0 <= i < names.len() && (#[trigger] names[i])@ == k
}

/// Appending to the list loses no listed name.
proof fn lemma_name_listed_push(prev: Seq<Vec<char>>, cur: Seq<Vec<char>>, k: Seq<char>)
    requires
        cur.len() == prev.len() + 1,
        forall|i: int| 0 <= i < prev.len() ==> cur[i] == prev[i],
        name_listed(prev, k),
    ensures
        name_listed(cur, k),
{
    let i = choose|i: int| 0 <= i < prev.len() && (#[trigger] prev[i])@ == k;
    assert((cur[i])@ == k);
}

/// Whether a name already stands in a list of names.
fn names_contain(names: &Vec<Vec<char>>, k: &Vec<char>) -> (r: bool)
    ensures
        r == name_listed(names@, k@),
{
    let mut t: usize = 0;
    while t < names.len()
        invariant
            t <= names@.len(),
            forall|i: int| 0 <= i < t ==> (#[trigger] names@[i])@ != k@,
        decreases names@.len() - t,
    {
        if chars_eq(&names[t], k) {
            return true;
        }
        t = t + 1;
    }
    false
}

/// Copies a name.
fn copy_name(k: &Vec<char>) -> (r: Vec<char>)
    ensures
        r@ == k@,
{
    let r = crate::grammar::copy_range(k, 0, k.len());
    proof {
        assert(k@.subrange(0, k@.len() as int) =~= k@);
    }
    r
}

/// Collects the union of the two mappings' names, each once.
fn union_names(baseline: &SizeMap, candidate: &SizeMap) -> (names: Vec<Vec<char>>)
    ensures
        forall|i: int, j: int|
            0 <= i < j < names@.len() ==> (#[trigger] names@[i])@ != (#[trigger] names@[j])@,
        forall|i: int|
            0 <= i < names@.len() ==> in_union(baseline@, candidate@, (#[trigger] names@[i])@),
        forall|k: Seq<char>| in_union(baseline@, candidate@, k) ==> #[trigger] name_listed(
            names@,
            k,
        ),
{
    let mut names: Vec<Vec<char>> = Vec::new();
    let mut t: usize = 0;
    while t < baseline.entries.len()
        invariant
            t <= baseline.entries@.len(),
            forall|i: int, j: int|
                0 <= i < j < names@.len() ==> (#[trigger] names@[i])@ != (#[trigger] names@[j])@,
            forall|i: int|
                0 <= i < names@.len() ==> in_union(baseline@, candidate@, (#[trigger] names@[i])@),
            forall|u: int|
                0 <= u < t ==> name_listed(names@, (#[trigger] baseline.entries@[u]).name@),
        decreases baseline.entries@.len() - t,
    {
        let ghost prev = names@;
        if !names_contain(&names, &baseline.entries[t].name) {
            names.push(copy_name(&baseline.entries[t].name));
            proof {
                lemma_entries_map_dom(baseline.entries@);
                assert((names@[names@.len() - 1])@ == baseline.entries@[t as int].name@);
                assert(name_listed(names@, baseline.entries@[t as int].name@));
                assert forall|u: int|
                    0 <= u < t + 1 implies name_listed(
                    names@,
                    (#[trigger] baseline.entries@[u]).name@,
                ) by {
                    if u < t {
                        lemma_name_listed_push(prev, names@, baseline.entries@[u].name@);
                    }
                }
            }
        }
        t = t + 1;
    }
    let ghost base_done = names@;
    let mut t2: usize = 0;
    while t2 < candidate.entries.len()
        invariant
            t2 <= candidate.entries@.len(),
            forall|i: int, j: int|
                0 <= i < j < names@.len() ==> (#[trigger] names@[i])@ != (#[trigger] names@[j])@,
            forall|i: int|
                0 <= i < names@.len() ==> in_union(baseline@, candidate@, (#[trigger] names@[i])@),
            forall|u: int|
                0 <= u < baseline.entries@.len() ==> name_listed(
                    names@,
                    (#[trigger] baseline.entries@[u]).name@,
                ),
            forall|u: int|
                0 <= u < t2 ==> name_listed(names@, (#[trigger] candidate.entries@[u]).name@),
        decreases candidate.entries@.len() - t2,
    {
        let ghost prev = names@;
        if !names_contain(&names, &candidate.entries[t2].name) {
            names.push(copy_name(&candidate.entries[t2].name));
            proof {
                lemma_entries_map_dom(candidate.entries@);
                assert((names@[names@.len() - 1])@ == candidate.entries@[t2 as int].name@);
                assert(name_listed(names@, candidate.entries@[t2 as int].name@));
                assert forall|u: int|
                    0 <= u < baseline.entries@.len() implies name_listed(
                    names@,
                    (#[trigger] baseline.entries@[u]).name@,
                ) by {
                    lemma_name_listed_push(prev, names@, baseline.entries@[u].name@);
                }
                assert forall|u: int|
                    0 <= u < t2 + 1 implies name_listed(
                    names@,
                    (#[trigger] candidate.entries@[u]).name@,
                ) by {
                    if u < t2 {
                        lemma_name_listed_push(prev, names@, candidate.entries@[u].name@);
                    }
                }
            }
        }
        t2 = t2 + 1;
    }
    proof {
        lemma_entries_map_dom(baseline.entries@);
        lemma_entries_map_dom(candidate.entries@);
        assert forall|k: Seq<char>| in_union(baseline@, candidate@, k) implies #[trigger] name_listed(
            names@,
            k,
        ) by {
            if baseline@.dom().contains(k) {
                let u = choose|u: int|
                    0 <= u < baseline.entries@.len() && (#[trigger] baseline.entries@[u]).name@ == k;
                assert(name_listed(names@, baseline.entries@[u].name@));
            } else {
                let u = choose|u: int|
                    0 <= u < candidate.entries@.len() && (#[trigger] candidate.entries@[u]).name@
                        == k;
                assert(name_listed(names@, candidate.entries@[u].name@));
            }
        }
    }
    names
}

/// Sorts rows by ascending delta, ties broken by name; keeps exactly the
/// given rows.
fn sort_rows(rows: Vec<Row>) -> (r: Vec<Row>)
    ensures
        rows_view(r@).to_multiset() == rows_view(rows@).to_multiset(),
        forall|i: int, j: int| 0 <= i < j < r@.len() ==> row_le(rows_view(r@)[i], rows_view(r@)[j]),
{
    broadcast use vstd::seq_lib::group_to_multiset_ensures;

    let mut src = rows;
    let mut out: Vec<Row> = Vec::new();
    let ghost orig = rows_view(src@);
    proof {
        assert(rows_view(out@) =~= Seq::<RowV>::empty());
        assert(rows_view(out@).to_multiset().add(rows_view(src@).to_multiset()) =~= rows_view(
            src@,
        ).to_multiset());
    }
    while src.len() > 0
        invariant
            rows_view(out@).to_multiset().add(rows_view(src@).to_multiset()) == orig.to_multiset(),
            forall|i: int, j: int|
                0 <= i < j < out@.len() ==> row_le(rows_view(out@)[i], rows_view(out@)[j]),
        decreases src.len(),
    {
        let ghost src_pre = rows_view(src@);
        let x = match src.pop() {
            Some(x) => x,
            None => {
                proof {
                    assert(false);
                }
                unreached()
            },
        };
        proof {
            broadcast use vstd::seq_lib::group_to_multiset_ensures;

            assert(src_pre =~= rows_view(src@).push(x@));
            assert(src_pre.to_multiset() =~= rows_view(src@).to_multiset().insert(x@));
        }
        let mut p: usize = 0;
        while p < out.len() && row_le_exec(&out[p], &x)
            invariant
                p <= out@.len(),
                forall|m: int| 0 <= m < p ==> row_le(rows_view(out@)[m], x@),
            decreases out@.len() - p,
        {
            proof {
                assert(rows_view(out@)[p as int] == out@[p as int]@);
            }
            p = p + 1;
        }
        proof {
            if p < out@.len() {
                assert(rows_view(out@)[p as int] == out@[p as int]@);
                lemma_row_le_total(rows_view(out@)[p as int], x@);
            }
        }
        let ghost out_pre = rows_view(out@);
        out.insert(p, x);
        proof {
            out@.remove(p as int).insert_ensures(p as int, out@[p as int]);
            assert(out@.remove(p as int) =~= out@.subrange(0, p as int) + out@.subrange(
                p as int + 1,
                out@.len() as int,
            ));
            assert(rows_view(out@) =~= out_pre.insert(p as int, x@)) by {
                out_pre.insert_ensures(p as int, x@);
                assert forall|m: int| 0 <= m < out@.len() implies rows_view(out@)[m] == out_pre.insert(
                    p as int,
                    x@,
                )[m] by {
                    assert(rows_view(out@)[m] == out@[m]@);
                }
            }
            lemma_to_multiset_insert(out_pre, p as int, x@);
            out_pre.insert_ensures(p as int, x@);
            let ov = rows_view(out@);
            assert forall|i: int, j: int| 0 <= i < j < ov.len() implies row_le(ov[i], ov[j]) by {
                if j == p {
                    assert(ov[j] == x@);
                    assert(ov[i] == out_pre[i]);
                } else if i == p {
                    assert(ov[i] == x@);
                    assert(ov[j] == out_pre[j - 1]);
                    assert(row_le(x@, out_pre[p as int]));
                    if j - 1 > p {
                        lemma_row_le_trans(x@, out_pre[p as int], out_pre[j - 1]);
                    }
                } else if i < p && j > p {
                    assert(ov[i] == out_pre[i] && ov[j] == out_pre[j - 1]);
                    if j - 1 == i {
                        assert(row_le(out_pre[i], x@));
                        assert(row_le(x@, ov[j]));
                    }
                } else if j < p {
                    assert(ov[i] == out_pre[i] && ov[j] == out_pre[j]);
                } else {
                    assert(ov[i] == out_pre[i - 1] && ov[j] == out_pre[j - 1]);
                }
            }
        }
    }
    proof {
        assert(rows_view(src@).to_multiset() =~= Seq::<RowV>::empty().to_multiset());
        assert(rows_view(out@).to_multiset() =~= rows_view(out@).to_multiset().add(
            rows_view(src@).to_multiset(),
        ));
    }
    out
}

/// Compares two name-to-size mappings and builds the ranked change report:
/// one row per name whose size changed (additions from zero, removals to
/// zero), ordered by ascending delta with ties broken by name.
pub fn diff_size_maps(baseline: &SizeMap, candidate: &SizeMap) -> (r: ChangeReport)
    ensures
        diff_rows_ok(baseline@, candidate@, r@),
{
    broadcast use vstd::seq_lib::group_to_multiset_ensures;

    let names = union_names(baseline, candidate);
    let mut rows: Vec<Row> = Vec::new();
    let mut t: usize = 0;
    proof {
        assert(rows_view(rows@) =~= Seq::<RowV>::empty());
    }
    while t < names.len()
        invariant
            t <= names@.len(),
            forall|i: int, j: int|
                0 <= i < j < names@.len() ==> (#[trigger] names@[i])@ != (#[trigger] names@[j])@,
            forall|i: int|
                0 <= i < names@.len() ==> in_union(baseline@, candidate@, (#[trigger] names@[i])@),
            forall|i: int|
                0 <= i < rows_view(rows@).len() ==> exists|u: int|
                    0 <= u < t && (#[trigger] rows_view(rows@)[i]).name == (#[trigger] names@[u])@,
            forall|i: int|
                0 <= i < rows_view(rows@).len() ==> in_union(
                    baseline@,
                    candidate@,
                    (#[trigger] rows_view(rows@)[i]).name,
                ) && changed(baseline@, candidate@, rows_view(rows@)[i].name) && rows_view(rows@)[i]
                    == row_for(baseline@, candidate@, rows_view(rows@)[i].name),
            forall|i: int, j: int|
                0 <= i < j < rows_view(rows@).len() ==> rows_view(rows@)[i].name != rows_view(
                    rows@,
                )[j].name,
            forall|u: int|
                0 <= u < t && changed(baseline@, candidate@, (#[trigger] names@[u])@) ==> exists|i: int|
                    0 <= i < rows_view(rows@).len() && (#[trigger] rows_view(rows@)[i]).name == names@[u]@,
        decreases names@.len() - t,
    {
        let name = &names[t];
        let o = baseline.get(name);
        let n = candidate.get(name);
        let ghost rows_pre = rows_view(rows@);
        let push_row: Option<Row> = match (o, n) {
            (None, None) => None,
            (None, Some(nv)) => Some(
                Row {
                    name: copy_name(name),
                    old_size: 0,
                    new_size: nv,
                    delta: nv as i128,
                },
            ),
            (Some(ov), None) => Some(
                Row {
                    name: copy_name(name),
                    old_size: ov,
                    new_size: 0,
                    delta: -(ov as i128),
                },
            ),
            (Some(ov), Some(nv)) => {
                if ov == nv {
                    None
                } else {
                    Some(
                        Row {
                            name: copy_name(name),
                            old_size: ov,
                            new_size: nv,
                            delta: nv as i128 - ov as i128,
                        },
                    )
                }
            },
        };
        match push_row {
            Some(row) => {
                proof {
                    assert(changed(baseline@, candidate@, names@[t as int]@));
                    assert(row@ == row_for(baseline@, candidate@, names@[t as int]@));
                }
                rows.push(row);
                proof {
                    assert(rows_view(rows@) =~= rows_pre.push(row@));
                    assert forall|u: int|
                        0 <= u < t + 1 && changed(baseline@, candidate@, (#[trigger] names@[u])@)
                        implies exists|i: int|
                        0 <= i < rows_view(rows@).len() && (#[trigger] rows_view(rows@)[i]).name
                            == names@[u]@ by {
                        if u < t {
                            let i = choose|i: int|
                                0 <= i < rows_pre.len() && (#[trigger] rows_pre[i]).name == names@[u]@;
                            assert(rows_view(rows@)[i].name == names@[u]@);
                        } else {
                            assert(rows_view(rows@)[rows_view(rows@).len() - 1].name == names@[u]@);
                        }
                    }
                }
            },
            None => {
                proof {
                    assert(!changed(baseline@, candidate@, names@[t as int]@));
                }
            },
        }
        t = t + 1;
    }
    let ghost unsorted = rows_view(rows@);
    let sorted = sort_rows(rows);
    proof {
        let sv = rows_view(sorted@);
        assert forall|i: int| 0 <= i < sv.len() implies in_union(
            baseline@,
            candidate@,
            (#[trigger] sv[i]).name,
        ) && changed(baseline@, candidate@, sv[i].name) && sv[i] == row_for(
            baseline@,
            candidate@,
            sv[i].name,
        ) by {
            assert(sv.to_multiset().contains(sv[i]));
            assert(unsorted.contains(sv[i]));
            let u = choose|u: int| 0 <= u < unsorted.len() && unsorted[u] == sv[i];
            assert(unsorted[u] == sv[i]);
        }
        assert forall|k: Seq<char>|
            in_union(baseline@, candidate@, k) && #[trigger] changed(baseline@, candidate@, k)
            implies exists|i: int| 0 <= i < sv.len() && (#[trigger] sv[i]).name == k by {
            assert(name_listed(names@, k));
            let u = choose|u: int|
                0 <= u < names@.len() && (#[trigger] names@[u])@ == k;
            assert(changed(baseline@, candidate@, names@[u]@));
            let i = choose|i: int| 0 <= i < unsorted.len() && (#[trigger] unsorted[i]).name == k;
            assert(unsorted.to_multiset().contains(unsorted[i]));
            assert(sv.contains(unsorted[i]));
            let j = choose|j: int| 0 <= j < sv.len() && sv[j] == unsorted[i];
            assert(sv[j].name == k);
        }
        assert forall|i: int, j: int| 0 <= i < j < sv.len() implies sv[i].name != sv[j].name by {
            assert forall|a: int, b: int| 0 <= a < b < unsorted.len() implies unsorted[a]
                != unsorted[b] by {
                assert(unsorted[a].name != unsorted[b].name);
            }
            unsorted.lemma_multiset_has_no_duplicates();
            assert forall|x: RowV| sv.to_multiset().contains(x) implies sv.to_multiset().count(x)
                == 1 by {
                assert(unsorted.to_multiset().contains(x));
            }
            sv.lemma_multiset_has_no_duplicates_conv();
            if sv[i] == sv[j] {
                assert(false);
            } else {
                assert(sv.to_multiset().contains(sv[i]));
                assert(unsorted.contains(sv[i]));
                assert(sv.to_multiset().contains(sv[j]));
                assert(unsorted.contains(sv[j]));
                let a = choose|a: int| 0 <= a < unsorted.len() && unsorted[a] == sv[i];
                let b = choose|b: int| 0 <= b < unsorted.len() && unsorted[b] == sv[j];
                if sv[i].name == sv[j].name {
                    assert(a != b);
                    if a < b {
                        assert(unsorted[a].name != unsorted[b].name);
                    } else {
                        assert(unsorted[b].name != unsorted[a].name);
                    }
                    assert(false);
                }
            }
        }
    }
    ChangeReport { rows: sorted }
}

/// Diffing a mapping against itself yields the empty report: no name can
/// be changed, so no row can stand.
pub proof fn lemma_diff_self_empty(m: Map<Seq<char>, u64>, rows: Seq<RowV>)
    requires
        diff_rows_ok(m, m, rows),
    ensures
        rows.len() == 0,
{
    if rows.len() > 0 {
        let k = rows[0].name;
        assert(in_union(m, m, k) && changed(m, m, k));
        assert(m.dom().contains(k));
        assert(m[k] == m[k]);
        assert(false);
    }
}

} // verus!
