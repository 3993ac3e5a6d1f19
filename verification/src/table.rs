//! The result aggregator: an ordered table of (date, trailhead name,
//! availability) rows, keyed by date then name, last write winning on a
//! repeated key.
use vstd::prelude::*;

use crate::date::Date;
use crate::text::{
    lemma_str_lt_irreflexive, lemma_str_lt_transitive, lemma_str_lt_trichotomy, spec_str_lt,
    str_eq, str_lt,
};

verus! {

/// A table row in the mathematical model.
pub type RowV = (Date, Seq<char>, u8);

pub open spec fn row_key(r: RowV) -> (Date, Seq<char>) {
    (r.0, r.1)
}

/// Chronological order on dates, then lexical order on names.
pub open spec fn key_lt(a: (Date, Seq<char>), b: (Date, Seq<char>)) -> bool {
    a.0.spec_lt(b.0) || (a.0 == b.0 && spec_str_lt(a.1, b.1))
}

pub proof fn lemma_key_lt_irreflexive(a: (Date, Seq<char>))
    ensures
        !key_lt(a, a),
{
    lemma_str_lt_irreflexive(a.1);
}

pub proof fn lemma_key_lt_trichotomy(a: (Date, Seq<char>), b: (Date, Seq<char>))
    ensures
        key_lt(a, b) || key_lt(b, a) || a == b,
        !(key_lt(a, b) && key_lt(b, a)),
{
    lemma_str_lt_trichotomy(a.1, b.1);
    lemma_str_lt_irreflexive(a.1);
    lemma_str_lt_irreflexive(b.1);
    if !key_lt(a, b) && !key_lt(b, a) && a.0 == b.0 && a.1 == b.1 {
        assert(a =~= b);
    }
}

pub proof fn lemma_key_lt_transitive(
    a: (Date, Seq<char>),
    b: (Date, Seq<char>),
    c: (Date, Seq<char>),
)
    requires
        key_lt(a, b),
        key_lt(b, c),
    ensures
        key_lt(a, c),
{
    if a.0 == b.0 && b.0 == c.0 {
        lemma_str_lt_transitive(a.1, b.1, c.1);
    }
}

/// The value the last row with this key holds.
pub open spec fn spec_lookup(rows: Seq<RowV>, k: (Date, Seq<char>)) -> Option<u8>
    decreases rows.len(),
{
    if rows.len() == 0 {
        None
    } else if row_key(rows.last()) == k {
        Some(rows.last().2)
    } else {
        spec_lookup(rows.drop_last(), k)
    }
}

/// The rows folded into a map, later rows overwriting earlier ones.
pub open spec fn spec_agg_map(rows: Seq<RowV>) -> Map<(Date, Seq<char>), u8>
    decreases rows.len(),
{
    if rows.len() == 0 {
        Map::empty()
    } else {
        spec_agg_map(rows.drop_last()).insert(row_key(rows.last()), rows.last().2)
    }
}

/// The map and the lookup agree.
pub proof fn lemma_agg_map_is_lookup(rows: Seq<RowV>)
    ensures
        forall|k: (Date, Seq<char>)| #[trigger]
            spec_agg_map(rows).dom().contains(k) <==> spec_lookup(rows, k) is Some,
        forall|k: (Date, Seq<char>)|
            spec_agg_map(rows).dom().contains(k) ==> #[trigger] spec_agg_map(rows)[k]
                == spec_lookup(rows, k)->Some_0,
    decreases rows.len(),
{
    if rows.len() > 0 {
        lemma_agg_map_is_lookup(rows.drop_last());
        assert forall|k: (Date, Seq<char>)| #[trigger]
            spec_agg_map(rows).dom().contains(k) <==> spec_lookup(rows, k) is Some by {
            if k == row_key(rows.last()) {
                assert(spec_agg_map(rows).dom().contains(k));
            } else {
                assert(spec_agg_map(rows).dom().contains(k) == spec_agg_map(
                    rows.drop_last(),
                ).dom().contains(k));
                assert(spec_agg_map(rows.drop_last()).dom().contains(k) <==> spec_lookup(
                    rows.drop_last(),
                    k,
                ) is Some);
            }
        }
        assert forall|k: (Date, Seq<char>)|
            spec_agg_map(rows).dom().contains(k) implies #[trigger] spec_agg_map(rows)[k]
            == spec_lookup(rows, k)->Some_0 by {
            if k == row_key(rows.last()) {
            } else {
                assert(spec_agg_map(rows)[k] == spec_agg_map(rows.drop_last())[k]);
            }
        }
    }
}

/// A found value is carried by some row.
pub proof fn lemma_lookup_contains(rows: Seq<RowV>, k: (Date, Seq<char>), v: u8)
    requires
        spec_lookup(rows, k) == Some(v),
    ensures
        rows.contains((k.0, k.1, v)),
    decreases rows.len(),
{
    if rows.len() > 0 {
        if row_key(rows.last()) == k {
            assert(rows.last() == (k.0, k.1, v));
            assert(rows[rows.len() - 1] == (k.0, k.1, v));
        } else {
            lemma_lookup_contains(rows.drop_last(), k, v);
            let i = choose|i: int|
                0 <= i < rows.drop_last().len() && rows.drop_last()[i] == (k.0, k.1, v);
            assert(rows[i] == (k.0, k.1, v));
        }
    }
}

/// A key some row carries is found.
pub proof fn lemma_lookup_some(rows: Seq<RowV>, k: (Date, Seq<char>), i: int)
    requires
        0 <= i < rows.len(),
        row_key(rows[i]) == k,
    ensures
        spec_lookup(rows, k) is Some,
    decreases rows.len(),
{
    if row_key(rows.last()) != k {
        assert(i < rows.len() - 1);
        assert(rows.drop_last()[i] == rows[i]);
        lemma_lookup_some(rows.drop_last(), k, i);
    }
}

/// No two rows share a key.
pub open spec fn no_dup_keys(rows: Seq<RowV>) -> bool {
    forall|i: int, j: int|
        0 <= i < j < rows.len() ==> row_key(#[trigger] rows[i]) != row_key(#[trigger] rows[j])
}

/// With unique keys, each row's key finds that row's value.
pub proof fn lemma_lookup_unique(rows: Seq<RowV>, i: int)
    requires
        no_dup_keys(rows),
        0 <= i < rows.len(),
    ensures
        spec_lookup(rows, row_key(rows[i])) == Some(rows[i].2),
    decreases rows.len(),
{
    if i == rows.len() - 1 {
    } else {
        assert(row_key(rows[i]) != row_key(rows[rows.len() - 1]));
        assert(rows.drop_last()[i] == rows[i]);
        assert(no_dup_keys(rows.drop_last())) by {
            assert forall|a: int, b: int|
                0 <= a < b < rows.drop_last().len() implies row_key(
                #[trigger] rows.drop_last()[a],
            ) != row_key(#[trigger] rows.drop_last()[b]) by {
                assert(rows.drop_last()[a] == rows[a]);
                assert(rows.drop_last()[b] == rows[b]);
            }
        }
        lemma_lookup_unique(rows.drop_last(), i);
    }
}

/// Strictly ordered by key.
pub open spec fn sorted(rows: Seq<RowV>) -> bool {
    forall|i: int, j: int|
        0 <= i < j < rows.len() ==> key_lt(row_key(#[trigger] rows[i]), row_key(
            #[trigger] rows[j],
        ))
}

pub proof fn lemma_sorted_no_dup(rows: Seq<RowV>)
    requires
        sorted(rows),
    ensures
        no_dup_keys(rows),
{
    assert forall|i: int, j: int| 0 <= i < j < rows.len() implies row_key(
        #[trigger] rows[i],
    ) != row_key(#[trigger] rows[j]) by {
        lemma_key_lt_irreflexive(row_key(rows[j]));
    }
}

/// Two row lists carrying the same rows for a key find the same value.
proof fn lemma_lookup_frame(a: Seq<RowV>, b: Seq<RowV>, k: (Date, Seq<char>))
    requires
        no_dup_keys(a),
        no_dup_keys(b),
        forall|v: u8| a.contains((k.0, k.1, v)) <==> b.contains((k.0, k.1, v)),
    ensures
        spec_lookup(a, k) == spec_lookup(b, k),
{
    match spec_lookup(a, k) {
        Some(v) => {
            lemma_lookup_contains(a, k, v);
            assert(b.contains((k.0, k.1, v)));
            let i = choose|i: int| 0 <= i < b.len() && b[i] == (k.0, k.1, v);
            lemma_lookup_unique(b, i);
        },
        None => {
            match spec_lookup(b, k) {
                Some(v) => {
                    lemma_lookup_contains(b, k, v);
                    assert(a.contains((k.0, k.1, v)));
                    let i = choose|i: int| 0 <= i < a.len() && a[i] == (k.0, k.1, v);
                    lemma_lookup_unique(a, i);
                },
                None => {},
            }
        },
    }
}

/// The final availability table: rows strictly ordered by date, then by
/// trailhead name.
pub struct ResultTable {
    pub rows: Vec<(Date, String, u8)>,
}

/// The models of a sequence of table rows.
pub open spec fn trows_view(q: Seq<(Date, String, u8)>) -> Seq<RowV> {
    Seq::new(
        q.len(),
        |i: int|
            if 0 <= i < q.len() {
                (q[i].0, q[i].1@, q[i].2)
            } else {
                (Date { year: 1, month: 1, day: 1 }, Seq::<char>::empty(), 0u8)
            },
    )
}

impl View for ResultTable {
    type V = Seq<RowV>;

    open spec fn view(&self) -> Seq<RowV> {
        trows_view(self.rows@)
    }
}

fn key_lt_exec(d1: &Date, n1: &str, d2: &Date, n2: &str) -> (r: bool)
    ensures
        r == key_lt((*d1, n1@), (*d2, n2@)),
{
    if d1.lt(d2) {
        true
    } else if d1 == d2 {
        str_lt(n1, n2)
    } else {
        false
    }
}

impl ResultTable {
    pub open spec fn wf(self) -> bool {
        sorted(self@)
    }

    pub fn new() -> (r: ResultTable)
        ensures
            r.wf(),
            r@ =~= Seq::<RowV>::empty(),
    {
        ResultTable { rows: Vec::new() }
    }

    /// Inserts one row, keeping the order; an existing row with the same
    /// key is overwritten.
    pub fn upsert(&mut self, date: Date, name: String, avail: u8)
        requires
            old(self).wf(),
        ensures
            final(self).wf(),
            spec_lookup(final(self)@, (date, name@)) == Some(avail),
            forall|k: (Date, Seq<char>)|
                k != (date, name@) ==> #[trigger] spec_lookup(final(self)@, k) == spec_lookup(
                    old(self)@,
                    k,
                ),
    {
        let ghost oldrows = self@;
        let ghost key = (date, name@);
        let mut idx: usize = 0;
        loop
            invariant
                idx <= self.rows@.len(),
                self@ == oldrows,
                sorted(oldrows),
                key == (date, name@),
                forall|m: int| 0 <= m < idx ==> key_lt(row_key(#[trigger] oldrows[m]), key),
            ensures
                idx <= self.rows@.len(),
                self@ == oldrows,
                forall|m: int| 0 <= m < idx ==> key_lt(row_key(#[trigger] oldrows[m]), key),
                idx < oldrows.len() ==> !key_lt(row_key(oldrows[idx as int]), key),
            decreases self.rows@.len() - idx,
        {
            if idx >= self.rows.len() {
                break ;
            }
            let p = &self.rows[idx];
            proof {
                assert(oldrows[idx as int] == (self.rows@[idx as int].0, self.rows@[
                idx as int].1@, self.rows@[idx as int].2));
            }
            let go = key_lt_exec(&p.0, p.1.as_str(), &date, name.as_str());
            proof {
                assert(go == key_lt(row_key(oldrows[idx as int]), key));
            }
            if !go {
                break ;
            }
            idx = idx + 1;
        }
        proof {
            lemma_sorted_no_dup(oldrows);
        }
        let mut same_key = false;
        if idx < self.rows.len() {
            let p = &self.rows[idx];
            if p.0 == date && str_eq(p.1.as_str(), name.as_str()) {
                same_key = true;
            }
        }
        if same_key {
            self.rows.remove(idx);
            let ghost midrows = self@;
            self.rows.insert(idx, (date, name, avail));
            proof {
                let newrows = self@;
                assert(newrows =~= oldrows.update(idx as int, (date, name@, avail)));
                assert(row_key(oldrows[idx as int]) == key);
                assert(sorted(newrows)) by {
                    assert forall|i: int, j: int| 0 <= i < j < newrows.len() implies key_lt(
                        row_key(#[trigger] newrows[i]),
                        row_key(#[trigger] newrows[j]),
                    ) by {
                        assert(row_key(newrows[i]) == row_key(oldrows[i]));
                        assert(row_key(newrows[j]) == row_key(oldrows[j]));
                    }
                }
                lemma_sorted_no_dup(newrows);
                lemma_lookup_unique(newrows, idx as int);
                assert forall|k2: (Date, Seq<char>)| k2 != key implies #[trigger] spec_lookup(
                    newrows,
                    k2,
                ) == spec_lookup(oldrows, k2) by {
                    assert forall|v: u8| oldrows.contains((k2.0, k2.1, v)) implies newrows.contains(
                        (k2.0, k2.1, v),
                    ) by {
                        let i = choose|i: int|
                            0 <= i < oldrows.len() && oldrows[i] == (k2.0, k2.1, v);
                        assert(i != idx);
                        assert(newrows[i] == (k2.0, k2.1, v));
                    }
                    assert forall|v: u8| newrows.contains((k2.0, k2.1, v)) implies oldrows.contains(
                        (k2.0, k2.1, v),
                    ) by {
                        let i = choose|i: int|
                            0 <= i < newrows.len() && newrows[i] == (k2.0, k2.1, v);
                        assert(i != idx);
                        assert(oldrows[i] == (k2.0, k2.1, v));
                    }
                    lemma_lookup_frame(oldrows, newrows, k2);
                }
            }
        } else {
            self.rows.insert(idx, (date, name, avail));
            proof {
                let newrows = self@;
                assert(newrows =~= oldrows.insert(idx as int, (date, name@, avail)));
                assert forall|m: int| idx <= m < oldrows.len() implies key_lt(
                    key,
                    row_key(#[trigger] oldrows[m]),
                ) by {
                    lemma_key_lt_trichotomy(key, row_key(oldrows[idx as int]));
                    if m > idx {
                        lemma_key_lt_transitive(
                            key,
                            row_key(oldrows[idx as int]),
                            row_key(oldrows[m]),
                        );
                    }
                }
                assert(sorted(newrows)) by {
                    assert forall|i: int, j: int| 0 <= i < j < newrows.len() implies key_lt(
                        row_key(#[trigger] newrows[i]),
                        row_key(#[trigger] newrows[j]),
                    ) by {
                        if i < idx {
                            assert(newrows[i] == oldrows[i]);
                        }
                        if j < idx {
                            assert(newrows[j] == oldrows[j]);
                        }
                        if i > idx {
                            assert(newrows[i] == oldrows[i - 1]);
                        }
                        if j > idx {
                            assert(newrows[j] == oldrows[j - 1]);
                        }
                    }
                }
                lemma_sorted_no_dup(newrows);
                lemma_lookup_unique(newrows, idx as int);
                assert forall|k2: (Date, Seq<char>)| k2 != key implies #[trigger] spec_lookup(
                    newrows,
                    k2,
                ) == spec_lookup(oldrows, k2) by {
                    assert forall|v: u8| oldrows.contains((k2.0, k2.1, v)) implies newrows.contains(
                        (k2.0, k2.1, v),
                    ) by {
                        let i = choose|i: int|
                            0 <= i < oldrows.len() && oldrows[i] == (k2.0, k2.1, v);
                        if i < idx {
                            assert(newrows[i] == (k2.0, k2.1, v));
                        } else {
                            assert(newrows[i + 1] == (k2.0, k2.1, v));
                        }
                    }
                    assert forall|v: u8| newrows.contains((k2.0, k2.1, v)) implies oldrows.contains(
                        (k2.0, k2.1, v),
                    ) by {
                        let i = choose|i: int|
                            0 <= i < newrows.len() && newrows[i] == (k2.0, k2.1, v);
                        assert(i != idx);
                        if i < idx {
                            assert(oldrows[i] == (k2.0, k2.1, v));
                        } else {
                            assert(oldrows[i - 1] == (k2.0, k2.1, v));
                        }
                    }
                    lemma_lookup_frame(oldrows, newrows, k2);
                }
            }
        }
    }
}

/// Builds the table from reconciled entries, in input order: later entries
/// overwrite earlier ones on a repeated (date, name) key. Every row of the
/// table is one of the entries, and a key finds in the table exactly what
/// it finds in the entry list.
pub fn aggregate(entries: &Vec<(Date, String, u8)>) -> (r: ResultTable)
    ensures
        r.wf(),
        forall|k: (Date, Seq<char>)| #[trigger]
            spec_lookup(r@, k) == spec_lookup(trows_view(entries@), k),
        forall|i: int|
            0 <= i < r@.len() ==> trows_view(entries@).contains(#[trigger] r@[i]),
{
    let ghost ev = trows_view(entries@);
    let mut t = ResultTable::new();
    let mut i: usize = 0;
    proof {
        assert(ev.take(0).len() == 0);
    }
    while i < entries.len()
        invariant
            i <= entries@.len(),
            ev == trows_view(entries@),
            t.wf(),
            forall|k: (Date, Seq<char>)| #[trigger]
                spec_lookup(t@, k) == spec_lookup(ev.take(i as int), k),
        decreases entries@.len() - i,
    {
        let e = &entries[i];
        let ghost tpre = t@;
        t.upsert(e.0, e.1.clone(), e.2);
        proof {
            let taken = ev.take(i + 1);
            assert(taken.last() == (entries@[i as int].0, entries@[i as int].1@, entries@[
            i as int].2));
            assert(taken.drop_last() =~= ev.take(i as int));
            assert forall|k: (Date, Seq<char>)| #[trigger] spec_lookup(t@, k) == spec_lookup(
                taken,
                k,
            ) by {
                if k == row_key(taken.last()) {
                } else {
                }
            }
        }
        i = i + 1;
    }
    proof {
        assert(ev.take(entries@.len() as int) =~= ev);
        lemma_sorted_no_dup(t@);
        assert forall|i0: int| 0 <= i0 < t@.len() implies ev.contains(#[trigger] t@[i0]) by {
            lemma_lookup_unique(t@, i0);
            assert(spec_lookup(ev, row_key(t@[i0])) == Some(t@[i0].2));
            lemma_lookup_contains(ev, row_key(t@[i0]), t@[i0].2);
            assert((row_key(t@[i0]).0, row_key(t@[i0]).1, t@[i0].2) == t@[i0]);
        }
    }
    t
}

/// Entry lists holding the same entries find the same values: aggregation
/// does not depend on the input order, given no repeated keys.
pub proof fn lemma_aggregate_order_independent(a: Seq<RowV>, b: Seq<RowV>)
    requires
        a.to_multiset() == b.to_multiset(),
        no_dup_keys(a),
    ensures
        forall|k: (Date, Seq<char>)| #[trigger] spec_lookup(a, k) == spec_lookup(b, k),
        spec_agg_map(a) == spec_agg_map(b),
{
    broadcast use vstd::seq_lib::group_to_multiset_ensures;

    assert(no_dup_keys(b)) by {
        assert forall|i: int, j: int| 0 <= i < j < b.len() implies row_key(#[trigger] b[i])
            != row_key(#[trigger] b[j]) by {
            if row_key(b[i]) == row_key(b[j]) {
                if b[i] == b[j] {
                    assert(b.remove(i).to_multiset() =~= b.to_multiset().remove(b[i]));
                    assert(b.remove(i)[j - 1] == b[j]);
                    assert(b.remove(i).contains(b[j]));
                    assert(b.remove(i).to_multiset().count(b[j]) > 0);
                    assert(b.to_multiset().count(b[i]) >= 2);
                    assert(a.to_multiset().count(b[i]) >= 2);
                    assert(a.contains(b[i]));
                    let i1 = choose|m: int| 0 <= m < a.len() && a[m] == b[i];
                    assert(a.remove(i1).to_multiset() =~= a.to_multiset().remove(a[i1]));
                    assert(a.remove(i1).to_multiset().count(b[i]) >= 1);
                    assert(a.remove(i1).contains(b[i]));
                    let j1 = choose|m: int| 0 <= m < a.remove(i1).len() && a.remove(i1)[m] == b[i];
                    if j1 < i1 {
                        assert(a[j1] == b[i]);
                    } else {
                        assert(a[j1 + 1] == b[i]);
                    }
                } else {
                    assert(b.contains(b[i]));
                    assert(b.contains(b[j]));
                    assert(b.to_multiset().count(b[i]) > 0);
                    assert(b.to_multiset().count(b[j]) > 0);
                    assert(a.to_multiset().count(b[i]) > 0);
                    assert(a.to_multiset().count(b[j]) > 0);
                    assert(a.contains(b[i]));
                    assert(a.contains(b[j]));
                    let i1 = choose|m: int| 0 <= m < a.len() && a[m] == b[i];
                    let j1 = choose|m: int| 0 <= m < a.len() && a[m] == b[j];
                    assert(i1 != j1);
                }
            }
        }
    }
    assert forall|k: (Date, Seq<char>)| #[trigger] spec_lookup(a, k) == spec_lookup(b, k) by {
        lemma_lookup_match(a, b, k);
    }
    lemma_agg_map_is_lookup(a);
    lemma_agg_map_is_lookup(b);
    assert forall|k: (Date, Seq<char>)|
        spec_agg_map(a).dom().contains(k) == #[trigger] spec_agg_map(b).dom().contains(k) by {
        assert(spec_lookup(a, k) == spec_lookup(b, k));
    }
    assert(spec_agg_map(a) =~= spec_agg_map(b)) by {
        assert forall|k: (Date, Seq<char>)|
            spec_agg_map(a).dom().contains(k) implies #[trigger] spec_agg_map(a)[k]
            == spec_agg_map(b)[k] by {
            assert(spec_lookup(a, k) == spec_lookup(b, k));
        }
    }
}

/// With equal multisets and unique keys on one side, a key finds the same
/// value in both lists.
proof fn lemma_lookup_match(a: Seq<RowV>, b: Seq<RowV>, k: (Date, Seq<char>))
    requires
        a.to_multiset() == b.to_multiset(),
        no_dup_keys(a),
        no_dup_keys(b),
    ensures
        spec_lookup(a, k) == spec_lookup(b, k),
{
    broadcast use vstd::seq_lib::group_to_multiset_ensures;

    match spec_lookup(b, k) {
        Some(v) => {
            lemma_lookup_contains(b, k, v);
            assert(b.to_multiset().count((k.0, k.1, v)) > 0);
            assert(a.to_multiset().count((k.0, k.1, v)) > 0);
            assert(a.contains((k.0, k.1, v)));
            let i = choose|m: int| 0 <= m < a.len() && a[m] == (k.0, k.1, v);
            lemma_lookup_unique(a, i);
            assert((k.0, k.1) == k);
        },
        None => {
            match spec_lookup(a, k) {
                Some(v) => {
                    lemma_lookup_contains(a, k, v);
                    assert(a.to_multiset().count((k.0, k.1, v)) > 0);
                    assert(b.to_multiset().count((k.0, k.1, v)) > 0);
                    assert(b.contains((k.0, k.1, v)));
                    let i = choose|m: int| 0 <= m < b.len() && b[m] == (k.0, k.1, v);
                    lemma_lookup_some(b, k, i);
                },
                None => {},
            }
        },
    }
}

/// Ordered tables with the same content are the same table: the rows of a
/// sorted table are determined by what its keys find.
pub proof fn lemma_sorted_rows_determined(a: Seq<RowV>, b: Seq<RowV>)
    requires
        sorted(a),
        sorted(b),
        forall|k: (Date, Seq<char>)| #[trigger] spec_lookup(a, k) == spec_lookup(b, k),
    ensures
        a == b,
    decreases a.len(),
{
    lemma_sorted_no_dup(a);
    lemma_sorted_no_dup(b);
    if a.len() == 0 && b.len() == 0 {
        assert(a =~= b);
    } else if a.len() == 0 {
        lemma_lookup_unique(b, b.len() - 1);
        assert(spec_lookup(a, row_key(b.last())) is None);
        assert(false);
    } else if b.len() == 0 {
        lemma_lookup_unique(a, a.len() - 1);
        assert(spec_lookup(b, row_key(a.last())) is None);
        assert(false);
    } else {
        let ka = row_key(a.last());
        let kb = row_key(b.last());
        lemma_lookup_unique(a, a.len() - 1);
        lemma_lookup_unique(b, b.len() - 1);
        // the last key of each list appears in the other, and each last key
        // is the greatest of its list, so the last rows agree
        lemma_lookup_contains(b, ka, a.last().2);
        let ia = choose|m: int| 0 <= m < b.len() && b[m] == (ka.0, ka.1, a.last().2);
        lemma_lookup_contains(a, kb, b.last().2);
        let ib = choose|m: int| 0 <= m < a.len() && a[m] == (kb.0, kb.1, b.last().2);
        lemma_key_lt_trichotomy(ka, kb);
        if ka != kb {
            assert(ia < b.len() - 1);
            assert(key_lt(row_key(b[ia]), kb));
            assert(row_key(b[ia]) == ka);
            assert(ib < a.len() - 1);
            assert(key_lt(row_key(a[ib]), ka));
            assert(row_key(a[ib]) == kb);
            assert(false);
        }
        assert(a.last() == b.last());
        let a2 = a.drop_last();
        let b2 = b.drop_last();
        assert(sorted(a2)) by {
            assert forall|i: int, j: int| 0 <= i < j < a2.len() implies key_lt(
                row_key(#[trigger] a2[i]),
                row_key(#[trigger] a2[j]),
            ) by {
                assert(a2[i] == a[i]);
                assert(a2[j] == a[j]);
            }
        }
        assert(sorted(b2)) by {
            assert forall|i: int, j: int| 0 <= i < j < b2.len() implies key_lt(
                row_key(#[trigger] b2[i]),
                row_key(#[trigger] b2[j]),
            ) by {
                assert(b2[i] == b[i]);
                assert(b2[j] == b[j]);
            }
        }
        assert forall|k: (Date, Seq<char>)| #[trigger] spec_lookup(a2, k) == spec_lookup(
            b2,
            k,
        ) by {
            if k == ka {
                match spec_lookup(a2, k) {
                    Some(v) => {
                        lemma_lookup_contains(a2, k, v);
                        let m = choose|m: int| 0 <= m < a2.len() && a2[m] == (k.0, k.1, v);
                        assert(a[m] == (k.0, k.1, v));
                        assert(row_key(a[m]) == row_key(a[a.len() - 1]));
                        assert(false);
                    },
                    None => {},
                }
                match spec_lookup(b2, k) {
                    Some(v) => {
                        lemma_lookup_contains(b2, k, v);
                        let m = choose|m: int| 0 <= m < b2.len() && b2[m] == (k.0, k.1, v);
                        assert(b[m] == (k.0, k.1, v));
                        assert(row_key(b[m]) == row_key(b[b.len() - 1]));
                        assert(false);
                    },
                    None => {},
                }
            } else {
                assert(spec_lookup(a, k) == spec_lookup(a2, k));
                assert(spec_lookup(b, k) == spec_lookup(b2, k));
            }
        }
        lemma_sorted_rows_determined(a2, b2);
        assert(a.len() == b.len());
        assert forall|m: int| 0 <= m < a.len() implies a[m] == b[m] by {
            if m < a.len() - 1 {
                assert(a[m] == a2[m]);
                assert(b[m] == b2[m]);
            }
        }
        assert(a =~= b);
    }
}

/// Ordered tables built from the same reconciled entries, given in any
/// input orders without repeated keys, are the same table.
pub proof fn lemma_same_entries_same_table(
    t1: Seq<RowV>,
    t2: Seq<RowV>,
    a: Seq<RowV>,
    b: Seq<RowV>,
)
    requires
        sorted(t1),
        sorted(t2),
        forall|k: (Date, Seq<char>)| #[trigger] spec_lookup(t1, k) == spec_lookup(a, k),
        forall|k: (Date, Seq<char>)| #[trigger] spec_lookup(t2, k) == spec_lookup(b, k),
        a.to_multiset() == b.to_multiset(),
        no_dup_keys(a),
    ensures
        t1 == t2,
{
    lemma_aggregate_order_independent(a, b);
    assert forall|k: (Date, Seq<char>)| #[trigger] spec_lookup(t1, k) == spec_lookup(
        t2,
        k,
    ) by {
        assert(spec_lookup(a, k) == spec_lookup(b, k));
    }
    lemma_sorted_rows_determined(t1, t2);
}

} // verus!
