//! Batch retrieval and grouping engine: the sequence-level specification of
//! the two retrieval shapes (flat batch-by-id and grouped-by-parent), one
//! generic grouping routine, and the facts the service contracts need about
//! them.

use vstd::prelude::*;
use vstd::set_lib::lemma_len_subset;

verus! {

/// The rows of `rows` that satisfy `pred`, kept in their original order.
pub open spec fn rows_where<R>(rows: Seq<R>, pred: spec_fn(R) -> bool) -> Seq<R>
    decreases rows.len(),
{
    if rows.len() == 0 {
        Seq::empty()
    } else {
        let rest = rows_where(rows.drop_last(), pred);
        if pred(rows.last()) {
            rest.push(rows.last())
        } else {
            rest
        }
    }
}

/// The first row of `rows` that satisfies `pred`, if any.
pub open spec fn first_where<R>(rows: Seq<R>, pred: spec_fn(R) -> bool) -> Option<R>
    decreases rows.len(),
{
    if rows.len() == 0 {
        None
    } else if pred(rows[0]) {
        Some(rows[0])
    } else {
        first_where(rows.drop_first(), pred)
    }
}

/// The window `LIMIT limit OFFSET offset` selects from `rows`: skip the
/// first `offset` rows, keep at most `limit` of the rest.
pub open spec fn page_of<R>(rows: Seq<R>, offset: int, limit: int) -> Seq<R> {
    let start = if offset <= rows.len() {
        offset
    } else {
        rows.len() as int
    };
    let end = if offset + limit <= rows.len() {
        offset + limit
    } else {
        rows.len() as int
    };
    if 0 <= start && start <= end {
        rows.subrange(start, end)
    } else {
        Seq::empty()
    }
}

/// How one more row moves the `LIMIT`/`OFFSET` window: rows before the
/// window leave it alone, rows inside extend it, rows after it leave it
/// alone.
pub proof fn lemma_page_of_push<R>(rows: Seq<R>, x: R, offset: int, limit: int)
    requires
        0 <= offset,
        0 <= limit,
    ensures
        rows.len() < offset ==> page_of(rows.push(x), offset, limit) == page_of(
            rows,
            offset,
            limit,
        ),
        offset <= rows.len() < offset + limit ==> page_of(rows.push(x), offset, limit) == page_of(
            rows,
            offset,
            limit,
        ).push(x),
        offset + limit <= rows.len() ==> page_of(rows.push(x), offset, limit) == page_of(
            rows,
            offset,
            limit,
        ),
{
    let n = rows.len() as int;
    if n < offset {
        assert(page_of(rows.push(x), offset, limit) =~= page_of(rows, offset, limit));
    } else if n < offset + limit {
        assert(page_of(rows.push(x), offset, limit) =~= page_of(rows, offset, limit).push(x));
    } else {
        assert(page_of(rows.push(x), offset, limit) =~= page_of(rows, offset, limit));
    }
}

/// No two rows of `rows` carry the same key.
pub open spec fn distinct_keys<R>(rows: Seq<R>, key: spec_fn(R) -> i32) -> bool {
    forall|i: int, j: int|
        0 <= i < j < rows.len() ==> key(#[trigger] rows[i]) != key(#[trigger] rows[j])
}

/// The values of `pairs` whose key is `key`, in their original order.
/// This is what the grouped-by-parent mapping holds under one parent key.
pub open spec fn values_for<T>(pairs: Seq<(i32, T)>, key: i32) -> Seq<T>
    decreases pairs.len(),
{
    if pairs.len() == 0 {
        Seq::empty()
    } else {
        let rest = values_for(pairs.drop_last(), key);
        if pairs.last().0 == key {
            rest.push(pairs.last().1)
        } else {
            rest
        }
    }
}

/// A found first row satisfies the predicate and comes from the sequence.
pub proof fn lemma_first_where_some<R>(rows: Seq<R>, pred: spec_fn(R) -> bool)
    ensures
        first_where(rows, pred) matches Some(x) ==> pred(x) && rows.contains(x),
    decreases rows.len(),
{
    if rows.len() == 0 {
    } else if pred(rows[0]) {
        assert(rows.contains(rows[0]));
    } else {
        lemma_first_where_some(rows.drop_first(), pred);
        match first_where(rows.drop_first(), pred) {
            Some(x) => {
                let j = choose|j: int|
                    0 <= j < rows.drop_first().len() && rows.drop_first()[j] == x;
                assert(rows[j + 1] == x);
            },
            None => {},
        }
    }
}

/// Filtering keeps only rows of the input that satisfy the predicate, and
/// never grows the sequence.
pub proof fn lemma_rows_where_membership<R>(rows: Seq<R>, pred: spec_fn(R) -> bool)
    ensures
        rows_where(rows, pred).len() <= rows.len(),
        forall|x: R| #[trigger]
            rows_where(rows, pred).contains(x) ==> rows.contains(x) && pred(x),
    decreases rows.len(),
{
    if rows.len() == 0 {
    } else {
        lemma_rows_where_membership(rows.drop_last(), pred);
        assert forall|x: R| #[trigger]
            rows_where(rows, pred).contains(x) implies rows.contains(x) && pred(x) by {
            let filtered = rows_where(rows, pred);
            let rest = rows_where(rows.drop_last(), pred);
            if pred(rows.last()) && x == rows.last() {
                assert(rows[rows.len() - 1] == x);
            } else {
                assert(rest.contains(x));
                let j = choose|j: int| 0 <= j < rows.drop_last().len() && rows.drop_last()[j] == x;
                assert(rows[j] == x);
            }
        }
    }
}

/// Filtering rows with pairwise-distinct keys yields rows with
/// pairwise-distinct keys.
pub proof fn lemma_rows_where_distinct<R>(rows: Seq<R>, pred: spec_fn(R) -> bool, key: spec_fn(R) -> i32)
    requires
        distinct_keys(rows, key),
    ensures
        distinct_keys(rows_where(rows, pred), key),
    decreases rows.len(),
{
    if rows.len() == 0 {
    } else {
        assert(distinct_keys(rows.drop_last(), key));
        lemma_rows_where_distinct(rows.drop_last(), pred, key);
        lemma_rows_where_membership(rows.drop_last(), pred);
        let filtered = rows_where(rows, pred);
        let rest = rows_where(rows.drop_last(), pred);
        if pred(rows.last()) {
            assert forall|i: int, j: int|
                0 <= i < j < filtered.len() implies key(filtered[i]) != key(filtered[j]) by {
                if j == filtered.len() - 1 {
                    assert(rest.contains(rest[i]));
                    let m = choose|m: int|
                        0 <= m < rows.drop_last().len() && rows.drop_last()[m] == rest[i];
                    assert(rows[m] == rest[i]);
                    assert(key(rows[m]) != key(rows[rows.len() - 1]));
                }
            }
        }
    }
}

/// A flat batch-by-id result for a table with pairwise-distinct keys never
/// holds more rows than the id list names: each returned row is matched by
/// a distinct requested id. The filter may be any predicate that admits a
/// row only when the id list contains its key.
pub proof fn lemma_batch_by_ids_bounded<R>(
    rows: Seq<R>,
    ids: Seq<i32>,
    key: spec_fn(R) -> i32,
    pred: spec_fn(R) -> bool,
)
    requires
        distinct_keys(rows, key),
        forall|x: R| #[trigger] pred(x) ==> ids.contains(key(x)),
    ensures
        rows_where(rows, pred).len() <= ids.len(),
{
    broadcast use vstd::seq_lib::seq_to_set_is_finite;
    broadcast use vstd::set::group_set_axioms;

    let filtered = rows_where(rows, pred);
    lemma_rows_where_membership(rows, pred);
    lemma_rows_where_distinct(rows, pred, key);
    let keys = filtered.map_values(key);
    assert(keys.no_duplicates());
    keys.unique_seq_to_set();
    assert forall|k: i32| keys.to_set().contains(k) implies ids.to_set().contains(k) by {
        assert(keys.contains(k));
        let i = choose|i: int| 0 <= i < keys.len() && keys[i] == k;
        assert(filtered.contains(filtered[i]));
        assert(ids.contains(key(filtered[i])));
    }
    assert(keys.to_set().subset_of(ids.to_set()));
    lemma_len_subset(keys.to_set(), ids.to_set());
    ids.lemma_cardinality_of_set();
}

/// Every key of `rows` lies strictly below `bound`.
pub open spec fn keys_below<R>(rows: Seq<R>, key: spec_fn(R) -> i32, bound: i32) -> bool {
    forall|i: int| 0 <= i < rows.len() ==> key(#[trigger] rows[i]) < bound
}

/// Appending a row whose key sits between the old and the new bound keeps
/// the keys pairwise distinct and below the new bound.
pub proof fn lemma_keys_push<R>(rows: Seq<R>, key: spec_fn(R) -> i32, x: R, old_bound: i32, new_bound: i32)
    requires
        distinct_keys(rows, key),
        keys_below(rows, key, old_bound),
        old_bound <= key(x) < new_bound,
    ensures
        distinct_keys(rows.push(x), key),
        keys_below(rows.push(x), key, new_bound),
{
    let rows1 = rows.push(x);
    assert forall|i: int, j: int|
        0 <= i < j < rows1.len() implies key(#[trigger] rows1[i]) != key(#[trigger] rows1[j]) by {
        if j == rows.len() as int {
            assert(rows1[i] == rows[i]);
            assert(key(rows[i]) < old_bound);
        } else {
            assert(rows1[i] == rows[i]);
            assert(rows1[j] == rows[j]);
        }
    }
    assert forall|i: int| 0 <= i < rows1.len() implies key(#[trigger] rows1[i]) < new_bound by {
        if i < rows.len() as int {
            assert(rows1[i] == rows[i]);
            assert(key(rows[i]) < old_bound);
        }
    }
}

/// Filtering by a predicate that no row satisfies yields nothing.
pub proof fn lemma_rows_where_empty<R>(rows: Seq<R>, pred: spec_fn(R) -> bool)
    requires
        forall|i: int| 0 <= i < rows.len() ==> !pred(#[trigger] rows[i]),
    ensures
        rows_where(rows, pred) == Seq::<R>::empty(),
    decreases rows.len(),
{
    if rows.len() == 0 {
    } else {
        lemma_rows_where_empty(rows.drop_last(), pred);
        assert(!pred(rows.last()));
    }
}

/// A property that holds of every row holds of every filtered row.
pub proof fn lemma_rows_where_all<R>(rows: Seq<R>, pred: spec_fn(R) -> bool, prop: spec_fn(R) -> bool)
    requires
        forall|i: int| 0 <= i < rows.len() ==> prop(#[trigger] rows[i]),
    ensures
        forall|i: int| 0 <= i < rows_where(rows, pred).len()
            ==> prop(#[trigger] rows_where(rows, pred)[i]),
{
    let filtered = rows_where(rows, pred);
    lemma_rows_where_membership(rows, pred);
    assert forall|i: int| 0 <= i < filtered.len() implies prop(#[trigger] filtered[i]) by {
        assert(filtered.contains(filtered[i]));
        assert(rows.contains(filtered[i]));
        let j = choose|j: int| 0 <= j < rows.len() && rows[j] == filtered[i];
        assert(prop(rows[j]));
    }
}

/// A key appears in the grouped result exactly when some pair carries it.
pub open spec fn groups_complete<T>(pairs: Seq<(i32, T)>, groups: Seq<(i32, Vec<T>)>) -> bool {
    forall|k: i32| (#[trigger] values_for(pairs, k)).len() > 0
        <==> exists|i: int| 0 <= i < groups.len() && (#[trigger] groups[i]).0 == k
}

/// The grouped-by-parent shape: every key appears once, each group holds
/// exactly the values carried under its key in their original order, no
/// group is empty, and a key is present exactly when a pair carries it.
pub open spec fn grouped<T>(pairs: Seq<(i32, T)>, groups: Seq<(i32, Vec<T>)>) -> bool {
    &&& distinct_keys(groups, (|g: (i32, Vec<T>)| g.0))
    &&& forall|i: int| 0 <= i < groups.len()
        ==> (#[trigger] groups[i]).1@ == values_for(pairs, groups[i].0) && groups[i].1@.len() > 0
    &&& groups_complete(pairs, groups)
}

/// Whether the id list `ids` names `x`.
pub fn contains_id(ids: &Vec<i32>, x: i32) -> (b: bool)
    ensures
        b == ids@.contains(x),
{
    let mut i: usize = 0;
    let mut found = false;
    while i < ids.len()
        invariant
            0 <= i <= ids@.len(),
            found ==> ids@.contains(x),
            !found ==> forall|j: int| 0 <= j < i ==> ids@[j] != x,
        decreases ids@.len() - i,
    {
        if ids[i] == x {
            found = true;
        }
        i += 1;
    }
    found
}

/// Fold a flat list of `(parent key, value)` pairs into the grouped
/// mapping: one entry per key that occurs, carrying the values under that
/// key in their original order. A parent with no pair is absent, never
/// present with an empty group.
pub fn group_pairs<T>(pairs: Vec<(i32, T)>) -> (groups: Vec<(i32, Vec<T>)>)
    ensures
        grouped(pairs@, groups@),
{
    let ghost all_pairs = pairs@;
    let mut pairs = pairs;
    let mut groups: Vec<(i32, Vec<T>)> = Vec::new();
    let ghost done: int = 0;
    while pairs.len() > 0
        invariant
            0 <= done <= all_pairs.len(),
            pairs@ == all_pairs.subrange(done, all_pairs.len() as int),
            grouped(all_pairs.subrange(0, done), groups@),
        decreases pairs.len(),
    {
        let ghost prefix = all_pairs.subrange(0, done);
        let ghost next_prefix = all_pairs.subrange(0, done + 1);
        let (k, v) = pairs.remove(0);
        proof {
            assert(all_pairs[done] == (k, v));
            assert(next_prefix.drop_last() =~= prefix);
            assert(next_prefix.last() == (k, v));
            assert(next_prefix =~= prefix.push((k, v)));
            assert(pairs@ =~= all_pairs.subrange(done + 1, all_pairs.len() as int));
            lemma_values_for_push(prefix, k, v);
        }
        let mut found: Option<usize> = None;
        let mut i: usize = 0;
        while i < groups.len()
            invariant
                0 <= i <= groups@.len(),
                found is None ==> forall|j: int| 0 <= j < i ==> (#[trigger] groups@[j]).0 != k,
                found matches Some(f) ==> f < groups@.len() && groups@[f as int].0 == k,
            decreases groups.len() - i,
        {
            if found.is_none() && groups[i].0 == k {
                found = Some(i);
            }
            i += 1;
        }
        let ghost gs0 = groups@;
        match found {
            Some(f) => {
                let mut entry = groups.remove(f);
                entry.1.push(v);
                groups.insert(f, entry);
                proof {
                    assert(groups@.len() == gs0.len());
                    assert(groups@[f as int].0 == k);
                    assert(groups@[f as int].1@ == gs0[f as int].1@.push(v));
                    assert(forall|i: int|
                        0 <= i < gs0.len() && i != f ==> #[trigger] groups@[i] == gs0[i]);
                    lemma_group_step_existing(prefix, gs0, groups@, f as int, k, v);
                    assert(grouped(next_prefix, groups@));
                }
            },
            None => {
                let mut single: Vec<T> = Vec::new();
                single.push(v);
                groups.push((k, single));
                proof {
                    assert(groups@.len() == gs0.len() + 1);
                    assert(groups@[gs0.len() as int].0 == k);
                    assert(groups@[gs0.len() as int].1@ == Seq::empty().push(v));
                    assert(forall|i: int| 0 <= i < gs0.len() ==> #[trigger] groups@[i] == gs0[i]);
                    lemma_group_step_new(prefix, gs0, groups@, k, v);
                    assert(grouped(next_prefix, groups@));
                }
            },
        }
        proof {
            done = done + 1;
        }
    }
    proof {
        assert(all_pairs.subrange(0, all_pairs.len() as int) =~= all_pairs);
    }
    groups
}

/// One grouping step where the key already has an entry at index `f`: the
/// entry's values grow by `v` and the grouped shape is kept for the prefix
/// extended by the pair `(k, v)`.
proof fn lemma_group_step_existing<T>(
    prefix: Seq<(i32, T)>,
    gs0: Seq<(i32, Vec<T>)>,
    gs1: Seq<(i32, Vec<T>)>,
    f: int,
    k: i32,
    v: T,
)
    requires
        grouped(prefix, gs0),
        0 <= f < gs0.len(),
        gs0[f].0 == k,
        gs1.len() == gs0.len(),
        gs1[f].0 == k,
        gs1[f].1@ == gs0[f].1@.push(v),
        forall|i: int| 0 <= i < gs0.len() && i != f ==> #[trigger] gs1[i] == gs0[i],
    ensures
        grouped(prefix.push((k, v)), gs1),
{
    lemma_values_for_push(prefix, k, v);
    let next = prefix.push((k, v));
    assert forall|i: int| 0 <= i < gs1.len()
        implies (#[trigger] gs1[i]).1@ == values_for(next, gs1[i].0) && gs1[i].1@.len() > 0 by {
        if i == f {
            assert(values_for(next, k) == values_for(prefix, k).push(v));
        } else {
            assert(gs1[i] == gs0[i]);
            assert(gs0[i].0 != k);
        }
    }
    assert forall|k2: i32| (#[trigger] values_for(next, k2)).len() > 0
        implies exists|i: int| 0 <= i < gs1.len() && (#[trigger] gs1[i]).0 == k2 by {
        if k2 == k {
            assert(gs1[f].0 == k2);
        } else {
            assert(values_for(prefix, k2).len() > 0);
            let i = choose|i: int| 0 <= i < gs0.len() && (#[trigger] gs0[i]).0 == k2;
            assert(gs1[i].0 == k2);
        }
    }
    assert forall|k2: i32|
        (exists|i: int| 0 <= i < gs1.len() && (#[trigger] gs1[i]).0 == k2)
        implies (#[trigger] values_for(next, k2)).len() > 0 by {
        let i = choose|i: int| 0 <= i < gs1.len() && (#[trigger] gs1[i]).0 == k2;
        assert(gs1[i].1@.len() > 0);
    }
}

/// One grouping step where the key is new: a one-value entry is appended
/// and the grouped shape is kept for the prefix extended by `(k, v)`.
proof fn lemma_group_step_new<T>(
    prefix: Seq<(i32, T)>,
    gs0: Seq<(i32, Vec<T>)>,
    gs1: Seq<(i32, Vec<T>)>,
    k: i32,
    v: T,
)
    requires
        grouped(prefix, gs0),
        forall|j: int| 0 <= j < gs0.len() ==> (#[trigger] gs0[j]).0 != k,
        gs1.len() == gs0.len() + 1,
        gs1[gs0.len() as int].0 == k,
        gs1[gs0.len() as int].1@ == Seq::empty().push(v),
        forall|i: int| 0 <= i < gs0.len() ==> #[trigger] gs1[i] == gs0[i],
    ensures
        grouped(prefix.push((k, v)), gs1),
{
    lemma_values_for_push(prefix, k, v);
    let next = prefix.push((k, v));
    let n = gs0.len() as int;
    assert(values_for(prefix, k).len() == 0) by {
        if values_for(prefix, k).len() > 0 {
            assert(exists|i: int| 0 <= i < gs0.len() && (#[trigger] gs0[i]).0 == k);
            let i = choose|i: int| 0 <= i < gs0.len() && (#[trigger] gs0[i]).0 == k;
            assert(gs0[i].0 == k);
            assert(false);
        }
    }
    assert(values_for(next, k) == values_for(prefix, k).push(v));
    assert(values_for(next, k) =~= Seq::empty().push(v));
    assert forall|i: int| 0 <= i < gs1.len()
        implies (#[trigger] gs1[i]).1@ == values_for(next, gs1[i].0) && gs1[i].1@.len() > 0 by {
        if i < n {
            assert(gs1[i] == gs0[i]);
            assert(gs0[i].0 != k);
        }
    }
    assert forall|k2: i32| (#[trigger] values_for(next, k2)).len() > 0
        implies exists|i: int| 0 <= i < gs1.len() && (#[trigger] gs1[i]).0 == k2 by {
        if k2 == k {
            assert(gs1[n].0 == k2);
        } else {
            assert(values_for(prefix, k2).len() > 0);
            let i = choose|i: int| 0 <= i < gs0.len() && (#[trigger] gs0[i]).0 == k2;
            assert(gs1[i].0 == k2);
        }
    }
    assert forall|k2: i32|
        (exists|i: int| 0 <= i < gs1.len() && (#[trigger] gs1[i]).0 == k2)
        implies (#[trigger] values_for(next, k2)).len() > 0 by {
        let i = choose|i: int| 0 <= i < gs1.len() && (#[trigger] gs1[i]).0 == k2;
        assert(gs1[i].1@.len() > 0);
    }
}

/// Appending one pair extends the values under its key by its value and
/// leaves every other key's values unchanged.
proof fn lemma_values_for_push<T>(pairs: Seq<(i32, T)>, k: i32, v: T)
    ensures
        values_for(pairs.push((k, v)), k) == values_for(pairs, k).push(v),
        forall|k2: i32| k2 != k
            ==> #[trigger] values_for(pairs.push((k, v)), k2) == values_for(pairs, k2),
{
    assert(pairs.push((k, v)).drop_last() =~= pairs);
    assert(pairs.push((k, v)).last() == (k, v));
}

} // verus!
