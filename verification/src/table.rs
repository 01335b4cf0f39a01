//! Rows with keys as maps: what holds of a list of keyed rows when rows are added, replaced, removed or
//! changed.
use vstd::prelude::*;

verus! {

/// The rows as a map: of two rows with one key the later one counts.
pub open spec fn rows_map<K, V>(rows: Seq<(K, V)>) -> Map<K, V>
    decreases rows.len(),
{
    if rows.len() == 0 {
        Map::empty()
    } else {
        rows_map(rows.drop_last()).insert(rows.last().0, rows.last().1)
    }
}

/// No key occurs twice.
pub open spec fn distinct_rows<K, V>(rows: Seq<(K, V)>) -> bool {
    forall|i: int, j: int|
        0 <= i < j < rows.len() ==> (#[trigger] rows[i]).0 != (#[trigger] rows[j]).0
}

/// A row with a key that occurs once gives the key's value.
pub proof fn lemma_row_at<K, V>(rows: Seq<(K, V)>, i: int)
    requires
        0 <= i < rows.len(),
        distinct_rows(rows),
    ensures
        rows_map(rows).contains_key(rows[i].0),
        rows_map(rows)[rows[i].0] == rows[i].1,
    decreases rows.len(),
{
    if i < rows.len() - 1 {
        let rest = rows.drop_last();
        lemma_drop_distinct(rows);
        lemma_row_at(rest, i);
        assert(rest[i] == rows[i]);
        assert(rows[rows.len() - 1].0 != rows[i].0);
    }
}

proof fn lemma_drop_distinct<K, V>(rows: Seq<(K, V)>)
    requires
        rows.len() > 0,
        distinct_rows(rows),
    ensures
        distinct_rows(rows.drop_last()),
{
    let rest = rows.drop_last();
    assert forall|i: int, j: int| 0 <= i < j < rest.len() implies (#[trigger] rest[i]).0 != (
    #[trigger] rest[j]).0 by {
        assert(rows[i].0 != rows[j].0);
    }
}

/// A key is in the map exactly when a row has it.
pub proof fn lemma_row_key<K, V>(rows: Seq<(K, V)>, key: K)
    ensures
        rows_map(rows).contains_key(key) <==> exists|i: int|
            0 <= i < rows.len() && (#[trigger] rows[i]).0 == key,
    decreases rows.len(),
{
    if rows.len() > 0 {
        let rest = rows.drop_last();
        lemma_row_key(rest, key);
        if rows_map(rows).contains_key(key) {
            if rows.last().0 == key {
                assert(rows[rows.len() - 1].0 == key);
            } else {
                let i = choose|i: int| 0 <= i < rest.len() && (#[trigger] rest[i]).0 == key;
                assert(rows[i].0 == key);
            }
        }
        if exists|i: int| 0 <= i < rows.len() && (#[trigger] rows[i]).0 == key {
            let i = choose|i: int| 0 <= i < rows.len() && (#[trigger] rows[i]).0 == key;
            if i < rest.len() {
                assert(rest[i].0 == key);
            }
        }
    }
}

/// A key that no row has is not in the map.
pub proof fn lemma_row_absent<K, V>(rows: Seq<(K, V)>, key: K)
    requires
        forall|j: int| 0 <= j < rows.len() ==> (#[trigger] rows[j]).0 != key,
    ensures
        !rows_map(rows).contains_key(key),
{
    lemma_row_key(rows, key);
}

/// A row at the end inserts its value.
pub proof fn lemma_row_push<K, V>(rows: Seq<(K, V)>, row: (K, V))
    ensures
        rows_map(rows.push(row)) == rows_map(rows).insert(row.0, row.1),
        distinct_rows(rows) && !rows_map(rows).contains_key(row.0) ==> distinct_rows(rows.push(row)),
{
    assert(rows.push(row).drop_last() =~= rows);
    if distinct_rows(rows) && !rows_map(rows).contains_key(row.0) {
        let all = rows.push(row);
        assert forall|i: int, j: int| 0 <= i < j < all.len() implies (#[trigger] all[i]).0 != (
        #[trigger] all[j]).0 by {
            if j == rows.len() {
                lemma_row_key(rows, row.0);
                assert(rows[i].0 != row.0);
            } else {
                assert(rows[i].0 != rows[j].0);
            }
        }
    }
}

/// Two lists of distinct rows with the same keys and values are the same map.
pub proof fn lemma_rows_equal<K, V>(rows: Seq<(K, V)>, map: Map<K, V>)
    requires
        distinct_rows(rows),
        forall|i: int|
            0 <= i < rows.len() ==> map.contains_key((#[trigger] rows[i]).0) && map[rows[i].0]
                == rows[i].1,
        forall|k: K| #[trigger]
            map.contains_key(k) ==> exists|i: int|
                0 <= i < rows.len() && (#[trigger] rows[i]).0 == k,
    ensures
        rows_map(rows) == map,
{
    assert forall|k: K| rows_map(rows).contains_key(k) <==> map.contains_key(k) by {
        lemma_row_key(rows, k);
    }
    assert forall|k: K| rows_map(rows).contains_key(k) implies rows_map(rows)[k] == map[k] by {
        lemma_row_key(rows, k);
        let i = choose|i: int| 0 <= i < rows.len() && (#[trigger] rows[i]).0 == k;
        lemma_row_at(rows, i);
    }
    assert(rows_map(rows) =~= map);
}

/// Replacing the value of a row inserts it.
pub proof fn lemma_row_update<K, V>(rows: Seq<(K, V)>, i: int, value: V)
    requires
        0 <= i < rows.len(),
        distinct_rows(rows),
    ensures
        rows_map(rows.update(i, (rows[i].0, value))) == rows_map(rows).insert(rows[i].0, value),
        distinct_rows(rows.update(i, (rows[i].0, value))),
{
    let updated = rows.update(i, (rows[i].0, value));
    let map = rows_map(rows).insert(rows[i].0, value);
    assert forall|a: int, b: int| 0 <= a < b < updated.len() implies (#[trigger] updated[a]).0 != (
    #[trigger] updated[b]).0 by {
        assert(rows[a].0 != rows[b].0);
    }
    assert forall|j: int| 0 <= j < updated.len() implies map.contains_key((#[trigger] updated[j]).0)
        && map[updated[j].0] == updated[j].1 by {
        lemma_row_at(rows, j);
        if j != i {
            if j < i {
                assert(rows[j].0 != rows[i].0);
            } else {
                assert(rows[i].0 != rows[j].0);
            }
        }
    }
    assert forall|k: K| #[trigger] map.contains_key(k) implies exists|j: int|
        0 <= j < updated.len() && (#[trigger] updated[j]).0 == k by {
        lemma_row_at(rows, i);
        lemma_row_key(rows, k);
        let j = choose|j: int| 0 <= j < rows.len() && (#[trigger] rows[j]).0 == k;
        assert(updated[j].0 == k);
    }
    lemma_rows_equal(updated, map);
}

/// Removing a row removes its key.
pub proof fn lemma_row_remove<K, V>(rows: Seq<(K, V)>, i: int)
    requires
        0 <= i < rows.len(),
        distinct_rows(rows),
    ensures
        rows_map(rows.remove(i)) == rows_map(rows).remove(rows[i].0),
        distinct_rows(rows.remove(i)),
{
    let rest = rows.remove(i);
    let map = rows_map(rows).remove(rows[i].0);
    assert forall|a: int, b: int| 0 <= a < b < rest.len() implies (#[trigger] rest[a]).0 != (
    #[trigger] rest[b]).0 by {
        let x = if a < i {
            a
        } else {
            a + 1
        };
        let y = if b < i {
            b
        } else {
            b + 1
        };
        assert(rows[x].0 != rows[y].0);
    }
    assert forall|j: int| 0 <= j < rest.len() implies map.contains_key((#[trigger] rest[j]).0)
        && map[rest[j].0] == rest[j].1 by {
        let x = if j < i {
            j
        } else {
            j + 1
        };
        lemma_row_at(rows, x);
        if x < i {
            assert(rows[x].0 != rows[i].0);
        } else {
            assert(rows[i].0 != rows[x].0);
        }
    }
    assert forall|k: K| #[trigger] map.contains_key(k) implies exists|j: int|
        0 <= j < rest.len() && (#[trigger] rest[j]).0 == k by {
        lemma_row_key(rows, k);
        let x = choose|j: int| 0 <= j < rows.len() && (#[trigger] rows[j]).0 == k;
        let j = if x < i {
            x
        } else {
            x - 1
        };
        assert(rest[j].0 == k);
    }
    lemma_rows_equal(rest, map);
}

/// The rows that satisfy a predicate, in order.
pub open spec fn rows_kept<K, V>(rows: Seq<(K, V)>, keep: spec_fn(K, V) -> bool) -> Seq<(K, V)>
    decreases rows.len(),
{
    if rows.len() == 0 {
        Seq::empty()
    } else {
        let before = rows_kept(rows.drop_last(), keep);
        if keep(rows.last().0, rows.last().1) {
            before.push(rows.last())
        } else {
            before
        }
    }
}

/// The entries of a map that satisfy a predicate.
pub open spec fn map_kept<K, V>(map: Map<K, V>, keep: spec_fn(K, V) -> bool) -> Map<K, V> {
    Map::new(|k: K| map.contains_key(k) && keep(k, map[k]), |k: K| map[k])
}

/// Keeping rows keeps the entries.
pub proof fn lemma_rows_kept<K, V>(rows: Seq<(K, V)>, keep: spec_fn(K, V) -> bool)
    requires
        distinct_rows(rows),
    ensures
        rows_map(rows_kept(rows, keep)) == map_kept(rows_map(rows), keep),
        distinct_rows(rows_kept(rows, keep)),
    decreases rows.len(),
{
    if rows.len() == 0 {
        assert(rows_map(rows_kept(rows, keep)) =~= map_kept(rows_map(rows), keep));
    } else {
        let rest = rows.drop_last();
        let last = rows.last();
        lemma_drop_distinct(rows);
        lemma_rows_kept(rest, keep);
        assert(!rows_map(rest).contains_key(last.0)) by {
            assert forall|j: int| 0 <= j < rest.len() implies (#[trigger] rest[j]).0 != last.0 by {
                assert(rows[j].0 != rows[rows.len() - 1].0);
            }
            lemma_row_absent(rest, last.0);
        }
        if keep(last.0, last.1) {
            lemma_row_push(rows_kept(rest, keep), last);
        }
        assert(rows_map(rows_kept(rows, keep)) =~= map_kept(rows_map(rows), keep));
    }
}

/// Changing the values of rows one by one changes the values of the map.
pub proof fn lemma_rows_changed<K, V>(
    rows: Seq<(K, V)>,
    changed: Seq<(K, V)>,
    change: spec_fn(V) -> V,
)
    requires
        distinct_rows(rows),
        changed.len() == rows.len(),
        forall|i: int|
            0 <= i < rows.len() ==> (#[trigger] changed[i]).0 == rows[i].0 && changed[i].1
                == change(rows[i].1),
    ensures
        rows_map(changed) == rows_map(rows).map_values(change),
        distinct_rows(changed),
{
    let map = rows_map(rows).map_values(change);
    assert forall|a: int, b: int| 0 <= a < b < changed.len() implies (#[trigger] changed[a]).0 != (
    #[trigger] changed[b]).0 by {
        assert(rows[a].0 != rows[b].0);
    }
    assert forall|i: int| 0 <= i < changed.len() implies map.contains_key((#[trigger] changed[i]).0)
        && map[changed[i].0] == changed[i].1 by {
        lemma_row_at(rows, i);
    }
    assert forall|k: K| #[trigger] map.contains_key(k) implies exists|i: int|
        0 <= i < changed.len() && (#[trigger] changed[i]).0 == k by {
        lemma_row_key(rows, k);
        let i = choose|i: int| 0 <= i < rows.len() && (#[trigger] rows[i]).0 == k;
        assert(changed[i].0 == k);
    }
    lemma_rows_equal(changed, map);
}

} // verus!
