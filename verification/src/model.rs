//! The abstract map denoted by a sequence of records, and how sorted record
//! sequences relate to it.

use crate::codec::{SpecRow, sorted_rows};
use crate::order::{lemma_lex_asymmetric, lemma_lex_irreflexive, lex_lt};
use vstd::prelude::*;

verus! {

/// The mapping that a record sequence denotes; a later record overrides an
/// earlier one with the same identifier.
pub open spec fn rows_map(rows: Seq<SpecRow>) -> Map<Seq<char>, Seq<char>>
    decreases rows.len(),
{
    if rows.len() == 0 {
        Map::empty()
    } else {
        rows_map(rows.drop_last()).insert(rows.last().0, rows.last().1)
    }
}

/// Every record's identifier is in the map.
pub proof fn lemma_rows_map_contains_at(rows: Seq<SpecRow>, i: int)
    requires
        0 <= i < rows.len(),
    ensures
        rows_map(rows).contains_key(rows[i].0),
    decreases rows.len(),
{
    if i < rows.len() - 1 {
        lemma_rows_map_contains_at(rows.drop_last(), i);
        assert(rows.drop_last()[i] == rows[i]);
    }
}

/// Every identifier in the map is carried by some record.
pub proof fn lemma_rows_map_key_has_index(rows: Seq<SpecRow>, k: Seq<char>)
    requires
        rows_map(rows).contains_key(k),
    ensures
        exists|i: int| 0 <= i < rows.len() && (#[trigger] rows[i]).0 == k,
    decreases rows.len(),
{
    if rows.len() > 0 {
        if rows.last().0 == k {
            assert(rows[rows.len() - 1].0 == k);
        } else {
            lemma_rows_map_key_has_index(rows.drop_last(), k);
            let i = choose|i: int|
                0 <= i < rows.drop_last().len() && (#[trigger] rows.drop_last()[i]).0 == k;
            assert(rows[i].0 == k);
        }
    }
}

/// In a sorted record sequence, each record's identifier maps to exactly its
/// value.
pub proof fn lemma_rows_map_at(rows: Seq<SpecRow>, i: int)
    requires
        sorted_rows(rows),
        0 <= i < rows.len(),
    ensures
        rows_map(rows)[rows[i].0] == rows[i].1,
    decreases rows.len(),
{
    if i == rows.len() - 1 {
    } else {
        assert(lex_lt(rows[i].0, rows.last().0));
        lemma_lex_asymmetric(rows[i].0, rows.last().0);
        assert(sorted_rows(rows.drop_last())) by {
            lemma_sorted_drop_last(rows);
        }
        lemma_rows_map_at(rows.drop_last(), i);
        assert(rows.drop_last()[i] == rows[i]);
    }
}

/// Dropping the final record keeps the sequence sorted.
pub proof fn lemma_sorted_drop_last(rows: Seq<SpecRow>)
    requires
        sorted_rows(rows),
        rows.len() > 0,
    ensures
        sorted_rows(rows.drop_last()),
{
    assert forall|i: int, j: int| 0 <= i < j < rows.drop_last().len() implies lex_lt(
        #[trigger] rows.drop_last()[i].0,
        #[trigger] rows.drop_last()[j].0,
    ) by {
        assert(rows.drop_last()[i] == rows[i]);
        assert(rows.drop_last()[j] == rows[j]);
    }
}

/// In a sorted sequence, the final record's identifier is the greatest
/// identifier in the map.
pub proof fn lemma_rows_map_greatest(rows: Seq<SpecRow>)
    requires
        sorted_rows(rows),
        rows.len() > 0,
    ensures
        forall|k: Seq<char>|
            rows_map(rows).contains_key(k) ==> k == rows.last().0 || lex_lt(k, rows.last().0),
{
    assert forall|k: Seq<char>| rows_map(rows).contains_key(k) implies k == rows.last().0
        || lex_lt(k, rows.last().0) by {
        lemma_rows_map_key_has_index(rows, k);
        let i = choose|i: int| 0 <= i < rows.len() && (#[trigger] rows[i]).0 == k;
        if i < rows.len() - 1 {
            assert(lex_lt(rows[i].0, rows[rows.len() - 1].0));
        }
    }
}

/// The final record's identifier does not occur earlier in a sorted
/// sequence, so removing it from the map gives the map of the other records.
pub proof fn lemma_rows_map_drop_last(rows: Seq<SpecRow>)
    requires
        sorted_rows(rows),
        rows.len() > 0,
    ensures
        !rows_map(rows.drop_last()).contains_key(rows.last().0),
        rows_map(rows.drop_last()) == rows_map(rows).remove(rows.last().0),
{
    if rows_map(rows.drop_last()).contains_key(rows.last().0) {
        lemma_rows_map_key_has_index(rows.drop_last(), rows.last().0);
        let i = choose|i: int|
            0 <= i < rows.drop_last().len() && (#[trigger] rows.drop_last()[i]).0 == rows.last().0;
        assert(rows.drop_last()[i] == rows[i]);
        assert(lex_lt(rows[i].0, rows.last().0));
        lemma_lex_irreflexive(rows.last().0);
    }
    assert(rows_map(rows.drop_last()) =~= rows_map(rows).remove(rows.last().0));
}

/// Inserting a record between the identifiers below it and those above it
/// inserts its pair into the map.
pub proof fn lemma_rows_map_insert(rows: Seq<SpecRow>, i: int, row: SpecRow)
    requires
        0 <= i <= rows.len(),
        forall|k: int| 0 <= k < i ==> lex_lt((#[trigger] rows[k]).0, row.0),
        forall|k: int| i <= k < rows.len() ==> lex_lt(row.0, (#[trigger] rows[k]).0),
    ensures
        rows_map(rows.insert(i, row)) == rows_map(rows).insert(row.0, row.1),
    decreases rows.len(),
{
    let s = rows.insert(i, row);
    if i == rows.len() {
        assert(s.drop_last() =~= rows);
        assert(s.last() == row);
    } else {
        assert(s.last() == rows.last());
        assert(s.drop_last() =~= rows.drop_last().insert(i, row));
        assert forall|k: int| 0 <= k < i implies lex_lt(
            (#[trigger] rows.drop_last()[k]).0,
            row.0,
        ) by {
            assert(rows.drop_last()[k] == rows[k]);
        }
        assert forall|k: int| i <= k < rows.drop_last().len() implies lex_lt(
            row.0,
            (#[trigger] rows.drop_last()[k]).0,
        ) by {
            assert(rows.drop_last()[k] == rows[k]);
        }
        lemma_rows_map_insert(rows.drop_last(), i, row);
        assert(lex_lt(row.0, rows.last().0)) by {
            assert(rows[rows.len() - 1] == rows.last());
        }
        lemma_lex_asymmetric(row.0, rows.last().0);
        assert(rows_map(rows.drop_last()).insert(row.0, row.1).insert(
            rows.last().0,
            rows.last().1,
        ) =~= rows_map(rows.drop_last()).insert(rows.last().0, rows.last().1).insert(
            row.0,
            row.1,
        ));
    }
}

/// A record sequence sorted around an insertion point stays sorted when the
/// record is inserted there.
pub proof fn lemma_sorted_insert(rows: Seq<SpecRow>, i: int, row: SpecRow)
    requires
        sorted_rows(rows),
        0 <= i <= rows.len(),
        forall|k: int| 0 <= k < i ==> lex_lt((#[trigger] rows[k]).0, row.0),
        forall|k: int| i <= k < rows.len() ==> lex_lt(row.0, (#[trigger] rows[k]).0),
    ensures
        sorted_rows(rows.insert(i, row)),
{
    let s = rows.insert(i, row);
    assert forall|a: int, b: int| 0 <= a < b < s.len() implies lex_lt(
        (#[trigger] s[a]).0,
        (#[trigger] s[b]).0,
    ) by {
        if a < i {
            assert(s[a] == rows[a]);
        }
        if b < i {
            assert(s[b] == rows[b]);
        }
        if a > i {
            assert(s[a] == rows[a - 1]);
        }
        if b > i {
            assert(s[b] == rows[b - 1]);
        }
    }
}

/// Removing a record from a sorted sequence removes its identifier from the
/// map.
pub proof fn lemma_rows_map_remove(rows: Seq<SpecRow>, i: int)
    requires
        sorted_rows(rows),
        0 <= i < rows.len(),
    ensures
        rows_map(rows.remove(i)) == rows_map(rows).remove(rows[i].0),
    decreases rows.len(),
{
    if i == rows.len() - 1 {
        assert(rows.remove(i) =~= rows.drop_last());
        lemma_rows_map_drop_last(rows);
    } else {
        let s = rows.remove(i);
        assert(s.last() == rows.last()) by {
            assert(s[s.len() - 1] == rows[rows.len() - 1]);
        }
        assert(s.drop_last() =~= rows.drop_last().remove(i));
        lemma_sorted_drop_last(rows);
        assert(rows.drop_last()[i] == rows[i]);
        lemma_rows_map_remove(rows.drop_last(), i);
        assert(lex_lt(rows[i].0, rows.last().0)) by {
            assert(rows[rows.len() - 1] == rows.last());
        }
        lemma_lex_asymmetric(rows[i].0, rows.last().0);
        assert(rows_map(rows.drop_last()).remove(rows[i].0).insert(
            rows.last().0,
            rows.last().1,
        ) =~= rows_map(rows.drop_last()).insert(rows.last().0, rows.last().1).remove(rows[i].0));
    }
}

/// A sorted sequence stays sorted when a record is removed.
pub proof fn lemma_sorted_remove(rows: Seq<SpecRow>, i: int)
    requires
        sorted_rows(rows),
        0 <= i < rows.len(),
    ensures
        sorted_rows(rows.remove(i)),
{
    let s = rows.remove(i);
    assert forall|a: int, b: int| 0 <= a < b < s.len() implies lex_lt(
        (#[trigger] s[a]).0,
        (#[trigger] s[b]).0,
    ) by {
        if a < i {
            assert(s[a] == rows[a]);
        } else {
            assert(s[a] == rows[a + 1]);
        }
        if b < i {
            assert(s[b] == rows[b]);
        } else {
            assert(s[b] == rows[b + 1]);
        }
    }
}

/// A sorted record sequence is determined by its map: two sorted sequences
/// denoting the same map are the same sequence.
pub proof fn lemma_sorted_rows_unique(a: Seq<SpecRow>, b: Seq<SpecRow>)
    requires
        sorted_rows(a),
        sorted_rows(b),
        rows_map(a) == rows_map(b),
    ensures
        a == b,
    decreases a.len(),
{
    if a.len() == 0 {
        if b.len() > 0 {
            lemma_rows_map_contains_at(b, b.len() - 1);
        }
        assert(a =~= b);
    } else if b.len() == 0 {
        lemma_rows_map_contains_at(a, a.len() - 1);
    } else {
        // The greatest identifiers agree, so the final records agree.
        lemma_rows_map_contains_at(a, a.len() - 1);
        lemma_rows_map_contains_at(b, b.len() - 1);
        lemma_rows_map_greatest(a);
        lemma_rows_map_greatest(b);
        if lex_lt(a.last().0, b.last().0) {
            lemma_lex_asymmetric(a.last().0, b.last().0);
        }
        assert(a.last().0 == b.last().0);
        assert(a.last().1 == b.last().1) by {
            lemma_rows_map_at(a, a.len() - 1);
            lemma_rows_map_at(b, b.len() - 1);
        }
        lemma_rows_map_drop_last(a);
        lemma_rows_map_drop_last(b);
        lemma_sorted_drop_last(a);
        lemma_sorted_drop_last(b);
        lemma_sorted_rows_unique(a.drop_last(), b.drop_last());
        assert(a.len() == b.len()) by {
            assert(a.drop_last().len() == b.drop_last().len());
        }
        assert forall|i: int| 0 <= i < a.len() implies a[i] == b[i] by {
            if i < a.len() - 1 {
                assert(a.drop_last()[i] == b.drop_last()[i]);
            } else {
                assert(a[i] == a.last());
                assert(b[i] == b.last());
                assert(a.last().0 == b.last().0 && a.last().1 == b.last().1);
            }
        }
        assert(a =~= b);
    }
}

} // verus!
