//! The canonical flat-text encoding of the record store and its parser.
//!
//! A store is encoded as one line per record, each line
//! `identifier<TAB>value<NEWLINE>`, records ordered lexicographically by
//! identifier. The delimiter and the line separator are reserved: they may
//! appear in neither identifiers nor values, and identifiers are non-empty.

use crate::order::lex_lt;
use vstd::prelude::*;

verus! {

/// A record: an identifier and its value, as character sequences.
pub type SpecRow = (Seq<char>, Seq<char>);

/// A well-formed identifier: non-empty, and free of the delimiter and the
/// line separator.
pub open spec fn wf_id(s: Seq<char>) -> bool {
    &&& s.len() > 0
    &&& forall|i: int| 0 <= i < s.len() ==> #[trigger] s[i] != '\t' && s[i] != '\n'
}

/// A well-formed value: free of the delimiter and the line separator.
pub open spec fn wf_value(s: Seq<char>) -> bool {
    forall|i: int| 0 <= i < s.len() ==> #[trigger] s[i] != '\t' && s[i] != '\n'
}

/// A well-formed record.
pub open spec fn wf_row(row: SpecRow) -> bool {
    wf_id(row.0) && wf_value(row.1)
}

/// All records are well-formed.
pub open spec fn wf_rows(rows: Seq<SpecRow>) -> bool {
    forall|i: int| 0 <= i < rows.len() ==> wf_row(#[trigger] rows[i])
}

/// Identifiers are in strictly increasing lexicographic order (so they are
/// unique).
pub open spec fn sorted_rows(rows: Seq<SpecRow>) -> bool {
    forall|i: int, j: int|
        0 <= i < j < rows.len() ==> lex_lt(#[trigger] rows[i].0, #[trigger] rows[j].0)
}

/// One record line: `identifier<TAB>value<NEWLINE>`.
pub open spec fn row_text(row: SpecRow) -> Seq<char> {
    row.0 + seq!['\t'] + row.1 + seq!['\n']
}

/// The canonical text of a sequence of records: one line per record.
pub open spec fn rows_text(rows: Seq<SpecRow>) -> Seq<char>
    decreases rows.len(),
{
    if rows.len() == 0 {
        Seq::empty()
    } else {
        row_text(rows[0]) + rows_text(rows.drop_first())
    }
}

/// The canonical byte encoding: the UTF-8 bytes of the canonical text.
pub open spec fn rows_bytes(rows: Seq<SpecRow>) -> Seq<u8> {
    vstd::utf8::encode_utf8(rows_text(rows))
}

/// Appending a record extends the canonical text by that record's line.
pub proof fn lemma_rows_text_push(rows: Seq<SpecRow>, row: SpecRow)
    ensures
        rows_text(rows.push(row)) == rows_text(rows) + row_text(row),
    decreases rows.len(),
{
    if rows.len() == 0 {
        assert(rows.push(row).drop_first() =~= Seq::<SpecRow>::empty());
        assert(row_text(row) + rows_text(Seq::<SpecRow>::empty()) =~= row_text(row));
        assert(rows_text(rows) + row_text(row) =~= row_text(row));
    } else {
        assert(rows.push(row).drop_first() =~= rows.drop_first().push(row));
        lemma_rows_text_push(rows.drop_first(), row);
        assert(row_text(rows[0]) + (rows_text(rows.drop_first()) + row_text(row)) =~= (row_text(
            rows[0],
        ) + rows_text(rows.drop_first())) + row_text(row));
    }
}

/// Index of the first occurrence of `c` in `s`, or the length of `s` when
/// `c` does not occur.
pub open spec fn find_char(s: Seq<char>, c: char) -> nat
    decreases s.len(),
{
    if s.len() == 0 {
        0
    } else if s[0] == c {
        0
    } else {
        1 + find_char(s.drop_first(), c)
    }
}

/// `find_char` points at the first occurrence, or past the end.
pub proof fn lemma_find_char(s: Seq<char>, c: char)
    ensures
        find_char(s, c) <= s.len(),
        find_char(s, c) < s.len() ==> s[find_char(s, c) as int] == c,
        forall|i: int| 0 <= i < find_char(s, c) ==> s[i] != c,
    decreases s.len(),
{
    if s.len() > 0 && s[0] != c {
        lemma_find_char(s.drop_first(), c);
        let f: int = find_char(s, c) as int;
        assert forall|i: int| 0 <= i < f implies s[i] != c by {
            if i > 0 {
                assert(s.drop_first()[i - 1] != c);
                assert(s[i] == s.drop_first()[i - 1]);
            }
        }
        if f < s.len() {
            assert(s[f] == s.drop_first()[f - 1]);
        }
    }
}

/// `find_char` returns `k` exactly when `c` first occurs at `k`, or when
/// `k` is the length and `c` does not occur at all.
pub proof fn lemma_find_char_is(s: Seq<char>, c: char, k: int)
    requires
        0 <= k <= s.len(),
        forall|i: int| 0 <= i < k ==> s[i] != c,
        k < s.len() ==> s[k] == c,
    ensures
        find_char(s, c) == k,
{
    lemma_find_char(s, c);
    let f: int = find_char(s, c) as int;
    if f < k {
        assert(s[f] != c);
        assert(false);
    }
    if f > k {
        assert(s[k] != c);
        assert(false);
    }
}

/// Splits one line into identifier and value on the delimiter; fails when
/// the delimiter is missing or repeated, or the identifier is empty.
pub open spec fn parse_line(line: Seq<char>) -> Option<SpecRow> {
    let k = find_char(line, '\t') as int;
    if k >= line.len() {
        None
    } else {
        let id = line.take(k);
        let val = line.skip(k + 1);
        if id.len() == 0 {
            None
        } else if find_char(val, '\t') < val.len() {
            None
        } else {
            Some((id, val))
        }
    }
}

/// Parses the flat text into records: one line per record, each line closed
/// by the line separator. Empty text parses to no records.
pub open spec fn parse_text(t: Seq<char>) -> Option<Seq<SpecRow>>
    decreases t.len(),
{
    if t.len() == 0 {
        Some(Seq::empty())
    } else {
        let j = find_char(t, '\n') as int;
        if j >= t.len() {
            None
        } else {
            match parse_line(t.take(j)) {
                Option::None => None,
                Option::Some(row) => match parse_text(t.skip(j + 1)) {
                    Option::None => None,
                    Option::Some(rest) => Some(seq![row] + rest),
                },
            }
        }
    }
}

/// Parsing inverts encoding: the canonical text of well-formed records
/// parses back to exactly those records.
pub proof fn lemma_parse_rows_text(rows: Seq<SpecRow>)
    requires
        wf_rows(rows),
    ensures
        parse_text(rows_text(rows)) == Some(rows),
    decreases rows.len(),
{
    if rows.len() == 0 {
        assert(rows =~= Seq::<SpecRow>::empty());
    } else {
        let row = rows[0];
        let id = row.0;
        let val = row.1;
        let t = rows_text(rows);
        let rest_text = rows_text(rows.drop_first());
        let n0: int = id.len() + 1 + val.len() as int;
        assert(wf_row(row));
        assert(t == row_text(row) + rest_text);
        assert(t.len() == n0 + 1 + rest_text.len());

        // The first line separator sits right after this record's line.
        assert forall|i: int| 0 <= i < n0 implies t[i] != '\n' by {
            lemma_row_text_index(row, i);
        }
        assert(t[n0] == '\n') by {
            lemma_row_text_index(row, n0);
        }
        lemma_find_char_is(t, '\n', n0);

        // The line splits into the identifier and the value at the delimiter.
        let line = t.take(n0);
        assert forall|i: int| 0 <= i < id.len() implies line[i] != '\t' && line[i] == id[i] by {
            lemma_row_text_index(row, i);
        }
        assert(line[id.len() as int] == '\t') by {
            lemma_row_text_index(row, id.len() as int);
        }
        lemma_find_char_is(line, '\t', id.len() as int);
        assert(line.take(id.len() as int) =~= id);
        assert(line.skip(id.len() as int + 1) =~= val) by {
            assert forall|i: int| 0 <= i < val.len() implies line.skip(id.len() as int + 1)[i] == val[i] by {
                lemma_row_text_index(row, id.len() + 1 + i);
            }
        }
        assert(find_char(val, '\t') == val.len()) by {
            lemma_find_char_is(val, '\t', val.len() as int);
        }
        assert(parse_line(line) == Some(row));

        // The remainder of the text is the remaining records' text.
        assert(t.skip(n0 + 1) =~= rest_text);
        assert(wf_rows(rows.drop_first())) by {
            assert forall|i: int| 0 <= i < rows.drop_first().len() implies wf_row(
                #[trigger] rows.drop_first()[i],
            ) by {
                assert(rows.drop_first()[i] == rows[i + 1]);
            }
        }
        lemma_parse_rows_text(rows.drop_first());
        assert(seq![row] + rows.drop_first() =~= rows);
    }
}

/// Index-wise description of one record's line within the canonical text.
proof fn lemma_row_text_index(row: SpecRow, i: int)
    requires
        0 <= i <= row.0.len() + 1 + row.1.len(),
    ensures
        i < row.0.len() ==> row_text(row)[i] == row.0[i],
        i == row.0.len() ==> row_text(row)[i] == '\t',
        row.0.len() < i <= row.0.len() + row.1.len() ==> row_text(row)[i] == row.1[i - row.0.len()
            - 1],
        i == row.0.len() + 1 + row.1.len() ==> row_text(row)[i] == '\n',
{
}

} // verus!
