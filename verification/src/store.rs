//! The record store: an in-memory mapping from string identifiers to string
//! values, kept in canonical (lexicographic) order, with its flat-text codec.

use crate::codec::{
    SpecRow, lemma_find_char, lemma_find_char_is, lemma_parse_rows_text, lemma_rows_text_push,
    parse_line, parse_text, rows_bytes, rows_text, sorted_rows, wf_id, wf_rows, wf_row, wf_value,
};
use crate::model::{
    lemma_rows_map_contains_at, lemma_rows_map_insert, lemma_rows_map_key_has_index,
    lemma_rows_map_remove, lemma_sorted_insert, lemma_sorted_remove, lemma_sorted_rows_unique,
    rows_map,
};
use crate::order::{
    is_prefix, lemma_lex_connected, lemma_lex_irreflexive, lemma_lex_transitive, lex_lt, str_eq,
    str_lt, str_starts_with,
};
use vstd::prelude::*;
use vstd::string::{StrSliceExecFns, StringExecFns};
use vstd::utf8::{decode_utf8, valid_utf8};

verus! {

/// The records a vector of string pairs stands for, as character sequences.
pub open spec fn entry_views(s: Seq<(String, String)>) -> Seq<SpecRow> {
    Seq::new(s.len(), |i: int| (s[i].0@, s[i].1@))
}

/// The records of `rows` whose identifier starts with `p`, in order.
pub open spec fn rows_with_prefix(rows: Seq<SpecRow>, p: Seq<char>) -> Seq<SpecRow> {
    rows.filter(|row: SpecRow| is_prefix(p, row.0))
}

/// What `add` reports: it never overwrites, and it rejects identifiers and
/// values that would not survive the flat-text encoding.
#[derive(Clone, Copy, Debug, PartialEq, Eq, Structural)]
pub enum AddOutcome {
    /// The record was inserted.
    Added,
    /// A record with this identifier is already present; the store is
    /// unchanged.
    AlreadyExists,
    /// The identifier was empty, or the identifier or value contained the
    /// delimiter or the line separator; the store is unchanged.
    Invalid,
}

/// What `remove` reports.
#[derive(Clone, Copy, Debug, PartialEq, Eq, Structural)]
pub enum RemoveOutcome {
    /// The record was removed.
    Removed,
    /// No record with this identifier was present; the store is unchanged.
    NotFound,
}

/// Why `from_bytes` rejected its input.
#[derive(Clone, Copy, Debug, PartialEq, Eq, Structural)]
pub enum DecodeError {
    /// The bytes are not valid text, or some line does not split into
    /// exactly a non-empty identifier and a value on the delimiter.
    Malformed,
}

/// Relies on std's `str::from_utf8`: it accepts exactly the valid UTF-8 byte
/// sequences and decodes them to the characters they encode.
#[verifier::external_body]
fn utf8_decode(bytes: &[u8]) -> (r: Option<String>)
    ensures
        r is Some <==> valid_utf8(bytes@),
        r is Some ==> r.unwrap()@ == decode_utf8(bytes@),
{
    match std::str::from_utf8(bytes) {
        Ok(s) => Some(s.to_owned()),
        Err(_) => None,
    }
}

/// Checks that a string is free of the delimiter and the line separator.
fn field_ok(s: &str) -> (r: bool)
    ensures
        r == wf_value(s@),
{
    let n = s.unicode_len();
    let mut i: usize = 0;
    while i < n
        invariant
            i <= n,
            n == s@.len(),
            forall|k: int| 0 <= k < i ==> #[trigger] s@[k] != '\t' && s@[k] != '\n',
        decreases n - i,
    {
        let c = s.get_char(i);
        if c == '\t' || c == '\n' {
            proof {
                assert(s@[i as int] == c);
            }
            return false;
        }
        i = i + 1;
    }
    true
}

/// Position of the first occurrence of `c` in `s` at or after `from`, or the
/// length of `s` when there is none.
fn find_from(s: &str, from: usize, c: char) -> (j: usize)
    requires
        from <= s@.len(),
    ensures
        from <= j <= s@.len(),
        forall|m: int| from <= m < j ==> s@[m] != c,
        j < s@.len() ==> s@[j as int] == c,
{
    let n = s.unicode_len();
    let mut j = from;
    while j < n
        invariant
            from <= j <= n,
            n == s@.len(),
            forall|m: int| from <= m < j ==> s@[m] != c,
        decreases n - j,
    {
        if s.get_char(j) == c {
            return j;
        }
        j = j + 1;
    }
    j
}

/// Count of entries whose identifier is strictly below `id`; in a sorted
/// vector, the position where `id` belongs.
fn find_slot(entries: &Vec<(String, String)>, id: &str) -> (i: usize)
    requires
        sorted_rows(entry_views(entries@)),
    ensures
        i <= entries@.len(),
        forall|k: int| 0 <= k < i ==> lex_lt((#[trigger] entry_views(entries@)[k]).0, id@),
        forall|k: int|
            i <= k < entries@.len() ==> !lex_lt((#[trigger] entry_views(entries@)[k]).0, id@),
{
    let ghost rows = entry_views(entries@);
    let n = entries.len();
    let mut i: usize = 0;
    while i < n
        invariant
            i <= n,
            n == entries@.len(),
            rows == entry_views(entries@),
            sorted_rows(rows),
            forall|k: int| 0 <= k < i ==> lex_lt((#[trigger] rows[k]).0, id@),
        decreases n - i,
    {
        if !str_lt(entries[i].0.as_str(), id) {
            proof {
                assert(rows[i as int].0 == entries@[i as int].0@);
                assert forall|k: int| i <= k < rows.len() implies !lex_lt(
                    (#[trigger] rows[k]).0,
                    id@,
                ) by {
                    if k > i && lex_lt(rows[k].0, id@) {
                        assert(lex_lt(rows[i as int].0, rows[k].0));
                        lemma_lex_transitive(rows[i as int].0, rows[k].0, id@);
                    }
                }
            }
            return i;
        }
        i = i + 1;
    }
    i
}

/// The record store: a mapping from identifiers to values, held as a vector
/// of entries in strictly increasing identifier order.
#[derive(Debug)]
pub struct Data {
    entries: Vec<(String, String)>,
}

impl Data {
    /// The records in canonical order, as character sequences.
    pub closed spec fn rows(&self) -> Seq<SpecRow> {
        entry_views(self.entries@)
    }

    /// The identifier-to-value mapping this store holds.
    pub open spec fn as_map(&self) -> Map<Seq<char>, Seq<char>> {
        rows_map(self.rows())
    }

    /// Canonical form, maintained by every operation: all records
    /// well-formed, identifiers strictly increasing (hence unique).
    #[verifier::type_invariant]
    pub open spec fn canonical(&self) -> bool {
        wf_rows(self.rows()) && sorted_rows(self.rows())
    }

    /// Inserts `id -> value` only when `id` is absent and both fields
    /// survive the flat-text encoding; it never overwrites.
    pub fn add(&mut self, id: &str, value: &str) -> (r: AddOutcome)
        ensures
            r is Invalid <==> !(wf_id(id@) && wf_value(value@)),
            r is Added <==> wf_id(id@) && wf_value(value@) && !old(self).as_map().contains_key(
                id@,
            ),
            r is AlreadyExists <==> wf_id(id@) && wf_value(value@)
                && old(self).as_map().contains_key(id@),
            r is Added ==> final(self).as_map() == old(self).as_map().insert(id@, value@),
            !(r is Added) ==> *final(self) == *old(self),
    {
        proof {
            use_type_invariant(&*self);
        }
        if id.is_empty() || !field_ok(id) || !field_ok(value) {
            return AddOutcome::Invalid;
        }
        let ghost rows = self.rows();
        let i = find_slot(&self.entries, id);
        let n = self.entries.len();
        if i < n && str_eq(self.entries[i].0.as_str(), id) {
            proof {
                assert(rows[i as int].0 == id@);
                lemma_rows_map_contains_at(rows, i as int);
            }
            return AddOutcome::AlreadyExists;
        }
        proof {
            assert forall|k: int| i <= k < rows.len() implies lex_lt(
                id@,
                (#[trigger] rows[k]).0,
            ) by {
                lemma_lex_connected(id@, rows[i as int].0);
                if k > i {
                    assert(lex_lt(rows[i as int].0, rows[k].0));
                    lemma_lex_transitive(id@, rows[i as int].0, rows[k].0);
                }
            }
            assert(!rows_map(rows).contains_key(id@)) by {
                if rows_map(rows).contains_key(id@) {
                    lemma_rows_map_key_has_index(rows, id@);
                    let j = choose|j: int| 0 <= j < rows.len() && (#[trigger] rows[j]).0 == id@;
                    lemma_lex_irreflexive(id@);
                }
            }
        }
        let mut entries: Vec<(String, String)> = Vec::new();
        std::mem::swap(&mut entries, &mut self.entries);
        entries.insert(i, (String::from_str(id), String::from_str(value)));
        proof {
            let row: SpecRow = (id@, value@);
            assert(entry_views(entries@) =~= rows.insert(i as int, row));
            lemma_sorted_insert(rows, i as int, row);
            lemma_rows_map_insert(rows, i as int, row);
            assert forall|k: int| 0 <= k < rows.insert(i as int, row).len() implies wf_row(
                #[trigger] rows.insert(i as int, row)[k],
            ) by {
                if k < i {
                    assert(rows.insert(i as int, row)[k] == rows[k]);
                } else if k > i {
                    assert(rows.insert(i as int, row)[k] == rows[k - 1]);
                }
            }
        }
        self.entries = entries;
        AddOutcome::Added
    }

    /// Removes the record with identifier `id` when one is present.
    pub fn remove(&mut self, id: &str) -> (r: RemoveOutcome)
        ensures
            r is Removed <==> old(self).as_map().contains_key(id@),
            final(self).as_map() == old(self).as_map().remove(id@),
            r is NotFound ==> *final(self) == *old(self),
    {
        proof {
            use_type_invariant(&*self);
        }
        let ghost rows = self.rows();
        let i = find_slot(&self.entries, id);
        let n = self.entries.len();
        if i < n && str_eq(self.entries[i].0.as_str(), id) {
            proof {
                assert(rows[i as int].0 == id@);
                lemma_rows_map_contains_at(rows, i as int);
            }
            let mut entries: Vec<(String, String)> = Vec::new();
            std::mem::swap(&mut entries, &mut self.entries);
            entries.remove(i);
            proof {
                assert(entry_views(entries@) =~= rows.remove(i as int));
                lemma_sorted_remove(rows, i as int);
                lemma_rows_map_remove(rows, i as int);
                assert forall|k: int| 0 <= k < rows.remove(i as int).len() implies wf_row(
                    #[trigger] rows.remove(i as int)[k],
                ) by {
                    if k < i {
                        assert(rows.remove(i as int)[k] == rows[k]);
                    } else {
                        assert(rows.remove(i as int)[k] == rows[k + 1]);
                    }
                }
            }
            self.entries = entries;
            RemoveOutcome::Removed
        } else {
            proof {
                assert(!rows_map(rows).contains_key(id@)) by {
                    if rows_map(rows).contains_key(id@) {
                        lemma_rows_map_key_has_index(rows, id@);
                        let j = choose|j: int|
                            0 <= j < rows.len() && (#[trigger] rows[j]).0 == id@;
                        if j < i {
                            lemma_lex_irreflexive(id@);
                        } else if j == i {
                            assert(rows[i as int].0 == self.entries@[i as int].0@);
                        } else {
                            assert(lex_lt(rows[i as int].0, rows[j].0));
                            assert(!lex_lt(rows[i as int].0, id@));
                        }
                    }
                }
                assert(rows_map(rows).remove(id@) =~= rows_map(rows));
            }
            RemoveOutcome::NotFound
        }
    }

    /// The records in canonical order; with a prefix, only those whose
    /// identifier starts with it.
    pub fn view(&self, prefix: Option<&str>) -> (r: Vec<(String, String)>)
        ensures
            entry_views(r@) == match prefix {
                Option::None => self.rows(),
                Option::Some(p) => rows_with_prefix(self.rows(), p@),
            },
    {
        let ghost rows = self.rows();
        let mut out: Vec<(String, String)> = Vec::new();
        let n = self.entries.len();
        let mut i: usize = 0;
        match prefix {
            Option::None => {
                proof {
                    assert(entry_views(out@) =~= rows.take(0));
                }
                while i < n
                    invariant
                        i <= n,
                        n == self.entries@.len(),
                        rows == entry_views(self.entries@),
                        entry_views(out@) == rows.take(i as int),
                    decreases n - i,
                {
                    let ghost prev = entry_views(out@);
                    let pair = (self.entries[i].0.clone(), self.entries[i].1.clone());
                    out.push(pair);
                    proof {
                        assert(entry_views(out@) =~= prev.push(rows[i as int]));
                        assert(prev.push(rows[i as int]) =~= rows.take(i + 1 as int));
                    }
                    i = i + 1;
                }
                proof {
                    assert(rows.take(n as int) =~= rows);
                }
                out
            },
            Option::Some(p) => {
                proof {
                    assert(rows.take(0) =~= Seq::<SpecRow>::empty());
                    assert(entry_views(out@) =~= rows_with_prefix(rows.take(0), p@)) by {
                        reveal(Seq::filter);
                    }
                }
                while i < n
                    invariant
                        i <= n,
                        n == self.entries@.len(),
                        rows == entry_views(self.entries@),
                        entry_views(out@) == rows_with_prefix(rows.take(i as int), p@),
                    decreases n - i,
                {
                    let ghost prev = entry_views(out@);
                    if str_starts_with(self.entries[i].0.as_str(), p) {
                        let pair = (self.entries[i].0.clone(), self.entries[i].1.clone());
                        out.push(pair);
                        proof {
                            assert(entry_views(out@) =~= prev.push(rows[i as int]));
                        }
                    }
                    proof {
                        lemma_rows_with_prefix_take(rows, p@, i as int);
                    }
                    i = i + 1;
                }
                proof {
                    assert(rows.take(n as int) =~= rows);
                }
                out
            },
        }
    }

    /// The canonical byte encoding of the store: for each record in order,
    /// `identifier<TAB>value<NEWLINE>`. An empty store encodes to no bytes.
    pub fn to_bytes(&self) -> (r: Vec<u8>)
        ensures
            r@ == rows_bytes(self.rows()),
    {
        let ghost rows = self.rows();
        let mut text = String::new();
        let n = self.entries.len();
        let mut i: usize = 0;
        proof {
            assert(rows.take(0) =~= Seq::<SpecRow>::empty());
        }
        while i < n
            invariant
                i <= n,
                n == self.entries@.len(),
                rows == entry_views(self.entries@),
                text@ == rows_text(rows.take(i as int)),
            decreases n - i,
        {
            text.append(self.entries[i].0.as_str());
            text.append("\t");
            text.append(self.entries[i].1.as_str());
            text.append("\n");
            proof {
                reveal_strlit("\t");
                reveal_strlit("\n");
                let row = rows[i as int];
                assert(text@ =~= rows_text(rows.take(i as int)) + (row.0 + seq!['\t'] + row.1
                    + seq!['\n']));
                lemma_rows_text_push(rows.take(i as int), row);
                assert(rows.take(i as int).push(row) =~= rows.take(i + 1 as int));
            }
            i = i + 1;
        }
        proof {
            assert(rows.take(n as int) =~= rows);
        }
        text.as_str().as_bytes_vec()
    }

    /// Decodes the canonical byte encoding into a fresh store; the inverse
    /// of `to_bytes`. Empty bytes decode to the empty store. When a line
    /// repeats an identifier, the later record is kept.
    pub fn from_bytes(bytes: &[u8]) -> (r: Result<Data, DecodeError>)
        ensures
            match r {
                Result::Ok(d) => {
                    &&& valid_utf8(bytes@)
                    &&& parse_text(decode_utf8(bytes@)) is Some
                    &&& d.as_map() == rows_map(parse_text(decode_utf8(bytes@)).unwrap())
                },
                Result::Err(e) => !valid_utf8(bytes@) || parse_text(decode_utf8(bytes@)) is None,
            },
    {
        let text = match utf8_decode(bytes) {
            Option::Some(text) => text,
            Option::None => {
                return Result::Err(DecodeError::Malformed);
            },
        };
        let ghost t = text@;
        let n = text.unicode_len();
        let mut entries: Vec<(String, String)> = Vec::new();
        let ghost mut done: Seq<SpecRow> = Seq::empty();
        let mut pos: usize = 0;
        proof {
            assert(t.skip(0) =~= t);
            assert(entry_views(entries@) =~= Seq::<SpecRow>::empty());
            if parse_text(t) is Some {
                assert(done + parse_text(t).unwrap() =~= parse_text(t).unwrap());
            }
        }
        while pos < n
            invariant
                pos <= n,
                n == t.len(),
                text@ == t,
                valid_utf8(bytes@),
                t == decode_utf8(bytes@),
                sorted_rows(entry_views(entries@)),
                wf_rows(entry_views(entries@)),
                rows_map(entry_views(entries@)) == rows_map(done),
                parse_text(t.skip(pos as int)) is Some ==> parse_text(t) == Some(
                    done + parse_text(t.skip(pos as int)).unwrap(),
                ),
                parse_text(t.skip(pos as int)) is None ==> parse_text(t) is None,
            decreases n - pos,
        {
            let ghost s = t.skip(pos as int);
            proof {
                assert forall|m: int| 0 <= m < s.len() implies s[m] == t[pos + m] by {}
            }
            let j = find_from(&text, pos, '\n');
            if j == n {
                proof {
                    lemma_find_char_is(s, '\n', s.len() as int);
                }
                return Result::Err(DecodeError::Malformed);
            }
            proof {
                lemma_find_char_is(s, '\n', j - pos);
                assert(s.take(j - pos) =~= t.subrange(pos as int, j as int));
                assert(s.skip(j - pos + 1) =~= t.skip(j + 1 as int));
            }
            let ghost line = t.subrange(pos as int, j as int);
            let k = find_from(&text, pos, '\t');
            if k >= j {
                proof {
                    lemma_find_char_is(line, '\t', line.len() as int);
                    assert(parse_line(line) is None);
                }
                return Result::Err(DecodeError::Malformed);
            }
            if k == pos {
                proof {
                    lemma_find_char_is(line, '\t', 0);
                    assert(parse_line(line) is None);
                }
                return Result::Err(DecodeError::Malformed);
            }
            proof {
                lemma_find_char_is(line, '\t', k - pos);
                assert(line.take(k - pos) =~= t.subrange(pos as int, k as int));
                assert(line.skip(k - pos + 1) =~= t.subrange(k + 1 as int, j as int));
            }
            let k2 = find_from(&text, k + 1, '\t');
            if k2 < j {
                proof {
                    let val = line.skip(k - pos + 1);
                    assert(val[k2 - k - 1] == '\t');
                    lemma_find_char(val, '\t');
                    assert(parse_line(line) is None);
                }
                return Result::Err(DecodeError::Malformed);
            }
            let id = text.substring_char(pos, k);
            let val = text.substring_char(k + 1, j);
            let ghost row: SpecRow = (id@, val@);
            proof {
                let lval = line.skip(k - pos + 1);
                assert forall|m: int| 0 <= m < lval.len() implies lval[m] != '\t' by {
                    assert(lval[m] == t[k + 1 + m]);
                }
                lemma_find_char_is(lval, '\t', lval.len() as int);
                assert(parse_line(line) == Some(row));
                assert(wf_id(id@));
                assert(wf_value(val@));
            }
            let ghost rows = entry_views(entries@);
            let slot = find_slot(&entries, id);
            if slot < entries.len() && str_eq(entries[slot].0.as_str(), id) {
                proof {
                    assert(rows[slot as int].0 == id@);
                }
                entries.remove(slot);
                proof {
                    assert(entry_views(entries@) =~= rows.remove(slot as int));
                    lemma_sorted_remove(rows, slot as int);
                    lemma_rows_map_remove(rows, slot as int);
                    assert forall|c: int| 0 <= c < rows.remove(slot as int).len() implies wf_row(
                        #[trigger] rows.remove(slot as int)[c],
                    ) by {
                        if c < slot {
                            assert(rows.remove(slot as int)[c] == rows[c]);
                        } else {
                            assert(rows.remove(slot as int)[c] == rows[c + 1]);
                        }
                    }
                    assert forall|c: int|
                        slot <= c < rows.remove(slot as int).len() implies lex_lt(
                        id@,
                        (#[trigger] rows.remove(slot as int)[c]).0,
                    ) by {
                        assert(rows.remove(slot as int)[c] == rows[c + 1]);
                        assert(lex_lt(rows[slot as int].0, rows[c + 1].0));
                    }
                }
                let ghost removed = entry_views(entries@);
                entries.insert(slot, (String::from_str(id), String::from_str(val)));
                proof {
                    assert(entry_views(entries@) =~= removed.insert(slot as int, row));
                    lemma_sorted_insert(removed, slot as int, row);
                    lemma_rows_map_insert(removed, slot as int, row);
                    assert forall|c: int|
                        0 <= c < removed.insert(slot as int, row).len() implies wf_row(
                        #[trigger] removed.insert(slot as int, row)[c],
                    ) by {
                        if c < slot {
                            assert(removed.insert(slot as int, row)[c] == removed[c]);
                        } else if c > slot {
                            assert(removed.insert(slot as int, row)[c] == removed[c - 1]);
                        }
                    }
                    assert(rows_map(entry_views(entries@)) =~= rows_map(rows).insert(id@, val@));
                }
            } else {
                proof {
                    assert forall|c: int| slot <= c < rows.len() implies lex_lt(
                        id@,
                        (#[trigger] rows[c]).0,
                    ) by {
                        lemma_lex_connected(id@, rows[slot as int].0);
                        if c > slot {
                            assert(lex_lt(rows[slot as int].0, rows[c].0));
                            lemma_lex_transitive(id@, rows[slot as int].0, rows[c].0);
                        }
                    }
                }
                entries.insert(slot, (String::from_str(id), String::from_str(val)));
                proof {
                    assert(entry_views(entries@) =~= rows.insert(slot as int, row));
                    lemma_sorted_insert(rows, slot as int, row);
                    lemma_rows_map_insert(rows, slot as int, row);
                    assert forall|c: int|
                        0 <= c < rows.insert(slot as int, row).len() implies wf_row(
                        #[trigger] rows.insert(slot as int, row)[c],
                    ) by {
                        if c < slot {
                            assert(rows.insert(slot as int, row)[c] == rows[c]);
                        } else if c > slot {
                            assert(rows.insert(slot as int, row)[c] == rows[c - 1]);
                        }
                    }
                }
            }
            proof {
                assert(rows_map(entry_views(entries@)) == rows_map(done.push(row))) by {
                    assert(done.push(row).drop_last() =~= done);
                    assert(rows_map(done.push(row)) == rows_map(done).insert(row.0, row.1));
                }
                // One parsing step: the parser consumes this line and
                // continues after its separator.
                assert(parse_text(s) == match parse_text(t.skip(j + 1 as int)) {
                    Option::<Seq<SpecRow>>::None => Option::<Seq<SpecRow>>::None,
                    Option::<Seq<SpecRow>>::Some(rest) => Some(seq![row] + rest),
                });
                if parse_text(t.skip(j + 1 as int)) is Some {
                    let rest = parse_text(t.skip(j + 1 as int)).unwrap();
                    assert(done + (seq![row] + rest) =~= done.push(row) + rest);
                }
                done = done.push(row);
            }
            pos = j + 1;
        }
        proof {
            assert(t.skip(n as int) =~= Seq::<char>::empty());
            assert(parse_text(t.skip(n as int)) == Some(Seq::<SpecRow>::empty()));
            assert(done + Seq::<SpecRow>::empty() =~= done);
        }
        Result::Ok(Data { entries })
    }
}

impl Default for Data {
    /// The empty store.
    fn default() -> (d: Data)
        ensures
            d.as_map() == Map::<Seq<char>, Seq<char>>::empty(),
            d.rows() == Seq::<SpecRow>::empty(),
    {
        let entries: Vec<(String, String)> = Vec::new();
        proof {
            assert(entry_views(entries@) =~= Seq::<SpecRow>::empty());
        }
        Data { entries }
    }
}

/// Filtering by prefix grows record by record along the sequence.
proof fn lemma_rows_with_prefix_take(rows: Seq<SpecRow>, p: Seq<char>, i: int)
    requires
        0 <= i < rows.len(),
    ensures
        rows_with_prefix(rows.take(i + 1), p) == if is_prefix(p, rows[i].0) {
            rows_with_prefix(rows.take(i), p).push(rows[i])
        } else {
            rows_with_prefix(rows.take(i), p)
        },
{
    assert(rows.take(i + 1).drop_last() =~= rows.take(i));
    assert(rows.take(i + 1).last() == rows[i]);
    reveal(Seq::filter);
}

/// The canonical encoding is deterministic: two stores holding the same
/// mapping hold the same records and encode to the same bytes, whatever
/// order their records were added in.
pub proof fn lemma_encoding_deterministic(a: Data, b: Data)
    requires
        a.canonical(),
        b.canonical(),
        a.as_map() == b.as_map(),
    ensures
        a.rows() == b.rows(),
        rows_bytes(a.rows()) == rows_bytes(b.rows()),
{
    lemma_sorted_rows_unique(a.rows(), b.rows());
}

/// Round trip: a store's canonical bytes are valid text and parse back to
/// exactly its records, hence to its mapping.
pub proof fn lemma_decode_encode(d: Data)
    requires
        d.canonical(),
    ensures
        valid_utf8(rows_bytes(d.rows())),
        parse_text(decode_utf8(rows_bytes(d.rows()))) == Some(d.rows()),
        rows_map(d.rows()) == d.as_map(),
{
    vstd::utf8::encode_utf8_valid_utf8(rows_text(d.rows()));
    vstd::utf8::encode_utf8_decode_utf8(rows_text(d.rows()));
    lemma_parse_rows_text(d.rows());
}

} // verus!
