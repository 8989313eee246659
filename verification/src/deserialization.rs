//! The decoder: a single-pass, backtracking-free parser for the text format,
//! with its acceptance and every error pinned down by spec functions.

use crate::column::{Column, SpecColumn, spec_view_columns};
use crate::entry::{Entry, SpecEntry, spec_pair_view, spec_view_pairs};
use crate::errors::{DecodeError, InsertError, SchemaError};
use crate::table::{
    SpecTable, Table, clone_columns, spec_cols_unique, spec_entry_conforms, spec_zip_entry,
};
use crate::text::{
    chars_of, find_unescaped, skip_n, spec_find_unescaped, spec_lines, spec_parse_i32,
    spec_unescape, split_lines, string_of, unescape_chars, vec_range,
};
use crate::types::ColumnType;
use crate::values::{SpecValue, Value, spec_view_values};
use vstd::prelude::*;

verus! {

// ---------------------------------------------------------------------------
// The spec-level parser
// ---------------------------------------------------------------------------

/// Strips a leading `key ` marker, reporting whether it was there.
pub open spec fn spec_strip_key(s: Seq<char>) -> (bool, Seq<char>) {
    if s.len() >= 4 && s.subrange(0, 4) == seq!['k', 'e', 'y', ' '] {
        (true, s.skip(4))
    } else {
        (false, s)
    }
}

/// Parses a type tag followed by a single space; any other tag is an error.
pub open spec fn spec_parse_type(s: Seq<char>) -> Result<(ColumnType, Seq<char>), DecodeError> {
    if s.len() >= 4 && s.subrange(0, 4) == seq!['i', 'n', 't', ' '] {
        Ok((ColumnType::Integer, s.skip(4)))
    } else if s.len() >= 4 && s.subrange(0, 4) == seq!['s', 't', 'r', ' '] {
        Ok((ColumnType::Text, s.skip(4)))
    } else {
        Err(DecodeError::UnknownColumnType)
    }
}

/// Parses one column descriptor: an optional `key ` marker, a type tag, and
/// a quoted, escaped name up to the next unescaped quote.
pub open spec fn spec_parse_column(s: Seq<char>) -> Result<(SpecColumn, Seq<char>), DecodeError> {
    let (is_key, s1) = spec_strip_key(s);
    match spec_parse_type(s1) {
        Err(e) => Err(e),
        Ok((ct, s2)) => {
            if s2.len() == 0 || s2[0] != '"' {
                Err(DecodeError::MissingColumnName)
            } else {
                let s3 = s2.skip(1);
                match spec_find_unescaped(s3, '"', 0) {
                    None => Err(DecodeError::MissingColumnName),
                    Some(q) => Ok(
                        (
                            SpecColumn {
                                is_key,
                                name: spec_unescape(s3.subrange(0, q)),
                                column_type: ct,
                            },
                            s3.skip(q + 1),
                        ),
                    ),
                }
            }
        },
    }
}

/// A successfully parsed descriptor consumes at least one character.
pub proof fn lemma_parse_column_shrinks(s: Seq<char>)
    ensures
        (match spec_parse_column(s) {
            Ok((c, rest)) => rest.len() < s.len(),
            Err(_) => true,
        }),
{
    let (is_key, s1) = spec_strip_key(s);
    match spec_parse_type(s1) {
        Err(_) => {},
        Ok((ct, s2)) => {
            if s2.len() > 0 && s2[0] == '"' {
                let s3 = s2.skip(1);
                crate::text::lemma_find_unescaped_props(s3, '"', 0);
            }
        },
    }
}

/// Parses the whole header: descriptors separated by commas.
pub open spec fn spec_parse_columns(s: Seq<char>) -> Result<Seq<SpecColumn>, DecodeError>
    decreases s.len(),
{
    if s.len() == 0 {
        Ok(Seq::<SpecColumn>::empty())
    } else {
        let s0 = if s[0] == ',' {
            s.skip(1)
        } else {
            s
        };
        match spec_parse_column(s0) {
            Err(e) => Err(e),
            Ok((c, rest)) => {
                proof {
                    lemma_parse_column_shrinks(s0);
                }
                match spec_parse_columns(rest) {
                    Err(e) => Err(e),
                    Ok(cs) => Ok(seq![c] + cs),
                }
            },
        }
    }
}

/// Parses one quoted field as a value of the given column type.  `idx` is
/// the field's position in its row, reported on an integer parse failure.
pub open spec fn spec_parse_field(f: Seq<char>, ct: ColumnType, idx: int) -> Result<
    SpecValue,
    DecodeError,
> {
    if f.len() < 2 || f[0] != '"' || f.last() != '"' {
        Err(DecodeError::MalformedRow)
    } else {
        let text = spec_unescape(f.subrange(1, f.len() - 1));
        match ct {
            ColumnType::Text => Ok(SpecValue::Text(text)),
            ColumnType::Integer => match spec_parse_i32(text) {
                Some(v) => Ok(SpecValue::Integer(v)),
                None => Err(DecodeError::ValueParseFailure { index: idx as usize }),
            },
        }
    }
}

/// Parses a row line into one field per column, splitting at unescaped
/// commas; a line with too few or too many fields is malformed.
pub open spec fn spec_parse_row(s: Seq<char>, cols: Seq<SpecColumn>, idx: int) -> Result<
    SpecEntry,
    DecodeError,
>
    decreases cols.len(),
{
    if cols.len() == 0 {
        Err(DecodeError::MalformedRow)
    } else {
        match spec_find_unescaped(s, ',', 0) {
            Some(p) => {
                if cols.len() == 1 {
                    Err(DecodeError::MalformedRow)
                } else {
                    match spec_parse_field(s.subrange(0, p), cols[0].column_type, idx) {
                        Err(e) => Err(e),
                        Ok(v) => match spec_parse_row(s.skip(p + 1), cols.skip(1), idx + 1) {
                            Err(e) => Err(e),
                            Ok(rest) => Ok(seq![(cols[0], v)] + rest),
                        },
                    }
                }
            },
            None => {
                if cols.len() > 1 {
                    Err(DecodeError::MalformedRow)
                } else {
                    match spec_parse_field(s, cols[0].column_type, idx) {
                        Err(e) => Err(e),
                        Ok(v) => Ok(seq![(cols[0], v)]),
                    }
                }
            },
        }
    }
}

/// A parsed row pairs the columns, in order, with values of their types.
pub proof fn lemma_parse_row_conforms(s: Seq<char>, cols: Seq<SpecColumn>, idx: int)
    ensures
        (match spec_parse_row(s, cols, idx) {
            Ok(e) => spec_entry_conforms(e, cols),
            Err(_) => true,
        }),
    decreases cols.len(),
{
    if cols.len() > 0 {
        match spec_find_unescaped(s, ',', 0) {
            Some(p) => {
                if cols.len() > 1 {
                    lemma_parse_row_conforms(s.skip(p + 1), cols.skip(1), idx + 1);
                    if spec_parse_row(s, cols, idx) is Ok {
                        let e = spec_parse_row(s, cols, idx)->Ok_0;
                        let rest = spec_parse_row(s.skip(p + 1), cols.skip(1), idx + 1)->Ok_0;
                        assert forall|i: int| 0 <= i < e.len() implies (#[trigger] e[i]).0
                            == cols[i] && crate::values::spec_value_type(e[i].1)
                            == cols[i].column_type by {
                            if i > 0 {
                                assert(e[i] == rest[i - 1]);
                                assert(cols.skip(1)[i - 1] == cols[i]);
                            }
                        }
                    }
                }
            },
            None => {},
        }
    }
}

/// Replays parsed row lines into the table, stopping at the first empty line
/// or the end; a key collision with an already replayed row is an error.
pub open spec fn spec_replay_lines(lines: Seq<Seq<char>>, t: SpecTable) -> Result<
    SpecTable,
    DecodeError,
>
    decreases lines.len(),
{
    if lines.len() == 0 || lines[0].len() == 0 {
        Ok(t)
    } else {
        match spec_parse_row(lines[0], t.columns, 0) {
            Err(e) => Err(e),
            Ok(e) => {
                if exists|j: int|
                    0 <= j < t.entries.len() && crate::entry::spec_key_eq(
                        #[trigger] t.entries[j],
                        e,
                    ) {
                    Err(DecodeError::Insert(InsertError::DuplicateKey))
                } else {
                    spec_replay_lines(
                        lines.skip(1),
                        SpecTable { columns: t.columns, entries: t.entries.push(e) },
                    )
                }
            },
        }
    }
}

/// What deserialization accepts and returns, for every input text: the first
/// line is the header, its columns must be distinct, and the remaining lines
/// up to the first empty one are replayed as rows.
pub open spec fn spec_deserialize(s: Seq<char>) -> Result<SpecTable, DecodeError> {
    if s.len() == 0 {
        Err(DecodeError::EmptyInput)
    } else {
        let lines = spec_lines(s);
        match spec_parse_columns(lines[0]) {
            Err(e) => Err(e),
            Ok(cols) => {
                if !spec_cols_unique(cols) {
                    Err(DecodeError::Schema(SchemaError::DuplicateColumnName))
                } else {
                    spec_replay_lines(
                        lines.skip(1),
                        SpecTable { columns: cols, entries: Seq::<SpecEntry>::empty() },
                    )
                }
            },
        }
    }
}

// ---------------------------------------------------------------------------
// The executable parser
// ---------------------------------------------------------------------------

/// Returns whether `s` starts with the four-character pattern; if so, the
/// pattern is removed at the front, otherwise the whole text is returned.
fn starts_with_and_remove(s: &Vec<char>, p0: char, p1: char, p2: char, p3: char) -> (r: (
    bool,
    Vec<char>,
))
    ensures
        (if s@.len() >= 4 && s@.subrange(0, 4) == seq![p0, p1, p2, p3] {
            r.0 == true && r.1@ == s@.skip(4)
        } else {
            r.0 == false && r.1@ == s@
        }),
{
    if s.len() >= 4 && s[0] == p0 && s[1] == p1 && s[2] == p2 && s[3] == p3 {
        proof {
            assert(s@.subrange(0, 4) =~= seq![p0, p1, p2, p3]);
        }
        (true, skip_n(s, 4))
    } else {
        proof {
            if s@.len() >= 4 && s@.subrange(0, 4) == seq![p0, p1, p2, p3] {
                assert(s@[0] == s@.subrange(0, 4)[0]);
                assert(s@[1] == s@.subrange(0, 4)[1]);
                assert(s@[2] == s@.subrange(0, 4)[2]);
                assert(s@[3] == s@.subrange(0, 4)[3]);
                assert(false);
            }
        }
        (false, vec_range(s, 0, s.len()))
    }
}

impl ColumnType {
    /// Parses the leading type tag of a descriptor.
    fn deserialize(s: &Vec<char>) -> (r: Result<(ColumnType, Vec<char>), DecodeError>)
        ensures
            (match (r, spec_parse_type(s@)) {
                (Ok((ct, rest)), Ok((sct, srest))) => ct == sct && rest@ == srest,
                (Err(e), Err(se)) => e == se,
                _ => false,
            }),
    {
        let (is_int, rest) = starts_with_and_remove(s, 'i', 'n', 't', ' ');
        if is_int {
            return Ok((ColumnType::Integer, rest));
        }
        let (is_str, rest) = starts_with_and_remove(s, 's', 't', 'r', ' ');
        if is_str {
            return Ok((ColumnType::Text, rest));
        }
        Err(DecodeError::UnknownColumnType)
    }
}

impl Column {
    /// Parses one column descriptor off the front of the header.
    fn deserialize(s: &Vec<char>) -> (r: Result<(Column, Vec<char>), DecodeError>)
        ensures
            (match (r, spec_parse_column(s@)) {
                (Ok((c, rest)), Ok((sc, srest))) => c@ == sc && rest@ == srest,
                (Err(e), Err(se)) => e == se,
                _ => false,
            }),
    {
        let (is_key, s1) = starts_with_and_remove(s, 'k', 'e', 'y', ' ');
        let (column_type, s2) = (match ColumnType::deserialize(&s1) {
            Ok(p) => p,
            Err(e) => {
                return Err(e);
            },
        });
        if s2.len() == 0 || s2[0] != '"' {
            return Err(DecodeError::MissingColumnName);
        }
        let s3 = skip_n(&s2, 1);
        match find_unescaped(&s3, '"', 0) {
            None => Err(DecodeError::MissingColumnName),
            Some(q) => {
                let name_escaped = vec_range(&s3, 0, q);
                let name_chars = unescape_chars(&name_escaped);
                let name = string_of(&name_chars);
                let rest = vec_range(&s3, q + 1, s3.len());
                proof {
                    assert(rest@ =~= s3@.skip(q + 1));
                }
                Ok((Column { is_key, name, column_type }, rest))
            },
        }
    }

    /// Parses the whole header line into its column descriptors.
    fn deserialize_columns(s: &Vec<char>) -> (r: Result<Vec<Column>, DecodeError>)
        ensures
            (match (r, spec_parse_columns(s@)) {
                (Ok(cols), Ok(scols)) => spec_view_columns(cols@) == scols,
                (Err(e), Err(se)) => e == se,
                _ => false,
            }),
    {
        let mut result: Vec<Column> = Vec::new();
        let mut rest = vec_range(s, 0, s.len());
        proof {
            assert(rest@ =~= s@);
            assert(spec_view_columns(result@) =~~= Seq::<SpecColumn>::empty());
            assert(Seq::<SpecColumn>::empty() + spec_parse_columns(s@)->Ok_0 =~~=
                spec_parse_columns(s@)->Ok_0);
        }
        while rest.len() > 0
            invariant
                (match spec_parse_columns(rest@) {
                    Ok(cs) => spec_parse_columns(s@) == Ok::<Seq<SpecColumn>, DecodeError>(
                        spec_view_columns(result@) + cs,
                    ),
                    Err(e) => spec_parse_columns(s@) == Err::<Seq<SpecColumn>, DecodeError>(e),
                }),
            decreases rest@.len(),
        {
            let ghost suffix = rest@;
            let stripped = (if rest[0] == ',' {
                skip_n(&rest, 1)
            } else {
                vec_range(&rest, 0, rest.len())
            });
            proof {
                if suffix[0] == ',' {
                    assert(stripped@ == suffix.skip(1));
                } else {
                    assert(stripped@ =~= suffix);
                }
            }
            let (col, after) = (match Column::deserialize(&stripped) {
                Ok(p) => p,
                Err(e) => {
                    return Err(e);
                },
            });
            proof {
                lemma_parse_column_shrinks(stripped@);
            }
            let ghost old_result = result@;
            result.push(col);
            rest = after;
            proof {
                crate::entry::lemma_view_columns_push(old_result, col);
                match spec_parse_columns(rest@) {
                    Ok(cs) => {
                        assert(spec_parse_columns(suffix) == Ok::<Seq<SpecColumn>, DecodeError>(
                            seq![col@] + cs,
                        ));
                        assert(spec_view_columns(old_result) + (seq![col@] + cs) =~~=
                            spec_view_columns(result@) + cs);
                    },
                    Err(_) => {},
                }
            }
        }
        proof {
            assert(spec_parse_columns(rest@) == Ok::<Seq<SpecColumn>, DecodeError>(Seq::<
                SpecColumn,
            >::empty()));
            assert(spec_view_columns(result@) + Seq::<SpecColumn>::empty() =~~= spec_view_columns(
                result@,
            ));
        }
        Ok(result)
    }
}

impl Entry {
    /// Parses one quoted field as a value of the given column type.
    fn deserialize_value(f: &Vec<char>, column_type: ColumnType, idx: usize) -> (r: Result<
        Value,
        DecodeError,
    >)
        ensures
            (match (r, spec_parse_field(f@, column_type, idx as int)) {
                (Ok(v), Ok(sv)) => v@ == sv,
                (Err(e), Err(se)) => e == se,
                _ => false,
            }),
    {
        if f.len() < 2 || f[0] != '"' || f[f.len() - 1] != '"' {
            return Err(DecodeError::MalformedRow);
        }
        let inner = vec_range(f, 1, f.len() - 1);
        let text = unescape_chars(&inner);
        match column_type {
            ColumnType::Text => Ok(Value::Text(string_of(&text))),
            ColumnType::Integer => {
                match crate::text::parse_i32_chars(&text) {
                    Some(v) => Ok(Value::Integer(v)),
                    None => Err(DecodeError::ValueParseFailure { index: idx }),
                }
            },
        }
    }

    /// Parses a row line into an entry pairing the given columns, in order,
    /// with the line's fields.
    fn deserialize_data(line: &Vec<char>, columns: &Vec<Column>) -> (r: Result<Entry, DecodeError>)
        ensures
            (match (r, spec_parse_row(line@, spec_view_columns(columns@), 0)) {
                (Ok(e), Ok(se)) => e@ == se,
                (Err(e), Err(se)) => e == se,
                _ => false,
            }),
    {
        let ghost cv = spec_view_columns(columns@);
        let mut result: Vec<(Column, Value)> = Vec::new();
        let mut working = vec_range(line, 0, line.len());
        let mut i: usize = 0;
        if columns.len() == 0 {
            return Err(DecodeError::MalformedRow);
        }
        proof {
            assert(working@ =~= line@);
            assert(cv.skip(0) =~~= cv);
            assert(spec_view_pairs(result@) =~~= Seq::<(SpecColumn, SpecValue)>::empty());
            if spec_parse_row(line@, cv, 0) is Ok {
                let t = spec_parse_row(line@, cv, 0)->Ok_0;
                assert(Seq::<(SpecColumn, SpecValue)>::empty() + t =~~= t);
            }
        }
        while i < columns.len()
            invariant
                i < columns@.len(),
                cv == spec_view_columns(columns@),
                cv.len() == columns@.len(),
                spec_view_pairs(result@).len() == i,
                (match spec_parse_row(working@, cv.skip(i as int), i as int) {
                    Ok(tail) => spec_parse_row(line@, cv, 0) == Ok::<SpecEntry, DecodeError>(
                        spec_view_pairs(result@) + tail,
                    ),
                    Err(e) => spec_parse_row(line@, cv, 0) == Err::<SpecEntry, DecodeError>(e),
                }),
            decreases columns@.len() - i,
        {
            let ghost suffix = working@;
            let ghost cols_left = cv.skip(i as int);
            proof {
                assert(cols_left.len() == cv.len() - i);
                assert(cols_left[0] == cv[i as int]);
                assert(cv[i as int] == columns@[i as int]@);
            }
            let split = find_unescaped(&working, ',', 0);
            match split {
                Some(p) => {
                    assert(p < working.len());
                    if i == columns.len() - 1 {
                        // A separator left over after the last column: too
                        // many fields.
                        return Err(DecodeError::MalformedRow);
                    }
                    let field = vec_range(&working, 0, p);
                    let value = (match Entry::deserialize_value(
                        &field,
                        columns[i].get_type(),
                        i,
                    ) {
                        Ok(v) => v,
                        Err(e) => {
                            return Err(e);
                        },
                    });
                    let ghost old_result = result@;
                    let c = columns[i].clone();
                    result.push((c, value));
                    let next = vec_range(&working, p + 1, working.len());
                    proof {
                        assert(next@ =~= suffix.skip(p + 1));
                        crate::entry::lemma_view_pairs_push(old_result, (c, value));
                        assert(spec_pair_view((c, value)) == (cols_left[0], value@));
                        assert(cols_left.skip(1) =~~= cv.skip(i + 1));
                        match spec_parse_row(next@, cv.skip(i + 1), i + 1) {
                            Ok(tail) => {
                                assert(spec_parse_row(suffix, cols_left, i as int) == Ok::<
                                    SpecEntry,
                                    DecodeError,
                                >(seq![(cols_left[0], value@)] + tail));
                                assert(spec_view_pairs(old_result) + (seq![(cols_left[0], value@)]
                                    + tail) =~~= spec_view_pairs(result@) + tail);
                            },
                            Err(_) => {},
                        }
                    }
                    working = next;
                },
                None => {
                    if i < columns.len() - 1 {
                        // The line ran out before every column got a field.
                        return Err(DecodeError::MalformedRow);
                    }
                    let value = (match Entry::deserialize_value(
                        &working,
                        columns[i].get_type(),
                        i,
                    ) {
                        Ok(v) => v,
                        Err(e) => {
                            return Err(e);
                        },
                    });
                    let ghost old_result = result@;
                    let c = columns[i].clone();
                    result.push((c, value));
                    proof {
                        crate::entry::lemma_view_pairs_push(old_result, (c, value));
                        assert(spec_pair_view((c, value)) == (cols_left[0], value@));
                        assert(spec_parse_row(suffix, cols_left, i as int) == Ok::<
                            SpecEntry,
                            DecodeError,
                        >(seq![(cols_left[0], value@)]));
                        assert(spec_view_pairs(old_result) + seq![(cols_left[0], value@)] =~~=
                            spec_view_pairs(result@));
                        assert(spec_view_pairs(result@) + Seq::<(
                            SpecColumn,
                            SpecValue,
                        )>::empty() =~~= spec_view_pairs(result@));
                    }
                    return Ok(Entry::new(result));
                },
            }
            i = i + 1;
        }
        // Unreachable: the last column always returns inside the loop.
        proof {
            assert(false);
        }
        vstd::pervasive::unreached()
    }
}

impl Table {
    /// Deserialize a table from the given text.
    /// Returns the fully populated table, or the error
    /// [`spec_deserialize`] assigns to the text; no partial table is ever
    /// returned.
    pub fn deserialize(s: String) -> (r: Result<Table, DecodeError>)
        ensures
            (match (r, spec_deserialize(s@)) {
                (Ok(t), Ok(st)) => t@ == st && t.wf(),
                (Err(e), Err(se)) => e == se,
                _ => false,
            }),
    {
        let chars = chars_of(s.as_str());
        if chars.len() == 0 {
            return Err(DecodeError::EmptyInput);
        }
        let lines = split_lines(&chars);
        let ghost linesv = spec_lines(s@);
        proof {
            assert(lines@.map_values(|l: Vec<char>| l@) == linesv);
            assert(lines@.len() == linesv.len());
            crate::text::lemma_lines_len(s@);
            assert(lines@[0]@ == linesv[0]);
        }
        let columns = (match Column::deserialize_columns(&lines[0]) {
            Ok(cols) => cols,
            Err(e) => {
                return Err(e);
            },
        });
        let ghost cv = spec_view_columns(columns@);
        let mut table = (match Table::new(clone_columns(&columns)) {
            Ok(t) => t,
            Err(e) => {
                return Err(DecodeError::Schema(e));
            },
        });
        let mut idx: usize = 1;
        proof {
            assert(table@ == (SpecTable { columns: cv, entries: Seq::<SpecEntry>::empty() }));
        }
        while idx < lines.len()
            invariant
                1 <= idx <= lines@.len(),
                linesv == spec_lines(s@),
                lines@.map_values(|l: Vec<char>| l@) == linesv,
                lines@.len() == linesv.len(),
                cv == spec_view_columns(columns@),
                table.wf(),
                table@.columns == cv,
                spec_deserialize(s@) == spec_replay_lines(linesv.skip(idx as int), table@),
            decreases lines@.len() - idx,
        {
            let ghost tailv = linesv.skip(idx as int);
            proof {
                assert(tailv[0] == linesv[idx as int]);
                assert(lines@[idx as int]@ == linesv[idx as int]);
            }
            if lines[idx].len() == 0 {
                proof {
                    assert(spec_replay_lines(tailv, table@) == Ok::<SpecTable, DecodeError>(
                        table@,
                    ));
                }
                return Ok(table);
            }
            let entry = (match Entry::deserialize_data(&lines[idx], &columns) {
                Ok(e) => e,
                Err(e) => {
                    proof {
                        lemma_parse_row_conforms(linesv[idx as int], cv, 0);
                    }
                    return Err(e);
                },
            });
            let values = entry.get_values();
            let ghost pre_table = table@;
            let ghost ev = entry@;
            proof {
                lemma_parse_row_conforms(linesv[idx as int], cv, 0);
                assert(spec_entry_conforms(ev, cv));
                assert(spec_view_values(values@) == crate::entry::spec_entry_values(ev));
                assert(spec_view_values(values@).len() == ev.len());
                crate::table::lemma_first_mismatch_props(cv, spec_view_values(values@), 0);
                assert(spec_zip_entry(cv, spec_view_values(values@)) =~~= ev);
            }
            let ins = table.insert(values);
            proof {
                assert(tailv.skip(1) =~~= linesv.skip(idx + 1));
            }
            match ins {
                Ok(()) => {},
                Err(e) => {
                    proof {
                        assert(e == InsertError::DuplicateKey);
                    }
                    return Err(DecodeError::Insert(e));
                },
            }
            idx = idx + 1;
        }
        proof {
            assert(linesv.skip(linesv.len() as int) =~~= Seq::<Seq<char>>::empty());
            assert(spec_replay_lines(linesv.skip(linesv.len() as int), table@) == Ok::<
                SpecTable,
                DecodeError,
            >(table@));
        }
        Ok(table)
    }
}

} // verus!
