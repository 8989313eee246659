//! The laws the codec and the mutation API obey, stated and proved over the
//! models: above all, that decoding inverts encoding on every well-formed
//! table the text format can carry.

use crate::column::SpecColumn;
use crate::deserialization::{
    spec_deserialize, spec_parse_column, spec_parse_columns, spec_parse_field, spec_parse_row,
    spec_parse_type, spec_replay_lines, spec_strip_key,
};
use crate::entry::{SpecEntry, spec_key_eq, spec_key_pairs};
use crate::errors::{DecodeError, InsertError};
use crate::serializer::{
    spec_serialize_column, spec_serialize_columns, spec_serialize_entries, spec_serialize_entry,
    spec_serialize_table, spec_serialize_type, spec_serialize_value, spec_value_text,
};
use crate::table::{
    SpecTable, spec_entry_conforms, spec_first_mismatch, spec_insert, spec_table_wf,
    spec_zip_entry,
};
use crate::text::{
    lemma_escape_absent, lemma_escape_comma_guard, lemma_escape_last, lemma_find_char_hit,
    lemma_find_char_none, lemma_find_unescaped_hit, lemma_find_unescaped_none,
    lemma_i32_chars_plain, lemma_parse_i32_chars, lemma_unescape_escape, spec_escape,
    spec_i32_chars, spec_lines, spec_unescaped_at,
};
use crate::types::ColumnType;
use crate::values::{SpecValue, spec_value_type};
use vstd::prelude::*;

verus! {

// ---------------------------------------------------------------------------
// What the text format can carry
// ---------------------------------------------------------------------------

/// Text a value may hold and round-trip: anything without a newline.
pub open spec fn spec_text_ok(s: Seq<char>) -> bool {
    forall|i: int| 0 <= i < s.len() ==> #[trigger] s[i] != '\n'
}

/// A name a column may hold and round-trip: no newline, no quote, and no
/// trailing backslash (which would escape the closing quote).
pub open spec fn spec_name_ok(s: Seq<char>) -> bool {
    &&& forall|i: int| 0 <= i < s.len() ==> #[trigger] s[i] != '\n' && s[i] != '"'
    &&& (s.len() > 0 ==> s.last() != '\\')
}

pub open spec fn spec_value_ok(v: SpecValue) -> bool {
    match v {
        SpecValue::Text(t) => spec_text_ok(t),
        SpecValue::Integer(_) => true,
    }
}

/// A table the text format can carry faithfully: every column name and every
/// text value within the above bounds, and rows only where there are columns
/// (a zero-column table has indistinguishable empty rows).
pub open spec fn spec_codec_safe(t: SpecTable) -> bool {
    &&& forall|i: int| 0 <= i < t.columns.len() ==> spec_name_ok((#[trigger] t.columns[i]).name)
    &&& forall|i: int, j: int|
        0 <= i < t.entries.len() && 0 <= j < t.entries[i].len() ==> spec_value_ok(
            (#[trigger] t.entries[i][j]).1,
        )
    &&& (t.columns.len() > 0 || t.entries.len() == 0)
}

// ---------------------------------------------------------------------------
// Shape of rendered pieces
// ---------------------------------------------------------------------------

/// A rendered value is quoted, keeps commas escaped, and (for carriable
/// values) holds no newline.
proof fn lemma_serialize_value_guard(v: SpecValue)
    ensures
        ({
            let f = spec_serialize_value(v);
            &&& f.len() >= 2
            &&& f[0] == '"'
            &&& f.last() == '"'
            &&& forall|k: int| 0 < k < f.len() && #[trigger] f[k] == ',' ==> f[k - 1] == '\\'
            &&& f[0] != ','
            &&& spec_value_ok(v) ==> forall|k: int| 0 <= k < f.len() ==> #[trigger] f[k] != '\n'
        }),
{
    let text = spec_value_text(v);
    let esc = spec_escape(text);
    let f = spec_serialize_value(v);
    lemma_escape_comma_guard(text);
    assert(f =~= seq!['"'] + esc + seq!['"']);
    assert forall|k: int| 0 < k < f.len() && #[trigger] f[k] == ',' implies f[k - 1] == '\\' by {
        if 1 <= k <= esc.len() {
            assert(f[k] == esc[k - 1]);
            if esc[k - 1] == ',' {
                assert(k - 1 > 0);
                assert(esc[k - 2] == '\\');
                assert(f[k - 1] == esc[k - 2]);
            }
        }
    }
    match v {
        SpecValue::Text(t) => {
            if spec_value_ok(v) {
                lemma_escape_absent(t, '\n');
                assert forall|k: int| 0 <= k < f.len() implies #[trigger] f[k] != '\n' by {
                    if 1 <= k <= esc.len() {
                        assert(f[k] == esc[k - 1]);
                    }
                }
            }
        },
        SpecValue::Integer(i) => {
            lemma_i32_chars_plain(i as int);
            lemma_escape_absent(spec_i32_chars(i as int), '\n');
            assert forall|k: int| 0 <= k < f.len() implies #[trigger] f[k] != '\n' by {
                if 1 <= k <= esc.len() {
                    assert(f[k] == esc[k - 1]);
                }
            }
        },
    }
}

/// A rendered row line is non-empty for a non-empty row, holds no newline
/// for carriable values, and its commas stay as field separators or escaped.
proof fn lemma_serialize_entry_guard(e: SpecEntry)
    requires
        forall|j: int| 0 <= j < e.len() ==> spec_value_ok((#[trigger] e[j]).1),
    ensures
        e.len() > 0 ==> spec_serialize_entry(e).len() >= 2,
        forall|k: int|
            0 <= k < spec_serialize_entry(e).len() ==> #[trigger] spec_serialize_entry(e)[k]
                != '\n',
    decreases e.len(),
{
    if e.len() == 0 {
    } else if e.len() == 1 {
        lemma_serialize_value_guard(e[0].1);
        assert(spec_value_ok(e[0].1));
    } else {
        lemma_serialize_value_guard(e[0].1);
        assert(spec_value_ok(e[0].1));
        assert(forall|j: int| 0 <= j < e.skip(1).len() ==> spec_value_ok((#[trigger] e.skip(1)[j]).1));
        lemma_serialize_entry_guard(e.skip(1));
        let f = spec_serialize_value(e[0].1);
        let rest = spec_serialize_entry(e.skip(1));
        let whole = spec_serialize_entry(e);
        assert(whole == f + seq![','] + rest);
        assert forall|k: int| 0 <= k < whole.len() implies #[trigger] whole[k] != '\n' by {
            if k < f.len() {
                assert(whole[k] == f[k]);
            } else if k == f.len() {
                assert(whole[k] == ',');
            } else {
                assert(whole[k] == rest[k - f.len() - 1]);
            }
        }
    }
}

/// A rendered column descriptor is non-empty, starts with a letter of its
/// marker or tag, and holds no newline for a carriable name.
proof fn lemma_serialize_column_guard(c: SpecColumn)
    requires
        spec_name_ok(c.name),
    ensures
        ({
            let sc = spec_serialize_column(c);
            &&& sc.len() >= 6
            &&& (sc[0] == 'k' || sc[0] == 'i' || sc[0] == 's')
            &&& forall|k: int| 0 <= k < sc.len() ==> #[trigger] sc[k] != '\n'
        }),
{
    let sc = spec_serialize_column(c);
    let key_part = (if c.is_key {
        seq!['k', 'e', 'y', ' ']
    } else {
        Seq::<char>::empty()
    });
    let tag = spec_serialize_type(c.column_type);
    let esc = spec_escape(c.name);
    lemma_escape_comma_guard(c.name);
    lemma_escape_absent(c.name, '\n');
    assert(sc =~= key_part + tag + seq![' ', '"'] + esc + seq!['"']);
    let head = key_part + tag + seq![' ', '"'];
    assert forall|k: int| 0 <= k < sc.len() implies #[trigger] sc[k] != '\n' by {
        if k < head.len() {
            assert(sc[k] == head[k]);
        } else if k < head.len() + esc.len() {
            assert(sc[k] == esc[k - head.len()]);
        } else {
            assert(sc[k] == '"');
        }
    }
}

/// A rendered header holds no newline when every name is carriable.
proof fn lemma_serialize_columns_guard(cols: Seq<SpecColumn>)
    requires
        forall|i: int| 0 <= i < cols.len() ==> spec_name_ok((#[trigger] cols[i]).name),
    ensures
        forall|k: int|
            0 <= k < spec_serialize_columns(cols).len() ==> #[trigger] spec_serialize_columns(
                cols,
            )[k] != '\n',
    decreases cols.len(),
{
    if cols.len() == 0 {
    } else if cols.len() == 1 {
        lemma_serialize_column_guard(cols[0]);
    } else {
        lemma_serialize_column_guard(cols[0]);
        assert(forall|i: int|
            0 <= i < cols.skip(1).len() ==> spec_name_ok((#[trigger] cols.skip(1)[i]).name));
        lemma_serialize_columns_guard(cols.skip(1));
        let sc = spec_serialize_column(cols[0]);
        let rest = spec_serialize_columns(cols.skip(1));
        let whole = spec_serialize_columns(cols);
        assert(whole == sc + seq![','] + rest);
        assert forall|k: int| 0 <= k < whole.len() implies #[trigger] whole[k] != '\n' by {
            if k < sc.len() {
                assert(whole[k] == sc[k]);
            } else if k == sc.len() {
                assert(whole[k] == ',');
            } else {
                assert(whole[k] == rest[k - sc.len() - 1]);
            }
        }
    }
}

// ---------------------------------------------------------------------------
// The parser inverts the renderer, piece by piece
// ---------------------------------------------------------------------------

/// Parsing a rendered descriptor returns the column and leaves the rest.
proof fn lemma_parse_rendered_column(c: SpecColumn, r: Seq<char>)
    requires
        spec_name_ok(c.name),
    ensures
        spec_parse_column(spec_serialize_column(c) + r) == Ok::<
            (SpecColumn, Seq<char>),
            DecodeError,
        >((c, r)),
{
    let key_part = (if c.is_key {
        seq!['k', 'e', 'y', ' ']
    } else {
        Seq::<char>::empty()
    });
    let tag = spec_serialize_type(c.column_type);
    let esc = spec_escape(c.name);
    let sc = spec_serialize_column(c);
    let s = sc + r;
    let after_key = tag + seq![' ', '"'] + esc + seq!['"'] + r;
    assert(s =~= key_part + after_key);
    lemma_escape_comma_guard(c.name);
    lemma_escape_absent(c.name, '"');

    // The optional key marker is recognized exactly for key columns.
    if c.is_key {
        assert(s.subrange(0, 4) =~= seq!['k', 'e', 'y', ' ']);
        assert(s.skip(4) =~= after_key);
    } else {
        assert(s =~= after_key);
        assert(s[0] == tag[0]);
        if s.len() >= 4 && s.subrange(0, 4) == seq!['k', 'e', 'y', ' '] {
            assert(s.subrange(0, 4)[0] == s[0]);
            assert(false);
        }
    }
    let (is_key, s1) = spec_strip_key(s);
    assert(is_key == c.is_key);
    assert(s1 == after_key);

    // The type tag is consumed together with its space.
    let s2 = seq!['"'] + esc + seq!['"'] + r;
    match c.column_type {
        ColumnType::Integer => {
            assert(s1.subrange(0, 4) =~= seq!['i', 'n', 't', ' ']);
            assert(s1.skip(4) =~= s2);
        },
        ColumnType::Text => {
            assert(s1.subrange(0, 4) =~= seq!['s', 't', 'r', ' ']);
            if s1.len() >= 4 && s1.subrange(0, 4) == seq!['i', 'n', 't', ' '] {
                assert(s1.subrange(0, 4)[0] == 's');
                assert(false);
            }
            assert(s1.skip(4) =~= s2);
        },
    }
    assert(spec_parse_type(s1) == Ok::<(ColumnType, Seq<char>), DecodeError>(
        (c.column_type, s2),
    ));

    // The name runs to the first unescaped quote: the closing one.
    assert(s2[0] == '"');
    let s3 = s2.skip(1);
    assert(s3 =~= esc + seq!['"'] + r);
    let q = esc.len() as int;
    assert(s3[q] == '"');
    if q > 0 {
        lemma_escape_last(c.name);
        assert(s3[q - 1] == esc.last());
        assert(esc.last() != '\\');
    }
    assert(spec_unescaped_at(s3, '"', q));
    assert forall|k: int| 0 <= k < q implies !spec_unescaped_at(s3, '"', k) by {
        assert(s3[k] == esc[k]);
    }
    lemma_find_unescaped_hit(s3, '"', 0, q);
    assert(s3.subrange(0, q) =~= esc);
    lemma_unescape_escape(c.name);
    assert(s3.skip(q + 1) =~= r);
    assert((SpecColumn { is_key, name: crate::text::spec_unescape(esc), column_type: c.column_type })
        =~= c);
}

/// Parsing a rendered header returns exactly the columns.
proof fn lemma_parse_rendered_header(cols: Seq<SpecColumn>)
    requires
        forall|i: int| 0 <= i < cols.len() ==> spec_name_ok((#[trigger] cols[i]).name),
    ensures
        spec_parse_columns(spec_serialize_columns(cols)) == Ok::<Seq<SpecColumn>, DecodeError>(
            cols,
        ),
    decreases cols.len(),
{
    let whole = spec_serialize_columns(cols);
    if cols.len() == 0 {
        assert(cols =~= Seq::<SpecColumn>::empty());
    } else if cols.len() == 1 {
        lemma_serialize_column_guard(cols[0]);
        assert(whole == spec_serialize_column(cols[0]));
        assert(whole =~= spec_serialize_column(cols[0]) + Seq::<char>::empty());
        lemma_parse_rendered_column(cols[0], Seq::<char>::empty());
        assert(whole.len() >= 6);
        assert(whole[0] != ',');
        assert(spec_parse_column(whole) == Ok::<(SpecColumn, Seq<char>), DecodeError>(
            (cols[0], Seq::<char>::empty()),
        ));
        assert(spec_parse_columns(Seq::<char>::empty()) == Ok::<Seq<SpecColumn>, DecodeError>(
            Seq::<SpecColumn>::empty(),
        ));
        assert(seq![cols[0]] + Seq::<SpecColumn>::empty() =~= cols);
    } else {
        let rest_cols = cols.skip(1);
        assert(forall|i: int|
            0 <= i < rest_cols.len() ==> spec_name_ok((#[trigger] rest_cols[i]).name));
        lemma_parse_rendered_header(rest_cols);
        lemma_serialize_column_guard(cols[0]);
        lemma_serialize_column_guard(cols[1]);
        let sc = spec_serialize_column(cols[0]);
        let tail = spec_serialize_columns(rest_cols);
        assert(whole == sc + seq![','] + tail);
        let r = seq![','] + tail;
        assert(whole =~= sc + r);
        lemma_parse_rendered_column(cols[0], r);
        assert(whole.len() > 0);
        assert(whole[0] == sc[0]);
        assert(whole[0] != ',');
        assert(spec_parse_column(whole) == Ok::<(SpecColumn, Seq<char>), DecodeError>(
            (cols[0], r),
        ));
        // The remainder starts with the separating comma; stripping it
        // leaves the rendered tail, whose parse the induction gives.
        assert(r[0] == ',');
        assert(r.len() > 0);
        assert(r.skip(1) =~= tail);
        // The tail is non-empty and starts with a descriptor, not a comma.
        assert(tail == (if rest_cols.len() == 1 {
            spec_serialize_column(rest_cols[0])
        } else {
            spec_serialize_column(rest_cols[0]) + seq![','] + spec_serialize_columns(
                rest_cols.skip(1),
            )
        }));
        assert(rest_cols[0] == cols[1]);
        assert(tail.len() > 0 && tail[0] == spec_serialize_column(cols[1])[0]);
        assert(tail[0] != ',');
        assert(spec_parse_columns(r) == spec_parse_columns(tail));
        assert(spec_parse_columns(whole) == Ok::<Seq<SpecColumn>, DecodeError>(
            seq![cols[0]] + rest_cols,
        ));
        assert(seq![cols[0]] + rest_cols =~= cols);
    }
}

/// Parsing one rendered field returns the value.
proof fn lemma_parse_rendered_field(v: SpecValue, idx: int)
    requires
        spec_value_ok(v),
    ensures
        spec_parse_field(spec_serialize_value(v), spec_value_type(v), idx) == Ok::<
            SpecValue,
            DecodeError,
        >(v),
{
    let text = spec_value_text(v);
    let esc = spec_escape(text);
    let f = spec_serialize_value(v);
    lemma_serialize_value_guard(v);
    assert(f =~= seq!['"'] + esc + seq!['"']);
    assert(f.subrange(1, f.len() - 1) =~= esc);
    lemma_unescape_escape(text);
    match v {
        SpecValue::Text(t) => {},
        SpecValue::Integer(i) => {
            lemma_parse_i32_chars(i as int);
        },
    }
}

/// Within a rendered field no comma stands unescaped, also when more text
/// follows.
proof fn lemma_field_no_unescaped_comma(v: SpecValue, tail: Seq<char>)
    ensures
        ({
            let s = spec_serialize_value(v) + tail;
            forall|k: int| 0 <= k < spec_serialize_value(v).len() ==> !spec_unescaped_at(
                s,
                ',',
                k,
            )
        }),
{
    let f = spec_serialize_value(v);
    let s = f + tail;
    lemma_serialize_value_guard(v);
    assert forall|k: int| 0 <= k < f.len() implies !spec_unescaped_at(s, ',', k) by {
        assert(s[k] == f[k]);
        if s[k] == ',' {
            assert(k > 0);
            assert(f[k - 1] == '\\');
            assert(s[k - 1] == '\\');
        }
    }
}

/// Parsing a rendered row line against the row's own columns returns the
/// row.
proof fn lemma_parse_rendered_row(e: SpecEntry, cols: Seq<SpecColumn>, idx: int)
    requires
        spec_entry_conforms(e, cols),
        e.len() > 0,
        forall|j: int| 0 <= j < e.len() ==> spec_value_ok((#[trigger] e[j]).1),
    ensures
        spec_parse_row(spec_serialize_entry(e), cols, idx) == Ok::<SpecEntry, DecodeError>(e),
    decreases e.len(),
{
    let line = spec_serialize_entry(e);
    let f = spec_serialize_value(e[0].1);
    lemma_serialize_value_guard(e[0].1);
    if e.len() == 1 {
        assert(line == f);
        lemma_field_no_unescaped_comma(e[0].1, Seq::<char>::empty());
        assert(f + Seq::<char>::empty() =~= f);
        assert(forall|k: int| !spec_unescaped_at(line, ',', k));
        lemma_find_unescaped_none(line, ',', 0);
        lemma_parse_rendered_field(e[0].1, idx);
        assert(spec_value_type(e[0].1) == cols[0].column_type);
        assert(seq![(cols[0], e[0].1)] =~= e);
        assert((cols[0], e[0].1) == e[0]);
    } else {
        let rest = spec_serialize_entry(e.skip(1));
        assert(line == f + seq![','] + rest);
        let tail = seq![','] + rest;
        assert(line =~= f + tail);
        lemma_field_no_unescaped_comma(e[0].1, tail);
        let p = f.len() as int;
        assert(line[p] == ',');
        assert(line[p - 1] == f.last());
        assert(spec_unescaped_at(line, ',', p));
        lemma_find_unescaped_hit(line, ',', 0, p);
        assert(line.subrange(0, p) =~= f);
        lemma_parse_rendered_field(e[0].1, idx);
        assert(spec_value_type(e[0].1) == cols[0].column_type);
        assert(line.skip(p + 1) =~= rest);
        assert(spec_entry_conforms(e, cols));
        assert forall|j: int| 0 <= j < e.skip(1).len() implies (#[trigger] e.skip(1)[j]).0
            == cols.skip(1)[j] && spec_value_type(e.skip(1)[j].1) == cols.skip(
            1,
        )[j].column_type by {
            assert(e.skip(1)[j] == e[j + 1]);
            assert(cols.skip(1)[j] == cols[j + 1]);
        }
        assert(spec_entry_conforms(e.skip(1), cols.skip(1)));
        assert(forall|j: int|
            0 <= j < e.skip(1).len() ==> spec_value_ok((#[trigger] e.skip(1)[j]).1));
        lemma_parse_rendered_row(e.skip(1), cols.skip(1), idx + 1);
        assert((cols[0], e[0].1) == e[0]);
        assert(seq![e[0]] + e.skip(1) =~= e);
    }
}

// ---------------------------------------------------------------------------
// Line structure of the rendered blob
// ---------------------------------------------------------------------------

/// Splitting after a newline-free prefix takes the prefix as the first line.
proof fn lemma_lines_concat(a: Seq<char>, b: Seq<char>)
    requires
        forall|k: int| 0 <= k < a.len() ==> #[trigger] a[k] != '\n',
    ensures
        spec_lines(a + seq!['\n'] + b) == seq![a] + spec_lines(b),
{
    let s = a + seq!['\n'] + b;
    assert(s =~= a + (seq!['\n'] + b));
    assert(s[a.len() as int] == '\n');
    assert forall|k: int| 0 <= k < a.len() implies s[k] != '\n' by {
        assert(s[k] == a[k]);
    }
    lemma_find_char_hit(s, '\n', 0, a.len() as int);
    assert(s.subrange(0, a.len() as int) =~= a);
    assert(s.skip(a.len() as int + 1) =~= b);
}

/// The lines of a rendered row block: one line per row, then one empty line.
proof fn lemma_lines_of_entries(es: Seq<SpecEntry>)
    requires
        forall|i: int, j: int|
            0 <= i < es.len() && 0 <= j < es[i].len() ==> spec_value_ok((#[trigger] es[i][j]).1),
    ensures
        ({
            let lines = spec_lines(spec_serialize_entries(es));
            &&& lines.len() == es.len() + 1
            &&& forall|i: int|
                0 <= i < es.len() ==> #[trigger] lines[i] == spec_serialize_entry(es[i])
            &&& lines[es.len() as int] == Seq::<char>::empty()
        }),
    decreases es.len(),
{
    let whole = spec_serialize_entries(es);
    let lines = spec_lines(whole);
    if es.len() == 0 {
        assert(whole == Seq::<char>::empty());
        lemma_find_char_none(whole, '\n', 0);
        assert(lines == seq![whole]);
    } else {
        let rest = es.skip(1);
        assert(forall|i: int, j: int|
            0 <= i < rest.len() && 0 <= j < rest[i].len() ==> spec_value_ok(
                (#[trigger] rest[i][j]).1,
            ));
        lemma_lines_of_entries(rest);
        assert(forall|j: int| 0 <= j < es[0].len() ==> spec_value_ok((#[trigger] es[0][j]).1));
        lemma_serialize_entry_guard(es[0]);
        assert(whole == spec_serialize_entry(es[0]) + seq!['\n'] + spec_serialize_entries(rest));
        lemma_lines_concat(spec_serialize_entry(es[0]), spec_serialize_entries(rest));
        let rlines = spec_lines(spec_serialize_entries(rest));
        assert(lines == seq![spec_serialize_entry(es[0])] + rlines);
        assert forall|i: int|
            0 <= i < es.len() implies #[trigger] lines[i] == spec_serialize_entry(es[i]) by {
            if i > 0 {
                assert(lines[i] == rlines[i - 1]);
                assert(rlines[i - 1] == spec_serialize_entry(rest[i - 1]));
                assert(rest[i - 1] == es[i]);
            }
        }
        assert(lines[es.len() as int] == rlines[rest.len() as int]);
    }
}

// ---------------------------------------------------------------------------
// Replaying the rendered rows
// ---------------------------------------------------------------------------

/// Replaying the rendered rows of a well-formed table, from position `k` on,
/// rebuilds the table: every row parses back to itself and never collides
/// with an earlier row.
proof fn lemma_replay_rendered_rows(t: SpecTable, lines: Seq<Seq<char>>, k: int)
    requires
        spec_table_wf(t),
        spec_codec_safe(t),
        t.columns.len() > 0,
        0 <= k <= t.entries.len(),
        lines.len() == t.entries.len() - k + 1,
        forall|i: int|
            0 <= i < t.entries.len() - k ==> #[trigger] lines[i] == spec_serialize_entry(
                t.entries[k + i],
            ),
        lines.last() == Seq::<char>::empty(),
    ensures
        spec_replay_lines(
            lines,
            SpecTable { columns: t.columns, entries: t.entries.subrange(0, k) },
        ) == Ok::<SpecTable, DecodeError>(t),
    decreases t.entries.len() - k,
{
    let acc = SpecTable { columns: t.columns, entries: t.entries.subrange(0, k) };
    if k == t.entries.len() {
        assert(lines[0] == Seq::<char>::empty());
        assert(acc =~= t);
    } else {
        let e = t.entries[k];
        assert(lines[0] == spec_serialize_entry(e));
        assert(spec_entry_conforms(e, t.columns));
        assert(e.len() == t.columns.len() > 0);
        assert(forall|j: int| 0 <= j < e.len() ==> spec_value_ok((#[trigger] e[j]).1));
        lemma_serialize_entry_guard(e);
        assert(lines[0].len() >= 2);
        lemma_parse_rendered_row(e, t.columns, 0);
        // No earlier row is key-equal to this one.
        assert forall|j: int| 0 <= j < acc.entries.len() implies !spec_key_eq(
            #[trigger] acc.entries[j],
            e,
        ) by {
            assert(acc.entries[j] == t.entries[j]);
            assert(!spec_key_eq(t.entries[j], t.entries[k as int]));
        }
        assert(t.entries.subrange(0, k).push(e) =~= t.entries.subrange(0, k + 1));
        lemma_replay_rendered_rows(t, lines.skip(1), k + 1);
        assert(lines.skip(1).last() == lines.last());
        assert(spec_replay_lines(lines, acc) == spec_replay_lines(
            lines.skip(1),
            SpecTable { columns: t.columns, entries: t.entries.subrange(0, k + 1) },
        ));
    }
}

// ---------------------------------------------------------------------------
// The laws
// ---------------------------------------------------------------------------

/// Round trip: decoding inverts encoding on every well-formed table whose
/// names and text values the format can carry.  Together with the contracts
/// of `Table::serialize` and `Table::deserialize` this pins the executable
/// pair down as inverses on such tables.
pub proof fn lemma_serialize_then_deserialize(t: SpecTable)
    requires
        spec_table_wf(t),
        spec_codec_safe(t),
    ensures
        spec_deserialize(spec_serialize_table(t)) == Ok::<SpecTable, DecodeError>(t),
{
    let header = spec_serialize_columns(t.columns);
    let rows = spec_serialize_entries(t.entries);
    let s = spec_serialize_table(t);
    assert(s =~= header + seq!['\n'] + rows);
    assert(s.len() > 0);
    lemma_serialize_columns_guard(t.columns);
    lemma_lines_concat(header, rows);
    let lines = spec_lines(s);
    assert(lines == seq![header] + spec_lines(rows));
    lemma_lines_of_entries(t.entries);
    let rlines = spec_lines(rows);
    assert(lines[0] == header);
    lemma_parse_rendered_header(t.columns);
    assert(spec_parse_columns(lines[0]) == Ok::<Seq<SpecColumn>, DecodeError>(t.columns));
    assert(lines.skip(1) =~= rlines);
    if t.columns.len() == 0 {
        // No columns means no rows; the one empty line ends the replay.
        assert(t.entries.len() == 0);
        assert(rlines[0] == Seq::<char>::empty());
        assert(spec_replay_lines(
            rlines,
            SpecTable { columns: t.columns, entries: Seq::<SpecEntry>::empty() },
        ) == Ok::<SpecTable, DecodeError>(
            SpecTable { columns: t.columns, entries: Seq::<SpecEntry>::empty() },
        ));
        assert((SpecTable { columns: t.columns, entries: Seq::<SpecEntry>::empty() }) =~= t);
    } else {
        assert(t.entries.subrange(0, 0) =~= Seq::<SpecEntry>::empty());
        lemma_replay_rendered_rows(t, rlines, 0);
        assert(spec_replay_lines(
            rlines,
            SpecTable { columns: t.columns, entries: Seq::<SpecEntry>::empty() },
        ) == Ok::<SpecTable, DecodeError>(t));
    }
}

/// The key projection of a row whose columns all lack the key flag is empty.
proof fn lemma_key_pairs_none(e: SpecEntry)
    requires
        forall|i: int| 0 <= i < e.len() ==> !(#[trigger] e[i]).0.is_key,
    ensures
        spec_key_pairs(e).len() == 0,
    decreases e.len(),
{
    reveal_with_fuel(Seq::filter, 2);
    if e.len() > 0 {
        assert(forall|i: int|
            0 <= i < e.drop_last().len() ==> !(#[trigger] e.drop_last()[i]).0.is_key);
        lemma_key_pairs_none(e.drop_last());
        assert(!e.last().0.is_key);
    }
}

/// A table without key columns never rejects an insertion on key-uniqueness
/// grounds: whatever values are offered, the result is not a duplicate-key
/// error.
pub proof fn lemma_no_key_columns_no_duplicate(t: SpecTable, vals: Seq<SpecValue>)
    requires
        spec_table_wf(t),
        forall|i: int| 0 <= i < t.columns.len() ==> !(#[trigger] t.columns[i]).is_key,
    ensures
        spec_insert(t, vals) != Err::<SpecTable, InsertError>(InsertError::DuplicateKey),
{
    if vals.len() == t.columns.len() && spec_first_mismatch(t.columns, vals, 0)
        >= t.columns.len() {
        let cand = spec_zip_entry(t.columns, vals);
        assert forall|j: int|
            0 <= j < t.entries.len() implies !spec_key_eq(#[trigger] t.entries[j], cand) by {
            let ej = t.entries[j];
            assert(spec_entry_conforms(ej, t.columns));
            assert(forall|i: int| 0 <= i < ej.len() ==> !(#[trigger] ej[i]).0.is_key);
            lemma_key_pairs_none(ej);
        }
    }
}

} // verus!
