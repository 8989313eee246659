//! The encoder: one header line of comma-joined column descriptors, then one
//! line per row of comma-joined quoted values, each line newline-terminated.

use crate::column::{Column, SpecColumn, spec_view_columns};
use crate::entry::{Entry, SpecEntry, spec_pair_view};
use crate::table::{SpecTable, Table, spec_view_entries};
use crate::text::{
    append_escaped, push_char, push_i32_chars, spec_escape, spec_i32_chars,
};
use crate::types::ColumnType;
use crate::values::{SpecValue, Value};
use vstd::prelude::*;
use vstd::string::*;

verus! {

/// A component of the text format, with its rendering pinned down by a spec
/// function.
pub trait Serializable {
    /// The exact text this component renders to.
    spec fn spec_serialize(&self) -> Seq<char>;

    /// Renders this component.
    fn serialize(&self) -> (r: String)
        ensures
            r@ == self.spec_serialize(),
    ;
}

/// The tag of a column type: `int` or `str`.
pub open spec fn spec_serialize_type(t: ColumnType) -> Seq<char> {
    match t {
        ColumnType::Integer => seq!['i', 'n', 't'],
        ColumnType::Text => seq!['s', 't', 'r'],
    }
}

/// The raw text of a value: the text itself, or the decimal rendering of the
/// integer.
pub open spec fn spec_value_text(v: SpecValue) -> Seq<char> {
    match v {
        SpecValue::Text(s) => s,
        SpecValue::Integer(i) => spec_i32_chars(i as int),
    }
}

/// A rendered value: the escaped raw text in quotes.
pub open spec fn spec_serialize_value(v: SpecValue) -> Seq<char> {
    seq!['"'] + spec_escape(spec_value_text(v)) + seq!['"']
}

/// A rendered column descriptor: an optional `key ` marker, the type tag, a
/// space, and the escaped name in quotes.
pub open spec fn spec_serialize_column(c: SpecColumn) -> Seq<char> {
    (if c.is_key {
        seq!['k', 'e', 'y', ' ']
    } else {
        Seq::<char>::empty()
    }) + spec_serialize_type(c.column_type) + seq![' ', '"'] + spec_escape(c.name) + seq!['"']
}

/// The header: the column descriptors joined with commas.
pub open spec fn spec_serialize_columns(cols: Seq<SpecColumn>) -> Seq<char>
    decreases cols.len(),
{
    if cols.len() == 0 {
        Seq::<char>::empty()
    } else if cols.len() == 1 {
        spec_serialize_column(cols[0])
    } else {
        spec_serialize_column(cols[0]) + seq![','] + spec_serialize_columns(cols.skip(1))
    }
}

/// A row line: the rendered values joined with commas.
pub open spec fn spec_serialize_entry(e: SpecEntry) -> Seq<char>
    decreases e.len(),
{
    if e.len() == 0 {
        Seq::<char>::empty()
    } else if e.len() == 1 {
        spec_serialize_value(e[0].1)
    } else {
        spec_serialize_value(e[0].1) + seq![','] + spec_serialize_entry(e.skip(1))
    }
}

/// The row block: each row line followed by a newline.
pub open spec fn spec_serialize_entries(es: Seq<SpecEntry>) -> Seq<char>
    decreases es.len(),
{
    if es.len() == 0 {
        Seq::<char>::empty()
    } else {
        spec_serialize_entry(es[0]) + seq!['\n'] + spec_serialize_entries(es.skip(1))
    }
}

/// The whole blob: the header, a newline, and the row block.
pub open spec fn spec_serialize_table(t: SpecTable) -> Seq<char> {
    spec_serialize_columns(t.columns) + seq!['\n'] + spec_serialize_entries(t.entries)
}

// ---------------------------------------------------------------------------
// Snoc lemmas: how the joins grow at the back, matching the loops below
// ---------------------------------------------------------------------------

/// The header of one more column.
pub proof fn lemma_serialize_columns_snoc(cols: Seq<SpecColumn>, c: SpecColumn)
    ensures
        spec_serialize_columns(cols.push(c)) == (if cols.len() == 0 {
            spec_serialize_column(c)
        } else {
            spec_serialize_columns(cols) + seq![','] + spec_serialize_column(c)
        }),
    decreases cols.len(),
{
    let cur = cols.push(c);
    if cols.len() == 0 {
        assert(cur.len() == 1 && cur[0] == c);
    } else {
        assert(cur.skip(1) =~~= cols.skip(1).push(c));
        lemma_serialize_columns_snoc(cols.skip(1), c);
        assert(cur[0] == cols[0]);
        if cols.len() == 1 {
            assert(spec_serialize_columns(cur) =~~= spec_serialize_columns(cols) + seq![',']
                + spec_serialize_column(c));
        } else {
            assert(spec_serialize_columns(cur) =~~= spec_serialize_columns(cols) + seq![',']
                + spec_serialize_column(c));
        }
    }
}

/// The row line of one more value.
pub proof fn lemma_serialize_entry_snoc(e: SpecEntry, p: (SpecColumn, SpecValue))
    ensures
        spec_serialize_entry(e.push(p)) == (if e.len() == 0 {
            spec_serialize_value(p.1)
        } else {
            spec_serialize_entry(e) + seq![','] + spec_serialize_value(p.1)
        }),
    decreases e.len(),
{
    let cur = e.push(p);
    if e.len() == 0 {
        assert(cur.len() == 1 && cur[0] == p);
    } else {
        assert(cur.skip(1) =~~= e.skip(1).push(p));
        lemma_serialize_entry_snoc(e.skip(1), p);
        assert(cur[0] == e[0]);
        assert(spec_serialize_entry(cur) =~~= spec_serialize_entry(e) + seq![',']
            + spec_serialize_value(p.1));
    }
}

/// The row block of one more row.
pub proof fn lemma_serialize_entries_snoc(es: Seq<SpecEntry>, e: SpecEntry)
    ensures
        spec_serialize_entries(es.push(e)) == spec_serialize_entries(es) + spec_serialize_entry(e)
            + seq!['\n'],
    decreases es.len(),
{
    reveal_with_fuel(spec_serialize_entries, 3);
    let cur = es.push(e);
    if es.len() == 0 {
        assert(cur[0] == e);
        assert(cur.skip(1) =~~= Seq::<SpecEntry>::empty());
        assert(spec_serialize_entries(cur) =~~= spec_serialize_entries(es)
            + spec_serialize_entry(e) + seq!['\n']);
    } else {
        assert(cur.skip(1) =~~= es.skip(1).push(e));
        lemma_serialize_entries_snoc(es.skip(1), e);
        assert(cur[0] == es[0]);
        assert(spec_serialize_entries(cur) =~~= spec_serialize_entries(es)
            + spec_serialize_entry(e) + seq!['\n']);
    }
}

// ---------------------------------------------------------------------------
// Executable rendering
// ---------------------------------------------------------------------------

/// The escaped form of `s`: every comma gains a backslash in front.
fn escape(s: &str) -> (r: String)
    ensures
        r@ == spec_escape(s@),
{
    let mut r = String::new();
    append_escaped(&mut r, s);
    proof {
        assert(r@ =~~= spec_escape(s@));
    }
    r
}

/// The escaped form of `s`, surrounded with quotes.
fn escape_and_surround(s: &str) -> (r: String)
    ensures
        r@ == seq!['"'] + spec_escape(s@) + seq!['"'],
{
    let mut r = String::new();
    push_char(&mut r, '"');
    let escaped = escape(s);
    r.append(escaped.as_str());
    push_char(&mut r, '"');
    proof {
        assert(r@ =~~= seq!['"'] + spec_escape(s@) + seq!['"']);
    }
    r
}

impl Serializable for ColumnType {
    open spec fn spec_serialize(&self) -> Seq<char> {
        spec_serialize_type(*self)
    }

    fn serialize(&self) -> (r: String)
        ensures
            r@ == self.spec_serialize(),
    {
        let mut r = String::new();
        match self {
            ColumnType::Integer => {
                push_char(&mut r, 'i');
                push_char(&mut r, 'n');
                push_char(&mut r, 't');
            },
            ColumnType::Text => {
                push_char(&mut r, 's');
                push_char(&mut r, 't');
                push_char(&mut r, 'r');
            },
        }
        proof {
            assert(r@ =~~= spec_serialize_type(*self));
        }
        r
    }
}

impl Serializable for Value {
    open spec fn spec_serialize(&self) -> Seq<char> {
        spec_serialize_value(self@)
    }

    fn serialize(&self) -> (r: String)
        ensures
            r@ == self.spec_serialize(),
    {
        match self {
            Value::Text(s) => {
                let r = escape_and_surround(s.as_str());
                proof {
                    assert(r@ =~~= spec_serialize_value(self@));
                }
                r
            },
            Value::Integer(i) => {
                let mut text = String::new();
                push_i32_chars(&mut text, *i);
                let r = escape_and_surround(text.as_str());
                proof {
                    assert(r@ =~~= spec_serialize_value(self@));
                }
                r
            },
        }
    }
}

impl Serializable for Column {
    open spec fn spec_serialize(&self) -> Seq<char> {
        spec_serialize_column(self@)
    }

    fn serialize(&self) -> (r: String)
        ensures
            r@ == self.spec_serialize(),
    {
        let mut r = String::new();
        if self.is_key {
            push_char(&mut r, 'k');
            push_char(&mut r, 'e');
            push_char(&mut r, 'y');
            push_char(&mut r, ' ');
        }
        let tag = self.column_type.serialize();
        r.append(tag.as_str());
        push_char(&mut r, ' ');
        push_char(&mut r, '"');
        append_escaped(&mut r, self.name.as_str());
        push_char(&mut r, '"');
        proof {
            assert(r@ =~~= spec_serialize_column(self@));
        }
        r
    }
}

impl Serializable for Vec<Column> {
    open spec fn spec_serialize(&self) -> Seq<char> {
        spec_serialize_columns(spec_view_columns(self@))
    }

    fn serialize(&self) -> (r: String)
        ensures
            r@ == self.spec_serialize(),
    {
        let ghost cv = spec_view_columns(self@);
        let mut r = String::new();
        let mut i: usize = 0;
        proof {
            assert(cv.subrange(0, 0) =~~= Seq::<SpecColumn>::empty());
            assert(r@ =~~= spec_serialize_columns(cv.subrange(0, 0)));
        }
        while i < self.len()
            invariant
                i <= self@.len(),
                cv == spec_view_columns(self@),
                cv.len() == self@.len(),
                r@ == spec_serialize_columns(cv.subrange(0, i as int)),
            decreases self@.len() - i,
        {
            if i > 0 {
                push_char(&mut r, ',');
            }
            let part = self[i].serialize();
            r.append(part.as_str());
            proof {
                assert(cv.subrange(0, i + 1) =~~= cv.subrange(0, i as int).push(cv[i as int]));
                lemma_serialize_columns_snoc(cv.subrange(0, i as int), cv[i as int]);
                assert(self@[i as int]@ == cv[i as int]);
                assert(r@ =~~= spec_serialize_columns(cv.subrange(0, i + 1)));
            }
            i = i + 1;
        }
        proof {
            assert(cv.subrange(0, cv.len() as int) =~~= cv);
        }
        r
    }
}

impl Serializable for Entry {
    open spec fn spec_serialize(&self) -> Seq<char> {
        spec_serialize_entry(self@)
    }

    fn serialize(&self) -> (r: String)
        ensures
            r@ == self.spec_serialize(),
    {
        let ghost ev = self@;
        let mut r = String::new();
        let mut i: usize = 0;
        proof {
            self.lemma_view_parts();
            assert(r@ =~~= spec_serialize_entry(ev.subrange(0, 0)));
        }
        while i < self.values.len()
            invariant
                i <= self.values@.len(),
                ev == self@,
                ev.len() == self.values@.len(),
                r@ == spec_serialize_entry(ev.subrange(0, i as int)),
            decreases self.values@.len() - i,
        {
            if i > 0 {
                push_char(&mut r, ',');
            }
            let part = self.values[i].1.serialize();
            r.append(part.as_str());
            proof {
                self.lemma_view_parts();
                assert(ev.subrange(0, i + 1) =~~= ev.subrange(0, i as int).push(ev[i as int]));
                lemma_serialize_entry_snoc(ev.subrange(0, i as int), ev[i as int]);
                assert(ev[i as int] == spec_pair_view(self.values@[i as int]));
                assert(r@ =~~= spec_serialize_entry(ev.subrange(0, i + 1)));
            }
            i = i + 1;
        }
        proof {
            assert(ev.subrange(0, ev.len() as int) =~~= ev);
        }
        r
    }
}

impl Serializable for Vec<Entry> {
    open spec fn spec_serialize(&self) -> Seq<char> {
        spec_serialize_entries(spec_view_entries(self@))
    }

    fn serialize(&self) -> (r: String)
        ensures
            r@ == self.spec_serialize(),
    {
        let ghost esv = spec_view_entries(self@);
        let mut r = String::new();
        let mut i: usize = 0;
        proof {
            assert(esv.subrange(0, 0) =~~= Seq::<SpecEntry>::empty());
            assert(r@ =~~= spec_serialize_entries(esv.subrange(0, 0)));
        }
        while i < self.len()
            invariant
                i <= self@.len(),
                esv == spec_view_entries(self@),
                esv.len() == self@.len(),
                r@ == spec_serialize_entries(esv.subrange(0, i as int)),
            decreases self@.len() - i,
        {
            let part = self[i].serialize();
            r.append(part.as_str());
            push_char(&mut r, '\n');
            proof {
                assert(esv.subrange(0, i + 1) =~~= esv.subrange(0, i as int).push(esv[i as int]));
                lemma_serialize_entries_snoc(esv.subrange(0, i as int), esv[i as int]);
                assert(self@[i as int]@ == esv[i as int]);
                assert(r@ =~~= spec_serialize_entries(esv.subrange(0, i + 1)));
            }
            i = i + 1;
        }
        proof {
            assert(esv.subrange(0, esv.len() as int) =~~= esv);
        }
        r
    }
}

impl Serializable for Table {
    open spec fn spec_serialize(&self) -> Seq<char> {
        spec_serialize_table(self@)
    }

    fn serialize(&self) -> (r: String)
        ensures
            r@ == self.spec_serialize(),
    {
        proof {
            self.lemma_view_parts();
        }
        let mut r = self.columns.serialize();
        push_char(&mut r, '\n');
        let rows = self.entries.serialize();
        r.append(rows.as_str());
        proof {
            assert(r@ =~~= spec_serialize_table(self@));
        }
        r
    }
}

} // verus!
