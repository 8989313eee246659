use crate::column::{Column, SpecColumn, spec_view_columns};
use crate::entry::{
    Entry, SpecEntry, lemma_values_in_order_exact, lemma_view_columns_push, lemma_view_pairs_push,
    spec_cols_subset, spec_entry_columns, spec_key_eq, spec_pair_view, spec_values_in_order,
    spec_view_pairs,
};
use crate::errors::{InsertError, ProjectionError, SchemaError};
use crate::values::{SpecValue, Value, spec_value_type, spec_view_values};
use vstd::prelude::*;

verus! {

/// The schema (ordered columns with pairwise-distinct names) plus the ordered
/// row list.
///
/// Every table reachable through this API is well formed ([`spec_table_wf`]):
/// column names are pairwise distinct, every entry pairs the table's columns
/// in order with values of the columns' types, and no two entries are
/// key-equal.
#[derive(Debug)]
pub struct Table {
    pub(crate) columns: Vec<Column>,
    pub(crate) entries: Vec<Entry>,
}

/// The mathematical model of a [`Table`].
#[verifier::ext_equal]
pub struct SpecTable {
    pub columns: Seq<SpecColumn>,
    pub entries: Seq<SpecEntry>,
}

/// The views of a sequence of entries.
pub open spec fn spec_view_entries(s: Seq<Entry>) -> Seq<SpecEntry> {
    s.map_values(|e: Entry| e@)
}

impl View for Table {
    type V = SpecTable;

    closed spec fn view(&self) -> SpecTable {
        SpecTable {
            columns: spec_view_columns(self.columns@),
            entries: spec_view_entries(self.entries@),
        }
    }
}

// ---------------------------------------------------------------------------
// Well-formedness
// ---------------------------------------------------------------------------

/// Column names are pairwise distinct.
pub open spec fn spec_cols_unique(cols: Seq<SpecColumn>) -> bool {
    forall|i: int, j: int|
        0 <= i < j < cols.len() ==> (#[trigger] cols[i]).name != (#[trigger] cols[j]).name
}

/// The entry pairs exactly the given columns, in order, with values of the
/// columns' types.
pub open spec fn spec_entry_conforms(e: SpecEntry, cols: Seq<SpecColumn>) -> bool {
    e.len() == cols.len() && forall|i: int|
        0 <= i < e.len() ==> (#[trigger] e[i]).0 == cols[i] && spec_value_type(e[i].1)
            == cols[i].column_type
}

/// The invariant every table of this API maintains.
pub open spec fn spec_table_wf(t: SpecTable) -> bool {
    &&& spec_cols_unique(t.columns)
    &&& forall|i: int|
        0 <= i < t.entries.len() ==> spec_entry_conforms(#[trigger] t.entries[i], t.columns)
    &&& forall|i: int, j: int|
        0 <= i < j < t.entries.len() ==> !spec_key_eq(
            #[trigger] t.entries[i],
            #[trigger] t.entries[j],
        )
}

// ---------------------------------------------------------------------------
// Specs of the mutation API
// ---------------------------------------------------------------------------

/// The entry pairing `cols` with `vals`, position by position.
pub open spec fn spec_zip_entry(cols: Seq<SpecColumn>, vals: Seq<SpecValue>) -> SpecEntry {
    Seq::new(cols.len(), |i: int| (cols[i], vals[i]))
}

/// The first position at or after `i` whose value's type differs from its
/// column's type; the length when there is none.
pub open spec fn spec_first_mismatch(cols: Seq<SpecColumn>, vals: Seq<SpecValue>, i: int) -> int
    decreases cols.len() - i,
{
    if i < 0 || i >= cols.len() {
        cols.len() as int
    } else if spec_value_type(vals[i]) != cols[i].column_type {
        i
    } else {
        spec_first_mismatch(cols, vals, i + 1)
    }
}

/// What insertion returns and does, for every table and value list: the
/// checks run in order (arity, first type mismatch, key uniqueness) and only
/// a fully checked row is appended.
pub open spec fn spec_insert(t: SpecTable, vals: Seq<SpecValue>) -> Result<SpecTable, InsertError> {
    if vals.len() != t.columns.len() {
        Err(InsertError::ColumnCountMismatch)
    } else {
        let m = spec_first_mismatch(t.columns, vals, 0);
        if m < t.columns.len() {
            Err(
                InsertError::TypeMismatch {
                    index: m as usize,
                    expected: t.columns[m].column_type,
                    actual: spec_value_type(vals[m]),
                },
            )
        } else {
            let e = spec_zip_entry(t.columns, vals);
            if exists|j: int| 0 <= j < t.entries.len() && spec_key_eq(#[trigger] t.entries[j], e) {
                Err(InsertError::DuplicateKey)
            } else {
                Ok(SpecTable { columns: t.columns, entries: t.entries.push(e) })
            }
        }
    }
}

/// The key-flagged columns, in column order.
pub open spec fn spec_key_columns(cols: Seq<SpecColumn>) -> Seq<SpecColumn> {
    cols.filter(|c: SpecColumn| c.is_key)
}

/// The entries of `entries` that are not key-equal to `synth`, in order.
pub open spec fn spec_surviving_entries(entries: Seq<SpecEntry>, synth: SpecEntry) -> Seq<
    SpecEntry,
>
    decreases entries.len(),
{
    if entries.len() == 0 {
        Seq::<SpecEntry>::empty()
    } else {
        let prev = spec_surviving_entries(entries.drop_last(), synth);
        if spec_key_eq(entries.last(), synth) {
            prev
        } else {
            prev.push(entries.last())
        }
    }
}

/// The entries left by a removal with the given key values: every entry
/// key-equal to the synthetic key-only row goes.
pub open spec fn spec_remove_entries(t: SpecTable, keys: Seq<SpecValue>) -> Seq<SpecEntry> {
    spec_surviving_entries(t.entries, spec_zip_entry(spec_key_columns(t.columns), keys))
}

/// The rows of a projected table: each source entry is reordered to the
/// requested columns and appended unless its key collides with an earlier
/// appended row.
pub open spec fn spec_replay(entries: Seq<SpecEntry>, cols: Seq<SpecColumn>) -> Seq<SpecEntry>
    decreases entries.len(),
{
    if entries.len() == 0 {
        Seq::<SpecEntry>::empty()
    } else {
        let prev = spec_replay(entries.drop_last(), cols);
        let cand = spec_zip_entry(cols, spec_values_in_order(entries.last(), cols));
        if exists|j: int| 0 <= j < prev.len() && spec_key_eq(#[trigger] prev[j], cand) {
            prev
        } else {
            prev.push(cand)
        }
    }
}

/// What projection returns: the requested columns verbatim, and the replayed
/// rows.
pub open spec fn spec_project(t: SpecTable, cols: Seq<SpecColumn>) -> Result<
    SpecTable,
    ProjectionError,
> {
    if !spec_cols_subset(cols, t.columns) {
        Err(ProjectionError::NotASubset)
    } else {
        Ok(SpecTable { columns: cols, entries: spec_replay(t.entries, cols) })
    }
}

// ---------------------------------------------------------------------------
// Lemmas
// ---------------------------------------------------------------------------

/// Entry views distribute over push.
pub proof fn lemma_view_entries_push(s: Seq<Entry>, e: Entry)
    ensures
        spec_view_entries(s.push(e)) == spec_view_entries(s).push(e@),
{
    assert forall|k: int|
        0 <= k < s.len() + 1 implies #[trigger] spec_view_entries(s.push(e))[k]
        == spec_view_entries(s).push(e@)[k] by {
        if k < s.len() {
            assert(spec_view_entries(s.push(e))[k] == s[k]@);
            assert(spec_view_entries(s)[k] == s[k]@);
        }
    }
    assert(spec_view_entries(s.push(e)) =~~= spec_view_entries(s).push(e@));
}

/// The key-column projection distributes over push.
pub proof fn lemma_key_columns_push(s: Seq<SpecColumn>, c: SpecColumn)
    ensures
        spec_key_columns(s.push(c)) == (if c.is_key {
            spec_key_columns(s).push(c)
        } else {
            spec_key_columns(s)
        }),
{
    reveal_with_fuel(Seq::filter, 2);
    let cur = s.push(c);
    assert(cur.drop_last() =~~= s);
    assert(cur.last() == c);
}

/// Removal keeps a subset of the rows: every survivor stands in the original
/// list, survivors of a pairwise non-key-equal list stay pairwise
/// non-key-equal, and at most as many rows remain.
pub proof fn lemma_surviving_entries_props(entries: Seq<SpecEntry>, synth: SpecEntry)
    requires
        forall|i: int, j: int|
            0 <= i < j < entries.len() ==> !spec_key_eq(
                #[trigger] entries[i],
                #[trigger] entries[j],
            ),
    ensures
        ({
            let kept = spec_surviving_entries(entries, synth);
            &&& kept.len() <= entries.len()
            &&& forall|k: int| 0 <= k < kept.len() ==> entries.contains(#[trigger] kept[k])
            &&& forall|i: int, j: int|
                0 <= i < j < kept.len() ==> !spec_key_eq(#[trigger] kept[i], #[trigger] kept[j])
        }),
    decreases entries.len(),
{
    if entries.len() > 0 {
        let pre = entries.drop_last();
        lemma_surviving_entries_props(pre, synth);
        let prev = spec_surviving_entries(pre, synth);
        let kept = spec_surviving_entries(entries, synth);
        assert forall|k: int| 0 <= k < prev.len() implies entries.contains(#[trigger] prev[k]) by {
            assert(pre.contains(prev[k]));
            let w = choose|w: int| 0 <= w < pre.len() && pre[w] == prev[k];
            assert(entries[w] == prev[k]);
        }
        if !spec_key_eq(entries.last(), synth) {
            assert(kept == prev.push(entries.last()));
            assert(entries.contains(entries.last()));
            assert forall|i: int, j: int|
                0 <= i < j < kept.len() implies !spec_key_eq(
                #[trigger] kept[i],
                #[trigger] kept[j],
            ) by {
                if j == kept.len() - 1 {
                    assert(kept[i] == prev[i]);
                    assert(pre.contains(prev[i]));
                    let w = choose|w: int| 0 <= w < pre.len() && pre[w] == prev[i];
                    assert(entries[w] == kept[i]);
                    assert(entries[entries.len() - 1] == kept[j]);
                    assert(!spec_key_eq(entries[w], entries[entries.len() - 1]));
                }
            }
        }
    }
}

/// What the type scan means, position by position.
pub proof fn lemma_first_mismatch_props(cols: Seq<SpecColumn>, vals: Seq<SpecValue>, i: int)
    requires
        0 <= i <= cols.len(),
    ensures
        ({
            let m = spec_first_mismatch(cols, vals, i);
            &&& i <= m <= cols.len()
            &&& forall|k: int|
                i <= k < m ==> spec_value_type(vals[k]) == (#[trigger] cols[k]).column_type
            &&& m < cols.len() ==> spec_value_type(vals[m]) != cols[m].column_type
        }),
    decreases cols.len() - i,
{
    if i < cols.len() {
        if spec_value_type(vals[i]) == cols[i].column_type {
            lemma_first_mismatch_props(cols, vals, i + 1);
        }
    }
}

impl Table {
    /// Whether this table satisfies the schema invariant.
    pub open spec fn wf(&self) -> bool {
        spec_table_wf(self@)
    }

    /// How the model relates to the fields.
    pub(crate) proof fn lemma_view_parts(&self)
        ensures
            self@.columns == spec_view_columns(self.columns@),
            self@.entries == spec_view_entries(self.entries@),
    {
    }

    /// Creates a new table with the given column order and no rows.  Errors
    /// exactly when two columns share a name.
    pub fn new(columns: Vec<Column>) -> (r: Result<Table, SchemaError>)
        ensures
            (match r {
                Ok(t) => spec_cols_unique(spec_view_columns(columns@)) && t.wf() && t@ == (SpecTable {
                    columns: spec_view_columns(columns@),
                    entries: Seq::<SpecEntry>::empty(),
                }),
                Err(e) => e == SchemaError::DuplicateColumnName && !spec_cols_unique(
                    spec_view_columns(columns@),
                ),
            }),
    {
        let ghost cv = spec_view_columns(columns@);
        let mut j: usize = 0;
        while j < columns.len()
            invariant
                j <= columns@.len(),
                cv == spec_view_columns(columns@),
                cv.len() == columns@.len(),
                forall|a: int, b: int| 0 <= a < b < j ==> (#[trigger] cv[a]).name != (
                #[trigger] cv[b]).name,
            decreases columns@.len() - j,
        {
            let mut a: usize = 0;
            while a < j
                invariant
                    a <= j < columns@.len(),
                    cv == spec_view_columns(columns@),
                    cv.len() == columns@.len(),
                    forall|x: int, y: int| 0 <= x < y < j ==> (#[trigger] cv[x]).name != (
                    #[trigger] cv[y]).name,
                    forall|x: int| 0 <= x < a ==> (#[trigger] cv[x]).name != cv[j as int].name,
                decreases j - a,
            {
                if columns[a].name == columns[j].name {
                    proof {
                        assert(cv[a as int].name == cv[j as int].name);
                    }
                    return Err(SchemaError::DuplicateColumnName);
                }
                a = a + 1;
            }
            j = j + 1;
        }
        let t = Table { columns, entries: Vec::new() };
        proof {
            assert(spec_view_entries(t.entries@) =~~= Seq::<SpecEntry>::empty());
        }
        Ok(t)
    }

    /// Gets the data saved in the table, as owned clones in row order.
    pub fn get_entries(&self) -> (r: Vec<Entry>)
        ensures
            spec_view_entries(r@) == self@.entries,
    {
        let mut r: Vec<Entry> = Vec::new();
        let mut i: usize = 0;
        proof {
            assert(self.entries@.subrange(0, 0) =~~= Seq::<Entry>::empty());
            assert(spec_view_entries(r@) =~~= spec_view_entries(self.entries@.subrange(0, 0)));
        }
        while i < self.entries.len()
            invariant
                i <= self.entries@.len(),
                spec_view_entries(r@) == spec_view_entries(self.entries@.subrange(0, i as int)),
            decreases self.entries@.len() - i,
        {
            let ghost old_r = r@;
            let e = self.entries[i].clone();
            r.push(e);
            proof {
                lemma_view_entries_push(old_r, e);
            }
            i = i + 1;
        }
        proof {
            assert(self.entries@.subrange(0, self.entries@.len() as int) =~~= self.entries@);
        }
        r
    }

    /// Insert data into the table.
    /// The value types must match the columns in order, and the new row's key
    /// must not already be present; on any error the table is unmodified.
    pub fn insert(&mut self, entry: Vec<Value>) -> (r: Result<(), InsertError>)
        requires
            old(self).wf(),
        ensures
            final(self).wf(),
            (match r {
                Ok(()) => spec_insert(old(self)@, spec_view_values(entry@)) == Ok::<
                    SpecTable,
                    InsertError,
                >(final(self)@),
                Err(e) => final(self)@ == old(self)@ && spec_insert(
                    old(self)@,
                    spec_view_values(entry@),
                ) == Err::<SpecTable, InsertError>(e),
            }),
    {
        let ghost t0 = self@;
        let ghost vals = spec_view_values(entry@);
        proof {
            assert(vals.len() == entry@.len());
            assert(t0.columns.len() == self.columns@.len());
        }

        // Check if all columns are given
        if entry.len() != self.columns.len() {
            return Err(InsertError::ColumnCountMismatch);
        }

        // Check if the types of the new entry match the columns of the table
        let mut i: usize = 0;
        while i < entry.len()
            invariant
                self.wf(),
                self@ == t0,
                vals == spec_view_values(entry@),
                vals.len() == entry@.len() == t0.columns.len() == self.columns@.len(),
                i <= entry@.len(),
                spec_first_mismatch(t0.columns, vals, 0) == spec_first_mismatch(
                    t0.columns,
                    vals,
                    i as int,
                ),
            decreases entry@.len() - i,
        {
            let v_type = entry[i].get_type();
            let c_type = self.columns[i].get_type();
            proof {
                assert(vals[i as int] == entry@[i as int]@);
                assert(t0.columns[i as int] == self.columns@[i as int]@);
            }
            if !(v_type == c_type) {
                return Err(
                    InsertError::TypeMismatch { index: i, expected: c_type, actual: v_type },
                );
            }
            i = i + 1;
        }
        proof {
            assert(spec_first_mismatch(t0.columns, vals, vals.len() as int) == t0.columns.len());
        }

        // Create the candidate entry by zipping columns with values
        let mut zip_vec: Vec<(Column, Value)> = Vec::new();
        let mut k: usize = 0;
        proof {
            assert(spec_view_pairs(zip_vec@).len() == 0);
        }
        while k < entry.len()
            invariant
                self.wf(),
                self@ == t0,
                vals == spec_view_values(entry@),
                vals.len() == entry@.len() == t0.columns.len() == self.columns@.len(),
                k <= entry@.len(),
                spec_view_pairs(zip_vec@).len() == k,
                forall|x: int|
                    0 <= x < k ==> #[trigger] spec_view_pairs(zip_vec@)[x] == (
                    t0.columns[x],
                    vals[x],
                ),
            decreases entry@.len() - k,
        {
            let ghost old_zip = zip_vec@;
            let c = self.columns[k].clone();
            let v = entry[k].clone();
            zip_vec.push((c, v));
            proof {
                lemma_view_pairs_push(old_zip, (c, v));
                assert(spec_pair_view((c, v)) == (t0.columns[k as int], vals[k as int]));
            }
            k = k + 1;
        }
        let ghost cand = spec_zip_entry(t0.columns, vals);
        proof {
            assert(spec_view_pairs(zip_vec@) =~~= cand);
        }
        let new_entry: Entry = Entry::new(zip_vec);

        // Check if the key already exists
        let mut j: usize = 0;
        while j < self.entries.len()
            invariant
                self.wf(),
                self@ == t0,
                vals == spec_view_values(entry@),
                vals.len() == t0.columns.len(),
                spec_first_mismatch(t0.columns, vals, 0) == t0.columns.len(),
                cand == spec_zip_entry(t0.columns, vals),
                new_entry@ == cand,
                j <= self.entries@.len(),
                t0.entries.len() == self.entries@.len(),
                forall|x: int| 0 <= x < j ==> !spec_key_eq(#[trigger] t0.entries[x], cand),
            decreases self.entries@.len() - j,
        {
            let hit = self.entries[j].key_eq(&new_entry);
            proof {
                assert(t0.entries[j as int] == self.entries@[j as int]@);
            }
            if hit {
                return Err(InsertError::DuplicateKey);
            }
            j = j + 1;
        }

        // All checks passed: append the candidate
        let ghost old_entries = self.entries@;
        self.entries.push(new_entry);
        proof {
            lemma_view_entries_push(old_entries, new_entry);
            assert(self@.columns == t0.columns);
            assert(self@.entries == t0.entries.push(cand));
            lemma_first_mismatch_props(t0.columns, vals, 0);
            // The appended entry conforms and collides with no existing row,
            // so the invariant is kept.
            assert forall|x: int|
                0 <= x < self@.entries.len() implies spec_entry_conforms(
                #[trigger] self@.entries[x],
                self@.columns,
            ) by {
                if x < t0.entries.len() {
                    assert(self@.entries[x] == t0.entries[x]);
                } else {
                    assert(self@.entries[x] == cand);
                }
            }
            assert forall|x: int, y: int|
                0 <= x < y < self@.entries.len() implies !spec_key_eq(
                #[trigger] self@.entries[x],
                #[trigger] self@.entries[y],
            ) by {
                if y < t0.entries.len() {
                    assert(self@.entries[x] == t0.entries[x]);
                    assert(self@.entries[y] == t0.entries[y]);
                } else {
                    assert(self@.entries[x] == t0.entries[x]);
                    assert(self@.entries[y] == cand);
                }
            }
        }
        Ok(())
    }

    /// The key-flagged columns of this table, cloned in column order.
    fn key_columns(&self) -> (r: Vec<Column>)
        ensures
            spec_view_columns(r@) == spec_key_columns(self@.columns),
    {
        let mut r: Vec<Column> = Vec::new();
        let mut i: usize = 0;
        proof {
            assert(self.columns@.subrange(0, 0) =~~= Seq::<Column>::empty());
            assert(spec_view_columns(self.columns@.subrange(0, 0)) =~~= Seq::<
                SpecColumn,
            >::empty());
            assert(spec_view_columns(r@) =~~= Seq::<SpecColumn>::empty());
            assert(spec_key_columns(Seq::<SpecColumn>::empty()) == Seq::<SpecColumn>::empty());
        }
        while i < self.columns.len()
            invariant
                i <= self.columns@.len(),
                spec_view_columns(r@) == spec_key_columns(
                    spec_view_columns(self.columns@.subrange(0, i as int)),
                ),
            decreases self.columns@.len() - i,
        {
            let ghost old_r = r@;
            proof {
                assert(self.columns@.subrange(0, i + 1) =~~= self.columns@.subrange(0, i as int)
                    .push(self.columns@[i as int]));
                lemma_view_columns_push(
                    self.columns@.subrange(0, i as int),
                    self.columns@[i as int],
                );
                lemma_key_columns_push(
                    spec_view_columns(self.columns@.subrange(0, i as int)),
                    self.columns@[i as int]@,
                );
            }
            if self.columns[i].is_key {
                let c = self.columns[i].clone();
                r.push(c);
                proof {
                    lemma_view_columns_push(old_r, c);
                }
            }
            i = i + 1;
        }
        proof {
            assert(self.columns@.subrange(0, self.columns@.len() as int) =~~= self.columns@);
        }
        r
    }

    /// Remove every row whose key projection is key-equal to the given key
    /// values, supplied in the table's key-column order.  Returns whether any
    /// row went; a wrong number of keys removes nothing and returns false.
    pub fn remove(&mut self, keys: Vec<Value>) -> (r: bool)
        requires
            old(self).wf(),
        ensures
            final(self).wf(),
            final(self)@.columns == old(self)@.columns,
            (if keys@.len() != spec_key_columns(old(self)@.columns).len() {
                r == false && final(self)@ == old(self)@
            } else {
                final(self)@.entries == spec_remove_entries(old(self)@, spec_view_values(keys@))
                    && r == (final(self)@.entries.len() < old(self)@.entries.len())
            }),
    {
        let ghost t0 = self@;
        let ghost keys_v = spec_view_values(keys@);
        proof {
            assert(keys_v.len() == keys@.len());
        }
        let key_columns = self.key_columns();
        if keys.len() != key_columns.len() {
            proof {
                assert(spec_view_columns(key_columns@).len() == key_columns@.len());
            }
            return false;
        }

        // The synthetic key-only row the keys describe
        let mut ziped: Vec<(Column, Value)> = Vec::new();
        let mut k: usize = 0;
        let ghost kc = spec_key_columns(t0.columns);
        proof {
            assert(spec_view_pairs(ziped@).len() == 0);
            assert(kc.len() == spec_view_columns(key_columns@).len() == key_columns@.len());
        }
        while k < keys.len()
            invariant
                self.wf(),
                self@ == t0,
                kc == spec_key_columns(t0.columns),
                keys_v == spec_view_values(keys@),
                keys_v.len() == keys@.len() == key_columns@.len() == kc.len(),
                spec_view_columns(key_columns@) == kc,
                k <= keys@.len(),
                spec_view_pairs(ziped@).len() == k,
                forall|x: int|
                    0 <= x < k ==> #[trigger] spec_view_pairs(ziped@)[x] == (kc[x], keys_v[x]),
            decreases keys@.len() - k,
        {
            let ghost old_zip = ziped@;
            let c = key_columns[k].clone();
            let v = keys[k].clone();
            ziped.push((c, v));
            proof {
                lemma_view_pairs_push(old_zip, (c, v));
                assert(spec_view_columns(key_columns@)[k as int] == key_columns@[k as int]@);
                assert(spec_pair_view((c, v)) == (kc[k as int], keys_v[k as int]));
            }
            k = k + 1;
        }
        let ghost synth = spec_zip_entry(kc, keys_v);
        proof {
            assert(spec_view_pairs(ziped@) =~~= synth);
        }
        let to_remove = Entry::new(ziped);

        // Keep exactly the rows that are not key-equal to the synthetic row
        let mut kept: Vec<Entry> = Vec::new();
        let mut j: usize = 0;
        proof {
            assert(self.entries@.subrange(0, 0) =~~= Seq::<Entry>::empty());
            assert(spec_view_entries(self.entries@.subrange(0, 0)) =~~= Seq::<SpecEntry>::empty());
            assert(spec_view_entries(kept@) =~~= Seq::<SpecEntry>::empty());
        }
        while j < self.entries.len()
            invariant
                self.wf(),
                self@ == t0,
                to_remove@ == synth,
                j <= self.entries@.len(),
                t0.entries.len() == self.entries@.len(),
                spec_view_entries(kept@) == spec_surviving_entries(
                    spec_view_entries(self.entries@.subrange(0, j as int)),
                    synth,
                ),
            decreases self.entries@.len() - j,
        {
            let ghost old_kept = kept@;
            let ghost pre_view = spec_view_entries(self.entries@.subrange(0, j as int));
            proof {
                assert(self.entries@.subrange(0, j + 1) =~~= self.entries@.subrange(0, j as int)
                    .push(self.entries@[j as int]));
                lemma_view_entries_push(
                    self.entries@.subrange(0, j as int),
                    self.entries@[j as int],
                );
                let cur_view = spec_view_entries(self.entries@.subrange(0, j + 1));
                assert(cur_view.drop_last() =~~= pre_view);
                assert(cur_view.last() == self.entries@[j as int]@);
            }
            let hit = self.entries[j].key_eq(&to_remove);
            if !hit {
                let e = self.entries[j].clone();
                kept.push(e);
                proof {
                    lemma_view_entries_push(old_kept, e);
                }
            }
            j = j + 1;
        }
        proof {
            assert(self.entries@.subrange(0, self.entries@.len() as int) =~~= self.entries@);
            assert(spec_view_entries(kept@) == spec_remove_entries(t0, keys_v));
        }
        let removed = kept.len() < self.entries.len();
        proof {
            assert(spec_view_entries(kept@).len() == kept@.len());
            assert(t0.entries.len() == self.entries@.len());
            lemma_surviving_entries_props(t0.entries, synth);
            // Survivors come from the original rows, so conformance and
            // pairwise key-distinctness carry over.
            assert forall|x: int|
                0 <= x < spec_view_entries(kept@).len() implies spec_entry_conforms(
                #[trigger] spec_view_entries(kept@)[x],
                t0.columns,
            ) by {
                assert(t0.entries.contains(spec_view_entries(kept@)[x]));
                let w = choose|w: int|
                    0 <= w < t0.entries.len() && t0.entries[w] == spec_view_entries(kept@)[x];
                assert(spec_entry_conforms(t0.entries[w], t0.columns));
            }
        }
        self.entries = kept;
        proof {
            assert(self@.columns == t0.columns);
        }
        removed
    }

    /// Project, which columns in the table to keep.
    /// Returns a new table scoped to the requested columns with each row
    /// reordered to them, dropping rows whose projected key collides with an
    /// earlier one; the source table is unmodified.  Errors exactly when a
    /// requested column is not in this table.
    pub fn project(&self, columns: Vec<Column>) -> (r: Result<Table, ProjectionError>)
        requires
            self.wf(),
            spec_cols_subset(spec_view_columns(columns@), self@.columns) ==> spec_cols_unique(
                spec_view_columns(columns@),
            ),
        ensures
            (match r {
                Ok(t2) => t2.wf() && spec_project(self@, spec_view_columns(columns@)) == Ok::<
                    SpecTable,
                    ProjectionError,
                >(t2@),
                Err(e) => spec_project(self@, spec_view_columns(columns@)) == Err::<
                    SpecTable,
                    ProjectionError,
                >(e),
            }),
    {
        let ghost cv = spec_view_columns(columns@);

        // Subset check: every requested column must occur in this table
        let mut i: usize = 0;
        while i < columns.len()
            invariant
                self.wf(),
                cv == spec_view_columns(columns@),
                cv.len() == columns@.len(),
                i <= columns@.len(),
                forall|x: int| 0 <= x < i ==> self@.columns.contains(#[trigger] cv[x]),
            decreases columns@.len() - i,
        {
            let mut found: bool = false;
            let mut j: usize = 0;
            while j < self.columns.len()
                invariant
                    self.wf(),
                    cv == spec_view_columns(columns@),
                    cv.len() == columns@.len(),
                    i < columns@.len(),
                    j <= self.columns@.len(),
                    found == exists|w: int|
                        0 <= w < j && (#[trigger] self.columns@[w])@ == cv[i as int],
                decreases self.columns@.len() - j,
            {
                if columns[i] == self.columns[j] {
                    found = true;
                    proof {
                        assert(self.columns@[j as int]@ == cv[i as int]);
                    }
                }
                j = j + 1;
            }
            if !found {
                proof {
                    if self@.columns.contains(cv[i as int]) {
                        let w = choose|w: int|
                            0 <= w < self@.columns.len() && self@.columns[w] == cv[i as int];
                        assert(self.columns@[w]@ == cv[i as int]);
                        assert(false);
                    }
                }
                return Err(ProjectionError::NotASubset);
            }
            proof {
                let w = choose|w: int|
                    0 <= w < self.columns@.len() && (#[trigger] self.columns@[w])@ == cv[i as int];
                assert(self@.columns[w] == cv[i as int]);
                assert(self@.columns.contains(cv[i as int]));
            }
            i = i + 1;
        }
        proof {
            assert(spec_cols_subset(cv, self@.columns));
        }

        // Build the projected table and replay every row into it
        let requested = clone_columns(&columns);
        let mut new_table = (match Table::new(requested) {
            Ok(t) => t,
            Err(_) => {
                // The requested columns are a subset of a duplicate-free
                // schema, so construction cannot fail.
                proof {
                    assert(false);
                }
                vstd::pervasive::unreached()
            },
        });

        let mut idx: usize = 0;
        proof {
            assert(self@.entries.subrange(0, 0) =~~= Seq::<SpecEntry>::empty());
        }
        while idx < self.entries.len()
            invariant
                self.wf(),
                cv == spec_view_columns(columns@),
                cv.len() == columns@.len(),
                spec_cols_subset(cv, self@.columns),
                spec_cols_unique(cv),
                idx <= self.entries@.len(),
                self@.entries.len() == self.entries@.len(),
                new_table.wf(),
                new_table@.columns == cv,
                new_table@.entries == spec_replay(self@.entries.subrange(0, idx as int), cv),
            decreases self.entries@.len() - idx,
        {
            let ghost entry_view = self@.entries[idx as int];
            proof {
                assert(entry_view == self.entries@[idx as int]@);
                assert(spec_entry_conforms(entry_view, self@.columns));
                // The entry's columns are the table's columns, so the subset
                // and distinctness facts transfer to the entry.
                assert(spec_entry_columns(entry_view).len() == entry_view.len());
                assert forall|x: int, y: int|
                    0 <= x < y < entry_view.len() implies (#[trigger] entry_view[x]).0 != (
                #[trigger] entry_view[y]).0 by {
                    assert(entry_view[x].0 == self@.columns[x]);
                    assert(entry_view[y].0 == self@.columns[y]);
                }
                assert forall|x: int|
                    0 <= x < cv.len() implies spec_entry_columns(entry_view).contains(
                    #[trigger] cv[x],
                ) by {
                    assert(self@.columns.contains(cv[x]));
                    let w = choose|w: int|
                        0 <= w < self@.columns.len() && self@.columns[w] == cv[x];
                    assert(spec_entry_columns(entry_view)[w] == entry_view[w].0);
                    assert(entry_view[w].0 == self@.columns[w]);
                }
                lemma_values_in_order_exact(entry_view, cv);
            }
            let vals = (match self.entries[idx].get_values_in_order(&columns) {
                Ok(v) => v,
                Err(_) => {
                    // The requested columns were just checked to be a subset
                    // of the entry's columns, so reordering cannot fail.
                    proof {
                        assert(false);
                    }
                    vstd::pervasive::unreached()
                },
            });
            let ghost evals = spec_view_values(vals@);
            let ghost cand = spec_zip_entry(cv, evals);
            let ghost pre_table = new_table@;
            proof {
                assert(evals == spec_values_in_order(entry_view, cv));
                assert(evals.len() == cv.len());
                // Each reordered value keeps its column's type
                assert forall|x: int|
                    0 <= x < cv.len() implies spec_value_type(evals[x]) == (
                #[trigger] cv[x]).column_type by {
                    let w = choose|w: int|
                        0 <= w < entry_view.len() && (#[trigger] entry_view[w]).0 == cv[x]
                            && evals[x] == entry_view[w].1;
                    assert(spec_value_type(entry_view[w].1) == self@.columns[w].column_type);
                    assert(entry_view[w].0 == self@.columns[w]);
                }
                lemma_first_mismatch_props(cv, evals, 0);
            }
            let ins_result = new_table.insert(vals);
            proof {
                assert(self@.entries.subrange(0, idx + 1).drop_last() =~~= self@.entries.subrange(
                    0,
                    idx as int,
                ));
                assert(self@.entries.subrange(0, idx + 1).last() == entry_view);
                let replay_next = spec_replay(self@.entries.subrange(0, idx + 1), cv);
                match ins_result {
                    Ok(()) => {
                        assert(spec_insert(pre_table, evals) == Ok::<SpecTable, InsertError>(
                            new_table@,
                        ));
                        assert(new_table@.entries == pre_table.entries.push(cand));
                        assert(replay_next == new_table@.entries);
                    },
                    Err(e) => {
                        assert(spec_insert(pre_table, evals) == Err::<SpecTable, InsertError>(e));
                        assert(new_table@ == pre_table);
                        assert(e == InsertError::DuplicateKey);
                        assert(replay_next == pre_table.entries);
                    },
                }
            }
            idx = idx + 1;
        }
        proof {
            assert(self@.entries.subrange(0, self@.entries.len() as int) =~~= self@.entries);
        }
        Ok(new_table)
    }
}

/// Clones a column list, keeping every column.
pub(crate) fn clone_columns(v: &Vec<Column>) -> (r: Vec<Column>)
    ensures
        r@ == v@,
{
    let mut r: Vec<Column> = Vec::new();
    let mut i: usize = 0;
    while i < v.len()
        invariant
            i <= v@.len(),
            r@ == v@.subrange(0, i as int),
        decreases v@.len() - i,
    {
        let c = v[i].clone();
        r.push(c);
        proof {
            assert(v@.subrange(0, i + 1) =~~= v@.subrange(0, i as int).push(v@[i as int]));
        }
        i = i + 1;
    }
    proof {
        assert(v@.subrange(0, v@.len() as int) =~~= v@);
    }
    r
}

impl Clone for Table {
    /// Cloning keeps the schema and every row.
    fn clone(&self) -> (r: Self)
        ensures
            r@ == self@,
    {
        let columns = clone_columns(&self.columns);
        let entries = self.get_entries();
        let r = Table { columns, entries };
        proof {
            assert(r@.columns == self@.columns);
            assert(r@.entries == self@.entries);
        }
        r
    }
}

impl PartialEq for Table {
    fn eq(&self, other: &Self) -> (r: bool) {
        if self.columns.len() != other.columns.len() || self.entries.len() != other.entries.len() {
            proof {
                assert(self@.columns.len() == self.columns@.len());
                assert(other@.columns.len() == other.columns@.len());
                assert(self@.entries.len() == self.entries@.len());
                assert(other@.entries.len() == other.entries@.len());
            }
            return false;
        }
        let mut i: usize = 0;
        while i < self.columns.len()
            invariant
                self.columns@.len() == other.columns@.len(),
                i <= self.columns@.len(),
                forall|k: int| 0 <= k < i ==> #[trigger] self@.columns[k] == other@.columns[k],
            decreases self.columns@.len() - i,
        {
            let same = self.columns[i] == other.columns[i];
            proof {
                assert(self@.columns[i as int] == self.columns@[i as int]@);
                assert(other@.columns[i as int] == other.columns@[i as int]@);
            }
            if !same {
                return false;
            }
            i = i + 1;
        }
        let mut j: usize = 0;
        while j < self.entries.len()
            invariant
                self.entries@.len() == other.entries@.len(),
                j <= self.entries@.len(),
                forall|k: int| 0 <= k < j ==> #[trigger] self@.entries[k] == other@.entries[k],
            decreases self.entries@.len() - j,
        {
            let same = self.entries[j] == other.entries[j];
            proof {
                assert(self@.entries[j as int] == self.entries@[j as int]@);
                assert(other@.entries[j as int] == other.entries@[j as int]@);
            }
            if !same {
                return false;
            }
            j = j + 1;
        }
        proof {
            assert(self@.columns =~~= other@.columns);
            assert(self@.entries =~~= other@.entries);
        }
        true
    }
}

impl vstd::std_specs::cmp::PartialEqSpecImpl for Table {
    open spec fn obeys_eq_spec() -> bool {
        true
    }

    open spec fn eq_spec(&self, other: &Self) -> bool {
        self@ == other@
    }
}

} // verus!
