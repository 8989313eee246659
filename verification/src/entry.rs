use crate::column::{Column, SpecColumn, spec_view_columns};
use crate::errors::ProjectionError;
use crate::values::{SpecValue, Value, spec_view_values};
use vstd::prelude::*;

verus! {

/// One row: an ordered association of (column, value) pairs, one per column
/// of the owning table, in the table's column order.
///
/// An entry owns its columns and values outright; cloning a table clones its
/// entries.
#[derive(Debug)]
pub struct Entry {
    pub(crate) values: Vec<(Column, Value)>,
}

/// The mathematical model of an [`Entry`].
pub type SpecEntry = Seq<(SpecColumn, SpecValue)>;

/// The view of one (column, value) pair.
pub open spec fn spec_pair_view(p: (Column, Value)) -> (SpecColumn, SpecValue) {
    (p.0@, p.1@)
}

/// The views of a sequence of (column, value) pairs.
pub open spec fn spec_view_pairs(s: Seq<(Column, Value)>) -> SpecEntry {
    s.map_values(|p: (Column, Value)| spec_pair_view(p))
}

impl View for Entry {
    type V = SpecEntry;

    closed spec fn view(&self) -> SpecEntry {
        spec_view_pairs(self.values@)
    }
}

/// The key projection of an entry: the pairs whose column is key-flagged, in
/// entry order.
pub open spec fn spec_key_pairs(e: SpecEntry) -> SpecEntry {
    e.filter(|p: (SpecColumn, SpecValue)| p.0.is_key)
}

/// Key equality: the two key projections are non-empty and agree, pair by
/// pair.  Entries without any key column are never key-equal.
pub open spec fn spec_key_eq(a: SpecEntry, b: SpecEntry) -> bool {
    spec_key_pairs(a).len() > 0 && spec_key_pairs(a) == spec_key_pairs(b)
}

/// The values of an entry, in entry order.
pub open spec fn spec_entry_values(e: SpecEntry) -> Seq<SpecValue> {
    e.map_values(|p: (SpecColumn, SpecValue)| p.1)
}

/// The columns of an entry, in entry order.
pub open spec fn spec_entry_columns(e: SpecEntry) -> Seq<SpecColumn> {
    e.map_values(|p: (SpecColumn, SpecValue)| p.0)
}

/// All values of `e` whose column equals `c`, in entry order.
pub open spec fn spec_matching_values(e: SpecEntry, c: SpecColumn) -> Seq<SpecValue>
    decreases e.len(),
{
    if e.len() == 0 {
        Seq::<SpecValue>::empty()
    } else {
        let prev = spec_matching_values(e.drop_last(), c);
        if e.last().0 == c {
            prev.push(e.last().1)
        } else {
            prev
        }
    }
}

/// The values of `e` reordered to follow `cols`: for each requested column,
/// every value of `e` paired with that column.
pub open spec fn spec_values_in_order(e: SpecEntry, cols: Seq<SpecColumn>) -> Seq<SpecValue>
    decreases cols.len(),
{
    if cols.len() == 0 {
        Seq::<SpecValue>::empty()
    } else {
        spec_values_in_order(e, cols.drop_last()) + spec_matching_values(e, cols.last())
    }
}

/// Every column of `sub` occurs in `sup`.
pub open spec fn spec_cols_subset(sub: Seq<SpecColumn>, sup: Seq<SpecColumn>) -> bool {
    forall|i: int| 0 <= i < sub.len() ==> sup.contains(#[trigger] sub[i])
}

// ---------------------------------------------------------------------------
// Push lemmas for the model maps
// ---------------------------------------------------------------------------

/// Pair views distribute over push.
pub proof fn lemma_view_pairs_push(s: Seq<(Column, Value)>, p: (Column, Value))
    ensures
        spec_view_pairs(s.push(p)) == spec_view_pairs(s).push(spec_pair_view(p)),
{
    assert forall|k: int|
        0 <= k < s.len() + 1 implies #[trigger] spec_view_pairs(s.push(p))[k] == spec_view_pairs(
        s,
    ).push(spec_pair_view(p))[k] by {
        if k < s.len() {
            assert(spec_view_pairs(s.push(p))[k] == spec_pair_view(s[k]));
            assert(spec_view_pairs(s)[k] == spec_pair_view(s[k]));
        }
    }
    assert(spec_view_pairs(s.push(p)) =~~= spec_view_pairs(s).push(spec_pair_view(p)));
}

/// Column views distribute over push.
pub proof fn lemma_view_columns_push(s: Seq<Column>, c: Column)
    ensures
        spec_view_columns(s.push(c)) == spec_view_columns(s).push(c@),
{
    assert forall|k: int|
        0 <= k < s.len() + 1 implies #[trigger] spec_view_columns(s.push(c))[k]
        == spec_view_columns(s).push(c@)[k] by {
        if k < s.len() {
            assert(spec_view_columns(s.push(c))[k] == s[k]@);
            assert(spec_view_columns(s)[k] == s[k]@);
        }
    }
    assert(spec_view_columns(s.push(c)) =~~= spec_view_columns(s).push(c@));
}

/// Value views distribute over push.
pub proof fn lemma_view_values_push(s: Seq<Value>, v: Value)
    ensures
        spec_view_values(s.push(v)) == spec_view_values(s).push(v@),
{
    assert forall|k: int|
        0 <= k < s.len() + 1 implies #[trigger] spec_view_values(s.push(v))[k] == spec_view_values(
        s,
    ).push(v@)[k] by {
        if k < s.len() {
            assert(spec_view_values(s.push(v))[k] == s[k]@);
            assert(spec_view_values(s)[k] == s[k]@);
        }
    }
    assert(spec_view_values(s.push(v)) =~~= spec_view_values(s).push(v@));
}

/// Entry columns distribute over push.
pub proof fn lemma_entry_columns_push(e: SpecEntry, p: (SpecColumn, SpecValue))
    ensures
        spec_entry_columns(e.push(p)) == spec_entry_columns(e).push(p.0),
{
    assert forall|k: int|
        0 <= k < e.len() + 1 implies #[trigger] spec_entry_columns(e.push(p))[k]
        == spec_entry_columns(e).push(p.0)[k] by {
        if k < e.len() {
            assert(spec_entry_columns(e.push(p))[k] == e[k].0);
            assert(spec_entry_columns(e)[k] == e[k].0);
        }
    }
    assert(spec_entry_columns(e.push(p)) =~~= spec_entry_columns(e).push(p.0));
}

/// Entry values distribute over push.
pub proof fn lemma_entry_values_push(e: SpecEntry, p: (SpecColumn, SpecValue))
    ensures
        spec_entry_values(e.push(p)) == spec_entry_values(e).push(p.1),
{
    assert forall|k: int|
        0 <= k < e.len() + 1 implies #[trigger] spec_entry_values(e.push(p))[k]
        == spec_entry_values(e).push(p.1)[k] by {
        if k < e.len() {
            assert(spec_entry_values(e.push(p))[k] == e[k].1);
            assert(spec_entry_values(e)[k] == e[k].1);
        }
    }
    assert(spec_entry_values(e.push(p)) =~~= spec_entry_values(e).push(p.1));
}

/// The key projection distributes over push.
pub proof fn lemma_key_pairs_push(e: SpecEntry, p: (SpecColumn, SpecValue))
    ensures
        spec_key_pairs(e.push(p)) == (if p.0.is_key {
            spec_key_pairs(e).push(p)
        } else {
            spec_key_pairs(e)
        }),
{
    reveal_with_fuel(Seq::filter, 2);
    let cur = e.push(p);
    assert(cur.drop_last() =~~= e);
    assert(cur.last() == p);
}

/// A column that occurs nowhere in an entry matches no value.
pub proof fn lemma_matching_none(e: SpecEntry, c: SpecColumn)
    requires
        forall|i: int| 0 <= i < e.len() ==> (#[trigger] e[i]).0 != c,
    ensures
        spec_matching_values(e, c) == Seq::<SpecValue>::empty(),
    decreases e.len(),
{
    if e.len() > 0 {
        lemma_matching_none(e.drop_last(), c);
        assert(e.last().0 != c);
    }
}

/// In an entry with pairwise-distinct columns, a column present at position
/// `w` matches exactly its one value.
pub proof fn lemma_matching_one(e: SpecEntry, c: SpecColumn, w: int)
    requires
        0 <= w < e.len(),
        e[w].0 == c,
        forall|i: int, j: int| 0 <= i < j < e.len() ==> (#[trigger] e[i]).0 != (#[trigger] e[j]).0,
    ensures
        spec_matching_values(e, c) == seq![e[w].1],
    decreases e.len(),
{
    let pre = e.drop_last();
    if w == e.len() - 1 {
        assert(forall|i: int| 0 <= i < pre.len() ==> (#[trigger] pre[i]).0 != c);
        lemma_matching_none(pre, c);
        assert(spec_matching_values(e, c) =~~= seq![e[w].1]);
    } else {
        assert(e.last().0 != c);
        assert(pre[w] == e[w]);
        lemma_matching_one(pre, c, w);
        assert(spec_matching_values(e, c) == spec_matching_values(pre, c));
    }
}

/// Reordering a distinct-column entry onto requested columns that all occur
/// in it yields one value per requested column, each taken from the pair that
/// carries the column.
pub proof fn lemma_values_in_order_exact(e: SpecEntry, rcols: Seq<SpecColumn>)
    requires
        forall|i: int, j: int| 0 <= i < j < e.len() ==> (#[trigger] e[i]).0 != (#[trigger] e[j]).0,
        forall|k: int| 0 <= k < rcols.len() ==> spec_entry_columns(e).contains(#[trigger] rcols[k]),
    ensures
        spec_values_in_order(e, rcols).len() == rcols.len(),
        forall|k: int|
            0 <= k < rcols.len() ==> exists|w: int|
                0 <= w < e.len() && (#[trigger] e[w]).0 == #[trigger] rcols[k]
                    && spec_values_in_order(e, rcols)[k] == e[w].1,
    decreases rcols.len(),
{
    if rcols.len() > 0 {
        let pre = rcols.drop_last();
        assert(forall|k: int|
            0 <= k < pre.len() ==> spec_entry_columns(e).contains(#[trigger] pre[k]));
        lemma_values_in_order_exact(e, pre);
        let c = rcols.last();
        assert(spec_entry_columns(e).contains(c));
        let w = choose|w: int|
            0 <= w < spec_entry_columns(e).len() && spec_entry_columns(e)[w] == c;
        assert(e[w].0 == c);
        lemma_matching_one(e, c, w);
        let whole = spec_values_in_order(e, rcols);
        assert(whole == spec_values_in_order(e, pre) + seq![e[w].1]);
        assert forall|k: int|
            0 <= k < rcols.len() implies exists|v: int|
            0 <= v < e.len() && (#[trigger] e[v]).0 == #[trigger] rcols[k] && whole[k] == e[v].1 by {
            if k < rcols.len() - 1 {
                assert(pre[k] == rcols[k]);
                let v = choose|v: int|
                    0 <= v < e.len() && (#[trigger] e[v]).0 == pre[k] && spec_values_in_order(
                        e,
                        pre,
                    )[k] == e[v].1;
                assert(whole[k] == spec_values_in_order(e, pre)[k]);
                assert(e[v].0 == rcols[k] && whole[k] == e[v].1);
            } else {
                assert(whole[k] == e[w].1);
                assert(e[w].0 == rcols[k]);
            }
        }
    }
}

/// Two sequences of pairs agree exactly when they have the same length and
/// agree component by component.
pub proof fn lemma_pairs_components(a: SpecEntry, b: SpecEntry)
    ensures
        (a == b) <==> (a.len() == b.len() && spec_entry_columns(a) == spec_entry_columns(b)
            && spec_entry_values(a) == spec_entry_values(b)),
{
    if a.len() == b.len() && spec_entry_columns(a) == spec_entry_columns(b) && spec_entry_values(a)
        == spec_entry_values(b) {
        assert forall|i: int| 0 <= i < a.len() implies a[i] == b[i] by {
            assert(spec_entry_columns(a)[i] == spec_entry_columns(b)[i]);
            assert(spec_entry_values(a)[i] == spec_entry_values(b)[i]);
            assert(a[i] == (a[i].0, a[i].1));
            assert(b[i] == (b[i].0, b[i].1));
        }
        assert(a =~~= b);
    }
    if a == b {
        assert(spec_entry_columns(a) =~~= spec_entry_columns(b));
        assert(spec_entry_values(a) =~~= spec_entry_values(b));
    }
}

impl Entry {
    /// How the model relates to the field.
    pub(crate) proof fn lemma_view_parts(&self)
        ensures
            self@ == spec_view_pairs(self.values@),
    {
    }

    /// Wraps an ordered list of (column, value) pairs as an entry.
    pub fn new(values: Vec<(Column, Value)>) -> (e: Entry)
        ensures
            e@ == spec_view_pairs(values@),
    {
        Entry { values }
    }

    /// The view of a prefix of this entry.
    spec fn spec_prefix(&self, i: int) -> SpecEntry {
        spec_view_pairs(self.values@.subrange(0, i))
    }

    /// Prefixes grow one pair at a time, and the full prefix is the whole
    /// entry.
    proof fn lemma_prefix_props(&self, i: int)
        requires
            0 <= i <= self.values@.len(),
        ensures
            i < self.values@.len() ==> self.spec_prefix(i + 1) == self.spec_prefix(i).push(
                spec_pair_view(self.values@[i]),
            ),
            i == self.values@.len() ==> self.spec_prefix(i) == self@,
            self.spec_prefix(0) == Seq::<(SpecColumn, SpecValue)>::empty(),
    {
        if i < self.values@.len() {
            assert(self.values@.subrange(0, i + 1) =~~= self.values@.subrange(0, i).push(
                self.values@[i],
            ));
            lemma_view_pairs_push(self.values@.subrange(0, i), self.values@[i]);
        }
        if i == self.values@.len() {
            assert(self.values@.subrange(0, i) =~~= self.values@);
        }
        assert(self.values@.subrange(0, 0) =~~= Seq::<(Column, Value)>::empty());
        assert(self.spec_prefix(0) =~~= Seq::<(SpecColumn, SpecValue)>::empty());
    }

    /// The key-flagged columns of this entry, in entry order.
    pub fn get_key_columns(&self) -> (r: Vec<Column>)
        ensures
            spec_view_columns(r@) == spec_entry_columns(spec_key_pairs(self@)),
    {
        let mut r: Vec<Column> = Vec::new();
        let mut i: usize = 0;
        proof {
            self.lemma_prefix_props(0);
            assert(spec_view_columns(r@) =~~= spec_entry_columns(
                spec_key_pairs(self.spec_prefix(0)),
            ));
        }
        while i < self.values.len()
            invariant
                i <= self.values@.len(),
                spec_view_columns(r@) == spec_entry_columns(spec_key_pairs(self.spec_prefix(
                    i as int,
                ))),
            decreases self.values@.len() - i,
        {
            let ghost old_r = r@;
            let ghost p = spec_pair_view(self.values@[i as int]);
            proof {
                self.lemma_prefix_props(i as int);
                lemma_key_pairs_push(self.spec_prefix(i as int), p);
            }
            if self.values[i].0.is_key {
                let c = self.values[i].0.clone();
                r.push(c);
                proof {
                    lemma_view_columns_push(old_r, c);
                    lemma_entry_columns_push(spec_key_pairs(self.spec_prefix(i as int)), p);
                }
            }
            i = i + 1;
        }
        proof {
            self.lemma_prefix_props(i as int);
        }
        r
    }

    /// The values of the key-flagged columns of this entry, in entry order.
    pub fn get_key_values(&self) -> (r: Vec<Value>)
        ensures
            spec_view_values(r@) == spec_entry_values(spec_key_pairs(self@)),
    {
        let mut r: Vec<Value> = Vec::new();
        let mut i: usize = 0;
        proof {
            self.lemma_prefix_props(0);
            assert(spec_view_values(r@) =~~= spec_entry_values(
                spec_key_pairs(self.spec_prefix(0)),
            ));
        }
        while i < self.values.len()
            invariant
                i <= self.values@.len(),
                spec_view_values(r@) == spec_entry_values(spec_key_pairs(self.spec_prefix(
                    i as int,
                ))),
            decreases self.values@.len() - i,
        {
            let ghost old_r = r@;
            let ghost p = spec_pair_view(self.values@[i as int]);
            proof {
                self.lemma_prefix_props(i as int);
                lemma_key_pairs_push(self.spec_prefix(i as int), p);
            }
            if self.values[i].0.is_key {
                let v = self.values[i].1.clone();
                r.push(v);
                proof {
                    lemma_view_values_push(old_r, v);
                    lemma_entry_values_push(spec_key_pairs(self.spec_prefix(i as int)), p);
                }
            }
            i = i + 1;
        }
        proof {
            self.lemma_prefix_props(i as int);
        }
        r
    }

    /// Get saved data of this entry.
    pub fn get_values(&self) -> (r: Vec<Value>)
        ensures
            spec_view_values(r@) == spec_entry_values(self@),
    {
        let mut r: Vec<Value> = Vec::new();
        let mut i: usize = 0;
        proof {
            self.lemma_prefix_props(0);
            assert(spec_view_values(r@) =~~= spec_entry_values(self.spec_prefix(0)));
        }
        while i < self.values.len()
            invariant
                i <= self.values@.len(),
                spec_view_values(r@) == spec_entry_values(self.spec_prefix(i as int)),
            decreases self.values@.len() - i,
        {
            let ghost old_r = r@;
            let ghost p = spec_pair_view(self.values@[i as int]);
            proof {
                self.lemma_prefix_props(i as int);
            }
            let v = self.values[i].1.clone();
            r.push(v);
            proof {
                lemma_view_values_push(old_r, v);
                lemma_entry_values_push(self.spec_prefix(i as int), p);
            }
            i = i + 1;
        }
        proof {
            self.lemma_prefix_props(i as int);
        }
        r
    }

    /// Whether the two entries count as the same row: their key projections
    /// are non-empty and agree, pair by pair.
    pub fn key_eq(&self, other: &Self) -> (r: bool)
        ensures
            r == spec_key_eq(self@, other@),
    {
        let ghost kp_self = spec_key_pairs(self@);
        let ghost kp_other = spec_key_pairs(other@);
        let self_cols = self.get_key_columns();
        let other_cols = other.get_key_columns();
        let num_key_columns = self_cols.len();

        proof {
            assert(spec_view_columns(self_cols@).len() == self_cols@.len());
            assert(spec_view_columns(other_cols@).len() == other_cols@.len());
            assert(spec_entry_columns(kp_self).len() == kp_self.len());
            assert(spec_entry_columns(kp_other).len() == kp_other.len());
        }

        // Check for the same amount of columns
        if num_key_columns != other_cols.len() {
            return false;
        }

        if num_key_columns == 0 {
            return false;
        }

        // Check that columns are the same
        let mut i: usize = 0;
        while i < num_key_columns
            invariant
                num_key_columns == self_cols@.len() == other_cols@.len(),
                i <= num_key_columns,
                kp_self == spec_key_pairs(self@),
                kp_other == spec_key_pairs(other@),
                spec_view_columns(self_cols@) == spec_entry_columns(kp_self),
                spec_view_columns(other_cols@) == spec_entry_columns(kp_other),
                forall|k: int|
                    0 <= k < i ==> #[trigger] spec_view_columns(self_cols@)[k]
                        == spec_view_columns(other_cols@)[k],
            decreases num_key_columns - i,
        {
            if !(self_cols[i] == other_cols[i]) {
                proof {
                    assert(spec_view_columns(self_cols@)[i as int] != spec_view_columns(
                        other_cols@,
                    )[i as int]);
                    assert(spec_entry_columns(kp_self)[i as int] != spec_entry_columns(
                        kp_other,
                    )[i as int]);
                    lemma_pairs_components(kp_self, kp_other);
                }
                return false;
            }
            i = i + 1;
        }

        // Check that values are the same
        let self_vals = self.get_key_values();
        let other_vals = other.get_key_values();
        proof {
            assert(spec_view_values(self_vals@).len() == self_vals@.len());
            assert(spec_view_values(other_vals@).len() == other_vals@.len());
            assert(spec_entry_values(kp_self).len() == kp_self.len());
            assert(spec_entry_values(kp_other).len() == kp_other.len());
        }
        let mut j: usize = 0;
        while j < num_key_columns
            invariant
                num_key_columns == self_vals@.len() == other_vals@.len(),
                j <= num_key_columns,
                kp_self == spec_key_pairs(self@),
                kp_other == spec_key_pairs(other@),
                spec_view_values(self_vals@) == spec_entry_values(kp_self),
                spec_view_values(other_vals@) == spec_entry_values(kp_other),
                forall|k: int|
                    0 <= k < j ==> #[trigger] spec_view_values(self_vals@)[k] == spec_view_values(
                        other_vals@,
                    )[k],
            decreases num_key_columns - j,
        {
            if !(self_vals[j] == other_vals[j]) {
                proof {
                    assert(spec_view_values(self_vals@)[j as int] != spec_view_values(
                        other_vals@,
                    )[j as int]);
                    assert(spec_entry_values(kp_self)[j as int] != spec_entry_values(
                        kp_other,
                    )[j as int]);
                    lemma_pairs_components(kp_self, kp_other);
                }
                return false;
            }
            j = j + 1;
        }

        proof {
            assert(spec_view_columns(self_cols@) =~~= spec_view_columns(other_cols@));
            assert(spec_view_values(self_vals@) =~~= spec_view_values(other_vals@));
            lemma_pairs_components(kp_self, kp_other);
        }
        true
    }

    /// Returns the values of this entry in the given order.
    /// Errors unless the given columns are a subset of the columns of this
    /// entry; a column occurring several times in this entry contributes each
    /// of its values.
    pub fn get_values_in_order(&self, columns: &Vec<Column>) -> (r: Result<
        Vec<Value>,
        ProjectionError,
    >)
        ensures
            (match r {
                Ok(vals) => spec_cols_subset(spec_view_columns(columns@), spec_entry_columns(self@))
                    && spec_view_values(vals@) == spec_values_in_order(
                    self@,
                    spec_view_columns(columns@),
                ),
                Err(e) => e == ProjectionError::NotASubset && !spec_cols_subset(
                    spec_view_columns(columns@),
                    spec_entry_columns(self@),
                ),
            }),
    {
        let ghost cv = spec_view_columns(columns@);
        let mut result: Vec<Value> = Vec::new();
        let mut i: usize = 0;
        proof {
            assert(cv.subrange(0, 0) =~~= Seq::<SpecColumn>::empty());
            assert(spec_view_values(result@) =~~= spec_values_in_order(self@, cv.subrange(0, 0)));
        }
        while i < columns.len()
            invariant
                i <= columns@.len(),
                cv == spec_view_columns(columns@),
                cv.len() == columns@.len(),
                spec_view_values(result@) == spec_values_in_order(self@, cv.subrange(0, i as int)),
                forall|k: int|
                    0 <= k < i ==> spec_entry_columns(self@).contains(#[trigger] cv[k]),
            decreases columns@.len() - i,
        {
            let column = &columns[i];
            let mut found: bool = false;
            let mut j: usize = 0;
            let ghost pre = result@;
            proof {
                self.lemma_prefix_props(0);
                assert(spec_matching_values(self.spec_prefix(0), column@) =~~= Seq::<
                    SpecValue,
                >::empty());
                assert(spec_view_values(result@) =~~= spec_view_values(pre)
                    + spec_matching_values(self.spec_prefix(0), column@));
            }
            while j < self.values.len()
                invariant
                    j <= self.values@.len(),
                    found == exists|k: int|
                        0 <= k < j && (#[trigger] self.values@[k]).0@ == column@,
                    spec_view_values(result@) == spec_view_values(pre) + spec_matching_values(
                        self.spec_prefix(j as int),
                        column@,
                    ),
                decreases self.values@.len() - j,
            {
                let ghost old_result = result@;
                let ghost p = spec_pair_view(self.values@[j as int]);
                proof {
                    self.lemma_prefix_props(j as int);
                    self.lemma_matching_push(j as int, column@);
                }
                if column == &self.values[j].0 {
                    let v = self.values[j].1.clone();
                    result.push(v);
                    found = true;
                    proof {
                        lemma_view_values_push(old_result, v);
                        assert(spec_view_values(result@) =~~= spec_view_values(pre)
                            + spec_matching_values(self.spec_prefix(j + 1), column@));
                    }
                }
                j = j + 1;
            }
            proof {
                self.lemma_prefix_props(j as int);
            }
            if !found {
                // No pair of this entry carries the requested column.
                proof {
                    if spec_entry_columns(self@).contains(cv[i as int]) {
                        let w = choose|w: int|
                            0 <= w < spec_entry_columns(self@).len() && spec_entry_columns(
                                self@,
                            )[w] == cv[i as int];
                        assert(self@[w].0 == column@);
                        assert(self@[w] == spec_pair_view(self.values@[w]));
                        assert(false);
                    }
                }
                return Err(ProjectionError::NotASubset);
            }
            proof {
                let k = choose|k: int|
                    0 <= k < self.values@.len() && (#[trigger] self.values@[k]).0@ == column@;
                assert(self@[k] == spec_pair_view(self.values@[k]));
                assert(spec_entry_columns(self@)[k] == column@);
                assert(spec_entry_columns(self@).contains(cv[i as int]));
                assert(cv.subrange(0, i + 1).drop_last() =~~= cv.subrange(0, i as int));
                assert(cv.subrange(0, i + 1).last() == column@);
                assert(spec_view_values(result@) =~~= spec_values_in_order(
                    self@,
                    cv.subrange(0, i + 1),
                ));
            }
            i = i + 1;
        }
        proof {
            assert(cv.subrange(0, cv.len() as int) =~~= cv);
        }
        Ok(result)
    }

    /// One step of the values matching a column over a prefix.
    proof fn lemma_matching_push(&self, j: int, c: SpecColumn)
        requires
            0 <= j < self.values@.len(),
        ensures
            spec_matching_values(self.spec_prefix(j + 1), c) == (if self.values@[j].0@ == c {
                spec_matching_values(self.spec_prefix(j), c).push(self.values@[j].1@)
            } else {
                spec_matching_values(self.spec_prefix(j), c)
            }),
    {
        self.lemma_prefix_props(j);
        let pre = self.spec_prefix(j);
        let p = spec_pair_view(self.values@[j]);
        let cur = pre.push(p);
        assert(cur.drop_last() =~~= pre);
        assert(cur.last() == p);
        assert(self.spec_prefix(j + 1) == cur);
    }
}

impl Clone for Entry {
    /// Cloning keeps every pair.
    fn clone(&self) -> (r: Self)
        ensures
            r@ == self@,
    {
        let mut values: Vec<(Column, Value)> = Vec::new();
        let mut i: usize = 0;
        proof {
            self.lemma_prefix_props(0);
            assert(spec_view_pairs(values@) =~~= self.spec_prefix(0));
        }
        while i < self.values.len()
            invariant
                i <= self.values@.len(),
                spec_view_pairs(values@) == self.spec_prefix(i as int),
            decreases self.values@.len() - i,
        {
            let ghost old_values = values@;
            proof {
                self.lemma_prefix_props(i as int);
            }
            let c = self.values[i].0.clone();
            let v = self.values[i].1.clone();
            values.push((c, v));
            proof {
                lemma_view_pairs_push(old_values, (c, v));
                assert(spec_pair_view((c, v)) == spec_pair_view(self.values@[i as int]));
            }
            i = i + 1;
        }
        proof {
            self.lemma_prefix_props(i as int);
        }
        Entry { values }
    }
}

impl PartialEq for Entry {
    fn eq(&self, other: &Self) -> (r: bool) {
        if self.values.len() != other.values.len() {
            proof {
                assert(self@.len() == self.values@.len());
                assert(other@.len() == other.values@.len());
            }
            return false;
        }
        let mut i: usize = 0;
        while i < self.values.len()
            invariant
                self.values@.len() == other.values@.len(),
                i <= self.values@.len(),
                forall|k: int| 0 <= k < i ==> #[trigger] self@[k] == other@[k],
            decreases self.values@.len() - i,
        {
            let col_eq = self.values[i].0 == other.values[i].0;
            let val_eq = self.values[i].1 == other.values[i].1;
            proof {
                assert(self@[i as int] == spec_pair_view(self.values@[i as int]));
                assert(other@[i as int] == spec_pair_view(other.values@[i as int]));
            }
            if !(col_eq && val_eq) {
                return false;
            }
            i = i + 1;
        }
        proof {
            assert(self@ =~~= other@);
        }
        true
    }
}

impl vstd::std_specs::cmp::PartialEqSpecImpl for Entry {
    open spec fn obeys_eq_spec() -> bool {
        true
    }

    open spec fn eq_spec(&self, other: &Self) -> bool {
        self@ == other@
    }
}

} // verus!
