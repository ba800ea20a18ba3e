//! The cell store: a column/row-keyed association of cells, together with
//! the reference-splitting helper that turns `"B12"` into `("B", "12")`.
//!
//! A reference with no cell is observationally a blank; the internal
//! accessors distinguish a missing entry (`None`) from a stored cell.

use vstd::prelude::*;
use vstd::string::StrSliceExecFns;
use vstd::string::StringExecFns;
use crate::cell::{Cell, CellV, opt_str_view};
use crate::text::is_upper;

verus! {

/// Model of one stored entry: a (column, row) key and its cell.
pub struct EntryV {
    pub col: Seq<char>,
    pub row: Seq<char>,
    pub cell: CellV,
}

#[derive(Clone)]
struct Entry {
    col: String,
    row: String,
    cell: Cell,
}

impl View for Entry {
    type V = EntryV;

    closed spec fn view(&self) -> EntryV {
        EntryV { col: self.col@, row: self.row@, cell: self.cell@ }
    }
}

/// The cell looked up under a (column, row) key, `None` when the key was
/// never written.
pub open spec fn store_lookup(s: Seq<EntryV>, col: Seq<char>, row: Seq<char>) -> Option<CellV>
    decreases s.len(),
{
    if s.len() == 0 {
        None
    } else if s.first().col == col && s.first().row == row {
        Some(s.first().cell)
    } else {
        store_lookup(s.drop_first(), col, row)
    }
}

/// The store after writing `cell` under (col, row): the first matching
/// entry is replaced in place, or a new entry is appended at the end.
pub open spec fn store_insert(
    s: Seq<EntryV>,
    col: Seq<char>,
    row: Seq<char>,
    cell: CellV,
) -> Seq<EntryV>
    decreases s.len(),
{
    if s.len() == 0 {
        seq![EntryV { col, row, cell }]
    } else if s.first().col == col && s.first().row == row {
        s.update(0, EntryV { col, row, cell })
    } else {
        seq![s.first()] + store_insert(s.drop_first(), col, row, cell)
    }
}

/// Writing a cell changes exactly the written key's lookup.
pub proof fn lemma_store_insert_lookup(
    s: Seq<EntryV>,
    col: Seq<char>,
    row: Seq<char>,
    cell: CellV,
    c2: Seq<char>,
    r2: Seq<char>,
)
    ensures
        store_lookup(store_insert(s, col, row, cell), c2, r2) == (if c2 == col && r2 == row {
            Some(cell)
        } else {
            store_lookup(s, c2, r2)
        }),
    decreases s.len(),
{
    let s2 = store_insert(s, col, row, cell);
    if s.len() == 0 {
        assert(s2 == seq![EntryV { col, row, cell }]);
        assert(s2.len() == 1);
        assert(s2.first() == EntryV { col, row, cell });
        assert(s2.drop_first() =~= Seq::<EntryV>::empty());
        if c2 == col && r2 == row {
            assert(store_lookup(s2, c2, r2) == Some(cell));
        } else {
            assert(store_lookup(s2, c2, r2) is None);
        }
    } else if s.first().col == col && s.first().row == row {
        assert(s2 == s.update(0, EntryV { col, row, cell }));
        assert(s2.len() == s.len());
        assert(s2.first() == EntryV { col, row, cell });
        assert(s2.drop_first() =~= s.drop_first());
        if c2 == col && r2 == row {
            assert(store_lookup(s2, c2, r2) == Some(cell));
        } else {
            assert(store_lookup(s2, c2, r2) == store_lookup(s.drop_first(), c2, r2));
            assert(store_lookup(s, c2, r2) == store_lookup(s.drop_first(), c2, r2));
        }
    } else {
        assert(s2 == seq![s.first()] + store_insert(s.drop_first(), col, row, cell));
        assert(s2.len() >= 1);
        assert(s2.first() == s.first());
        assert(s2.drop_first() =~= store_insert(s.drop_first(), col, row, cell));
        lemma_store_insert_lookup(s.drop_first(), col, row, cell, c2, r2);
    }
}

proof fn lemma_store_insert_at(s: Seq<EntryV>, i: int, e: EntryV)
    requires
        0 <= i < s.len(),
        forall|j: int| 0 <= j < i ==> !(#[trigger] s[j].col == e.col && s[j].row == e.row),
        s[i].col == e.col,
        s[i].row == e.row,
    ensures
        store_insert(s, e.col, e.row, e.cell) == s.update(i, e),
    decreases i,
{
    if i == 0 {
        assert(EntryV { col: e.col, row: e.row, cell: e.cell } == e);
    } else {
        let t = s.drop_first();
        assert(forall|j: int|
            0 <= j < i - 1 ==> !(#[trigger] t[j].col == e.col && t[j].row == e.row));
        lemma_store_insert_at(t, i - 1, e);
        assert(seq![s.first()] + t.update(i - 1, e) =~= s.update(i, e));
    }
}

proof fn lemma_store_insert_absent(s: Seq<EntryV>, e: EntryV)
    requires
        forall|j: int| 0 <= j < s.len() ==> !(#[trigger] s[j].col == e.col && s[j].row == e.row),
    ensures
        store_insert(s, e.col, e.row, e.cell) == s.push(e),
    decreases s.len(),
{
    if s.len() == 0 {
        assert(seq![EntryV { col: e.col, row: e.row, cell: e.cell }] =~= s.push(e));
    } else {
        let t = s.drop_first();
        assert(forall|j: int| 0 <= j < t.len() ==> !(#[trigger] t[j].col == e.col && t[j].row == e.row));
        lemma_store_insert_absent(t, e);
        assert(seq![s.first()] + t.push(e) =~= s.push(e));
    }
}

/// Keys are pairwise distinct, so each key denotes at most one cell.
pub open spec fn store_wf(s: Seq<EntryV>) -> bool {
    forall|i: int, j: int|
        0 <= i < j < s.len() ==> !(s[i].col == s[j].col && s[i].row == s[j].row)
}

/// Splitting a reference string: the leading run of uppercase letters is
/// the column label, everything from the first other character on is the
/// row text (empty when the whole string is uppercase).
pub open spec fn split_ref(r: Seq<char>) -> (Seq<char>, Seq<char>)
    decreases r.len(),
{
    if r.len() == 0 {
        (Seq::empty(), Seq::empty())
    } else if !is_upper(r.first()) {
        (Seq::empty(), r)
    } else {
        let rest = split_ref(r.drop_first());
        (seq![r.first()] + rest.0, rest.1)
    }
}

proof fn lemma_split_ref_at(s: Seq<char>, k: int)
    requires
        0 <= k <= s.len(),
        forall|j: int| 0 <= j < k ==> is_upper(s[j]),
        k < s.len() ==> !is_upper(s[k]),
    ensures
        split_ref(s).0 == s.subrange(0, k),
        split_ref(s).1 == s.subrange(k, s.len() as int),
    decreases s.len(),
{
    if s.len() == 0 {
        assert(split_ref(s).0 =~= s.subrange(0, k));
        assert(split_ref(s).1 =~= s.subrange(k, s.len() as int));
    } else if k == 0 {
        assert(split_ref(s).0 =~= s.subrange(0, 0));
        assert(s.subrange(0, s.len() as int) =~= s);
    } else {
        let t = s.drop_first();
        assert(forall|j: int| 0 <= j < k - 1 ==> is_upper(#[trigger] t[j]));
        lemma_split_ref_at(t, k - 1);
        assert(seq![s.first()] + t.subrange(0, k - 1) =~= s.subrange(0, k));
        assert(t.subrange(k - 1, t.len() as int) =~= s.subrange(k, s.len() as int));
    }
}

/// Split a reference such as `"B12"` into its column label and row text:
/// the leading uppercase letters form the column, the remainder from the
/// first other character on forms the row.
pub fn get_cell_ref_split(ref_str: &str) -> (r: (String, String))
    ensures
        r.0@ == split_ref(ref_str@).0,
        r.1@ == split_ref(ref_str@).1,
{
    let n = ref_str.unicode_len();
    let mut k: usize = 0;
    while k < n && upper_at(ref_str, k, n)
        invariant
            0 <= k <= n,
            n == ref_str@.len(),
            forall|j: int| 0 <= j < k ==> is_upper(ref_str@[j]),
        decreases n - k,
    {
        k = k + 1;
    }
    proof {
        lemma_split_ref_at(ref_str@, k as int);
    }
    let col = String::from_str(ref_str.substring_char(0, k));
    let row = String::from_str(ref_str.substring_char(k, n));
    (col, row)
}

fn upper_at(s: &str, k: usize, n: usize) -> (b: bool)
    requires
        k < n,
        n == s@.len(),
    ensures
        b == is_upper(s@[k as int]),
{
    let c = s.get_char(k);
    'A' <= c && c <= 'Z'
}

/// The column-indexed cell store. Entries are kept as a flat association
/// keyed by the full (column, row) pair, one entry per written cell.
#[derive(Clone)]
pub struct Trie {
    entries: Vec<Entry>,
}

impl View for Trie {
    type V = Seq<EntryV>;

    closed spec fn view(&self) -> Seq<EntryV> {
        self.entries@.map_values(|e: Entry| e@)
    }
}

proof fn lemma_lookup_update(s: Seq<EntryV>, i: int, e: EntryV, c2: Seq<char>, r2: Seq<char>)
    requires
        0 <= i < s.len(),
        forall|j: int| 0 <= j < i ==> !(s[j].col == s[i].col && s[j].row == s[i].row),
        e.col == s[i].col,
        e.row == s[i].row,
    ensures
        store_lookup(s.update(i, e), c2, r2) == (if c2 == s[i].col && r2 == s[i].row {
            Some(e.cell)
        } else {
            store_lookup(s, c2, r2)
        }),
    decreases i,
{
    if i == 0 {
        assert(s.update(0, e).drop_first() =~= s.drop_first());
    } else {
        let t = s.drop_first();
        assert(forall|j: int|
            0 <= j < i - 1 ==> !(#[trigger] t[j].col == t[i - 1].col && t[j].row == t[i - 1].row));
        lemma_lookup_update(t, i - 1, e, c2, r2);
        assert(s.update(i, e).drop_first() =~= t.update(i - 1, e));
        assert(s.update(i, e).first() == s.first());
    }
}

proof fn lemma_lookup_push(s: Seq<EntryV>, e: EntryV, c2: Seq<char>, r2: Seq<char>)
    ensures
        store_lookup(s.push(e), c2, r2) == (if store_lookup(s, c2, r2) is Some {
            store_lookup(s, c2, r2)
        } else if c2 == e.col && r2 == e.row {
            Some(e.cell)
        } else {
            None
        }),
    decreases s.len(),
{
    if s.len() == 0 {
        assert(s.push(e).drop_first() =~= s);
    } else {
        assert(s.push(e).drop_first() =~= s.drop_first().push(e));
        lemma_lookup_push(s.drop_first(), e, c2, r2);
    }
}

impl Trie {
    /// Every stored key is unique, so lookups are unambiguous.
    pub open spec fn wf(&self) -> bool {
        store_wf(self@)
    }

    /// An empty store: every lookup misses.
    pub fn new() -> (t: Trie)
        ensures
            t.wf(),
            forall|c: Seq<char>, r: Seq<char>| store_lookup(t@, c, r) is None,
    {
        let t = Trie { entries: Vec::new() };
        proof {
            assert(t@ =~= Seq::<EntryV>::empty());
        }
        t
    }

    /// Store `value` (and optional formula text) under the split of
    /// `ref_str`, overwriting any cell already there.
    pub fn insert_cell(&mut self, value: String, formula: Option<String>, ref_str: &str)
        requires
            old(self).wf(),
        ensures
            final(self).wf(),
            final(self)@ == store_insert(
                old(self)@,
                split_ref(ref_str@).0,
                split_ref(ref_str@).1,
                CellV { value: value@, formula: opt_str_view(&formula) },
            ),
            forall|c2: Seq<char>, r2: Seq<char>|
                #![all_triggers]
                store_lookup(final(self)@, c2, r2) == (if c2 == split_ref(ref_str@).0 && r2 == split_ref(
                    ref_str@,
                ).1 {
                    Some(CellV { value: value@, formula: opt_str_view(&formula) })
                } else {
                    store_lookup(old(self)@, c2, r2)
                }),
    {
        let (col, row) = get_cell_ref_split(ref_str);
        self.insert(value, formula, col, row)
    }

    /// Store `value` (and optional formula text) under the (column, row)
    /// key, overwriting any cell already there.
    pub fn insert(&mut self, value: String, formula: Option<String>, col: String, row: String)
        requires
            old(self).wf(),
        ensures
            final(self).wf(),
            final(self)@ == store_insert(
                old(self)@,
                col@,
                row@,
                CellV { value: value@, formula: opt_str_view(&formula) },
            ),
            forall|c2: Seq<char>, r2: Seq<char>|
                #![all_triggers]
                store_lookup(final(self)@, c2, r2) == (if c2 == col@ && r2 == row@ {
                    Some(CellV { value: value@, formula: opt_str_view(&formula) })
                } else {
                    store_lookup(old(self)@, c2, r2)
                }),
    {
        let ghost old_view = self@;
        let n = self.entries.len();
        let mut i: usize = 0;
        let mut found: bool = false;
        while i < n && !found
            invariant
                0 <= i <= n,
                n == self.entries.len(),
                self == old(self),
                !found ==> forall|j: int|
                    0 <= j < i ==> !(#[trigger] self@[j].col == col@ && self@[j].row == row@),
                found ==> i < n && self@[i as int].col == col@ && self@[i as int].row == row@
                    && forall|j: int|
                    0 <= j < i ==> !(#[trigger] self@[j].col == col@ && self@[j].row == row@),
            decreases n - i + (if found { 0int } else { 1int }),
    {
            let e = &self.entries[i];
            if e.col == col && e.row == row {
                found = true;
            } else {
                i = i + 1;
            }
        }
        let cell = Cell::new(value, formula);
        if found {
            let e = Entry { col, row, cell };
            proof {
                lemma_lookup_update_all(self@, i as int, e@);
                lemma_store_insert_at(old_view, i as int, e@);
            }
            self.entries.remove(i);
            self.entries.insert(i, e);
            proof {
                assert(self@ =~= old_view.update(i as int, e@));
            }
        } else {
            let e = Entry { col, row, cell };
            proof {
                lemma_lookup_push_all(self@, e@);
                lemma_store_insert_absent(old_view, e@);
            }
            self.entries.push(e);
            proof {
                assert(self@ =~= old_view.push(e@));
            }
        }
    }

    /// The cell stored under the split of `ref_str`, if any; a missing
    /// entry reads as a blank at the host boundary.
    pub fn get_cell(&self, ref_str: &str) -> (r: Option<Cell>)
        ensures
            match r {
                Some(c) => store_lookup(self@, split_ref(ref_str@).0, split_ref(ref_str@).1)
                    == Some(c@),
                None => store_lookup(self@, split_ref(ref_str@).0, split_ref(ref_str@).1) is None,
            },
    {
        let (col, row) = get_cell_ref_split(ref_str);
        self.get(col, row)
    }

    /// The cell stored under the (column, row) key, if any.
    pub fn get(&self, col: String, row: String) -> (r: Option<Cell>)
        ensures
            match r {
                Some(c) => store_lookup(self@, col@, row@) == Some(c@),
                None => store_lookup(self@, col@, row@) is None,
            },
    {
        self.get_internal(col.as_str(), row.as_str())
    }

    /// The cell stored under the split of `ref_str`, if any.
    pub fn get_cell_internal(&self, ref_str: &str) -> (r: Option<Cell>)
        ensures
            match r {
                Some(c) => store_lookup(self@, split_ref(ref_str@).0, split_ref(ref_str@).1)
                    == Some(c@),
                None => store_lookup(self@, split_ref(ref_str@).0, split_ref(ref_str@).1) is None,
            },
    {
        let (col, row) = get_cell_ref_split(ref_str);
        self.get_internal(col.as_str(), row.as_str())
    }

    /// The cell stored under the (column, row) key, if any.
    pub fn get_internal(&self, col: &str, row: &str) -> (r: Option<Cell>)
        ensures
            match r {
                Some(c) => store_lookup(self@, col@, row@) == Some(c@),
                None => store_lookup(self@, col@, row@) is None,
            },
    {
        let col_s = col.to_owned();
        let row_s = row.to_owned();
        let n = self.entries.len();
        let mut i: usize = 0;
        while i < n
            invariant
                0 <= i <= n,
                n == self.entries.len(),
                col_s@ == col@,
                row_s@ == row@,
                forall|j: int|
                    0 <= j < i ==> !(#[trigger] self@[j].col == col@ && self@[j].row == row@),
            decreases n - i,
        {
            let e = &self.entries[i];
            if e.col == col_s && e.row == row_s {
                proof {
                    lemma_lookup_at(self@, i as int, col@, row@);
                }
                return Some(e.cell.clone());
            }
            i = i + 1;
        }
        proof {
            lemma_lookup_none(self@, col@, row@);
        }
        None
    }
}

proof fn lemma_lookup_at(s: Seq<EntryV>, i: int, c2: Seq<char>, r2: Seq<char>)
    requires
        0 <= i < s.len(),
        forall|j: int| 0 <= j < i ==> !(#[trigger] s[j].col == c2 && s[j].row == r2),
        s[i].col == c2,
        s[i].row == r2,
    ensures
        store_lookup(s, c2, r2) == Some(s[i].cell),
    decreases i,
{
    if i == 0 {
    } else {
        let t = s.drop_first();
        assert(forall|j: int| 0 <= j < i - 1 ==> !(#[trigger] t[j].col == c2 && t[j].row == r2));
        lemma_lookup_at(t, i - 1, c2, r2);
    }
}

proof fn lemma_lookup_none(s: Seq<EntryV>, c2: Seq<char>, r2: Seq<char>)
    requires
        forall|j: int| 0 <= j < s.len() ==> !(#[trigger] s[j].col == c2 && s[j].row == r2),
    ensures
        store_lookup(s, c2, r2) is None,
    decreases s.len(),
{
    if s.len() == 0 {
    } else {
        let t = s.drop_first();
        assert(forall|j: int| 0 <= j < t.len() ==> !(#[trigger] t[j].col == c2 && t[j].row == r2));
        lemma_lookup_none(t, c2, r2);
    }
}

proof fn lemma_lookup_update_all(s: Seq<EntryV>, i: int, e: EntryV)
    requires
        0 <= i < s.len(),
        forall|j: int| 0 <= j < i ==> !(#[trigger] s[j].col == s[i].col && s[j].row == s[i].row),
        e.col == s[i].col,
        e.row == s[i].row,
        store_wf(s),
    ensures
        store_wf(s.update(i, e)),
        forall|c2: Seq<char>, r2: Seq<char>|
            #![all_triggers]
            store_lookup(s.update(i, e), c2, r2) == (if c2 == e.col && r2 == e.row {
                Some(e.cell)
            } else {
                store_lookup(s, c2, r2)
            }),
{
    assert forall|c2: Seq<char>, r2: Seq<char>|
        #![all_triggers]
        store_lookup(s.update(i, e), c2, r2) == (if c2 == e.col && r2 == e.row {
            Some(e.cell)
        } else {
            store_lookup(s, c2, r2)
        }) by {
        lemma_lookup_update(s, i, e, c2, r2);
    }
}

proof fn lemma_lookup_push_all(s: Seq<EntryV>, e: EntryV)
    requires
        store_wf(s),
        forall|j: int| 0 <= j < s.len() ==> !(#[trigger] s[j].col == e.col && s[j].row == e.row),
    ensures
        store_wf(s.push(e)),
        forall|c2: Seq<char>, r2: Seq<char>|
            #![all_triggers]
            store_lookup(s.push(e), c2, r2) == (if c2 == e.col && r2 == e.row {
                Some(e.cell)
            } else {
                store_lookup(s, c2, r2)
            }),
{
    assert forall|c2: Seq<char>, r2: Seq<char>|
        #![all_triggers]
        store_lookup(s.push(e), c2, r2) == (if c2 == e.col && r2 == e.row {
            Some(e.cell)
        } else {
            store_lookup(s, c2, r2)
        }) by {
        lemma_lookup_push(s, e, c2, r2);
        if !(c2 == e.col && r2 == e.row) && store_lookup(s, c2, r2) is None {
        }
        if c2 == e.col && r2 == e.row {
            lemma_lookup_none(s, c2, r2);
        }
    }
}

} // verus!
