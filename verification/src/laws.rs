//! Laws of the engine, stated and proved over the public models.

use vstd::prelude::*;
use vstd::arithmetic::div_mod::lemma_fundamental_div_mod;
use crate::cell::CellV;
use crate::graph::GEntryV;
use crate::store::{EntryV, store_insert, split_ref, lemma_store_insert_lookup};
use crate::sheet::{sheet_lookup, is_formula_text, propagate_spec, lemma_propagate_preserves_plain};
use crate::text::{label_of, label_val, column_label, column_index_of};

verus! {

proof fn lemma_label_val_of(m: nat)
    requires
        m >= 1,
    ensures
        label_val(label_of(m)) == m,
    decreases m,
{
    let r = ((m - 1) as nat) % 26;
    let q = ((m - 1) as nat) / 26;
    lemma_fundamental_div_mod((m - 1) as int, 26);
    assert(0 <= r < 26);
    assert(crate::text::upper_of(r as int) as u32 == 65 + r);
    if q == 0 {
        let s = label_of(m);
        assert(s =~= seq![crate::text::upper_of(r as int)]);
        assert(s.last() == crate::text::upper_of(r as int));
        assert(s.drop_last() =~= Seq::<char>::empty());
        assert(label_val(s) == label_val(s.drop_last()) * 26 + (s.last() as u32 - 64));
        assert(label_val(Seq::<char>::empty()) == 0);
    } else {
        lemma_label_val_of(q);
        let s = label_of(m);
        assert(s =~= label_of(q).push(crate::text::upper_of(r as int)));
        assert(s.last() == crate::text::upper_of(r as int));
        assert(s.drop_last() =~= label_of(q));
        assert(label_val(s) == label_val(s.drop_last()) * 26 + (s.last() as u32 - 64));
        assert(label_val(s) == q * 26 + r + 1);
    }
}

/// Decoding a column label yields the index it was made from: for every
/// index `n`, the bijective base-26 label of `n` denotes `n` again.
pub proof fn column_label_round_trip(n: nat)
    ensures
        column_index_of(column_label(n)) == n,
{
    lemma_label_val_of(n + 1);
}

/// Repeating a literal write stores the same cell both times. The two
/// hypotheses are `set_cell_value`'s literal-case contract for two
/// consecutive writes of the same text (a literal write leaves the graph
/// unchanged, so one graph serves both): each write stores the cell
/// `{text, formula: none}` under the reference and then propagates, and
/// propagation never touches a cell without a formula — so the stored
/// cell after either write is `{text, formula: none}`, whatever state
/// the write started from.
pub proof fn literal_write_idempotent(
    st0: Seq<EntryV>,
    g: Seq<GEntryV>,
    ref_s: Seq<char>,
    text: Seq<char>,
    st1: Seq<EntryV>,
    st2: Seq<EntryV>,
)
    requires
        !is_formula_text(text),
        st1 == propagate_spec(
            store_insert(
                st0,
                split_ref(ref_s).0,
                split_ref(ref_s).1,
                CellV { value: text, formula: None },
            ),
            g,
            ref_s,
        ),
        st2 == propagate_spec(
            store_insert(
                st1,
                split_ref(ref_s).0,
                split_ref(ref_s).1,
                CellV { value: text, formula: None },
            ),
            g,
            ref_s,
        ),
    ensures
        sheet_lookup(st1, ref_s) == Some(CellV { value: text, formula: None }),
        sheet_lookup(st2, ref_s) == sheet_lookup(st1, ref_s),
{
    let col = split_ref(ref_s).0;
    let row = split_ref(ref_s).1;
    let written = CellV { value: text, formula: None };
    let m1 = store_insert(st0, col, row, written);
    lemma_store_insert_lookup(st0, col, row, written, col, row);
    lemma_propagate_preserves_plain(m1, g, seq![ref_s], Seq::empty(), col, row);
    let m2 = store_insert(st1, col, row, written);
    lemma_store_insert_lookup(st1, col, row, written, col, row);
    lemma_propagate_preserves_plain(m2, g, seq![ref_s], Seq::empty(), col, row);
}

} // verus!
