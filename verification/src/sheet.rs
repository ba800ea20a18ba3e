//! The spreadsheet engine: composes the cell store, the dependency graph
//! and the formula evaluator, and drives the reactive recomputation of
//! dependent cells after a write.

use vstd::prelude::*;
use vstd::string::StrSliceExecFns;
use vstd::string::StringExecFns;
use crate::cell::{Cell, CellV};
use crate::store::{Trie, EntryV, store_lookup, store_wf, store_insert, lemma_store_insert_lookup, split_ref};
use crate::graph::{
    DependencyGraph, GEntryV, graph_lookup, graph_wf, seq_remove, add_dep, flat_deps,
    lemma_lookup_in_flat, extract_refs, extract_references, svv,
};
use crate::eval::{evaluate_formula, eval_formula_spec};
use crate::text::{column_label, dec_rep, get_column_header, render_u64, chars_to_string};

verus! {

/// The cell stored under a reference string, keyed by its split.
pub open spec fn sheet_lookup(st: Seq<EntryV>, r: Seq<char>) -> Option<CellV> {
    store_lookup(st, split_ref(r).0, split_ref(r).1)
}

/// Whether the written text is a formula: it starts with `=`.
pub open spec fn is_formula_text(v: Seq<char>) -> bool {
    v.len() > 0 && v[0] == '='
}

/// How recomputation may change one stored slot: nothing appears or
/// disappears, a formula is never altered, and a cell without a formula
/// keeps its value.
pub open spec fn preserves_cell(o0: Option<CellV>, o1: Option<CellV>) -> bool {
    match (o0, o1) {
        (None, None) => true,
        (Some(c0), Some(c1)) => c1.formula == c0.formula && (c0.formula is None ==> c1 == c0),
        (None, Some(_)) => false,
        (Some(_), None) => false,
    }
}

/// Recomputation leaves every key present, every formula unchanged, and
/// every formula-less cell untouched; only cached formula values move.
pub open spec fn values_only_update(st0: Seq<EntryV>, st1: Seq<EntryV>) -> bool {
    forall|c: Seq<char>, r: Seq<char>|
        #![all_triggers]
        preserves_cell(store_lookup(st0, c, r), store_lookup(st1, c, r))
}

proof fn lemma_values_only_refl(st: Seq<EntryV>)
    ensures
        values_only_update(st, st),
{
}

proof fn lemma_values_only_trans(st0: Seq<EntryV>, st1: Seq<EntryV>, st2: Seq<EntryV>)
    requires
        values_only_update(st0, st1),
        values_only_update(st1, st2),
    ensures
        values_only_update(st0, st2),
{
    assert forall|c: Seq<char>, r: Seq<char>|
        #![all_triggers]
        preserves_cell(store_lookup(st0, c, r), store_lookup(st2, c, r)) by {
        assert(preserves_cell(store_lookup(st0, c, r), store_lookup(st1, c, r)));
        assert(preserves_cell(store_lookup(st1, c, r), store_lookup(st2, c, r)));
    }
}

/// What a rewrite of `dep`'s edges does to the dependents of `k`: `dep`
/// is first removed everywhere, then recorded under each reference the
/// new formula mentions.
pub open spec fn graph_rewrite(
    g: Seq<GEntryV>,
    k: Seq<char>,
    refs: Seq<Seq<char>>,
    dep: Seq<char>,
) -> Option<Seq<Seq<char>>> {
    let base = match graph_lookup(g, k) {
        Some(d) => Some(seq_remove(d, dep)),
        None => None::<Seq<Seq<char>>>,
    };
    if refs.contains(k) {
        Some(
            add_dep(
                match base {
                    Some(d) => d,
                    None => Seq::empty(),
                },
                dep,
            ),
        )
    } else {
        base
    }
}

/// One pass over the dependents recorded under a visited reference:
/// each dependent that currently holds a formula has its value
/// re-evaluated against the store as it stands at that moment, the
/// result is written back, and the dependent is queued so its own
/// dependents are considered in turn; dependents without a stored cell
/// or without a formula are skipped.
pub open spec fn recompute_deps(
    st: Seq<EntryV>,
    deps: Seq<Seq<char>>,
    j: int,
    stack: Seq<Seq<char>>,
) -> (Seq<EntryV>, Seq<Seq<char>>)
    decreases deps.len() - j,
{
    if j < 0 || j >= deps.len() {
        (st, stack)
    } else {
        let d = deps[j];
        match sheet_lookup(st, d) {
            Some(cell) => match cell.formula {
                Some(f) => {
                    let refreshed = CellV { value: eval_formula_spec(f, st), formula: Some(f) };
                    let st2 = store_insert(st, split_ref(d).0, split_ref(d).1, refreshed);
                    recompute_deps(st2, deps, j + 1, stack.push(d))
                },
                None => recompute_deps(st, deps, j + 1, stack),
            },
            None => recompute_deps(st, deps, j + 1, stack),
        }
    }
}

/// The references the traversal may still reach: everything recorded as a
/// dependent anywhere, plus what is on the stack, minus what was visited.
pub open spec fn prop_pending(
    g: Seq<GEntryV>,
    stack: Seq<Seq<char>>,
    visited: Seq<Seq<char>>,
) -> nat {
    flat_deps(g).to_set().union(stack.to_set()).difference(visited.to_set()).len()
}

proof fn lemma_pending_finite(g: Seq<GEntryV>, stack: Seq<Seq<char>>, visited: Seq<Seq<char>>)
    ensures
        flat_deps(g).to_set().union(stack.to_set()).difference(visited.to_set()).finite(),
{
    broadcast use vstd::seq_lib::seq_to_set_is_finite;

}

proof fn lemma_pending_drop(g: Seq<GEntryV>, stack: Seq<Seq<char>>, visited: Seq<Seq<char>>)
    requires
        stack.len() > 0,
    ensures
        prop_pending(g, stack.drop_last(), visited) <= prop_pending(g, stack, visited),
{
    lemma_pending_finite(g, stack, visited);
    let u1 = flat_deps(g).to_set().union(stack.drop_last().to_set()).difference(visited.to_set());
    let u2 = flat_deps(g).to_set().union(stack.to_set()).difference(visited.to_set());
    assert forall|y: Seq<char>| u1.contains(y) implies u2.contains(y) by {
        if stack.drop_last().to_set().contains(y) {
            let w = choose|w: int| 0 <= w < stack.drop_last().len() && stack.drop_last()[w] == y;
            assert(stack[w] == y);
        }
    }
    vstd::set_lib::lemma_len_subset(u1, u2);
}

proof fn lemma_pending_visit(
    g: Seq<GEntryV>,
    stack: Seq<Seq<char>>,
    stack2: Seq<Seq<char>>,
    visited: Seq<Seq<char>>,
)
    requires
        stack.len() > 0,
        !visited.contains(stack.last()),
        forall|j: int|
            0 <= j < stack2.len() ==> stack.drop_last().contains(#[trigger] stack2[j])
                || flat_deps(g).contains(stack2[j]),
    ensures
        prop_pending(g, stack2, visited.push(stack.last())) < prop_pending(g, stack, visited),
{
    lemma_pending_finite(g, stack, visited);
    let x = stack.last();
    let u1 = flat_deps(g).to_set().union(stack2.to_set()).difference(visited.push(x).to_set());
    let u2 = flat_deps(g).to_set().union(stack.to_set()).difference(visited.to_set());
    assert(visited.push(x).contains(x)) by {
        assert(visited.push(x).last() == x);
    }
    assert(u2.contains(x)) by {
        assert(stack.contains(x)) by {
            assert(stack[stack.len() - 1] == x);
        }
    }
    assert forall|y: Seq<char>| u1.contains(y) implies u2.remove(x).contains(y) by {
        assert(y != x);
        if stack2.to_set().contains(y) {
            let w = choose|w: int| 0 <= w < stack2.len() && stack2[w] == y;
            if stack.drop_last().contains(y) {
                let v = choose|v: int| 0 <= v < stack.drop_last().len() && stack.drop_last()[v] == y;
                assert(stack[v] == y);
            }
        }
        if visited.contains(y) {
            let w = choose|w: int| 0 <= w < visited.len() && visited[w] == y;
            assert(visited.push(x)[w] == y);
        }
    }
    assert(u2.remove(x).len() == u2.len() - 1);
    vstd::set_lib::lemma_len_subset(u1, u2.remove(x));
}

proof fn lemma_recompute_deps_stack(
    st: Seq<EntryV>,
    deps: Seq<Seq<char>>,
    j: int,
    stack: Seq<Seq<char>>,
)
    ensures
        forall|i: int|
            0 <= i < recompute_deps(st, deps, j, stack).1.len() ==> stack.contains(
                #[trigger] recompute_deps(st, deps, j, stack).1[i],
            ) || deps.contains(recompute_deps(st, deps, j, stack).1[i]),
    decreases deps.len() - j,
{
    if 0 <= j < deps.len() {
        let d = deps[j];
        let r = recompute_deps(st, deps, j, stack);
        match sheet_lookup(st, d) {
            Some(cell) => match cell.formula {
                Some(f) => {
                    let refreshed = CellV { value: eval_formula_spec(f, st), formula: Some(f) };
                    let st2 = store_insert(st, split_ref(d).0, split_ref(d).1, refreshed);
                    lemma_recompute_deps_stack(st2, deps, j + 1, stack.push(d));
                    assert(r == recompute_deps(st2, deps, j + 1, stack.push(d)));
                    assert forall|i: int|
                        0 <= i < r.1.len() implies stack.contains(#[trigger] r.1[i])
                        || deps.contains(r.1[i]) by {
                        assert(recompute_deps(st2, deps, j + 1, stack.push(d)).1[i] == r.1[i]);
                        assert(stack.push(d).contains(r.1[i]) || deps.contains(r.1[i]));
                        if stack.push(d).contains(r.1[i]) {
                            let w = choose|w: int|
                                0 <= w < stack.push(d).len() && #[trigger] stack.push(d)[w] == r.1[i];
                            if w < stack.len() {
                                assert(stack[w] == r.1[i]);
                            } else {
                                assert(r.1[i] == d);
                                assert(deps[j] == d);
                            }
                        }
                    }
                },
                None => {
                    lemma_recompute_deps_stack(st, deps, j + 1, stack);
                    assert(r == recompute_deps(st, deps, j + 1, stack));
                },
            },
            None => {
                lemma_recompute_deps_stack(st, deps, j + 1, stack);
                assert(r == recompute_deps(st, deps, j + 1, stack));
            },
        }
    }
}

/// The traversal measure shrinks at every step: popping an already
/// visited reference shortens the stack without growing the pending set,
/// and visiting a new one strictly shrinks the pending set.
proof fn lemma_prop_step(
    st: Seq<EntryV>,
    g: Seq<GEntryV>,
    stack: Seq<Seq<char>>,
    visited: Seq<Seq<char>>,
)
    requires
        stack.len() > 0,
    ensures
        visited.contains(stack.last()) ==> prop_pending(g, stack.drop_last(), visited)
            <= prop_pending(g, stack, visited),
        (!visited.contains(stack.last()) && graph_lookup(g, stack.last()) is Some)
            ==> prop_pending(
            g,
            recompute_deps(st, graph_lookup(g, stack.last()).unwrap(), 0, stack.drop_last()).1,
            visited.push(stack.last()),
        ) < prop_pending(g, stack, visited),
        (!visited.contains(stack.last()) && graph_lookup(g, stack.last()) is None)
            ==> prop_pending(g, stack.drop_last(), visited.push(stack.last())) < prop_pending(
            g,
            stack,
            visited,
        ),
{
    let x = stack.last();
    let rest = stack.drop_last();
    if visited.contains(x) {
        lemma_pending_drop(g, stack, visited);
    } else {
        match graph_lookup(g, x) {
            Some(deps) => {
                let sp = recompute_deps(st, deps, 0, rest);
                lemma_recompute_deps_stack(st, deps, 0, rest);
                lemma_lookup_in_flat(g, x);
                assert forall|j: int|
                    0 <= j < sp.1.len() implies rest.contains(#[trigger] sp.1[j])
                    || flat_deps(g).contains(sp.1[j]) by {
                    if deps.contains(sp.1[j]) {
                        let w = choose|w: int| 0 <= w < deps.len() && deps[w] == sp.1[j];
                        assert(graph_lookup(g, x).unwrap()[w] == sp.1[j]);
                    }
                }
                lemma_pending_visit(g, stack, sp.1, visited);
            },
            None => {
                assert(forall|j: int|
                    0 <= j < rest.len() ==> stack.drop_last().contains(#[trigger] rest[j]));
                lemma_pending_visit(g, stack, rest, visited);
            },
        }
    }
}

#[via_fn]
proof fn propagate_rest_decreases(
    st: Seq<EntryV>,
    g: Seq<GEntryV>,
    stack: Seq<Seq<char>>,
    visited: Seq<Seq<char>>,
) {
    if stack.len() > 0 {
        lemma_prop_step(st, g, stack, visited);
    }
}

/// The traversal itself, over an explicit stack and visited set: pop a
/// reference; skip it when already visited; otherwise mark it visited,
/// recompute the dependents recorded under it (queueing each recomputed
/// one), and continue until the stack is empty.
pub open spec fn propagate_rest(
    st: Seq<EntryV>,
    g: Seq<GEntryV>,
    stack: Seq<Seq<char>>,
    visited: Seq<Seq<char>>,
) -> Seq<EntryV>
    decreases prop_pending(g, stack, visited), stack.len(),
        via propagate_rest_decreases
{
    if stack.len() == 0 {
        st
    } else {
        let x = stack.last();
        let rest = stack.drop_last();
        if visited.contains(x) {
            propagate_rest(st, g, rest, visited)
        } else {
            match graph_lookup(g, x) {
                Some(deps) => {
                    let sp = recompute_deps(st, deps, 0, rest);
                    propagate_rest(sp.0, g, sp.1, visited.push(x))
                },
                None => propagate_rest(st, g, rest, visited.push(x)),
            }
        }
    }
}

/// What propagating from `r` does to the cells: the deterministic
/// visited-set traversal of the dependency graph, starting from `r`.
pub open spec fn propagate_spec(st: Seq<EntryV>, g: Seq<GEntryV>, r: Seq<char>) -> Seq<EntryV> {
    propagate_rest(st, g, seq![r], Seq::empty())
}

/// Recomputing dependents never touches a key whose cell holds no
/// formula: only formula-bearing cells are rewritten.
proof fn lemma_recompute_preserves_plain(
    st: Seq<EntryV>,
    deps: Seq<Seq<char>>,
    j: int,
    stack: Seq<Seq<char>>,
    c: Seq<char>,
    r: Seq<char>,
)
    requires
        match store_lookup(st, c, r) {
            Some(cell) => cell.formula is None,
            None => true,
        },
    ensures
        store_lookup(recompute_deps(st, deps, j, stack).0, c, r) == store_lookup(st, c, r),
    decreases deps.len() - j,
{
    if 0 <= j < deps.len() {
        let d = deps[j];
        match sheet_lookup(st, d) {
            Some(cell) => match cell.formula {
                Some(f) => {
                    let refreshed = CellV { value: eval_formula_spec(f, st), formula: Some(f) };
                    let st2 = store_insert(st, split_ref(d).0, split_ref(d).1, refreshed);
                    lemma_store_insert_lookup(st, split_ref(d).0, split_ref(d).1, refreshed, c, r);
                    assert(!(c == split_ref(d).0 && r == split_ref(d).1));
                    lemma_recompute_preserves_plain(st2, deps, j + 1, stack.push(d), c, r);
                },
                None => {
                    lemma_recompute_preserves_plain(st, deps, j + 1, stack, c, r);
                },
            },
            None => {
                lemma_recompute_preserves_plain(st, deps, j + 1, stack, c, r);
            },
        }
    }
}

/// Propagation never touches a key whose cell holds no formula; in
/// particular a just-written literal cell survives the propagation that
/// follows its write unchanged.
pub proof fn lemma_propagate_preserves_plain(
    st: Seq<EntryV>,
    g: Seq<GEntryV>,
    stack: Seq<Seq<char>>,
    visited: Seq<Seq<char>>,
    c: Seq<char>,
    r: Seq<char>,
)
    requires
        match store_lookup(st, c, r) {
            Some(cell) => cell.formula is None,
            None => true,
        },
    ensures
        store_lookup(propagate_rest(st, g, stack, visited), c, r) == store_lookup(st, c, r),
    decreases prop_pending(g, stack, visited), stack.len(),
{
    if stack.len() > 0 {
        lemma_prop_step(st, g, stack, visited);
        let x = stack.last();
        let rest = stack.drop_last();
        if visited.contains(x) {
            lemma_propagate_preserves_plain(st, g, rest, visited, c, r);
        } else {
            match graph_lookup(g, x) {
                Some(deps) => {
                    let sp = recompute_deps(st, deps, 0, rest);
                    lemma_recompute_preserves_plain(st, deps, 0, rest, c, r);
                    lemma_propagate_preserves_plain(sp.0, g, sp.1, visited.push(x), c, r);
                },
                None => {
                    lemma_propagate_preserves_plain(st, g, rest, visited.push(x), c, r);
                },
            }
        }
    }
}

/// The error a recomputation reports and propagation swallows: the
/// reference has no stored cell, or the cell carries no formula.
#[derive(Debug)]
pub enum RecomputeError {
    MissingCell,
    MissingFormula,
}

/// The spreadsheet: the cell store and the reverse dependency graph.
#[derive(Clone)]
pub struct Spreadsheet {
    trie: Trie,
    dependency_graph: DependencyGraph,
}

impl Spreadsheet {
    /// The stored entries.
    pub closed spec fn cells(&self) -> Seq<EntryV> {
        self.trie@
    }

    /// The dependency adjacency list.
    pub closed spec fn graph(&self) -> Seq<GEntryV> {
        self.dependency_graph@
    }

    /// Store keys and graph entries are duplicate-free.
    pub open spec fn wf(&self) -> bool {
        store_wf(self.cells()) && graph_wf(self.graph())
    }

    /// An empty spreadsheet: no cells and no edges.
    pub fn new() -> (s: Spreadsheet)
        ensures
            s.wf(),
            forall|c: Seq<char>, r: Seq<char>| store_lookup(s.cells(), c, r) is None,
            forall|k: Seq<char>| graph_lookup(s.graph(), k) is None,
    {
        Spreadsheet { trie: Trie::new(), dependency_graph: DependencyGraph::new() }
    }

    /// The cell stored under `ref_str`, if any; a missing cell reads as a
    /// blank at the host boundary.
    pub fn get_cell(&self, ref_str: &str) -> (r: Option<Cell>)
        ensures
            match r {
                Some(c) => sheet_lookup(self.cells(), ref_str@) == Some(c@),
                None => sheet_lookup(self.cells(), ref_str@) is None,
            },
    {
        self.trie.get_cell(ref_str)
    }

    /// The cell at the 0-based column and row indices: the column index is
    /// rendered as its bijective base-26 label, the row index as the
    /// 1-based row number.
    pub fn get_cell_split(&self, col_from_idx: usize, row_from_idx: usize) -> (r: Option<Cell>)
        requires
            col_from_idx < usize::MAX,
            row_from_idx < usize::MAX,
        ensures
            match r {
                Some(c) => store_lookup(
                    self.cells(),
                    column_label(col_from_idx as nat),
                    dec_rep((row_from_idx + 1) as nat),
                ) == Some(c@),
                None => store_lookup(
                    self.cells(),
                    column_label(col_from_idx as nat),
                    dec_rep((row_from_idx + 1) as nat),
                ) is None,
            },
    {
        let col = get_column_header(col_from_idx);
        let row_digits = render_u64((row_from_idx + 1) as u64);
        let row = chars_to_string(&row_digits);
        self.trie.get(col, row)
    }

    /// Write `value` into `ref_str` and recompute every dependent. Text
    /// starting with `=` is stored as a formula with its computed value
    /// (evaluated against the cells as they were before this write) and
    /// its mentioned references replace the cell's edges; any other text
    /// is stored literally, clearing a previous formula and leaving the
    /// graph alone. Either way the write then propagates to dependents.
    pub fn set_cell_value(&mut self, ref_str: &str, value: &str)
        requires
            old(self).wf(),
        ensures
            final(self).wf(),
            !is_formula_text(value@) ==> {
                &&& sheet_lookup(final(self).cells(), ref_str@) == Some(
                    CellV { value: value@, formula: None },
                )
                &&& final(self).graph() == old(self).graph()
            },
            is_formula_text(value@) ==> {
                &&& sheet_lookup(final(self).cells(), ref_str@) is Some
                &&& sheet_lookup(final(self).cells(), ref_str@).unwrap().formula == Some(value@)
                &&& forall|k: Seq<char>|
                    graph_lookup(final(self).graph(), k) == graph_rewrite(
                        old(self).graph(),
                        k,
                        extract_refs(value@),
                        ref_str@,
                    )
            },
            forall|c: Seq<char>, r: Seq<char>|
                #![all_triggers]
                !(c == split_ref(ref_str@).0 && r == split_ref(ref_str@).1) ==> preserves_cell(
                    store_lookup(old(self).cells(), c, r),
                    store_lookup(final(self).cells(), c, r),
                ),
            (!is_formula_text(value@) && graph_lookup(old(self).graph(), ref_str@) is None)
                ==> forall|c: Seq<char>, r: Seq<char>|
                #![all_triggers]
                !(c == split_ref(ref_str@).0 && r == split_ref(ref_str@).1)
                    ==> store_lookup(final(self).cells(), c, r) == store_lookup(
                    old(self).cells(),
                    c,
                    r,
                ),
            !is_formula_text(value@) ==> final(self).cells() == propagate_spec(
                store_insert(
                    old(self).cells(),
                    split_ref(ref_str@).0,
                    split_ref(ref_str@).1,
                    CellV { value: value@, formula: None },
                ),
                old(self).graph(),
                ref_str@,
            ),
            is_formula_text(value@) ==> final(self).cells() == propagate_spec(
                store_insert(
                    old(self).cells(),
                    split_ref(ref_str@).0,
                    split_ref(ref_str@).1,
                    CellV {
                        value: eval_formula_spec(value@, old(self).cells()),
                        formula: Some(value@),
                    },
                ),
                final(self).graph(),
                ref_str@,
            ),
            (is_formula_text(value@) && graph_rewrite(
                old(self).graph(),
                ref_str@,
                extract_refs(value@),
                ref_str@,
            ) is None) ==> {
                &&& sheet_lookup(final(self).cells(), ref_str@) == Some(
                    CellV {
                        value: eval_formula_spec(value@, old(self).cells()),
                        formula: Some(value@),
                    },
                )
                &&& forall|c: Seq<char>, r: Seq<char>|
                    #![all_triggers]
                    !(c == split_ref(ref_str@).0 && r == split_ref(ref_str@).1)
                        ==> store_lookup(final(self).cells(), c, r) == store_lookup(
                        old(self).cells(),
                        c,
                        r,
                    )
            },
    {
        let cs = crate::text::str_to_chars(value);
        let is_f = cs.len() > 0 && cs[0] == '=';
        let ghost st0 = self.cells();
        let ghost g0 = self.graph();
        if is_f {
            self.set_cell_formula(ref_str, value);
        } else {
            self.trie.insert_cell(value.to_owned(), None, ref_str);
        }
        let ghost st1 = self.cells();
        let ghost g1 = self.graph();
        self.update_dependent_cells(ref_str);
        proof {
            if is_formula_text(value@) {
                assert(graph_lookup(g1, ref_str@) == graph_rewrite(
                    g0,
                    ref_str@,
                    extract_refs(value@),
                    ref_str@,
                ));
            }
            let key = split_ref(ref_str@);
            assert forall|c: Seq<char>, r: Seq<char>|
                #![all_triggers]
                !(c == key.0 && r == key.1) implies preserves_cell(
                store_lookup(st0, c, r),
                store_lookup(self.cells(), c, r),
            ) by {
                assert(store_lookup(st1, c, r) == store_lookup(st0, c, r));
                assert(preserves_cell(
                    store_lookup(st1, c, r),
                    store_lookup(self.cells(), c, r),
                ));
            }
            assert(preserves_cell(
                store_lookup(st1, key.0, key.1),
                store_lookup(self.cells(), key.0, key.1),
            ));
        }
    }

    /// Store `value` into `ref_str` literally, with no formula
    /// interpretation, no edge update and no propagation: the raw initial
    /// population path.
    pub fn init_cell(&mut self, ref_str: &str, value: &str)
        requires
            old(self).wf(),
        ensures
            final(self).wf(),
            sheet_lookup(final(self).cells(), ref_str@) == Some(
                CellV { value: value@, formula: None },
            ),
            forall|c: Seq<char>, r: Seq<char>|
                #![all_triggers]
                !(c == split_ref(ref_str@).0 && r == split_ref(ref_str@).1)
                    ==> store_lookup(final(self).cells(), c, r) == store_lookup(
                    old(self).cells(),
                    c,
                    r,
                ),
            final(self).graph() == old(self).graph(),
    {
        self.trie.insert_cell(value.to_owned(), None, ref_str);
    }

    /// Evaluate the cell's stored formula against the current cells and
    /// return the cell with its value refreshed; an error when the cell is
    /// missing or holds no formula.
    pub fn evaluate_cell(&self, ref_str: &str) -> (r: Result<Cell, RecomputeError>)
        ensures
            match r {
                Ok(c) => {
                    &&& sheet_lookup(self.cells(), ref_str@) is Some
                    &&& sheet_lookup(self.cells(), ref_str@).unwrap().formula is Some
                    &&& c@.formula == sheet_lookup(self.cells(), ref_str@).unwrap().formula
                    &&& c@.value == eval_formula_spec(
                        sheet_lookup(self.cells(), ref_str@).unwrap().formula.unwrap(),
                        self.cells(),
                    )
                },
                Err(RecomputeError::MissingCell) => sheet_lookup(self.cells(), ref_str@) is None,
                Err(RecomputeError::MissingFormula) => {
                    &&& sheet_lookup(self.cells(), ref_str@) is Some
                    &&& sheet_lookup(self.cells(), ref_str@).unwrap().formula is None
                },
            },
    {
        match self.trie.get_cell_internal(ref_str) {
            Some(cell) => {
                let has = cell.has_formula();
                if has {
                    let (_, formula_opt) = cell.into_parts();
                    match formula_opt {
                        Some(f) => {
                            let result = evaluate_formula(&self.trie, f.as_str());
                            Ok(Cell::new(result, Some(f)))
                        },
                        None => Err(RecomputeError::MissingFormula),
                    }
                } else {
                    Err(RecomputeError::MissingFormula)
                }
            },
            None => Err(RecomputeError::MissingCell),
        }
    }

    /// The cell references mentioned in `formula`, in order of occurrence,
    /// duplicates kept.
    pub fn get_dependencies(&self, formula: &str) -> (r: Vec<String>)
        ensures
            svv(r@) == extract_refs(formula@),
    {
        extract_references(formula)
    }

    /// Evaluate a formula string against the current cells: text not
    /// starting with `=` comes back unchanged, otherwise the expression's
    /// value or a sentinel string.
    pub fn evaluate_formula(&self, formula: &str) -> (r: String)
        ensures
            r@ == eval_formula_spec(formula@, self.cells()),
    {
        evaluate_formula(&self.trie, formula)
    }

    /// Replace the outgoing edges of `ref_str`: remove it from every
    /// dependent list, then record it under each reference the new formula
    /// mentions. The cells are untouched.
    pub fn update_dependency_graph(&mut self, ref_str: &str, new_formula: Option<&str>)
        requires
            old(self).wf(),
        ensures
            final(self).wf(),
            final(self).cells() == old(self).cells(),
            forall|k: Seq<char>|
                graph_lookup(final(self).graph(), k) == graph_rewrite(
                    old(self).graph(),
                    k,
                    match new_formula {
                        Some(f) => extract_refs(f@),
                        None => Seq::empty(),
                    },
                    ref_str@,
                ),
    {
        let ghost g0 = self.graph();
        self.dependency_graph.remove_dependent_everywhere(ref_str);
        let ghost g1 = self.graph();
        match new_formula {
            None => {
                proof {
                    assert forall|k: Seq<char>|
                        graph_lookup(self.graph(), k) == graph_rewrite(
                            g0,
                            k,
                            Seq::empty(),
                            ref_str@,
                        ) by {
                        assert(!Seq::<Seq<char>>::empty().contains(k));
                    }
                }
            },
            Some(f) => {
                let deps = self.get_dependencies(f);
                let n = deps.len();
                let ghost refs = extract_refs(f@);
                let mut i: usize = 0;
                proof {
                    assert(svv(deps@).take(0) =~= Seq::<Seq<char>>::empty());
                }
                while i < n
                    invariant
                        0 <= i <= n,
                        n == deps@.len(),
                        svv(deps@) == refs,
                        self.trie@ == old(self).trie@,
                        graph_wf(self.graph()),
                        forall|k: Seq<char>|
                            graph_lookup(self.graph(), k) == (if refs.take(i as int).contains(k) {
                                Some(
                                    add_dep(
                                        match graph_lookup(g1, k) {
                                            Some(d) => d,
                                            None => Seq::empty(),
                                        },
                                        ref_str@,
                                    ),
                                )
                            } else {
                                graph_lookup(g1, k)
                            }),
                    decreases n - i,
                {
                    let ghost gprev = self.graph();
                    self.dependency_graph.add_edge(deps[i].as_str(), ref_str);
                    proof {
                        let d_i = refs[i as int];
                        assert(deps@[i as int]@ == d_i);
                        assert forall|k: Seq<char>|
                            graph_lookup(self.graph(), k) == (if refs.take(
                                i + 1,
                            ).contains(k) {
                                Some(
                                    add_dep(
                                        match graph_lookup(g1, k) {
                                            Some(d) => d,
                                            None => Seq::empty(),
                                        },
                                        ref_str@,
                                    ),
                                )
                            } else {
                                graph_lookup(g1, k)
                            }) by {
                            assert(refs.take(i + 1).drop_last() =~= refs.take(i as int));
                            assert(refs.take(i + 1).last() == d_i);
                            if k == d_i {
                                let base = match graph_lookup(g1, k) {
                                    Some(d) => d,
                                    None => Seq::<Seq<char>>::empty(),
                                };
                                assert(refs.take(i + 1).contains(k)) by {
                                    assert(refs.take(i + 1)[i as int] == k);
                                }
                                if refs.take(i as int).contains(k) {
                                    assert(add_dep(base, ref_str@).contains(ref_str@)) by {
                                        if !base.contains(ref_str@) {
                                            assert(add_dep(base, ref_str@).last() == ref_str@);
                                        }
                                    }
                                    assert(add_dep(add_dep(base, ref_str@), ref_str@) == add_dep(
                                        base,
                                        ref_str@,
                                    ));
                                } else {
                                    assert(graph_lookup(gprev, k) == graph_lookup(g1, k));
                                }
                            } else {
                                assert(refs.take(i + 1).contains(k) == refs.take(
                                    i as int,
                                ).contains(k)) by {
                                    if refs.take(i as int).contains(k) {
                                        let w = choose|w: int|
                                            0 <= w < i && #[trigger] refs.take(i as int)[w] == k;
                                        assert(refs.take(i + 1)[w] == k);
                                    }
                                    if refs.take(i + 1).contains(k) {
                                        let w = choose|w: int|
                                            0 <= w < i + 1 && #[trigger] refs.take(i + 1)[w] == k;
                                        assert(w != i);
                                        assert(refs.take(i as int)[w] == k);
                                    }
                                }
                            }
                        }
                    }
                    i = i + 1;
                }
                proof {
                    assert(refs.take(n as int) =~= refs);
                    assert forall|k: Seq<char>|
                        graph_lookup(self.graph(), k) == graph_rewrite(g0, k, refs, ref_str@) by {
                        assert(graph_lookup(g1, k) == (match graph_lookup(g0, k) {
                            Some(d) => Some(seq_remove(d, ref_str@)),
                            None => None::<Seq<Seq<char>>>,
                        }));
                    }
                }
            },
        }
    }

    /// Evaluate `formula` now, store its result together with the formula
    /// text under `ref_str`, and replace the cell's outgoing edges with the
    /// references the formula mentions. Propagation is the caller's step.
    pub fn set_cell_formula(&mut self, ref_str: &str, formula: &str)
        requires
            old(self).wf(),
        ensures
            final(self).wf(),
            final(self).cells() == store_insert(
                old(self).cells(),
                split_ref(ref_str@).0,
                split_ref(ref_str@).1,
                CellV {
                    value: eval_formula_spec(formula@, old(self).cells()),
                    formula: Some(formula@),
                },
            ),
            sheet_lookup(final(self).cells(), ref_str@) == Some(
                CellV {
                    value: eval_formula_spec(formula@, old(self).cells()),
                    formula: Some(formula@),
                },
            ),
            forall|c: Seq<char>, r: Seq<char>|
                #![all_triggers]
                !(c == split_ref(ref_str@).0 && r == split_ref(ref_str@).1)
                    ==> store_lookup(final(self).cells(), c, r) == store_lookup(
                    old(self).cells(),
                    c,
                    r,
                ),
            forall|k: Seq<char>|
                graph_lookup(final(self).graph(), k) == graph_rewrite(
                    old(self).graph(),
                    k,
                    extract_refs(formula@),
                    ref_str@,
                ),
    {
        let result = evaluate_formula(&self.trie, formula);
        self.trie.insert_cell(result, Some(formula.to_owned()), ref_str);
        self.update_dependency_graph(ref_str, Some(formula));
    }

    /// Walk the dependency graph from `ref_str` with a stack and a
    /// visited set, re-evaluating every dependent that holds a formula and
    /// writing the refreshed value back; a failed recomputation leaves the
    /// cell as it is and the walk goes on. The resulting cells are exactly
    /// `propagate_spec` of the starting state. The traversal visits each
    /// reference at most once, so it terminates even on cyclic formulas.
    pub fn update_dependent_cells(&mut self, ref_str: &str)
        requires
            old(self).wf(),
        ensures
            final(self).wf(),
            final(self).graph() == old(self).graph(),
            final(self).cells() == propagate_spec(
                old(self).cells(),
                old(self).graph(),
                ref_str@,
            ),
            values_only_update(old(self).cells(), final(self).cells()),
            graph_lookup(old(self).graph(), ref_str@) is None ==> final(self).cells() == old(
                self,
            ).cells(),
    {
        let ghost hyp = graph_lookup(self.graph(), ref_str@) is None;
        let ghost st0 = self.cells();
        let ghost g0 = self.graph();
        let ghost univ = flat_deps(g0).push(ref_str@);
        let mut visited: Vec<String> = Vec::new();
        let mut stack: Vec<String> = Vec::new();
        stack.push(ref_str.to_owned());
        proof {
            assert(univ.contains(svv(stack@)[0])) by {
                assert(univ.last() == ref_str@);
            }
            lemma_values_only_refl(st0);
            assert(svv(stack@) =~= seq![ref_str@]);
            assert(svv(visited@) =~= Seq::<Seq<char>>::empty());
        }
        loop
            invariant
                univ == flat_deps(g0).push(ref_str@),
                hyp == (graph_lookup(g0, ref_str@) is None),
                self.graph() == g0,
                graph_wf(g0),
                store_wf(self.cells()),
                values_only_update(st0, self.cells()),
                hyp ==> self.cells() == st0,
                hyp ==> forall|j: int|
                    0 <= j < svv(stack@).len() ==> (#[trigger] svv(stack@)[j]) == ref_str@,
                forall|j: int| 0 <= j < svv(stack@).len() ==> univ.contains(#[trigger] svv(stack@)[j]),
                forall|j: int|
                    0 <= j < svv(visited@).len() ==> univ.contains(#[trigger] svv(visited@)[j]),
                svv(visited@).no_duplicates(),
                svv(visited@).len() <= univ.len(),
                propagate_rest(st0, g0, seq![ref_str@], Seq::<Seq<char>>::empty())
                    == propagate_rest(self.cells(), g0, svv(stack@), svv(visited@)),
            ensures
                self.graph() == g0,
                store_wf(self.cells()),
                values_only_update(st0, self.cells()),
                hyp ==> self.cells() == st0,
                self.cells() == propagate_rest(
                    st0,
                    g0,
                    seq![ref_str@],
                    Seq::<Seq<char>>::empty(),
                ),
            decreases univ.len() - svv(visited@).len(), stack@.len(),
        {
            if stack.len() == 0 {
                proof {
                    assert(svv(stack@) =~= Seq::<Seq<char>>::empty());
                    assert(propagate_rest(self.cells(), g0, svv(stack@), svv(visited@))
                        == self.cells());
                }
                break;
            }
            let ghost stv = svv(stack@);
            proof {
                assert(stv.last() == stack@.last()@);
                assert(svv(stack@.drop_last()) =~= stv.drop_last());
            }
            let current = stack.pop().unwrap();
            if contains_string(&visited, current.as_str()) {
                proof {
                    assert(stv.last() == current@);
                    assert(propagate_rest(self.cells(), g0, stv, svv(visited@))
                        == propagate_rest(self.cells(), g0, stv.drop_last(), svv(visited@)));
                }
                continue;
            }
            let ghost vis0 = svv(visited@);
            visited.push(current.clone());
            proof {
                assert(svv(visited@) =~= vis0.push(current@));
                assert(univ.contains(current@));
                lemma_visited_bound(svv(visited@), univ);
            }
            match self.dependency_graph.get_deps(current.as_str()) {
                None => {
                    proof {
                        assert(stv.last() == current@);
                        assert(propagate_rest(self.cells(), g0, stv, vis0)
                            == propagate_rest(
                            self.cells(),
                            g0,
                            stv.drop_last(),
                            vis0.push(current@),
                        ));
                    }
                },
                Some(deps) => {
                    proof {
                        lemma_lookup_in_flat(g0, current@);
                        if hyp {
                            assert(current@ == ref_str@);
                            assert(false);
                        }
                    }
                    let ghost st_enter = self.cells();
                    let ghost deps_v = svv(deps@);
                    let ghost rest_v = svv(stack@);
                    let m = deps.len();
                    let mut di: usize = 0;
                    while di < m
                        invariant
                            !hyp,
                            univ == flat_deps(g0).push(ref_str@),
                            0 <= di <= m,
                            m == deps@.len(),
                            deps_v == svv(deps@),
                            graph_lookup(g0, current@) == Some(svv(deps@)),
                            self.graph() == g0,
                            graph_wf(g0),
                            store_wf(self.cells()),
                            values_only_update(st0, self.cells()),
                            recompute_deps(st_enter, deps_v, 0, rest_v) == recompute_deps(
                                self.cells(),
                                deps_v,
                                di as int,
                                svv(stack@),
                            ),
                            forall|j: int|
                                0 <= j < svv(stack@).len() ==> univ.contains(
                                    #[trigger] svv(stack@)[j],
                                ),
                        decreases m - di,
                    {
                        let dep = &deps[di];
                        let ghost stc0 = self.cells();
                        let ghost sv0 = svv(stack@);
                        proof {
                            assert(deps_v[di as int] == deps@[di as int]@);
                        }
                        match self.trie.get_cell_internal(dep.as_str()) {
                            None => {
                                proof {
                                    assert(recompute_deps(stc0, deps_v, di as int, sv0)
                                        == recompute_deps(stc0, deps_v, di + 1, sv0));
                                }
                            },
                            Some(dependent_cell) => {
                                if dependent_cell.has_formula() {
                                    match self.evaluate_cell(dep.as_str()) {
                                        Err(_) => {
                                            proof {
                                                assert(false);
                                            }
                                        },
                                        Ok(updated) => {
                                            let ghost stc = self.cells();
                                            let ghost fseq = sheet_lookup(
                                                stc0,
                                                dep@,
                                            ).unwrap().formula.unwrap();
                                            let (v, f) = updated.into_parts();
                                            self.trie.insert_cell(v, f, dep.as_str());
                                            proof {
                                                assert(v@ == eval_formula_spec(fseq, stc0));
                                                assert(crate::cell::opt_str_view(&f) == Some(fseq));
                                                assert(self.cells() == store_insert(
                                                    stc0,
                                                    split_ref(dep@).0,
                                                    split_ref(dep@).1,
                                                    CellV {
                                                        value: eval_formula_spec(fseq, stc0),
                                                        formula: Some(fseq),
                                                    },
                                                ));
                                                assert forall|c: Seq<char>, r: Seq<char>|
                                                    #![all_triggers]
                                                    preserves_cell(
                                                        store_lookup(stc, c, r),
                                                        store_lookup(self.cells(), c, r),
                                                    ) by {}
                                                lemma_values_only_trans(
                                                    st0,
                                                    stc,
                                                    self.cells(),
                                                );
                                            }
                                            let ghost sb = svv(stack@);
                                            stack.push(dep.clone());
                                            proof {
                                                assert(svv(stack@) =~= sb.push(dep@));
                                                assert(svv(deps@)[di as int] == dep@);
                                                lemma_lookup_in_flat(g0, current@);
                                                assert(graph_lookup(g0, current@).unwrap()[di as int]
                                                    == dep@);
                                                assert(flat_deps(g0).contains(dep@));
                                                let w = choose|w: int|
                                                    0 <= w < flat_deps(g0).len() && flat_deps(
                                                        g0,
                                                    )[w] == dep@;
                                                assert(univ[w] == dep@);
                                                assert(recompute_deps(stc0, deps_v, di as int, sv0)
                                                    == recompute_deps(
                                                    self.cells(),
                                                    deps_v,
                                                    di + 1,
                                                    sv0.push(dep@),
                                                ));
                                            }
                                        },
                                    }
                                } else {
                                    proof {
                                        assert(sheet_lookup(stc0, dep@).unwrap().formula is None);
                                        assert(recompute_deps(stc0, deps_v, di as int, sv0)
                                            == recompute_deps(stc0, deps_v, di + 1, sv0));
                                    }
                                }
                            },
                        }
                        di = di + 1;
                    }
                    proof {
                        assert(recompute_deps(self.cells(), deps_v, m as int, svv(stack@))
                            == (self.cells(), svv(stack@)));
                        let sp = recompute_deps(st_enter, deps_v, 0, rest_v);
                        assert(sp.0 == self.cells());
                        assert(sp.1 == svv(stack@));
                        assert(stv.last() == current@);
                        assert(propagate_rest(st_enter, g0, stv, vis0) == propagate_rest(
                            sp.0,
                            g0,
                            sp.1,
                            vis0.push(current@),
                        ));
                        assert(svv(visited@) == vis0.push(current@));
                    }
                },
            }
        }
    }
}

fn contains_string(v: &Vec<String>, x: &str) -> (b: bool)
    ensures
        b == svv(v@).contains(x@),
{
    let xs = x.to_owned();
    let n = v.len();
    let mut i: usize = 0;
    while i < n
        invariant
            0 <= i <= n,
            n == v@.len(),
            xs@ == x@,
            forall|j: int| 0 <= j < i ==> (#[trigger] v@[j]@) != x@,
        decreases n - i,
    {
        if v[i] == xs {
            proof {
                assert(svv(v@)[i as int] == x@);
            }
            return true;
        }
        i = i + 1;
    }
    proof {
        assert(forall|j: int| 0 <= j < svv(v@).len() ==> (#[trigger] svv(v@)[j]) != x@);
    }
    false
}

proof fn lemma_visited_bound(vs: Seq<Seq<char>>, univ: Seq<Seq<char>>)
    requires
        vs.no_duplicates(),
        forall|j: int| 0 <= j < vs.len() ==> univ.contains(#[trigger] vs[j]),
    ensures
        vs.len() <= univ.len(),
{
    broadcast use vstd::seq_lib::seq_to_set_is_finite;

    vs.unique_seq_to_set();
    univ.lemma_cardinality_of_set();
    assert(vs.to_set().subset_of(univ.to_set())) by {
        assert forall|x: Seq<char>| vs.to_set().contains(x) implies univ.to_set().contains(x) by {
            assert(vs.contains(x));
        }
    }
    vstd::set_lib::lemma_len_subset(vs.to_set(), univ.to_set());
}

} // verus!
