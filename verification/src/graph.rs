//! The dependency graph: for each referenced cell, the set of cells whose
//! formulas mention it, oriented for propagation; and the extraction of
//! cell references (an uppercase run followed by a digit run) from formula
//! text.

use vstd::prelude::*;
use vstd::string::StrSliceExecFns;
use vstd::string::StringExecFns;
use crate::eval::{digit_run, lemma_digit_run_at};
use crate::text::{is_upper, is_digit_ch, str_to_chars};

verus! {

/// Model of one adjacency entry: a referenced cell and the cells that
/// depend on it, in insertion order, without duplicates.
pub struct GEntryV {
    pub key: Seq<char>,
    pub deps: Seq<Seq<char>>,
}

#[derive(Clone)]
struct GEntry {
    key: String,
    deps: Vec<String>,
}

/// The views of a sequence of reference strings.
pub open spec fn svv(s: Seq<String>) -> Seq<Seq<char>> {
    s.map_values(|x: String| x@)
}

impl View for GEntry {
    type V = GEntryV;

    closed spec fn view(&self) -> GEntryV {
        GEntryV { key: self.key@, deps: svv(self.deps@) }
    }
}

/// The dependents recorded under a referenced cell, `None` when no edge
/// was ever added for it.
pub open spec fn graph_lookup(g: Seq<GEntryV>, k: Seq<char>) -> Option<Seq<Seq<char>>>
    decreases g.len(),
{
    if g.len() == 0 {
        None
    } else if g.first().key == k {
        Some(g.first().deps)
    } else {
        graph_lookup(g.drop_first(), k)
    }
}

/// Keys are pairwise distinct and no dependent is recorded twice under
/// the same key.
pub open spec fn graph_wf(g: Seq<GEntryV>) -> bool {
    &&& forall|i: int, j: int| 0 <= i < j < g.len() ==> g[i].key != g[j].key
    &&& forall|i: int, a: int, b: int|
        0 <= i < g.len() && 0 <= a < b < g[i].deps.len() ==> g[i].deps[a] != g[i].deps[b]
}

/// A dependent list with every occurrence of `x` removed, order kept.
pub open spec fn seq_remove(d: Seq<Seq<char>>, x: Seq<char>) -> Seq<Seq<char>>
    decreases d.len(),
{
    if d.len() == 0 {
        d
    } else if d.last() == x {
        seq_remove(d.drop_last(), x)
    } else {
        seq_remove(d.drop_last(), x).push(d.last())
    }
}

/// A dependent list with `x` appended unless already present.
pub open spec fn add_dep(d: Seq<Seq<char>>, x: Seq<char>) -> Seq<Seq<char>> {
    if d.contains(x) {
        d
    } else {
        d.push(x)
    }
}

/// All dependents recorded anywhere in the graph, concatenated.
pub open spec fn flat_deps(g: Seq<GEntryV>) -> Seq<Seq<char>>
    decreases g.len(),
{
    if g.len() == 0 {
        Seq::empty()
    } else {
        g.first().deps + flat_deps(g.drop_first())
    }
}

/// Everything a lookup hands out is recorded in the graph as a whole.
pub proof fn lemma_lookup_in_flat(g: Seq<GEntryV>, k: Seq<char>)
    requires
        graph_lookup(g, k) is Some,
    ensures
        forall|j: int|
            0 <= j < graph_lookup(g, k).unwrap().len() ==> flat_deps(g).contains(
                #[trigger] graph_lookup(g, k).unwrap()[j],
            ),
    decreases g.len(),
{
    if g.len() == 0 {
    } else if g.first().key == k {
        let d = g.first().deps;
        assert forall|j: int| 0 <= j < d.len() implies flat_deps(g).contains(#[trigger] d[j]) by {
            assert(flat_deps(g)[j] == d[j]);
        }
    } else {
        lemma_lookup_in_flat(g.drop_first(), k);
        let d = graph_lookup(g, k).unwrap();
        assert forall|j: int| 0 <= j < d.len() implies flat_deps(g).contains(#[trigger] d[j]) by {
            let t = g.drop_first();
            assert(flat_deps(t).contains(d[j]));
            let w = choose|w: int| 0 <= w < flat_deps(t).len() && flat_deps(t)[w] == d[j];
            assert(flat_deps(g)[w + g.first().deps.len()] == d[j]);
        }
    }
}

proof fn lemma_graph_lookup_at(g: Seq<GEntryV>, i: int, k: Seq<char>)
    requires
        0 <= i < g.len(),
        forall|j: int| 0 <= j < i ==> (#[trigger] g[j].key) != k,
        g[i].key == k,
    ensures
        graph_lookup(g, k) == Some(g[i].deps),
    decreases i,
{
    if i > 0 {
        let t = g.drop_first();
        assert(forall|j: int| 0 <= j < i - 1 ==> (#[trigger] t[j].key) != k);
        lemma_graph_lookup_at(t, i - 1, k);
    }
}

proof fn lemma_graph_lookup_none(g: Seq<GEntryV>, k: Seq<char>)
    requires
        forall|j: int| 0 <= j < g.len() ==> (#[trigger] g[j].key) != k,
    ensures
        graph_lookup(g, k) is None,
    decreases g.len(),
{
    if g.len() > 0 {
        let t = g.drop_first();
        assert(forall|j: int| 0 <= j < t.len() ==> (#[trigger] t[j].key) != k);
        lemma_graph_lookup_none(t, k);
    }
}

proof fn lemma_graph_lookup_update(g: Seq<GEntryV>, i: int, e: GEntryV, k: Seq<char>)
    requires
        0 <= i < g.len(),
        forall|j: int| 0 <= j < i ==> (#[trigger] g[j].key) != g[i].key,
        e.key == g[i].key,
    ensures
        graph_lookup(g.update(i, e), k) == (if k == g[i].key {
            Some(e.deps)
        } else {
            graph_lookup(g, k)
        }),
    decreases i,
{
    if i == 0 {
        assert(g.update(0, e).drop_first() =~= g.drop_first());
    } else {
        let t = g.drop_first();
        assert(forall|j: int| 0 <= j < i - 1 ==> (#[trigger] t[j].key) != t[i - 1].key);
        lemma_graph_lookup_update(t, i - 1, e, k);
        assert(g.update(i, e).drop_first() =~= t.update(i - 1, e));
        assert(g.update(i, e).first() == g.first());
    }
}

proof fn lemma_graph_lookup_push(g: Seq<GEntryV>, e: GEntryV, k: Seq<char>)
    requires
        forall|j: int| 0 <= j < g.len() ==> (#[trigger] g[j].key) != e.key,
    ensures
        graph_lookup(g.push(e), k) == (if k == e.key {
            Some(e.deps)
        } else {
            graph_lookup(g, k)
        }),
    decreases g.len(),
{
    if g.len() == 0 {
        assert(g.push(e).drop_first() =~= g);
    } else {
        assert(g.push(e).drop_first() =~= g.drop_first().push(e));
        lemma_graph_lookup_push(g.drop_first(), e, k);
    }
}

proof fn lemma_graph_lookup_map_removed(g: Seq<GEntryV>, g2: Seq<GEntryV>, x: Seq<char>, k: Seq<char>)
    requires
        g2.len() == g.len(),
        forall|i: int|
            0 <= i < g.len() ==> (#[trigger] g2[i].key) == g[i].key && g2[i].deps == seq_remove(
                g[i].deps,
                x,
            ),
    ensures
        graph_lookup(g2, k) == (match graph_lookup(g, k) {
            Some(d) => Some(seq_remove(d, x)),
            None => None::<Seq<Seq<char>>>,
        }),
    decreases g.len(),
{
    if g.len() > 0 {
        assert(g2[0].key == g[0].key);
        let t = g.drop_first();
        let t2 = g2.drop_first();
        assert(forall|i: int|
            0 <= i < t.len() ==> (#[trigger] t2[i].key) == t[i].key && t2[i].deps == seq_remove(
                t[i].deps,
                x,
            ));
        lemma_graph_lookup_map_removed(t, t2, x, k);
    }
}

/// The reverse dependency graph: a flat adjacency list from a referenced
/// cell to the cells whose formulas mention it.
#[derive(Clone)]
pub struct DependencyGraph {
    entries: Vec<GEntry>,
}

impl View for DependencyGraph {
    type V = Seq<GEntryV>;

    closed spec fn view(&self) -> Seq<GEntryV> {
        self.entries@.map_values(|e: GEntry| e@)
    }
}

impl DependencyGraph {
    /// Keys and each key's dependents are duplicate-free.
    pub open spec fn wf(&self) -> bool {
        graph_wf(self@)
    }

    /// An empty graph: every lookup misses.
    pub fn new() -> (g: DependencyGraph)
        ensures
            g.wf(),
            forall|k: Seq<char>| graph_lookup(g@, k) is None,
            g@.len() == 0,
    {
        let g = DependencyGraph { entries: Vec::new() };
        proof {
            assert(g@ =~= Seq::<GEntryV>::empty());
        }
        g
    }

    /// Remove `ref_str` from every dependent list, so a rewritten formula
    /// leaves no stale edges behind.
    pub fn remove_dependent_everywhere(&mut self, ref_str: &str)
        requires
            old(self).wf(),
        ensures
            final(self).wf(),
            forall|k: Seq<char>|
                graph_lookup(final(self)@, k) == (match graph_lookup(old(self)@, k) {
                    Some(d) => Some(seq_remove(d, ref_str@)),
                    None => None::<Seq<Seq<char>>>,
                }),
    {
        let ghost g0 = self@;
        let n = self.entries.len();
        let mut rebuilt: Vec<GEntry> = Vec::new();
        let mut i: usize = 0;
        while i < n
            invariant
                0 <= i <= n,
                n == self.entries.len(),
                self == old(self),
                g0 == self@,
                rebuilt@.len() == i,
                forall|j: int|
                    0 <= j < i ==> (#[trigger] rebuilt@[j])@.key == g0[j].key
                        && rebuilt@[j]@.deps == seq_remove(g0[j].deps, ref_str@),
            decreases n - i,
        {
            let e = &self.entries[i];
            let key2 = e.key.clone();
            let deps2 = remove_all_eq(&e.deps, ref_str);
            let e2 = GEntry { key: key2, deps: deps2 };
            proof {
                assert(e2@.key == g0[i as int].key);
                assert(e2@.deps == seq_remove(g0[i as int].deps, ref_str@));
            }
            rebuilt.push(e2);
            i = i + 1;
        }
        self.entries = rebuilt;
        proof {
            lemma_seq_remove_unique(g0, self@, ref_str@);
            assert forall|k: Seq<char>|
                graph_lookup(self@, k) == (match graph_lookup(g0, k) {
                    Some(d) => Some(seq_remove(d, ref_str@)),
                    None => None::<Seq<Seq<char>>>,
                }) by {
                lemma_graph_lookup_map_removed(g0, self@, ref_str@, k);
            }
        }
    }

    /// Record `dependent` under `referenced`, creating the entry if needed
    /// and leaving the list unchanged when the edge already exists.
    pub fn add_edge(&mut self, referenced: &str, dependent: &str)
        requires
            old(self).wf(),
        ensures
            final(self).wf(),
            forall|k: Seq<char>|
                graph_lookup(final(self)@, k) == (if k == referenced@ {
                    Some(
                        add_dep(
                            match graph_lookup(old(self)@, k) {
                                Some(d) => d,
                                None => Seq::empty(),
                            },
                            dependent@,
                        ),
                    )
                } else {
                    graph_lookup(old(self)@, k)
                }),
    {
        let ghost g0 = self@;
        let key_s = referenced.to_owned();
        let n = self.entries.len();
        let mut i: usize = 0;
        let mut found: bool = false;
        while i < n && !found
            invariant
                0 <= i <= n,
                n == self.entries.len(),
                self == old(self),
                g0 == self@,
                key_s@ == referenced@,
                !found ==> forall|j: int| 0 <= j < i ==> (#[trigger] g0[j].key) != referenced@,
                found ==> i < n && g0[i as int].key == referenced@ && forall|j: int|
                    0 <= j < i ==> (#[trigger] g0[j].key) != referenced@,
            decreases n - i + (if found { 0int } else { 1int }),
        {
            if self.entries[i].key == key_s {
                found = true;
            } else {
                i = i + 1;
            }
        }
        if found {
            let mut e = self.entries.remove(i);
            let ghost d0 = e@.deps;
            let present = contains_str(&e.deps, dependent);
            if !present {
                e.deps.push(dependent.to_owned());
                proof {
                    assert(svv(e.deps@) =~= d0.push(dependent@));
                }
            }
            proof {
                assert(e@.deps == add_dep(d0, dependent@));
            }
            self.entries.insert(i, e);
            proof {
                let e2 = GEntryV { key: g0[i as int].key, deps: add_dep(d0, dependent@) };
                assert(self@ =~= g0.update(i as int, e2));
                lemma_graph_lookup_at(g0, i as int, referenced@);
                assert forall|k: Seq<char>| #[trigger]
                    graph_lookup(self@, k) == (if k == referenced@ {
                        Some(
                            add_dep(
                                match graph_lookup(g0, k) {
                                    Some(d) => d,
                                    None => Seq::empty(),
                                },
                                dependent@,
                            ),
                        )
                    } else {
                        graph_lookup(g0, k)
                    }) by {
                    lemma_graph_lookup_update(g0, i as int, e2, k);
                }
            }
        } else {
            let mut deps: Vec<String> = Vec::new();
            deps.push(dependent.to_owned());
            let e = GEntry { key: key_s, deps };
            proof {
                assert(svv(e.deps@) =~= Seq::<Seq<char>>::empty().push(dependent@));
                assert(e@.deps == add_dep(Seq::empty(), dependent@));
            }
            self.entries.push(e);
            proof {
                let e2 = GEntryV { key: referenced@, deps: add_dep(Seq::empty(), dependent@) };
                assert(self@ =~= g0.push(e2));
                lemma_graph_lookup_none(g0, referenced@);
                assert forall|k: Seq<char>| #[trigger]
                    graph_lookup(self@, k) == (if k == referenced@ {
                        Some(
                            add_dep(
                                match graph_lookup(g0, k) {
                                    Some(d) => d,
                                    None => Seq::empty(),
                                },
                                dependent@,
                            ),
                        )
                    } else {
                        graph_lookup(g0, k)
                    }) by {
                    lemma_graph_lookup_push(g0, e2, k);
                }
            }
        }
    }

    /// The dependents recorded under the given reference, as owned
    /// strings; `None` when no edge was ever added for it.
    pub fn get_deps(&self, ref_str: &str) -> (r: Option<Vec<String>>)
        ensures
            match r {
                Some(v) => graph_lookup(self@, ref_str@) == Some(svv(v@)),
                None => graph_lookup(self@, ref_str@) is None,
            },
    {
        let key_s = ref_str.to_owned();
        let n = self.entries.len();
        let mut i: usize = 0;
        while i < n
            invariant
                0 <= i <= n,
                n == self.entries.len(),
                key_s@ == ref_str@,
                forall|j: int| 0 <= j < i ==> (#[trigger] self@[j].key) != ref_str@,
            decreases n - i,
        {
            let e = &self.entries[i];
            if e.key == key_s {
                proof {
                    lemma_graph_lookup_at(self@, i as int, ref_str@);
                }
                return Some(clone_strings(&e.deps));
            }
            i = i + 1;
        }
        proof {
            lemma_graph_lookup_none(self@, ref_str@);
        }
        None
    }
}

proof fn lemma_seq_remove_unique(g: Seq<GEntryV>, g2: Seq<GEntryV>, x: Seq<char>)
    requires
        graph_wf(g),
        g2.len() == g.len(),
        forall|i: int|
            0 <= i < g.len() ==> (#[trigger] g2[i].key) == g[i].key && g2[i].deps == seq_remove(
                g[i].deps,
                x,
            ),
    ensures
        graph_wf(g2),
{
    assert forall|i: int, a: int, b: int|
        0 <= i < g2.len() && 0 <= a < b < g2[i].deps.len() implies g2[i].deps[a]
        != g2[i].deps[b] by {
        assert(g2[i].key == g[i].key);
        assert(g2[i].deps == seq_remove(g[i].deps, x));
        assert forall|p: int, q: int|
            0 <= p < q < g[i].deps.len() implies g[i].deps[p] != g[i].deps[q] by {
            assert(graph_wf(g));
        }
        lemma_seq_remove_sub(g[i].deps, x);
    }
}

/// Every element `seq_remove` keeps comes from the original list.
proof fn lemma_seq_remove_elems(d: Seq<Seq<char>>, x: Seq<char>)
    ensures
        forall|a: int|
            0 <= a < seq_remove(d, x).len() ==> d.contains(#[trigger] seq_remove(d, x)[a]),
        seq_remove(d, x).len() <= d.len(),
    decreases d.len(),
{
    if d.len() > 0 {
        let dl = d.drop_last();
        lemma_seq_remove_elems(dl, x);
        assert forall|a: int|
            0 <= a < seq_remove(d, x).len() implies d.contains(#[trigger] seq_remove(d, x)[a]) by {
            let r = seq_remove(d, x);
            if d.last() != x && a == r.len() - 1 {
                assert(d[d.len() - 1] == d.last());
            } else {
                assert(dl.contains(r[a]));
                let w = choose|w: int| 0 <= w < dl.len() && dl[w] == r[a];
                assert(d[w] == r[a]);
            }
        }
    }
}

/// `seq_remove` keeps a duplicate-free list duplicate-free.
proof fn lemma_seq_remove_sub(d: Seq<Seq<char>>, x: Seq<char>)
    requires
        forall|p: int, q: int| 0 <= p < q < d.len() ==> d[p] != d[q],
    ensures
        forall|a: int, b: int|
            0 <= a < b < seq_remove(d, x).len() ==> seq_remove(d, x)[a] != seq_remove(d, x)[b],
    decreases d.len(),
{
    if d.len() > 0 {
        let dl = d.drop_last();
        assert(forall|p: int, q: int| 0 <= p < q < dl.len() ==> dl[p] != dl[q]);
        lemma_seq_remove_sub(dl, x);
        lemma_seq_remove_elems(dl, x);
        if d.last() != x {
            // the appended last element is not among the kept prefix
            assert forall|a: int|
                0 <= a < seq_remove(dl, x).len() implies seq_remove(dl, x)[a] != d.last() by {
                assert(dl.contains(seq_remove(dl, x)[a]));
                let w = choose|w: int| 0 <= w < dl.len() && dl[w] == seq_remove(dl, x)[a];
                assert(d[w] == dl[w]);
                assert(d[d.len() - 1] == d.last());
            }
        }
    }
}

fn contains_str(v: &Vec<String>, x: &str) -> (b: bool)
    ensures
        b == svv(v@).contains(x@),
{
    let n = v.len();
    let mut i: usize = 0;
    while i < n
        invariant
            0 <= i <= n,
            n == v@.len(),
            forall|j: int| 0 <= j < i ==> (#[trigger] v@[j]@) != x@,
        decreases n - i,
    {
        let xs = x.to_owned();
        if v[i] == xs {
            proof {
                assert(svv(v@)[i as int] == x@);
            }
            return true;
        }
        i = i + 1;
    }
    proof {
        assert(forall|j: int| 0 <= j < svv(v@).len() ==> (#[trigger] svv(v@)[j]) != x@);
    }
    false
}

fn clone_strings(v: &Vec<String>) -> (r: Vec<String>)
    ensures
        svv(r@) == svv(v@),
{
    let n = v.len();
    let mut r: Vec<String> = Vec::new();
    let mut i: usize = 0;
    while i < n
        invariant
            0 <= i <= n,
            n == v@.len(),
            r@.len() == i,
            forall|j: int| 0 <= j < i ==> (#[trigger] r@[j]@) == v@[j]@,
        decreases n - i,
    {
        r.push(v[i].clone());
        i = i + 1;
    }
    proof {
        assert(svv(r@) =~= svv(v@));
    }
    r
}

/// Remove every element equal to `x`, keeping order.
fn remove_all_eq(v: &Vec<String>, x: &str) -> (r: Vec<String>)
    ensures
        svv(r@) == seq_remove(svv(v@), x@),
{
    let xs = x.to_owned();
    let n = v.len();
    let mut r: Vec<String> = Vec::new();
    let mut i: usize = 0;
    proof {
        assert(svv(r@) =~= seq_remove(svv(v@).subrange(0, 0), x@));
    }
    while i < n
        invariant
            0 <= i <= n,
            n == v@.len(),
            xs@ == x@,
            svv(r@) == seq_remove(svv(v@).subrange(0, i as int), x@),
        decreases n - i,
    {
        let ghost pre = svv(v@).subrange(0, i as int);
        let keep = !(v[i] == xs);
        proof {
            let post = svv(v@).subrange(0, i + 1);
            assert(post.drop_last() =~= pre);
            assert(post.last() == v@[i as int]@);
        }
        if keep {
            r.push(v[i].clone());
            proof {
                assert(svv(r@) =~= seq_remove(svv(v@).subrange(0, i as int), x@).push(v@[i as int]@));
            }
        }
        i = i + 1;
    }
    proof {
        assert(svv(v@).subrange(0, n as int) =~= svv(v@));
    }
    r
}

/// Length of the leading run of uppercase letters.
pub open spec fn upper_run(s: Seq<char>) -> nat
    decreases s.len(),
{
    if s.len() == 0 || !is_upper(s.first()) {
        0
    } else {
        1 + upper_run(s.drop_first())
    }
}

pub proof fn lemma_upper_run_at(s: Seq<char>, k: int)
    requires
        0 <= k <= s.len(),
        forall|j: int| 0 <= j < k ==> is_upper(s[j]),
        k < s.len() ==> !is_upper(s[k]),
    ensures
        upper_run(s) == k,
    decreases s.len(),
{
    if s.len() == 0 || k == 0 {
    } else {
        let t = s.drop_first();
        assert(forall|j: int| 0 <= j < k - 1 ==> is_upper(#[trigger] t[j]));
        lemma_upper_run_at(t, k - 1);
    }
}

proof fn lemma_upper_run_le(s: Seq<char>)
    ensures
        upper_run(s) <= s.len(),
    decreases s.len(),
{
    if s.len() > 0 && is_upper(s.first()) {
        lemma_upper_run_le(s.drop_first());
    }
}

proof fn lemma_digit_run_le(s: Seq<char>)
    ensures
        digit_run(s) <= s.len(),
    decreases s.len(),
{
    if s.len() > 0 && is_digit_ch(s.first()) {
        lemma_digit_run_le(s.drop_first());
    }
}

#[via_fn]
proof fn extract_refs_decreases(s: Seq<char>)
{
    lemma_upper_run_le(s);
    if s.len() > 0 && is_upper(s.first()) {
        lemma_digit_run_le(s.skip(upper_run(s) as int));
    }
}

/// The cell references a formula mentions, in order of occurrence,
/// duplicates kept: each maximal run of uppercase letters immediately
/// followed by at least one digit, together with its digit run.
pub open spec fn extract_refs(s: Seq<char>) -> Seq<Seq<char>>
    decreases s.len(),
        via extract_refs_decreases
{
    if s.len() == 0 {
        Seq::empty()
    } else if is_upper(s.first()) {
        let u = upper_run(s) as int;
        let d = digit_run(s.skip(u)) as int;
        if d >= 1 {
            seq![s.take(u + d)] + extract_refs(s.skip(u + d))
        } else {
            extract_refs(s.skip(u))
        }
    } else {
        extract_refs(s.skip(1))
    }
}

/// The references mentioned in `formula`, as strings, in order of
/// occurrence and with duplicates kept.
pub fn extract_references(formula: &str) -> (r: Vec<String>)
    ensures
        svv(r@) == extract_refs(formula@),
{
    let cs = str_to_chars(formula);
    let n = cs.len();
    let mut r: Vec<String> = Vec::new();
    let mut i: usize = 0;
    proof {
        assert(cs@.skip(0) =~= cs@);
        assert(svv(r@) =~= Seq::<Seq<char>>::empty());
    }
    while i < n
        invariant
            0 <= i <= n,
            n == cs@.len(),
            cs@ == formula@,
            extract_refs(formula@) == svv(r@) + extract_refs(cs@.skip(i as int)),
        decreases n - i,
    {
        let ghost rest0 = cs@.skip(i as int);
        let c = cs[i];
        proof {
            assert(rest0.first() == c);
        }
        if crate::text::upper_char(c) {
            // measure the uppercase run
            let mut u: usize = i;
            while u < n && upper_at_idx(&cs, u)
                invariant
                    i <= u <= n,
                    n == cs@.len(),
                    forall|j: int| i <= j < u ==> is_upper(cs@[j]),
                decreases n - u,
            {
                u = u + 1;
            }
            // measure the digit run that follows
            let mut d: usize = u;
            while d < n && digit_at_idx(&cs, d)
                invariant
                    u <= d <= n,
                    n == cs@.len(),
                    forall|j: int| u <= j < d ==> is_digit_ch(cs@[j]),
                decreases n - d,
            {
                d = d + 1;
            }
            proof {
                assert(forall|j: int|
                    0 <= j < u - i ==> is_upper(#[trigger] rest0[j]));
                if (u as int) - (i as int) < rest0.len() {
                    assert(rest0[u - i] == cs@[u as int]);
                }
                lemma_upper_run_at(rest0, u - i);
                let after = rest0.skip(u - i);
                assert(after =~= cs@.skip(u as int));
                assert(forall|j: int|
                    0 <= j < d - u ==> is_digit_ch(#[trigger] after[j]));
                if (d as int) - (u as int) < after.len() {
                    assert(after[d - u] == cs@[d as int]);
                }
                lemma_digit_run_at(after, d - u);
            }
            if d > u {
                let ghost pre = svv(r@);
                let tok = chars_range_to_string(&cs, i, d);
                r.push(tok);
                proof {
                    assert(rest0.take(d - i) =~= cs@.subrange(i as int, d as int));
                    assert(rest0.skip(d - i) =~= cs@.skip(d as int));
                    assert(svv(r@) =~= pre.push(cs@.subrange(i as int, d as int)));
                    assert(extract_refs(rest0) == seq![cs@.subrange(i as int, d as int)]
                        + extract_refs(cs@.skip(d as int)));
                    assert(pre + extract_refs(rest0) =~= svv(r@) + extract_refs(cs@.skip(d as int)));
                }
                i = d;
            } else {
                proof {
                    assert(rest0.skip(u - i) =~= cs@.skip(u as int));
                    assert(extract_refs(rest0) == extract_refs(cs@.skip(u as int)));
                }
                i = u;
            }
        } else {
            proof {
                assert(rest0.skip(1) =~= cs@.skip(i + 1));
                assert(extract_refs(rest0) == extract_refs(cs@.skip(i + 1)));
            }
            i = i + 1;
        }
    }
    proof {
        assert(cs@.skip(n as int) =~= Seq::<char>::empty());
        assert(svv(r@) + extract_refs(Seq::<char>::empty()) =~= svv(r@));
    }
    r
}

fn upper_at_idx(cs: &Vec<char>, k: usize) -> (b: bool)
    requires
        k < cs@.len(),
    ensures
        b == is_upper(cs@[k as int]),
{
    let c = cs[k];
    'A' <= c && c <= 'Z'
}

fn digit_at_idx(cs: &Vec<char>, k: usize) -> (b: bool)
    requires
        k < cs@.len(),
    ensures
        b == is_digit_ch(cs@[k as int]),
{
    let c = cs[k];
    '0' <= c && c <= '9'
}

/// The characters `cs[from..to]` as a string.
fn chars_range_to_string(cs: &Vec<char>, from: usize, to: usize) -> (s: String)
    requires
        from <= to <= cs@.len(),
    ensures
        s@ == cs@.subrange(from as int, to as int),
{
    let mut v: Vec<char> = Vec::new();
    let mut j: usize = from;
    while j < to
        invariant
            from <= j <= to <= cs@.len(),
            v@ == cs@.subrange(from as int, j as int),
        decreases to - j,
    {
        v.push(cs[j]);
        j = j + 1;
        proof {
            assert(v@ =~= cs@.subrange(from as int, j as int));
        }
    }
    crate::text::chars_to_string(&v)
}

} // verus!
