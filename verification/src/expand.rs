//! Expansion of a dependency graph through Python package initialisers: a
//! file that depends on an `__init__.py` also depends on what that file
//! depends on, and so on through further initialisers.

use crate::graph::{deps_of, every_dep, every_key, has_distinct_keys, index_of, lemma_index_of,
    DependencyGraph, EntryView, GraphEntry};
use crate::natural::{is_naturally_ordered, is_strictly_increasing, natural_sorted, sort_natural,
    sorts_before};
use crate::order::{lemma_ordered_is_fixed, lemma_ordered_is_strict, lemma_sorted};
use crate::path::{is_init_file, is_init_path, same_text};
use vstd::prelude::*;

verus! {

/// A set of paths that remembers the order in which they came in.
#[derive(Debug)]
pub struct PathSet {
    items: Vec<String>,
}

impl View for PathSet {
    type V = Seq<Seq<char>>;

    closed spec fn view(&self) -> Seq<Seq<char>> {
        self.items.deep_view()
    }
}

/// `found` followed by those of `items` that it does not yet hold, each
/// once, in order.
pub open spec fn absorb(found: Seq<Seq<char>>, items: Seq<Seq<char>>) -> Seq<Seq<char>>
    decreases items.len(),
{
    if items.len() == 0 {
        found
    } else {
        let before = absorb(found, items.drop_last());
        if before.contains(items.last()) {
            before
        } else {
            before.push(items.last())
        }
    }
}

/// What `absorb` gives starts with `found`, holds what `found` or `items`
/// hold and nothing else, and holds nothing twice where `found` did not.
proof fn lemma_absorb(found: Seq<Seq<char>>, items: Seq<Seq<char>>)
    ensures
        absorb(found, items).len() >= found.len(),
        absorb(found, items).take(found.len() as int) == found,
        forall|x: Seq<char>|
            #[trigger] absorb(found, items).contains(x) <==> (found.contains(x) || items.contains(
                x,
            )),
        found.no_duplicates() ==> absorb(found, items).no_duplicates(),
        (forall|k: int| 0 <= k < items.len() ==> found.contains(#[trigger] items[k])) ==> absorb(
            found,
            items,
        ) == found,
    decreases items.len(),
{
    let r = absorb(found, items);
    if items.len() == 0 {
        assert forall|x: Seq<char>| #[trigger] r.contains(x) <==> (found.contains(x)
            || items.contains(x)) by {
            if items.contains(x) {
                let k = choose|k: int| 0 <= k < items.len() && items[k] == x;
                assert(0 <= k < items.len() && items[k] == x);
            }
        }
    } else {
        let rest = items.drop_last();
        let last = items.last();
        let before = absorb(found, rest);
        lemma_absorb(found, rest);
        assert(r.take(found.len() as int) =~= before.take(found.len() as int));
        assert forall|x: Seq<char>| #[trigger] r.contains(x) <==> (found.contains(x)
            || items.contains(x)) by {
            if r.contains(x) {
                let k = choose|k: int| 0 <= k < r.len() && r[k] == x;
                if k < before.len() {
                    assert(before.contains(x));
                    if rest.contains(x) {
                        let m = choose|m: int| 0 <= m < rest.len() && rest[m] == x;
                        assert(0 <= m < rest.len() && rest[m] == x);
                    }
                }
            }
            if found.contains(x) {
                let k = choose|k: int| 0 <= k < before.len() && before[k] == x;
                assert(0 <= k < before.len() && before[k] == x);
            }
            if items.contains(x) {
                let m = choose|m: int| 0 <= m < items.len() && items[m] == x;
                if m < rest.len() {
                    assert(rest[m] == x);
                    assert(before.contains(x));
                    let k = choose|k: int| 0 <= k < before.len() && before[k] == x;
                    assert(r[k] == x);
                } else if before.contains(x) {
                    let k = choose|k: int| 0 <= k < before.len() && before[k] == x;
                    assert(0 <= k < before.len() && before[k] == x);
                } else {
                    assert(r[r.len() - 1] == x);
                }
            }
        }
        if found.no_duplicates() {
            if !before.contains(last) {
                assert forall|i: int, j: int|
                    0 <= i < r.len() && 0 <= j < r.len() && i != j implies r[i] != r[j] by {}
            }
        }
        if forall|k: int| 0 <= k < items.len() ==> found.contains(#[trigger] items[k]) {
            assert forall|k: int| 0 <= k < rest.len() implies found.contains(
                #[trigger] rest[k],
            ) by {}
        }
    }
}

impl PathSet {
    /// Nothing stands twice in the set.
    #[verifier::type_invariant]
    closed spec fn is_a_set(&self) -> bool {
        self.items.deep_view().no_duplicates()
    }

    /// The empty set.
    pub fn new() -> (r: PathSet)
        ensures
            r@ == Seq::<Seq<char>>::empty(),
    {
        let items: Vec<String> = Vec::new();
        PathSet { items }
    }

    /// The number of paths in the set.
    pub fn len(&self) -> (r: usize)
        ensures
            r == self@.len(),
    {
        self.items.len()
    }

    /// The paths of the set, in the order in which they came in, each
    /// once.
    pub fn paths(&self) -> (r: &Vec<String>)
        ensures
            r.deep_view() == self@,
            self@.no_duplicates(),
    {
        proof {
            use_type_invariant(self);
        }
        &self.items
    }

    /// Whether the set holds `path`.
    pub fn contains(&self, path: &str) -> (r: bool)
        ensures
            r == self@.contains(path@),
    {
        let mut i: usize = 0;
        while i < self.items.len()
            invariant
                i <= self.items.len(),
                forall|k: int| 0 <= k < i ==> self@[k] != path@,
            decreases self.items.len() - i,
        {
            proof {
                assert(self@[i as int] == self.items[i as int]@);
            }
            if same_text(self.items[i].as_str(), path) {
                return true;
            }
            i += 1;
        }
        false
    }

    /// Puts `path` into the set, at the end, unless the set holds it.
    /// Returns whether the set has grown.
    pub fn insert(&mut self, path: String) -> (r: bool)
        ensures
            r == !old(self)@.contains(path@),
            final(self)@ == absorb(old(self)@, seq![path@]),
    {
        proof {
            use_type_invariant(&*self);
            let one = seq![path@];
            assert(absorb(self@, one.drop_last()) == self@);
            lemma_absorb(self@, one);
        }
        if self.contains(path.as_str()) {
            false
        } else {
            let ghost before = self@;
            let mut taken = PathSet::new();
            core::mem::swap(self, &mut taken);
            let mut items = taken.items;
            items.push(path);
            proof {
                assert(items.deep_view() =~= before.push(path@));
            }
            *self = PathSet { items };
            true
        }
    }

    /// Puts each of `paths` into the set, in order.
    pub fn extend_from(&mut self, paths: &Vec<String>)
        ensures
            final(self)@ == absorb(old(self)@, paths.deep_view()),
    {
        let ghost all = paths.deep_view();
        let mut i: usize = 0;
        while i < paths.len()
            invariant
                i <= paths.len(),
                all == paths.deep_view(),
                self@ == absorb(old(self)@, all.take(i as int)),
            decreases paths.len() - i,
        {
            let ghost before = self@;
            proof {
                assert(all.take(i + 1).drop_last() =~= all.take(i as int));
                let one = seq![paths[i as int]@];
                assert(absorb(before, one.drop_last()) == before);
            }
            self.insert(paths[i].clone());
            i += 1;
        }
        proof {
            assert(all.take(i as int) =~= all);
        }
    }
}

/// How many entries of `g` are for files that `done` does not hold.
pub open spec fn remaining(g: Seq<EntryView>, done: Seq<Seq<char>>) -> nat
    decreases g.len(),
{
    if g.len() == 0 {
        0
    } else {
        remaining(g.drop_last(), done) + if done.contains(g.last().file) {
            0nat
        } else {
            1nat
        }
    }
}

/// One more file done leaves no more entries, and fewer where the file has
/// an entry and was not done before.
proof fn lemma_remaining(g: Seq<EntryView>, done: Seq<Seq<char>>, file: Seq<char>)
    ensures
        remaining(g, done.push(file)) <= remaining(g, done),
        index_of(g, file) is Some && !done.contains(file) ==> remaining(g, done.push(file))
            < remaining(g, done),
    decreases g.len(),
{
    if g.len() > 0 {
        let t = g.drop_last();
        lemma_remaining(t, done, file);
        let more = done.push(file);
        assert(more[more.len() - 1] == file);
        if done.contains(g.last().file) {
            let k = choose|k: int| 0 <= k < done.len() && done[k] == g.last().file;
            assert(more[k] == g.last().file);
        }
        if more.contains(g.last().file) && !done.contains(g.last().file) {
            let k = choose|k: int| 0 <= k < more.len() && more[k] == g.last().file;
            assert(0 <= k < more.len() && more[k] == g.last().file);
        }
    }
}

/// `found` after its element at `next` was looked at: where that is a
/// package initialiser, its dependencies are absorbed.
pub open spec fn expand_at(g: Seq<EntryView>, found: Seq<Seq<char>>, next: int) -> Seq<Seq<char>> {
    if is_init_path(found[next]) {
        absorb(found, deps_of(g, found[next]))
    } else {
        found
    }
}

/// `found` after each of its elements from `next` on was looked at, those
/// that come in on the way included.
pub open spec fn closure_from(g: Seq<EntryView>, found: Seq<Seq<char>>, next: nat) -> Seq<
    Seq<char>,
>
    decreases remaining(g, found.take(next as int)), found.len() - next,
    when found.no_duplicates() && next <= found.len()
    via closure_from_decreases
{
    if next >= found.len() {
        found
    } else {
        closure_from(g, expand_at(g, found, next as int), next + 1)
    }
}

/// Looking at one element keeps what stands before and at it, and brings
/// the measure of `closure_from` down.
proof fn lemma_expand_at(g: Seq<EntryView>, found: Seq<Seq<char>>, next: nat)
    requires
        found.no_duplicates(),
        next < found.len(),
    ensures
        expand_at(g, found, next as int).no_duplicates(),
        expand_at(g, found, next as int).len() >= found.len(),
        expand_at(g, found, next as int).take(found.len() as int) == found,
        expand_at(g, found, next as int).take(next as int + 1) == found.take(next as int).push(
            found[next as int],
        ),
        remaining(g, expand_at(g, found, next as int).take(next as int + 1)) < remaining(
            g,
            found.take(next as int),
        ) || (remaining(g, expand_at(g, found, next as int).take(next as int + 1)) == remaining(
            g,
            found.take(next as int),
        ) && expand_at(g, found, next as int) == found),
{
    let e = found[next as int];
    let after = expand_at(g, found, next as int);
    let done = found.take(next as int);
    lemma_absorb(found, deps_of(g, e));
    assert(after.take(next as int + 1) =~= done.push(e)) by {
        assert forall|k: int| 0 <= k < next + 1 implies after.take(next as int + 1)[k] == done.push(
            e,
        )[k] by {}
    }
    lemma_remaining(g, done, e);
    assert(!done.contains(e)) by {
        if done.contains(e) {
            let k = choose|k: int| 0 <= k < done.len() && done[k] == e;
            assert(0 <= k < done.len() && done[k] == e);
        }
    }
}

#[via_fn]
proof fn closure_from_decreases(g: Seq<EntryView>, found: Seq<Seq<char>>, next: nat) {
    if next < found.len() {
        lemma_expand_at(g, found, next);
    }
}

/// What is reached from `direct`: the files of `direct`, each once, and
/// what comes in through the package initialisers among them.
pub open spec fn closure(g: Seq<EntryView>, direct: Seq<Seq<char>>) -> Seq<Seq<char>> {
    closure_from(g, absorb(Seq::empty(), direct), 0)
}

/// The expanded dependencies of a file whose direct dependencies are
/// `direct`: what is reached from them, in natural order.
pub open spec fn expanded_deps(g: Seq<EntryView>, direct: Seq<Seq<char>>) -> Seq<Seq<char>> {
    natural_sorted(closure(g, direct))
}

/// The expanded graph: the same files in the same order, each with its
/// expanded dependencies.
pub open spec fn expansion(g: Seq<EntryView>) -> Seq<EntryView> {
    g.map_values(|e: EntryView| EntryView { file: e.file, deps: expanded_deps(g, e.deps) })
}

/// Brings into `final_deps` what its package initialisers depend on, and so
/// on through the initialisers that come in. Each path is looked at once,
/// so that initialisers that import each other end the search.
pub fn collect_transitive_init_deps(graph: &DependencyGraph, final_deps: &mut PathSet)
    ensures
        final(final_deps)@ == closure_from(graph@, old(final_deps)@, 0),
{
    let ghost g = graph@;
    let mut next: usize = 0;
    while next < final_deps.len()
        invariant
            next <= final_deps@.len(),
            g == graph@,
            closure_from(g, final_deps@, next as nat) == closure_from(g, old(final_deps)@, 0),
        decreases remaining(g, final_deps@.take(next as int)), final_deps@.len() - next,
    {
        let ghost found = final_deps@;
        proof {
            use_type_invariant(&*final_deps);
            lemma_expand_at(g, found, next as nat);
        }
        let current = final_deps.paths()[next].clone();
        if is_init_file(current.as_str()) {
            match graph.get(current.as_str()) {
                Some(deps) => {
                    final_deps.extend_from(deps);
                },
                None => {},
            }
        }
        next += 1;
    }
    proof {
        use_type_invariant(&*final_deps);
    }
}

/// Expands the graph through Python package initialisers. Each file keeps
/// its place; its dependencies become those reached from its direct ones,
/// each once, in natural order.
pub fn expand_init_dependencies(dependency_graph: &DependencyGraph) -> (r: DependencyGraph)
    ensures
        r@ == expansion(dependency_graph@),
        r@.len() == dependency_graph@.len(),
        forall|i: int|
            0 <= i < r@.len() ==> (#[trigger] r@[i]).file == dependency_graph@[i].file
                && is_naturally_ordered(r@[i].deps) && r@[i].deps.no_duplicates(),
{
    let ghost g = dependency_graph@;
    let ghost wanted = expansion(g);
    let mut expanded_graph = DependencyGraph::new();
    let mut i: usize = 0;
    while i < dependency_graph.entries.len()
        invariant
            i <= dependency_graph.entries.len(),
            g == dependency_graph@,
            wanted == expansion(g),
            expanded_graph@ == wanted.take(i as int),
        decreases dependency_graph.entries.len() - i,
    {
        let entry = &dependency_graph.entries[i];
        let mut final_deps = PathSet::new();
        final_deps.extend_from(&entry.deps);
        collect_transitive_init_deps(dependency_graph, &mut final_deps);
        let sorted_deps = sort_natural(final_deps.paths());
        let ghost before = expanded_graph@;
        expanded_graph.entries.push(GraphEntry { file: entry.file.clone(), deps: sorted_deps });
        proof {
            assert(expanded_graph@ =~= before.push(wanted[i as int]));
        }
        i += 1;
    }
    proof {
        assert forall|k: int| 0 <= k < wanted.len() implies (#[trigger] wanted[k]).file
            == g[k].file && is_naturally_ordered(wanted[k].deps)
            && wanted[k].deps.no_duplicates() by {
            lemma_expanded_deps(g, g[k].deps);
        }
    }
    expanded_graph
}

/// Where `x` is a package initialiser, `r` holds what `x` depends on.
pub open spec fn holds_deps_of(g: Seq<EntryView>, r: Seq<Seq<char>>, x: Seq<char>) -> bool {
    is_init_path(x) ==> forall|k: int|
        0 <= k < deps_of(g, x).len() ==> r.contains(#[trigger] deps_of(g, x)[k])
}

/// `r` holds what the package initialisers among its elements from `next`
/// on depend on.
pub open spec fn is_closed_from(g: Seq<EntryView>, r: Seq<Seq<char>>, next: int) -> bool {
    forall|k: int| next <= k < r.len() ==> holds_deps_of(g, r, #[trigger] r[k])
}

/// `p` holds of what a package initialiser depends on where it holds of the
/// initialiser.
pub open spec fn is_carried(g: Seq<EntryView>, p: spec_fn(Seq<char>) -> bool) -> bool {
    forall|x: Seq<char>, k: int|
        p(x) && is_init_path(x) && 0 <= k < deps_of(g, x).len() ==> p(
            #[trigger] deps_of(g, x)[k],
        )
}

/// What the search returns starts with what it was given, holds nothing
/// twice, holds the dependencies of every package initialiser that it
/// looked at, and holds only what every carried property of its start
/// allows.
proof fn lemma_closure_from(g: Seq<EntryView>, found: Seq<Seq<char>>, next: nat)
    requires
        found.no_duplicates(),
        next <= found.len(),
    ensures
        closure_from(g, found, next).no_duplicates(),
        closure_from(g, found, next).len() >= found.len(),
        closure_from(g, found, next).take(found.len() as int) == found,
        is_closed_from(g, closure_from(g, found, next), next as int),
        forall|p: spec_fn(Seq<char>) -> bool|
            is_carried(g, p) && (forall|k: int| 0 <= k < found.len() ==> p(#[trigger] found[k]))
                ==> (forall|k: int|
                0 <= k < closure_from(g, found, next).len() ==> p(
                    #[trigger] closure_from(g, found, next)[k],
                )),
    decreases remaining(g, found.take(next as int)), found.len() - next,
{
    let r = closure_from(g, found, next);
    if !(next >= found.len()) {
        let e = found[next as int];
        let after = expand_at(g, found, next as int);
        lemma_expand_at(g, found, next);
        lemma_closure_from(g, after, next + 1);
        lemma_absorb(found, deps_of(g, e));
        assert(r.take(found.len() as int) =~= found) by {
            assert forall|k: int| 0 <= k < found.len() implies r.take(found.len() as int)[k]
                == found[k] by {}
        }
        assert forall|k: int| next <= k < r.len() implies holds_deps_of(g, r, #[trigger] r[k]) by {
            if k == next {
                if is_init_path(e) {
                    assert forall|m: int| 0 <= m < deps_of(g, e).len() implies r.contains(
                        #[trigger] deps_of(g, e)[m],
                    ) by {
                        let d = deps_of(g, e)[m];
                        assert(after.contains(d));
                        let q = choose|q: int| 0 <= q < after.len() && after[q] == d;
                        assert(0 <= q < after.len() && after[q] == d);
                    }
                }
            }
        }
        assert forall|p: spec_fn(Seq<char>) -> bool|
            is_carried(g, p) && (forall|k: int|
                0 <= k < found.len() ==> p(#[trigger] found[k])) implies (forall|k: int|
            0 <= k < r.len() ==> p(#[trigger] r[k])) by {
            assert forall|k: int| 0 <= k < after.len() implies p(#[trigger] after[k]) by {
                let x = after[k];
                assert(after.contains(x));
                if is_init_path(e) {
                    if found.contains(x) {
                        let q = choose|q: int| 0 <= q < found.len() && found[q] == x;
                        assert(0 <= q < found.len() && found[q] == x);
                    } else {
                        let m = choose|m: int|
                            0 <= m < deps_of(g, e).len() && deps_of(g, e)[m] == x;
                        assert(0 <= m < deps_of(g, e).len() && deps_of(g, e)[m] == x);
                    }
                }
            }
        }
    }
}

/// A sequence that holds nothing twice absorbs into the empty one as
/// itself.
proof fn lemma_absorb_distinct(items: Seq<Seq<char>>)
    requires
        items.no_duplicates(),
    ensures
        absorb(Seq::empty(), items) == items,
    decreases items.len(),
{
    if items.len() > 0 {
        let rest = items.drop_last();
        lemma_absorb_distinct(rest);
        if rest.contains(items.last()) {
            let k = choose|k: int| 0 <= k < rest.len() && rest[k] == items.last();
            assert(0 <= k < rest.len() && rest[k] == items.last());
        }
    }
}

/// The search changes nothing in a sequence that already holds what its
/// package initialisers depend on.
proof fn lemma_closed_is_fixed(g: Seq<EntryView>, found: Seq<Seq<char>>, next: nat)
    requires
        found.no_duplicates(),
        next <= found.len(),
        is_closed_from(g, found, next as int),
    ensures
        closure_from(g, found, next) == found,
    decreases found.len() - next,
{
    if next < found.len() {
        let e = found[next as int];
        lemma_absorb(found, deps_of(g, e));
        lemma_closed_is_fixed(g, found, next + 1);
    }
}

/// The entry for a file stands at the same place in the expanded graph.
proof fn lemma_expansion_index(g: Seq<EntryView>, file: Seq<char>)
    ensures
        index_of(expansion(g), file) == index_of(g, file),
{
    lemma_index_of(g, file);
    lemma_index_of(expansion(g), file);
    let h = expansion(g);
    assert forall|k: int| 0 <= k < g.len() implies (#[trigger] h[k]).file == g[k].file by {}
    match index_of(g, file) {
        Some(i) => {
            assert(h[i].file == file);
        },
        None => {},
    }
}

/// The expanded dependencies are in natural order, hold nothing twice, hold
/// every direct dependency, and hold what every package initialiser among
/// them depends on.
pub proof fn lemma_expanded_deps(g: Seq<EntryView>, direct: Seq<Seq<char>>)
    ensures
        is_naturally_ordered(expanded_deps(g, direct)),
        expanded_deps(g, direct).no_duplicates(),
        forall|k: int| 0 <= k < direct.len() ==> expanded_deps(g, direct).contains(
            #[trigger] direct[k],
        ),
        is_closed_from(g, expanded_deps(g, direct), 0),
        forall|x: Seq<char>| #[trigger]
            expanded_deps(g, direct).contains(x) <==> closure(g, direct).contains(x),
        forall|p: spec_fn(Seq<char>) -> bool|
            is_carried(g, p) && (forall|k: int| 0 <= k < direct.len() ==> p(#[trigger] direct[k]))
                ==> (forall|k: int|
                0 <= k < expanded_deps(g, direct).len() ==> p(
                    #[trigger] expanded_deps(g, direct)[k],
                )),
{
    let start = absorb(Seq::empty(), direct);
    let c = closure(g, direct);
    let s = expanded_deps(g, direct);
    lemma_absorb(Seq::empty(), direct);
    lemma_closure_from(g, start, 0);
    lemma_sorted::<String>(c);
    assert forall|k: int| 0 <= k < direct.len() implies s.contains(#[trigger] direct[k]) by {
        assert(start.contains(direct[k]));
        let q = choose|q: int| 0 <= q < start.len() && start[q] == direct[k];
        assert(0 <= q < start.len() && start[q] == direct[k]);
    }
    assert forall|k: int| 0 <= k < s.len() implies holds_deps_of(g, s, #[trigger] s[k]) by {
        let x = s[k];
        assert(s.contains(x));
        let q = choose|q: int| 0 <= q < c.len() && c[q] == x;
        assert(0 <= q < c.len() && c[q] == x);
        if is_init_path(x) {
            assert forall|m: int| 0 <= m < deps_of(g, x).len() implies s.contains(
                #[trigger] deps_of(g, x)[m],
            ) by {}
        }
    }
    assert forall|p: spec_fn(Seq<char>) -> bool|
        is_carried(g, p) && (forall|k: int|
            0 <= k < direct.len() ==> p(#[trigger] direct[k])) implies (forall|k: int|
        0 <= k < s.len() ==> p(#[trigger] s[k])) by {
        assert forall|k: int| 0 <= k < start.len() implies p(#[trigger] start[k]) by {
            assert(start.contains(start[k]));
            let q = choose|q: int| 0 <= q < direct.len() && direct[q] == start[k];
            assert(0 <= q < direct.len() && direct[q] == start[k]);
        }
        assert forall|k: int| 0 <= k < s.len() implies p(#[trigger] s[k]) by {
            assert(s.contains(s[k]));
            let q = choose|q: int| 0 <= q < c.len() && c[q] == s[k];
            assert(0 <= q < c.len() && c[q] == s[k]);
        }
    }
}

/// Expanding an expanded graph changes nothing.
pub proof fn lemma_expansion_is_idempotent(g: Seq<EntryView>)
    ensures
        expansion(expansion(g)) == expansion(g),
{
    let h = expansion(g);
    let hh = expansion(h);
    assert forall|i: int| 0 <= i < h.len() implies hh[i] == h[i] by {
        let s = h[i].deps;
        lemma_expanded_deps(g, g[i].deps);
        // `s` holds what its package initialisers depend on in the expanded graph.
        assert forall|k: int| 0 <= k < s.len() implies holds_deps_of(h, s, #[trigger] s[k]) by {
            let x = s[k];
            if is_init_path(x) {
                lemma_expansion_index(g, x);
                lemma_index_of(g, x);
                match index_of(g, x) {
                    Some(j) => {
                        let direct = g[j].deps;
                        assert(deps_of(g, x) == direct);
                        lemma_expanded_deps(g, direct);
                        let p = |y: Seq<char>| s.contains(y);
                        assert(is_carried(g, p)) by {
                            assert forall|y: Seq<char>, m: int|
                                p(y) && is_init_path(y) && 0 <= m < deps_of(g, y).len() implies p(
                                #[trigger] deps_of(g, y)[m],
                            ) by {
                                let q = choose|q: int| 0 <= q < s.len() && s[q] == y;
                                assert(0 <= q < s.len() && s[q] == y);
                            }
                        }
                        assert forall|m: int| 0 <= m < direct.len() implies p(
                            #[trigger] direct[m],
                        ) by {}
                        assert forall|m: int| 0 <= m < deps_of(h, x).len() implies s.contains(
                            #[trigger] deps_of(h, x)[m],
                        ) by {}
                    },
                    None => {},
                }
            }
        }
        lemma_absorb_distinct(s);
        lemma_closed_is_fixed(h, s, 0);
        lemma_ordered_is_fixed::<String>(s);
    }
}

/// Where the natural order tells any two different files that are reached
/// apart, the expanded dependencies are strictly increasing.
pub proof fn lemma_expanded_deps_are_strict(g: Seq<EntryView>, direct: Seq<Seq<char>>)
    requires
        forall|a: Seq<char>, b: Seq<char>|
            closure(g, direct).contains(a) && closure(g, direct).contains(b) && a != b
                ==> #[trigger] sorts_before(a, b) || sorts_before(b, a),
    ensures
        is_strictly_increasing(expanded_deps(g, direct)),
{
    lemma_expanded_deps(g, direct);
    let s = expanded_deps(g, direct);
    assert forall|a: Seq<char>, b: Seq<char>|
        s.contains(a) && s.contains(b) && a != b implies #[trigger] sorts_before(a, b)
        || sorts_before(b, a) by {}
    lemma_ordered_is_strict::<String>(s);
}

/// Expansion brings in no new file: what holds of every dependency of the
/// graph holds of every dependency of the expanded graph, and the keys stay
/// as they are.
pub proof fn lemma_expansion_keeps(g: Seq<EntryView>, p: spec_fn(Seq<char>) -> bool)
    ensures
        every_dep(g, p) ==> every_dep(expansion(g), p),
        every_key(g, p) ==> every_key(expansion(g), p),
        has_distinct_keys(g) ==> has_distinct_keys(expansion(g)),
{
    let h = expansion(g);
    assert forall|i: int| 0 <= i < h.len() implies (#[trigger] h[i]).file == g[i].file by {}
    if every_key(g, p) {
        assert forall|i: int| 0 <= i < h.len() implies p((#[trigger] h[i]).file) by {}
    }
    if has_distinct_keys(g) {
        assert forall|i: int, j: int| 0 <= i < j < h.len() implies (#[trigger] h[i]).file != (
        #[trigger] h[j]).file by {}
    }
    if every_dep(g, p) {
        assert(is_carried(g, p)) by {
            assert forall|x: Seq<char>, k: int|
                p(x) && is_init_path(x) && 0 <= k < deps_of(g, x).len() implies p(
                #[trigger] deps_of(g, x)[k],
            ) by {
                lemma_index_of(g, x);
            }
        }
        assert forall|i: int, k: int| 0 <= i < h.len() && 0 <= k < h[i].deps.len() implies p(
            #[trigger] h[i].deps[k],
        ) by {
            lemma_expanded_deps(g, g[i].deps);
            assert forall|m: int| 0 <= m < g[i].deps.len() implies p(#[trigger] g[i].deps[m]) by {}
        }
    }
}

/// Every expanded dependency is reached from the direct ones: it is a
/// direct dependency, or a dependency of a package initialiser that is
/// reached itself.
pub proof fn lemma_expanded_dep_is_reached(g: Seq<EntryView>, direct: Seq<Seq<char>>, x: Seq<char>)
    requires
        expanded_deps(g, direct).contains(x),
    ensures
        closure(g, direct).contains(x),
        direct.contains(x) || exists|j: int|
            0 <= j < g.len() && is_init_path((#[trigger] g[j]).file) && closure(
                g,
                direct,
            ).contains(g[j].file) && g[j].deps.contains(x),
{
    let c = closure(g, direct);
    let s = expanded_deps(g, direct);
    let p = |y: Seq<char>|
        c.contains(y) && (direct.contains(y) || exists|j: int|
            0 <= j < g.len() && is_init_path((#[trigger] g[j]).file) && c.contains(g[j].file)
                && g[j].deps.contains(y));
    lemma_expanded_deps(g, direct);
    assert(is_carried(g, p)) by {
        assert forall|y: Seq<char>, k: int|
            p(y) && is_init_path(y) && 0 <= k < deps_of(g, y).len() implies p(
            #[trigger] deps_of(g, y)[k],
        ) by {
            let d = deps_of(g, y)[k];
            lemma_index_of(g, y);
            assert(s.contains(y));
            let q = choose|q: int| 0 <= q < s.len() && s[q] == y;
            assert(holds_deps_of(g, s, s[q]));
            assert(s.contains(d));
            match index_of(g, y) {
                Some(j) => {
                    assert(g[j].deps[k] == d);
                    assert(g[j].deps.contains(d));
                },
                None => {},
            }
        }
    }
    assert forall|k: int| 0 <= k < direct.len() implies p(#[trigger] direct[k]) by {
        assert(direct.contains(direct[k]));
        assert(s.contains(direct[k]));
    }
    let k = choose|k: int| 0 <= k < s.len() && s[k] == x;
    assert(p(s[k]));
}

/// A file is among its own expanded dependencies only where its direct
/// dependencies reach it through package initialisers: where it depends on
/// itself directly, or a package initialiser that is reached depends on it.
pub proof fn lemma_self_edge_after_expansion(g: Seq<EntryView>, i: int)
    requires
        0 <= i < g.len(),
        expansion(g)[i].deps.contains(g[i].file),
    ensures
        closure(g, g[i].deps).contains(g[i].file),
        g[i].deps.contains(g[i].file) || exists|j: int|
            0 <= j < g.len() && is_init_path((#[trigger] g[j]).file) && closure(
                g,
                g[i].deps,
            ).contains(g[j].file) && g[j].deps.contains(g[i].file),
{
    lemma_expanded_dep_is_reached(g, g[i].deps, g[i].file);
}

/// Expansion leaves a graph as it is where the dependencies of every file
/// are strictly increasing, hold nothing twice and hold no package
/// initialiser.
pub proof fn lemma_expansion_of_sorted_graph(g: Seq<EntryView>)
    requires
        forall|i: int|
            0 <= i < g.len() ==> is_strictly_increasing((#[trigger] g[i]).deps)
                && g[i].deps.no_duplicates(),
        forall|i: int, k: int|
            0 <= i < g.len() && 0 <= k < g[i].deps.len() ==> !is_init_path(
                #[trigger] g[i].deps[k],
            ),
    ensures
        expansion(g) == g,
{
    let h = expansion(g);
    assert forall|i: int| 0 <= i < g.len() implies h[i] == g[i] by {
        let s = g[i].deps;
        assert(is_strictly_increasing(s));
        assert(is_naturally_ordered(s)) by {
            assert forall|a: int, b: int|
                #![trigger s[a], s[b]]
                0 <= a && b == a + 1 && b < s.len() implies !sorts_before(s[b], s[a]) by {
                assert(sorts_before(s[a], s[b]));
            }
        }
        assert(is_closed_from(g, s, 0)) by {
            assert forall|k: int| 0 <= k < s.len() implies holds_deps_of(g, s, #[trigger] s[k]) by {
                assert(!is_init_path(g[i].deps[k]));
            }
        }
        lemma_absorb_distinct(s);
        lemma_closed_is_fixed(g, s, 0);
        lemma_ordered_is_fixed::<String>(s);
        assert(expanded_deps(g, s) == s);
    }
    assert(h =~= g);
}

} // verus!
