//! The dependency graph: for each source file the files it depends on.

use crate::path::same_text;
use vstd::prelude::*;

verus! {

/// A source file and the files it depends on, in the order in which they
/// were found.
#[derive(Debug)]
pub struct GraphEntry {
    pub file: String,
    pub deps: Vec<String>,
}

/// What a `GraphEntry` holds, as mathematical values.
pub ghost struct EntryView {
    pub file: Seq<char>,
    pub deps: Seq<Seq<char>>,
}

impl View for GraphEntry {
    type V = EntryView;

    open spec fn view(&self) -> EntryView {
        EntryView { file: self.file@, deps: self.deps.deep_view() }
    }
}

impl DeepView for GraphEntry {
    type V = EntryView;

    open spec fn deep_view(&self) -> EntryView {
        self@
    }
}

/// A dependency graph. A file without dependencies has no entry; the
/// entries stand in the order in which their files first got a dependency.
#[derive(Debug)]
pub struct DependencyGraph {
    pub entries: Vec<GraphEntry>,
}

impl View for DependencyGraph {
    type V = Seq<EntryView>;

    open spec fn view(&self) -> Seq<EntryView> {
        self.entries.deep_view()
    }
}

/// Position of the first entry of `g` for `file`.
pub open spec fn index_of(g: Seq<EntryView>, file: Seq<char>) -> Option<int>
    decreases g.len(),
{
    if g.len() == 0 {
        None
    } else {
        match index_of(g.drop_last(), file) {
            Some(i) => Some(i),
            None => if g.last().file == file {
                Some(g.len() - 1)
            } else {
                None
            },
        }
    }
}

/// The dependencies that `g` holds for `file`; none where it has no entry.
pub open spec fn deps_of(g: Seq<EntryView>, file: Seq<char>) -> Seq<Seq<char>> {
    match index_of(g, file) {
        Some(i) => g[i].deps,
        None => Seq::empty(),
    }
}

/// `g` after `file` got the dependency `dep`: appended to the entry of
/// `file`, or in a new last entry where `file` had none.
pub open spec fn with_edge(g: Seq<EntryView>, file: Seq<char>, dep: Seq<char>) -> Seq<EntryView> {
    match index_of(g, file) {
        Some(i) => g.update(i, EntryView { file, deps: g[i].deps.push(dep) }),
        None => g.push(EntryView { file, deps: seq![dep] }),
    }
}

/// No two entries of `g` are for the same file.
pub open spec fn has_distinct_keys(g: Seq<EntryView>) -> bool {
    forall|i: int, j: int| 0 <= i < j < g.len() ==> (#[trigger] g[i]).file != (#[trigger] g[j]).file
}

/// No file of `g` depends on itself.
pub open spec fn has_no_self_edge(g: Seq<EntryView>) -> bool {
    forall|i: int| 0 <= i < g.len() ==> !(#[trigger] g[i]).deps.contains(g[i].file)
}

/// Every entry of `g` holds at least one dependency.
pub open spec fn has_no_empty_entry(g: Seq<EntryView>) -> bool {
    forall|i: int| 0 <= i < g.len() ==> (#[trigger] g[i]).deps.len() > 0
}

/// What `index_of` finds is the first entry for `file`; it finds nothing
/// only where there is none.
pub proof fn lemma_index_of(g: Seq<EntryView>, file: Seq<char>)
    ensures
        match index_of(g, file) {
            Some(i) => 0 <= i < g.len() && g[i].file == file && forall|k: int|
                0 <= k < i ==> (#[trigger] g[k]).file != file,
            None => forall|k: int| 0 <= k < g.len() ==> (#[trigger] g[k]).file != file,
        },
    decreases g.len(),
{
    if g.len() > 0 {
        let t = g.drop_last();
        lemma_index_of(t, file);
        assert forall|k: int| 0 <= k < t.len() implies t[k] == g[k] by {}
        match index_of(t, file) {
            Some(i) => {
                assert forall|k: int| 0 <= k < i implies (#[trigger] g[k]).file != file by {}
            },
            None => {
                assert forall|k: int| 0 <= k < t.len() implies (#[trigger] g[k]).file != file by {}
            },
        }
    }
}

/// Every file that has an entry in `g` satisfies `p`.
pub open spec fn every_key(g: Seq<EntryView>, p: spec_fn(Seq<char>) -> bool) -> bool {
    forall|i: int| 0 <= i < g.len() ==> p((#[trigger] g[i]).file)
}

/// Every dependency that `g` holds satisfies `p`.
pub open spec fn every_dep(g: Seq<EntryView>, p: spec_fn(Seq<char>) -> bool) -> bool {
    forall|i: int, k: int|
        0 <= i < g.len() && 0 <= k < g[i].deps.len() ==> p(#[trigger] g[i].deps[k])
}

/// Adding an edge keeps the keys distinct, adds no self edge unless the edge
/// is one, leaves no entry empty, and keeps what holds of every key and of
/// every dependency where it holds of the new ones.
pub proof fn lemma_with_edge(g: Seq<EntryView>, file: Seq<char>, dep: Seq<char>)
    ensures
        has_distinct_keys(g) ==> has_distinct_keys(with_edge(g, file, dep)),
        has_no_self_edge(g) && dep != file ==> has_no_self_edge(with_edge(g, file, dep)),
        has_no_empty_entry(g) ==> has_no_empty_entry(with_edge(g, file, dep)),
        forall|p: spec_fn(Seq<char>) -> bool|
            every_key(g, p) && p(file) ==> #[trigger] every_key(with_edge(g, file, dep), p),
        forall|p: spec_fn(Seq<char>) -> bool|
            every_dep(g, p) && p(dep) ==> #[trigger] every_dep(with_edge(g, file, dep), p),
{
    lemma_index_of(g, file);
    let h = with_edge(g, file, dep);
    match index_of(g, file) {
        Some(i) => {
            assert forall|k: int| 0 <= k < h.len() implies h[k].file == g[k].file by {}
            assert forall|k: int| 0 <= k < h.len() && k != i implies h[k] == g[k] by {}
            if has_no_self_edge(g) && dep != file {
                assert forall|k: int| 0 <= k < h.len() implies !(#[trigger] h[k]).deps.contains(
                    h[k].file,
                ) by {
                    if h[k].deps.contains(h[k].file) {
                        let m = choose|m: int| 0 <= m < h[k].deps.len() && h[k].deps[m] == h[k].file;
                        assert(0 <= m < h[k].deps.len() && h[k].deps[m] == h[k].file);
                    }
                }
            }
            if has_distinct_keys(g) {
                assert forall|a: int, b: int| 0 <= a < b < h.len() implies (#[trigger] h[a]).file
                    != (#[trigger] h[b]).file by {}
            }
            if has_no_empty_entry(g) {
                assert forall|k: int| 0 <= k < h.len() implies (#[trigger] h[k]).deps.len()
                    > 0 by {}
            }
            assert forall|p: spec_fn(Seq<char>) -> bool| every_key(g, p) && p(file) implies #[trigger] every_key(
                h,
                p,
            ) by {
                assert forall|k: int| 0 <= k < h.len() implies p((#[trigger] h[k]).file) by {}
            }
            assert forall|p: spec_fn(Seq<char>) -> bool| every_dep(g, p) && p(dep) implies #[trigger] every_dep(
                h,
                p,
            ) by {
                assert forall|a: int, b: int|
                    0 <= a < h.len() && 0 <= b < h[a].deps.len() implies p(
                    #[trigger] h[a].deps[b],
                ) by {}
            }
        },
        None => {
            assert forall|k: int| 0 <= k < g.len() implies h[k] == g[k] by {}
            if has_no_self_edge(g) && dep != file {
                assert forall|k: int| 0 <= k < h.len() implies !(#[trigger] h[k]).deps.contains(
                    h[k].file,
                ) by {
                    if !(k < g.len()) && (h[k].deps.contains(h[k].file)) {
                        let m = choose|m: int| 0 <= m < h[k].deps.len() && h[k].deps[m] == h[k].file;
                        assert(0 <= m < h[k].deps.len() && h[k].deps[m] == h[k].file);
                    }
                }
            }
            if has_distinct_keys(g) {
                assert forall|a: int, b: int| 0 <= a < b < h.len() implies (#[trigger] h[a]).file
                    != (#[trigger] h[b]).file by {}
            }
            if has_no_empty_entry(g) {
                assert forall|k: int| 0 <= k < h.len() implies (#[trigger] h[k]).deps.len()
                    > 0 by {}
            }
            assert forall|p: spec_fn(Seq<char>) -> bool| every_key(g, p) && p(file) implies #[trigger] every_key(
                h,
                p,
            ) by {
                assert forall|k: int| 0 <= k < h.len() implies p((#[trigger] h[k]).file) by {}
            }
            assert forall|p: spec_fn(Seq<char>) -> bool| every_dep(g, p) && p(dep) implies #[trigger] every_dep(
                h,
                p,
            ) by {
                assert forall|a: int, b: int|
                    0 <= a < h.len() && 0 <= b < h[a].deps.len() implies p(
                    #[trigger] h[a].deps[b],
                ) by {}
            }
        },
    }
}

impl DependencyGraph {
    /// A graph without entries.
    pub fn new() -> (r: DependencyGraph)
        ensures
            r@ == Seq::<EntryView>::empty(),
    {
        let r = DependencyGraph { entries: Vec::new() };
        r
    }

    /// The number of files that have dependencies.
    pub fn len(&self) -> (r: usize)
        ensures
            r == self@.len(),
    {
        self.entries.len()
    }

    /// Position of the entry for `file`, if it has one.
    pub fn position(&self, file: &str) -> (r: Option<usize>)
        ensures
            match r {
                Some(i) => index_of(self@, file@) == Some(i as int) && i < self.entries.len(),
                None => index_of(self@, file@) is None,
            },
    {
        let mut i: usize = 0;
        while i < self.entries.len()
            invariant
                i <= self.entries.len(),
                index_of(self@.take(i as int), file@) is None,
            decreases self.entries.len() - i,
        {
            proof {
                assert(self@.take(i + 1).drop_last() =~= self@.take(i as int));
            }
            if same_text(self.entries[i].file.as_str(), file) {
                proof {
                    lemma_index_prefix(self@, file@, i + 1);
                }
                return Some(i);
            }
            i += 1;
        }
        proof {
            assert(self@.take(i as int) =~= self@);
        }
        None
    }

    /// The dependencies of `file`; `None` where it has none.
    pub fn get(&self, file: &str) -> (r: Option<&Vec<String>>)
        ensures
            match r {
                Some(deps) => index_of(self@, file@) is Some && deps.deep_view() == deps_of(
                    self@,
                    file@,
                ),
                None => index_of(self@, file@) is None,
            },
    {
        match self.position(file) {
            Some(i) => Some(&self.entries[i].deps),
            None => None,
        }
    }

    /// Records that `file` depends on `dep`.
    pub fn add_edge(&mut self, file: &str, dep: String)
        ensures
            final(self)@ == with_edge(old(self)@, file@, dep@),
    {
        match self.position(file) {
            Some(i) => {
                let ghost before = self@;
                let mut entry = self.entries.remove(i);
                entry.deps.push(dep);
                proof {
                    lemma_index_of(before, file@);
                    assert(entry@.deps =~= before[i as int].deps.push(dep@));
                }
                self.entries.insert(i, entry);
            },
            None => {
                let mut deps: Vec<String> = Vec::new();
                deps.push(dep);
                self.entries.push(GraphEntry { file: file.to_owned(), deps });
                proof {
                    assert(deps.deep_view() =~= seq![dep@]);
                }
            },
        }
    }
}

/// An entry found among the first `n` entries of `g` is the one found in
/// all of `g`.
proof fn lemma_index_prefix(g: Seq<EntryView>, file: Seq<char>, n: int)
    requires
        0 <= n <= g.len(),
        index_of(g.take(n), file) is Some,
    ensures
        index_of(g, file) == index_of(g.take(n), file),
    decreases g.len() - n,
{
    if n < g.len() {
        assert(g.take(n + 1).drop_last() =~= g.take(n));
        lemma_index_prefix(g, file, n + 1);
    } else {
        assert(g.take(n) =~= g);
    }
}

} // verus!
