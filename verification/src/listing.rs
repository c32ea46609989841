//! One directory of the tree: which of its entries are shown, and in what
//! order.

use crate::natural::{natural_less, sorts_before};
use crate::order::{is_ordered, ranks, sort, sorted, Ranked};
use crate::tree::{NodeKind, TreeEntry, TreeNode};
use ignore::gitignore::Gitignore;
use vstd::prelude::*;

verus! {

/// An entry of a directory as it was read from the disk.
#[derive(Debug)]
pub struct DirEntry {
    pub name: String,
    pub path: String,
    pub is_dir: bool,
}

/// What a `DirEntry` holds, as mathematical values.
pub ghost struct DirEntryView {
    pub name: Seq<char>,
    pub path: Seq<char>,
    pub is_dir: bool,
}

impl View for DirEntry {
    type V = DirEntryView;

    open spec fn view(&self) -> DirEntryView {
        DirEntryView { name: self.name@, path: self.path@, is_dir: self.is_dir }
    }
}

impl DeepView for DirEntry {
    type V = DirEntryView;

    open spec fn deep_view(&self) -> DirEntryView {
        self@
    }
}

/// `a` is shown before `b`: a folder before a file, and of two folders or
/// two files the one whose name sorts first in natural order.
pub open spec fn shown_before(a: DirEntryView, b: DirEntryView) -> bool {
    if a.is_dir != b.is_dir {
        a.is_dir
    } else {
        sorts_before(a.name, b.name)
    }
}

impl Ranked for DirEntry {
    type Rank = DirEntryView;

    open spec fn rank(&self) -> DirEntryView {
        self@
    }

    open spec fn precedes(a: DirEntryView, b: DirEntryView) -> bool {
        shown_before(a, b)
    }

    proof fn lemma_one_way(a: DirEntryView, b: DirEntryView) {
    }

    fn comes_before(&self, other: &Self) -> (r: bool) {
        if self.is_dir != other.is_dir {
            self.is_dir
        } else {
            natural_less(self.name.as_str(), other.name.as_str())
        }
    }
}

/// A set of ignore rules read from a `.gitignore` file.
#[verifier::external_type_specification]
#[verifier::external_body]
pub struct ExGitignore(Gitignore);

/// What the rules of `matcher` answer for `path`: whether
/// `Gitignore::matched` reports it as ignored.
pub uninterp spec fn ignored_by(matcher: Gitignore, path: Seq<char>, is_dir: bool) -> bool;

/// Asks the rules whether `path` is ignored (`Gitignore::matched`, then
/// `Match::is_ignore`).
///
/// Trusted: that the answer depends on the rules, the path and the flag
/// alone. Nothing is claimed of which paths the rules ignore.
#[verifier::external_body]
fn is_ignored(matcher: &Gitignore, path: &str, is_dir: bool) -> (r: bool)
    ensures
        r == ignored_by(*matcher, path@, is_dir),
{
    matcher.matched(path, is_dir).is_ignore()
}

/// What the rules answer for each of `entries`. An entry is put to the
/// rules by its path relative to the folder that is read, which is its
/// name, and by whether it is a directory.
pub open spec fn answers(matcher: Gitignore, entries: Seq<DirEntryView>) -> Seq<bool> {
    entries.map_values(|e: DirEntryView| ignored_by(matcher, e.name, e.is_dir))
}

/// The entries whose flag in `ignored` is not set, in order. An entry
/// without a flag is kept.
pub open spec fn kept(entries: Seq<DirEntryView>, ignored: Seq<bool>) -> Seq<DirEntryView>
    decreases entries.len(),
{
    if entries.len() == 0 {
        entries
    } else {
        let before = kept(entries.drop_last(), ignored);
        if entries.len() <= ignored.len() && ignored[entries.len() - 1] {
            before
        } else {
            before.push(entries.last())
        }
    }
}

/// The entries of a directory as they are shown: those that are not
/// ignored, folders first, then in natural order of their names.
pub open spec fn shown(entries: Seq<DirEntryView>, ignored: Seq<bool>) -> Seq<DirEntryView> {
    sorted::<DirEntry>(kept(entries, ignored))
}

/// Keeps the entries whose flag in `ignored` is not set, then puts folders
/// first and sorts folders and files by name in natural order.
pub fn arrange_entries(entries: Vec<DirEntry>, ignored: &Vec<bool>) -> (r: Vec<DirEntry>)
    ensures
        r.deep_view() == shown(entries.deep_view(), ignored@),
        is_ordered::<DirEntry>(r.deep_view()),
{
    let ghost all = entries.deep_view();
    let mut rest = entries;
    let total = rest.len();
    let mut visible: Vec<DirEntry> = Vec::new();
    let mut i: usize = 0;
    proof {
        assert(all.take(0) =~= Seq::empty());
        assert(visible.deep_view() =~= Seq::empty());
        assert(rest.deep_view() =~= all.skip(0));
    }
    while rest.len() > 0
        invariant
            total == all.len(),
            i + rest.len() == total,
            rest.deep_view() == all.skip(i as int),
            visible.deep_view() == kept(all.take(i as int), ignored@),
        decreases rest.len(),
    {
        let ghost before_rest = rest.deep_view();
        let ghost before = visible.deep_view();
        let entry = rest.remove(0);
        proof {
            assert(before_rest[0] == entry@);
            assert(rest.deep_view() =~= all.skip(i + 1)) by {
                assert forall|k: int| 0 <= k < rest.len() implies rest.deep_view()[k] == all.skip(
                    i + 1,
                )[k] by {
                    assert(rest.deep_view()[k] == before_rest[k + 1]);
                }
            }
            assert(all.take(i + 1).drop_last() =~= all.take(i as int));
            assert(all.take(i + 1).last() == entry@);
        }
        let hidden = i < ignored.len() && ignored[i];
        if !hidden {
            visible.push(entry);
            proof {
                assert(visible.deep_view() =~= before.push(all[i as int]));
            }
        }
        i += 1;
    }
    proof {
        assert(ranks(visible@) =~= visible.deep_view());
    }
    let out = sort(visible);
    proof {
        assert(ranks(out@) =~= out.deep_view());
    }
    out
}

/// The entries of a directory as they are shown under the rules of
/// `matcher`: each entry is put to the rules by its name and by whether it
/// is a directory, and left out exactly where the rules ignore it; the
/// others are arranged by `arrange_entries`.
pub fn list_directory(entries: Vec<DirEntry>, matcher: &Gitignore) -> (r: Vec<DirEntry>)
    ensures
        r.deep_view() == shown(entries.deep_view(), answers(*matcher, entries.deep_view())),
        is_ordered::<DirEntry>(r.deep_view()),
{
    let ghost wanted = answers(*matcher, entries.deep_view());
    let mut ignored: Vec<bool> = Vec::new();
    let mut i: usize = 0;
    while i < entries.len()
        invariant
            i <= entries.len(),
            wanted == answers(*matcher, entries.deep_view()),
            ignored@ == wanted.take(i as int),
        decreases entries.len() - i,
    {
        let entry = &entries[i];
        ignored.push(is_ignored(matcher, entry.name.as_str(), entry.is_dir));
        proof {
            assert(entries.deep_view()[i as int] == entry@);
            assert(wanted.take(i + 1) =~= wanted.take(i as int).push(wanted[i as int]));
        }
        i += 1;
    }
    proof {
        assert(wanted.take(i as int) =~= wanted);
    }
    arrange_entries(entries, &ignored)
}

/// The rules under which a folder is read: its own where it has a
/// `.gitignore`, else those under which the folder that holds it was read.
/// The rules of a folder replace the inherited ones; they are not merged.
pub fn rules_for_folder<'a>(own: Option<&'a Gitignore>, inherited: &'a Gitignore) -> (r:
    &'a Gitignore)
    ensures
        r == (match own {
            Some(rules) => rules,
            None => inherited,
        }),
{
    match own {
        Some(rules) => rules,
        None => inherited,
    }
}

/// The tree entry for a directory entry: a folder that holds `children`
/// where the entry is a directory, else a file.
pub fn tree_entry(entry: &DirEntry, children: Vec<TreeEntry>) -> (r: TreeEntry)
    ensures
        r.name@ == entry.name@,
        r.node.path@ == entry.path@,
        entry.is_dir ==> r.node.kind == NodeKind::Folder && r.node.children == Some(children),
        !entry.is_dir ==> r.node.kind == NodeKind::File && r.node.children is None,
        (forall|i: int| 0 <= i < children@.len() ==> (#[trigger] children@[i]).node.well_formed())
            ==> r.node.well_formed(),
{
    let node = if entry.is_dir {
        TreeNode::folder(entry.path.clone(), children)
    } else {
        TreeNode::file(entry.path.clone())
    };
    TreeEntry { name: entry.name.clone(), node }
}

} // verus!
