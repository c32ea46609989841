//! The directory tree that an analysis reads, and the list of its files.

use vstd::prelude::*;

verus! {

/// Whether a node of the tree is a file or a folder.
#[derive(Clone, Copy, Debug, PartialEq, Eq, Structural)]
pub enum NodeKind {
    File,
    Folder,
}

/// A file or a folder of the tree. A folder holds its entries in the order
/// in which they are shown: folders first, then by natural order of their
/// names.
#[derive(Debug)]
pub struct TreeNode {
    pub kind: NodeKind,
    pub path: String,
    pub children: Option<Vec<TreeEntry>>,
}

/// A node under the base name by which its folder knows it.
#[derive(Debug)]
pub struct TreeEntry {
    pub name: String,
    pub node: TreeNode,
}

/// The paths of the files at and below `node`: the node itself where it is
/// a file, then those of its entries.
pub open spec fn node_files(node: TreeNode) -> Seq<Seq<char>>
    decreases node, 0nat,
{
    let own = if node.kind == NodeKind::File {
        seq![node.path@]
    } else {
        Seq::empty()
    };
    match node.children {
        Some(children) => own + entries_files(children@, children@.len()),
        None => own,
    }
}

/// The paths of the files at and below the first `n` of `entries`, entry by
/// entry.
pub open spec fn entries_files(entries: Seq<TreeEntry>, n: nat) -> Seq<Seq<char>>
    decreases entries, n,
{
    if n == 0 || n > entries.len() {
        Seq::empty()
    } else {
        entries_files(entries, (n - 1) as nat) + node_files(entries[n - 1].node)
    }
}

/// The paths of all files of `tree`, depth first.
pub open spec fn tree_files(tree: Seq<TreeEntry>) -> Seq<Seq<char>> {
    entries_files(tree, tree.len())
}

impl TreeNode {
    /// A folder holds entries and a file holds none, here and in every
    /// node below.
    pub open spec fn well_formed(self) -> bool
        decreases self,
    {
        match self.children {
            Some(children) => self.kind == NodeKind::Folder && forall|i: int|
                0 <= i < children@.len() ==> (#[trigger] children@[i]).node.well_formed(),
            None => self.kind == NodeKind::File,
        }
    }

    /// A file at `path`.
    pub fn file(path: String) -> (r: TreeNode)
        ensures
            r.kind == NodeKind::File,
            r.path == path,
            r.children is None,
            r.well_formed(),
    {
        TreeNode { kind: NodeKind::File, path, children: None }
    }

    /// A folder at `path` that holds `children`.
    pub fn folder(path: String, children: Vec<TreeEntry>) -> (r: TreeNode)
        ensures
            r.kind == NodeKind::Folder,
            r.path == path,
            r.children == Some(children),
            (forall|i: int| 0 <= i < children@.len() ==> (#[trigger] children@[i]).node.well_formed())
                ==> r.well_formed(),
    {
        TreeNode { kind: NodeKind::Folder, path, children: Some(children) }
    }

    /// The word for the node's kind: `file` or `folder`.
    pub fn kind_name(&self) -> (r: &'static str)
        ensures
            r@ == (match self.kind {
                NodeKind::File => "file"@,
                NodeKind::Folder => "folder"@,
            }),
    {
        match self.kind {
            NodeKind::File => "file",
            NodeKind::Folder => "folder",
        }
    }
}

/// Appends to `files` the paths of all files of `tree`, depth first.
pub fn collect_files(tree: &Vec<TreeEntry>, files: &mut Vec<String>)
    ensures
        final(files).deep_view() == old(files).deep_view() + tree_files(tree@),
    decreases tree,
{
    let mut i: usize = 0;
    while i < tree.len()
        invariant
            i <= tree.len(),
            files.deep_view() == old(files).deep_view() + entries_files(tree@, i as nat),
        decreases tree.len() - i,
    {
        let node = &tree[i].node;
        let ghost before = files.deep_view();
        match node.kind {
            NodeKind::File => {
                files.push(node.path.clone());
            },
            NodeKind::Folder => {},
        }
        match &node.children {
            Some(children) => {
                collect_files(children, files);
            },
            None => {},
        }
        proof {
            assert(files.deep_view() =~= before + node_files(*node));
        }
        i += 1;
    }
}

} // verus!
