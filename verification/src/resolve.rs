//! From an import to the file it names: candidate paths are formed from the
//! import and tried in order against what is known of the disk.

use crate::extract::{ImportKind, RawImport, RawImportView};
use crate::graph::{with_edge, DependencyGraph, EntryView};
use crate::lang::Lang;
use crate::path::{is_within, join, joined, lies_within, parent, parent_dir, same_text};
use vstd::prelude::*;
use vstd::string::StringExecFns;

verus! {

/// A source file that could be read, with its text.
#[derive(Debug)]
pub struct SourceFile {
    pub path: String,
    pub text: String,
}

/// What an analysis knows of the disk: the text of each source file that
/// could be read, and the paths that are regular files.
#[derive(Debug)]
pub struct Disk {
    pub sources: Vec<SourceFile>,
    pub regular_files: Vec<String>,
}

/// What a `SourceFile` holds, as mathematical values.
pub ghost struct SourceView {
    pub path: Seq<char>,
    pub text: Seq<char>,
}

/// What a `Disk` holds, as mathematical values.
pub ghost struct DiskView {
    pub sources: Seq<SourceView>,
    pub regular_files: Seq<Seq<char>>,
}

impl View for SourceFile {
    type V = SourceView;

    open spec fn view(&self) -> SourceView {
        SourceView { path: self.path@, text: self.text@ }
    }
}

impl DeepView for SourceFile {
    type V = SourceView;

    open spec fn deep_view(&self) -> SourceView {
        self@
    }
}

impl View for Disk {
    type V = DiskView;

    open spec fn view(&self) -> DiskView {
        DiskView {
            sources: self.sources.deep_view(),
            regular_files: self.regular_files.deep_view(),
        }
    }
}

/// The text of the first of `sources` that stands at `path`.
pub open spec fn text_at(sources: Seq<SourceView>, path: Seq<char>) -> Option<Seq<char>>
    decreases sources.len(),
{
    if sources.len() == 0 {
        None
    } else if sources[0].path == path {
        Some(sources[0].text)
    } else {
        text_at(sources.skip(1), path)
    }
}

impl Disk {
    /// The text of the source file at `path`, if it could be read.
    pub fn read(&self, path: &str) -> (r: Option<&str>)
        ensures
            match r {
                Some(text) => text_at(self@.sources, path@) == Some(text@),
                None => text_at(self@.sources, path@) is None,
            },
    {
        let mut i: usize = 0;
        proof {
            assert(self@.sources.skip(0) =~= self@.sources);
        }
        while i < self.sources.len()
            invariant
                i <= self.sources.len(),
                text_at(self@.sources, path@) == text_at(self@.sources.skip(i as int), path@),
            decreases self.sources.len() - i,
        {
            proof {
                assert(self@.sources.skip(i as int).skip(1) =~= self@.sources.skip(i + 1));
            }
            if same_text(self.sources[i].path.as_str(), path) {
                return Some(self.sources[i].text.as_str());
            }
            i += 1;
        }
        None
    }

    /// Whether `path` is a regular file.
    pub fn is_file(&self, path: &str) -> (r: bool)
        ensures
            r == self@.regular_files.contains(path@),
    {
        let mut i: usize = 0;
        while i < self.regular_files.len()
            invariant
                i <= self.regular_files.len(),
                forall|k: int| 0 <= k < i ==> self@.regular_files[k] != path@,
            decreases self.regular_files.len() - i,
        {
            proof {
                assert(self@.regular_files[i as int] == self.regular_files[i as int]@);
            }
            if same_text(self.regular_files[i].as_str(), path) {
                return true;
            }
            i += 1;
        }
        false
    }
}

/// What `path_clean::clean` makes of `path`.
pub uninterp spec fn cleaned_path(path: Seq<char>) -> Seq<char>;

/// Calls `path_clean::clean`, which collapses `.` and `..` parts and
/// repeated `/` without looking at the disk.
///
/// Trusted: that the outcome depends on the path alone.
#[verifier::external_body]
fn clean_path(path: &str) -> (r: String)
    ensures
        r@ == cleaned_path(path@),
{
    path_clean::clean(path).to_string_lossy().into_owned()
}

/// The candidate that `suffix` gives: the fragment with the suffix, seen
/// from the directory `parent`, cleaned.
pub open spec fn candidate(parent: Seq<char>, fragment: Seq<char>, suffix: Seq<char>) -> Seq<char> {
    cleaned_path(joined(parent, fragment + suffix))
}

/// The candidates for a fragment, one for each suffix, in order.
pub open spec fn candidates(parent: Seq<char>, fragment: Seq<char>, suffixes: Seq<Seq<char>>)
    -> Seq<Seq<char>> {
    suffixes.map_values(|suffix: Seq<char>| candidate(parent, fragment, suffix))
}

/// A candidate is taken where it is a regular file and lies within `root`.
pub open spec fn is_hit(path: Seq<char>, root: Seq<char>, regular_files: Seq<Seq<char>>) -> bool {
    regular_files.contains(path) && is_within(path, root)
}

/// The first of `paths` that is taken.
pub open spec fn first_hit(paths: Seq<Seq<char>>, root: Seq<char>, regular_files: Seq<Seq<char>>)
    -> Option<Seq<char>>
    decreases paths.len(),
{
    if paths.len() == 0 {
        None
    } else if is_hit(paths[0], root, regular_files) {
        Some(paths[0])
    } else {
        first_hit(paths.skip(1), root, regular_files)
    }
}

/// The file that a path fragment names when seen from `parent`.
pub open spec fn resolution(
    parent: Seq<char>,
    fragment: Seq<char>,
    root: Seq<char>,
    suffixes: Seq<Seq<char>>,
    regular_files: Seq<Seq<char>>,
) -> Option<Seq<char>> {
    first_hit(candidates(parent, fragment, suffixes), root, regular_files)
}

/// What `first_hit` gives is one of the paths and is taken.
pub proof fn lemma_first_hit(
    paths: Seq<Seq<char>>,
    root: Seq<char>,
    regular_files: Seq<Seq<char>>,
)
    ensures
        match first_hit(paths, root, regular_files) {
            Some(p) => paths.contains(p) && is_hit(p, root, regular_files),
            None => forall|i: int| 0 <= i < paths.len() ==> !is_hit(paths[i], root, regular_files),
        },
    decreases paths.len(),
{
    if paths.len() > 0 {
        if !(is_hit(paths[0], root, regular_files)) {
            let rest = paths.skip(1);
            lemma_first_hit(rest, root, regular_files);
            match first_hit(rest, root, regular_files) {
                Some(p) => {
                    let k = choose|k: int| 0 <= k < rest.len() && rest[k] == p;
                    assert(0 <= k < rest.len() && rest[k] == p);
                },
                None => {
                    assert forall|i: int| 0 <= i < paths.len() implies !is_hit(
                        paths[i],
                        root,
                        regular_files,
                    ) by {
                        if i > 0 {
                            assert(rest[i - 1] == paths[i]);
                        }
                    }
                },
            }
        }
    }
}

/// The candidate paths for `fragment` seen from `parent_dir`, one for each
/// of `suffixes`, in order.
pub fn candidate_paths(parent_dir: &str, fragment: &str, suffixes: &Vec<&'static str>) -> (r: Vec<
    String,
>)
    ensures
        r.deep_view() == candidates(parent_dir@, fragment@, suffixes.deep_view()),
{
    let ghost wanted = candidates(parent_dir@, fragment@, suffixes.deep_view());
    let mut out: Vec<String> = Vec::new();
    let mut i: usize = 0;
    while i < suffixes.len()
        invariant
            i <= suffixes.len(),
            wanted == candidates(parent_dir@, fragment@, suffixes.deep_view()),
            out.deep_view() == wanted.take(i as int),
        decreases suffixes.len() - i,
    {
        let ghost before = out.deep_view();
        let mut name = fragment.to_owned();
        name.append(suffixes[i]);
        let path = clean_path(join(parent_dir, name.as_str()).as_str());
        out.push(path);
        proof {
            assert(out.deep_view() =~= before.push(wanted[i as int]));
        }
        i += 1;
    }
    out
}

/// The first of `paths` that is a regular file within `root_path`.
pub fn pick_first(paths: &Vec<String>, root_path: &str, disk: &Disk) -> (r: Option<String>)
    ensures
        match r {
            Some(p) => first_hit(paths.deep_view(), root_path@, disk@.regular_files) == Some(p@),
            None => first_hit(paths.deep_view(), root_path@, disk@.regular_files) is None,
        },
{
    let ghost all = paths.deep_view();
    let mut i: usize = 0;
    proof {
        assert(all.skip(0) =~= all);
    }
    while i < paths.len()
        invariant
            i <= paths.len(),
            all == paths.deep_view(),
            first_hit(all, root_path@, disk@.regular_files) == first_hit(
                all.skip(i as int),
                root_path@,
                disk@.regular_files,
            ),
        decreases paths.len() - i,
    {
        proof {
            assert(all.skip(i as int).skip(1) =~= all.skip(i + 1));
        }
        if disk.is_file(paths[i].as_str()) && lies_within(paths[i].as_str(), root_path) {
            return Some(paths[i].clone());
        }
        i += 1;
    }
    None
}

/// Resolves a path fragment seen from `parent_dir`: the first candidate, in
/// the order of `suffixes`, that is a regular file within `root_path`.
pub fn resolve_relative_path(
    parent_dir: &str,
    import_str: &str,
    root_path: &str,
    suffixes: &Vec<&'static str>,
    disk: &Disk,
) -> (r: Option<String>)
    ensures
        match r {
            Some(p) => resolution(
                parent_dir@,
                import_str@,
                root_path@,
                suffixes.deep_view(),
                disk@.regular_files,
            ) == Some(p@),
            None => resolution(
                parent_dir@,
                import_str@,
                root_path@,
                suffixes.deep_view(),
                disk@.regular_files,
            ) is None,
        },
{
    let paths = candidate_paths(parent_dir, import_str, suffixes);
    pick_first(&paths, root_path, disk)
}

/// The file that an import literal of `lang` names when read in the
/// directory `parent`: the literal is rewritten by the language and
/// resolved with the suffixes of the language.
pub open spec fn literal_target(
    parent: Seq<char>,
    literal: Seq<char>,
    lang: Lang,
    root: Seq<char>,
    regular_files: Seq<Seq<char>>,
) -> Option<Seq<char>> {
    resolution(parent, lang.fragment(literal), root, lang.suffixes(), regular_files)
}

/// The file that `import` names: its literal, resolved from the directory
/// of its source file.
pub open spec fn import_target(
    import: RawImportView,
    root: Seq<char>,
    regular_files: Seq<Seq<char>>,
) -> Option<Seq<char>> {
    match parent_dir(import.source_file) {
        Some(parent) => literal_target(
            parent,
            import.literal,
            import.language,
            root,
            regular_files,
        ),
        None => None,
    }
}

/// The edge that `import` gives to its source file: its target, unless that
/// is the source file itself.
pub open spec fn import_edge(
    import: RawImportView,
    root: Seq<char>,
    regular_files: Seq<Seq<char>>,
) -> Option<Seq<char>> {
    match import_target(import, root, regular_files) {
        Some(target) => if target == import.source_file {
            None
        } else {
            Some(target)
        },
        None => None,
    }
}

/// `g` after `import` was followed: with its edge, where it gives one.
pub open spec fn recorded(
    g: Seq<EntryView>,
    import: RawImportView,
    root: Seq<char>,
    regular_files: Seq<Seq<char>>,
) -> Seq<EntryView> {
    match import_edge(import, root, regular_files) {
        Some(dep) => with_edge(g, import.source_file, dep),
        None => g,
    }
}

/// Resolves an import literal of `lang` read in the directory
/// `parent_dir`: the first candidate that is a regular file within
/// `root_path`, if there is one.
pub fn resolve(parent_dir: &str, literal: &str, lang: Lang, root_path: &str, disk: &Disk) -> (r:
    Option<String>)
    ensures
        match r {
            Some(p) => literal_target(
                parent_dir@,
                literal@,
                lang,
                root_path@,
                disk@.regular_files,
            ) == Some(p@),
            None => literal_target(parent_dir@, literal@, lang, root_path@, disk@.regular_files)
                is None,
        },
{
    let fragment = lang.rewrite(literal);
    let suffixes = lang.suffix_list();
    resolve_relative_path(parent_dir, fragment.as_str(), root_path, &suffixes, disk)
}

/// The file that `import` names, if it names one.
pub fn resolve_import(import: &RawImport, root_path: &str, disk: &Disk) -> (r: Option<String>)
    ensures
        match r {
            Some(p) => import_target(import@, root_path@, disk@.regular_files) == Some(p@),
            None => import_target(import@, root_path@, disk@.regular_files) is None,
        },
{
    match parent(import.source_file.as_str()) {
        Some(dir) => resolve(
            dir.as_str(),
            import.literal.as_str(),
            import.language,
            root_path,
            disk,
        ),
        None => None,
    }
}

/// Follows `import` and records its edge in the graph. An import that names
/// no file, or its own source file, changes nothing.
pub fn process_import(
    import: &RawImport,
    root_path: &str,
    disk: &Disk,
    dependency_graph: &mut DependencyGraph,
)
    ensures
        final(dependency_graph)@ == recorded(
            old(dependency_graph)@,
            import@,
            root_path@,
            disk@.regular_files,
        ),
{
    match resolve_import(import, root_path, disk) {
        Some(target) => {
            if !same_text(target.as_str(), import.source_file.as_str()) {
                dependency_graph.add_edge(import.source_file.as_str(), target);
            }
        },
        None => {},
    }
}

/// Follows the Python module name `module_str` found in the file
/// `file_path_str` and records its edge in the graph.
pub fn process_python_module(
    module_str: &str,
    file_path_str: &str,
    root_path: &str,
    disk: &Disk,
    dependency_graph: &mut DependencyGraph,
)
    ensures
        final(dependency_graph)@ == recorded(
            old(dependency_graph)@,
            RawImportView {
                source_file: file_path_str@,
                language: Lang::Python,
                literal: module_str@,
                kind: ImportKind::Module,
            },
            root_path@,
            disk@.regular_files,
        ),
{
    let import = RawImport {
        source_file: file_path_str.to_owned(),
        language: Lang::Python,
        literal: module_str.to_owned(),
        kind: ImportKind::Module,
    };
    process_import(&import, root_path, disk, dependency_graph);
}

} // verus!
