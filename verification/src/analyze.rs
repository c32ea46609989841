//! The analysis of a tree: the imports of its files, language by language,
//! and the graph that following them gives.

use crate::expand::{expand_init_dependencies, expansion, lemma_expansion_keeps};
use crate::extract::{extract, extracted, imports_of, RawImport, RawImportView};
use crate::graph::{every_dep, every_key, has_distinct_keys, has_no_empty_entry, has_no_self_edge,
    lemma_with_edge, with_edge, DependencyGraph, EntryView};
use crate::lang::Lang;
use crate::natural::is_naturally_ordered;
use crate::path::{is_within, parent, parent_dir};
use crate::resolve::{candidate_paths, candidates, first_hit, import_edge, is_hit, lemma_first_hit,
    process_import, recorded, text_at, Disk, DiskView, SourceView};
use crate::syntax::{query_text, syntax_matches, PatternMatch};
use crate::tree::{collect_files, tree_files, TreeEntry};
use vstd::prelude::*;

verus! {

/// The imports of one file read as `lang`: none where the language does not
/// read the file or its text is not known.
pub open spec fn file_imports(lang: Lang, file: Seq<char>, sources: Seq<SourceView>) -> Seq<
    RawImportView,
> {
    if lang.accepts_path(file) {
        match text_at(sources, file) {
            Some(text) => extracted(lang, file, text),
            None => Seq::empty(),
        }
    } else {
        Seq::empty()
    }
}

/// The imports that `lang` finds in `files`, file by file.
pub open spec fn language_imports(lang: Lang, files: Seq<Seq<char>>, sources: Seq<SourceView>)
    -> Seq<RawImportView>
    decreases files.len(),
{
    if files.len() == 0 {
        Seq::empty()
    } else {
        language_imports(lang, files.drop_last(), sources) + file_imports(
            lang,
            files.last(),
            sources,
        )
    }
}

/// The imports found in `files`: those of JavaScript and TypeScript first,
/// then Python, Rust, and C and C++.
pub open spec fn all_imports(files: Seq<Seq<char>>, sources: Seq<SourceView>) -> Seq<
    RawImportView,
> {
    language_imports(Lang::JavaScript, files, sources) + language_imports(
        Lang::Python,
        files,
        sources,
    ) + language_imports(Lang::Rust, files, sources) + language_imports(Lang::Cpp, files, sources)
}

/// `g` after each of `imports` was followed, in order.
pub open spec fn assembled(
    g: Seq<EntryView>,
    imports: Seq<RawImportView>,
    root: Seq<char>,
    regular_files: Seq<Seq<char>>,
) -> Seq<EntryView>
    decreases imports.len(),
{
    if imports.len() == 0 {
        g
    } else {
        recorded(
            assembled(g, imports.drop_last(), root, regular_files),
            imports.last(),
            root,
            regular_files,
        )
    }
}

/// The dependency graph of a tree: every import found in its files,
/// followed from an empty graph.
pub open spec fn analysis(root: Seq<char>, tree: Seq<TreeEntry>, disk: DiskView) -> Seq<EntryView> {
    assembled(
        Seq::empty(),
        all_imports(tree_files(tree), disk.sources),
        root,
        disk.regular_files,
    )
}

/// The edge of an import leads to a regular file within the root that is
/// not the importing file.
proof fn lemma_import_edge(
    import: RawImportView,
    root: Seq<char>,
    regular_files: Seq<Seq<char>>,
)
    ensures
        match import_edge(import, root, regular_files) {
            Some(dep) => regular_files.contains(dep) && is_within(dep, root) && dep
                != import.source_file,
            None => true,
        },
{
    match parent_dir(import.source_file) {
        Some(parent) => {
            lemma_first_hit(
                candidates(
                    parent,
                    import.language.fragment(import.literal),
                    import.language.suffixes(),
                ),
                root,
                regular_files,
            );
        },
        None => {},
    }
}

/// What following imports keeps: distinct keys, no self edge, no empty
/// entry, only dependencies that are regular files within the root, and
/// only keys that hold of the importing files.
proof fn lemma_assembled(
    g: Seq<EntryView>,
    imports: Seq<RawImportView>,
    root: Seq<char>,
    regular_files: Seq<Seq<char>>,
    key: spec_fn(Seq<char>) -> bool,
)
    ensures
        has_distinct_keys(g) ==> has_distinct_keys(assembled(g, imports, root, regular_files)),
        has_no_self_edge(g) ==> has_no_self_edge(assembled(g, imports, root, regular_files)),
        has_no_empty_entry(g) ==> has_no_empty_entry(assembled(g, imports, root, regular_files)),
        every_dep(g, |d: Seq<char>| regular_files.contains(d) && is_within(d, root)) ==> every_dep(
            assembled(g, imports, root, regular_files),
            |d: Seq<char>| regular_files.contains(d) && is_within(d, root),
        ),
        every_key(g, key) && (forall|i: int|
            0 <= i < imports.len() ==> key((#[trigger] imports[i]).source_file)) ==> every_key(
            assembled(g, imports, root, regular_files),
            key,
        ),
    decreases imports.len(),
{
    if imports.len() > 0 {
        let rest = imports.drop_last();
        let last = imports.last();
        let h = assembled(g, rest, root, regular_files);
        lemma_assembled(g, rest, root, regular_files, key);
        lemma_import_edge(last, root, regular_files);
        assert forall|i: int| 0 <= i < rest.len() implies rest[i] == imports[i] by {}
        if every_key(g, key) && (forall|i: int|
            0 <= i < imports.len() ==> key((#[trigger] imports[i]).source_file)) {
            assert forall|i: int| 0 <= i < rest.len() implies key(
                (#[trigger] rest[i]).source_file,
            ) by {}
        }
        match import_edge(last, root, regular_files) {
            Some(dep) => {
                lemma_with_edge(h, last.source_file, dep);
            },
            None => {},
        }
    }
}

/// Every import of `matches` has `source` as its source file.
proof fn lemma_imports_of_source(
    lang: Lang,
    source: Seq<char>,
    text: Seq<char>,
    matches: Seq<PatternMatch>,
)
    ensures
        forall|i: int|
            0 <= i < imports_of(lang, source, text, matches).len() ==> (#[trigger] imports_of(
                lang,
                source,
                text,
                matches,
            )[i]).source_file == source,
    decreases matches.len(),
{
    if matches.len() > 0 {
        lemma_imports_of_source(lang, source, text, matches.drop_last());
    }
}

/// Every import found in `files` has one of them as its source file.
proof fn lemma_language_imports_source(
    lang: Lang,
    files: Seq<Seq<char>>,
    sources: Seq<SourceView>,
)
    ensures
        forall|i: int|
            0 <= i < language_imports(lang, files, sources).len() ==> files.contains(
                (#[trigger] language_imports(lang, files, sources)[i]).source_file,
            ),
    decreases files.len(),
{
    if files.len() > 0 {
        let rest = files.drop_last();
        let f = files.last();
        lemma_language_imports_source(lang, rest, sources);
        let head = language_imports(lang, rest, sources);
        let tail = file_imports(lang, f, sources);
        if lang.accepts_path(f) {
            match text_at(sources, f) {
                Some(text) => {
                    match syntax_matches(lang, query_text(lang), text) {
                        Some(matches) => {
                            lemma_imports_of_source(lang, f, text, matches@);
                        },
                        None => {},
                    }
                },
                None => {},
            }
        }
        assert forall|i: int| 0 <= i < (head + tail).len() implies files.contains(
            (#[trigger] (head + tail)[i]).source_file,
        ) by {
            if i < head.len() {
                let k = choose|k: int| 0 <= k < rest.len() && rest[k] == head[i].source_file;
                assert(0 <= k < rest.len() && rest[k] == head[i].source_file);
            }
        }
    }
}

/// The imports that `lang` finds in those of the files that it accepts and
/// whose text is known, file by file.
pub fn scan_language(lang: Lang, files_to_scan: &Vec<String>, disk: &Disk) -> (r: Vec<RawImport>)
    ensures
        r.deep_view() == language_imports(lang, files_to_scan.deep_view(), disk@.sources),
{
    let ghost files = files_to_scan.deep_view();
    let mut out: Vec<RawImport> = Vec::new();
    let mut i: usize = 0;
    while i < files_to_scan.len()
        invariant
            i <= files_to_scan.len(),
            files == files_to_scan.deep_view(),
            out.deep_view() == language_imports(lang, files.take(i as int), disk@.sources),
        decreases files_to_scan.len() - i,
    {
        let file = files_to_scan[i].as_str();
        proof {
            assert(files.take(i + 1).drop_last() =~= files.take(i as int));
        }
        if lang.accepts(file) {
            match disk.read(file) {
                Some(text) => {
                    let mut imports = extract(lang, file, text);
                    out.append(&mut imports);
                },
                None => {},
            }
        }
        i += 1;
    }
    proof {
        assert(files.take(i as int) =~= files);
    }
    out
}

/// The imports found in `files_to_scan`: those of JavaScript and
/// TypeScript first, then Python, Rust, and C and C++.
pub fn scan_imports(files_to_scan: &Vec<String>, disk: &Disk) -> (r: Vec<RawImport>)
    ensures
        r.deep_view() == all_imports(files_to_scan.deep_view(), disk@.sources),
{
    let mut out = scan_language(Lang::JavaScript, files_to_scan, disk);
    let mut python = scan_language(Lang::Python, files_to_scan, disk);
    out.append(&mut python);
    let mut rust = scan_language(Lang::Rust, files_to_scan, disk);
    out.append(&mut rust);
    let mut cpp = scan_language(Lang::Cpp, files_to_scan, disk);
    out.append(&mut cpp);
    out
}

/// The candidate paths of `import`; none for an import whose source file
/// lies in no directory.
pub open spec fn import_candidates(import: RawImportView) -> Seq<Seq<char>> {
    match parent_dir(import.source_file) {
        Some(parent) => candidates(
            parent,
            import.language.fragment(import.literal),
            import.language.suffixes(),
        ),
        None => Seq::empty(),
    }
}

/// The candidate paths of all of `imports`, import by import.
pub open spec fn probes(imports: Seq<RawImportView>) -> Seq<Seq<char>>
    decreases imports.len(),
{
    if imports.len() == 0 {
        Seq::empty()
    } else {
        probes(imports.drop_last()) + import_candidates(imports.last())
    }
}

/// The paths that decide the graph of `imports`: every candidate of every
/// import. What a disk says of any other path changes nothing.
pub fn probe_paths(imports: &Vec<RawImport>) -> (r: Vec<String>)
    ensures
        r.deep_view() == probes(imports.deep_view()),
{
    let ghost all = imports.deep_view();
    let mut out: Vec<String> = Vec::new();
    let mut i: usize = 0;
    while i < imports.len()
        invariant
            i <= imports.len(),
            all == imports.deep_view(),
            out.deep_view() == probes(all.take(i as int)),
        decreases imports.len() - i,
    {
        let import = &imports[i];
        proof {
            assert(all.take(i + 1).drop_last() =~= all.take(i as int));
        }
        match parent(import.source_file.as_str()) {
            Some(dir) => {
                let fragment = import.language.rewrite(import.literal.as_str());
                let suffixes = import.language.suffix_list();
                let mut paths = candidate_paths(dir.as_str(), fragment.as_str(), &suffixes);
                out.append(&mut paths);
            },
            None => {},
        }
        i += 1;
    }
    proof {
        assert(all.take(i as int) =~= all);
    }
    out
}

/// Follows each of `imports`, in order, from an empty graph.
pub fn assemble(root_path: &str, imports: &Vec<RawImport>, disk: &Disk) -> (r: DependencyGraph)
    ensures
        r@ == assembled(Seq::empty(), imports.deep_view(), root_path@, disk@.regular_files),
{
    let ghost all = imports.deep_view();
    let mut dependency_graph = DependencyGraph::new();
    let mut i: usize = 0;
    while i < imports.len()
        invariant
            i <= imports.len(),
            all == imports.deep_view(),
            dependency_graph@ == assembled(
                Seq::empty(),
                all.take(i as int),
                root_path@,
                disk@.regular_files,
            ),
        decreases imports.len() - i,
    {
        proof {
            assert(all.take(i + 1).drop_last() =~= all.take(i as int));
        }
        process_import(&imports[i], root_path, disk, &mut dependency_graph);
        i += 1;
    }
    proof {
        assert(all.take(i as int) =~= all);
    }
    dependency_graph
}

/// Builds the dependency graph of `tree`. The files of the tree are read
/// language by language (JavaScript and TypeScript, Python, Rust, C and
/// C++); each import is resolved against the regular files of `disk`, and
/// kept where it leads to a file within `root_path` other than the
/// importing one.
pub fn analyze_dependencies(root_path: &str, tree: &Vec<TreeEntry>, disk: &Disk) -> (r:
    DependencyGraph)
    ensures
        r@ == analysis(root_path@, tree@, disk@),
        has_distinct_keys(r@),
        has_no_self_edge(r@),
        has_no_empty_entry(r@),
        every_dep(
            r@,
            |d: Seq<char>| disk@.regular_files.contains(d) && is_within(d, root_path@),
        ),
        every_key(r@, |f: Seq<char>| tree_files(tree@).contains(f)),
{
    let mut files_to_scan: Vec<String> = Vec::new();
    collect_files(tree, &mut files_to_scan);
    let ghost files = tree_files(tree@);
    let imports = scan_imports(&files_to_scan, disk);
    let dependency_graph = assemble(root_path, &imports, disk);
    proof {
        let all = all_imports(files, disk@.sources);
        let key = |f: Seq<char>| files.contains(f);
        lemma_language_imports_source(Lang::JavaScript, files, disk@.sources);
        lemma_language_imports_source(Lang::Python, files, disk@.sources);
        lemma_language_imports_source(Lang::Rust, files, disk@.sources);
        lemma_language_imports_source(Lang::Cpp, files, disk@.sources);
        assert forall|i: int| 0 <= i < all.len() implies key((#[trigger] all[i]).source_file) by {}
        lemma_assembled(Seq::empty(), all, root_path@, disk@.regular_files, key);
    }
    dependency_graph
}

/// Two lists of regular files that agree on those of `paths` that lie
/// within `root` give the same first hit.
proof fn lemma_first_hit_agrees(
    paths: Seq<Seq<char>>,
    root: Seq<char>,
    regular_a: Seq<Seq<char>>,
    regular_b: Seq<Seq<char>>,
)
    requires
        forall|i: int|
            0 <= i < paths.len() && is_within(#[trigger] paths[i], root) ==> (regular_a.contains(
                paths[i],
            ) <==> regular_b.contains(paths[i])),
    ensures
        first_hit(paths, root, regular_a) == first_hit(paths, root, regular_b),
    decreases paths.len(),
{
    if paths.len() > 0 {
        let rest = paths.skip(1);
        assert forall|i: int| 0 <= i < rest.len() && is_within(#[trigger] rest[i], root) implies (
        regular_a.contains(rest[i]) <==> regular_b.contains(rest[i])) by {}
        lemma_first_hit_agrees(rest, root, regular_a, regular_b);
    }
}

/// Following imports gives the same graph for two lists of regular files
/// that agree on every candidate of the imports that lies within `root`.
proof fn lemma_assembled_agrees(
    g: Seq<EntryView>,
    imports: Seq<RawImportView>,
    root: Seq<char>,
    regular_a: Seq<Seq<char>>,
    regular_b: Seq<Seq<char>>,
)
    requires
        forall|i: int|
            0 <= i < probes(imports).len() && is_within(#[trigger] probes(imports)[i], root) ==> (
            regular_a.contains(probes(imports)[i]) <==> regular_b.contains(probes(imports)[i])),
    ensures
        assembled(g, imports, root, regular_a) == assembled(g, imports, root, regular_b),
    decreases imports.len(),
{
    if imports.len() > 0 {
        let last = imports.last();
        let rest = imports.drop_last();
        let head = probes(rest);
        let tail = import_candidates(last);
        assert forall|i: int| 0 <= i < head.len() && is_within(#[trigger] head[i], root) implies (
        regular_a.contains(head[i]) <==> regular_b.contains(head[i])) by {
            assert(probes(imports)[i] == head[i]);
        }
        lemma_assembled_agrees(g, rest, root, regular_a, regular_b);
        assert forall|i: int| 0 <= i < tail.len() && is_within(#[trigger] tail[i], root) implies (
        regular_a.contains(tail[i]) <==> regular_b.contains(tail[i])) by {
            assert(probes(imports)[head.len() + i] == tail[i]);
        }
        match parent_dir(last.source_file) {
            Some(parent) => {
                lemma_first_hit_agrees(tail, root, regular_a, regular_b);
            },
            None => {},
        }
    }
}

/// The graph is decided by the files of the tree, the texts of the source
/// files, and which candidates of their imports are regular files within
/// the root: two disks that agree on these give the same graph, whatever
/// else they hold.
pub proof fn lemma_analysis_is_determined(
    root: Seq<char>,
    tree_a: Seq<TreeEntry>,
    tree_b: Seq<TreeEntry>,
    disk_a: DiskView,
    disk_b: DiskView,
)
    requires
        tree_files(tree_a) == tree_files(tree_b),
        disk_a.sources == disk_b.sources,
        forall|p: Seq<char>|
            is_within(p, root) && probes(
                all_imports(tree_files(tree_a), disk_a.sources),
            ).contains(p) ==> (disk_a.regular_files.contains(p)
                <==> disk_b.regular_files.contains(p)),
    ensures
        analysis(root, tree_a, disk_a) == analysis(root, tree_b, disk_b),
{
    let imports = all_imports(tree_files(tree_a), disk_a.sources);
    assert forall|i: int|
        0 <= i < probes(imports).len() && is_within(
            #[trigger] probes(imports)[i],
            root,
        ) implies (disk_a.regular_files.contains(probes(imports)[i])
        <==> disk_b.regular_files.contains(probes(imports)[i])) by {}
    lemma_assembled_agrees(
        Seq::empty(),
        imports,
        root,
        disk_a.regular_files,
        disk_b.regular_files,
    );
}

/// An import none of whose candidates is a regular file within the root
/// gives no edge.
pub proof fn lemma_no_hit_no_edge(
    import: RawImportView,
    root: Seq<char>,
    regular_files: Seq<Seq<char>>,
)
    requires
        parent_dir(import.source_file) matches Some(parent) ==> forall|i: int|
            0 <= i < import.language.suffixes().len() ==> !is_hit(
                #[trigger] candidates(
                    parent,
                    import.language.fragment(import.literal),
                    import.language.suffixes(),
                )[i],
                root,
                regular_files,
            ),
    ensures
        import_edge(import, root, regular_files) is None,
{
    match parent_dir(import.source_file) {
        Some(parent) => {
            let paths = candidates(
                parent,
                import.language.fragment(import.literal),
                import.language.suffixes(),
            );
            lemma_first_hit(paths, root, regular_files);
            match first_hit(paths, root, regular_files) {
                Some(p) => {
                    let k = choose|k: int| 0 <= k < paths.len() && paths[k] == p;
                    assert(0 <= k < paths.len() && paths[k] == p);
                },
                None => {},
            }
        },
        None => {},
    }
}

/// The dependency graph of `tree` as it is reported: the graph that
/// `analyze_dependencies` builds, expanded through Python package
/// initialisers. Every dependency in it is a regular file of `disk` within
/// `root_path`, every key is a file of the tree, and the dependencies of
/// each file stand in natural order, each once.
pub fn dependency_report(root_path: &str, tree: &Vec<TreeEntry>, disk: &Disk) -> (r:
    DependencyGraph)
    ensures
        r@ == expansion(analysis(root_path@, tree@, disk@)),
        has_distinct_keys(r@),
        every_dep(
            r@,
            |d: Seq<char>| disk@.regular_files.contains(d) && is_within(d, root_path@),
        ),
        every_key(r@, |f: Seq<char>| tree_files(tree@).contains(f)),
        forall|i: int|
            0 <= i < r@.len() ==> is_naturally_ordered((#[trigger] r@[i]).deps)
                && r@[i].deps.no_duplicates(),
{
    let direct = analyze_dependencies(root_path, tree, disk);
    proof {
        lemma_expansion_keeps(
            direct@,
            |d: Seq<char>| disk@.regular_files.contains(d) && is_within(d, root_path@),
        );
        lemma_expansion_keeps(direct@, |f: Seq<char>| tree_files(tree@).contains(f));
    }
    expand_init_dependencies(&direct)
}

} // verus!
