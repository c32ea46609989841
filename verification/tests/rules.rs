use import_graph::expand::{collect_transitive_init_deps, expand_init_dependencies, PathSet};
use import_graph::extract::{
    extract, imports_from_matches, literals_of_match, only_dots, strip_quotes, texts_named,
    ImportKind, RawImport,
};
use import_graph::graph::{DependencyGraph, GraphEntry};
use import_graph::lang::Lang;
use import_graph::natural::{natural_less, sort_natural};
use import_graph::path::{
    file_extension, file_name, is_init_file, join, lies_within, parent, same_text,
};
use import_graph::analyze::{assemble, dependency_report, probe_paths, scan_imports};
use import_graph::resolve::{
    candidate_paths, pick_first, process_python_module, resolve, resolve_import,
    resolve_relative_path, Disk, SourceFile,
};
use import_graph::syntax::{find_matches, import_query, Capture, PatternMatch};
use import_graph::text::{chars_of, slice_bytes, text_of};

fn strings(items: &[&str]) -> Vec<String> {
    items.iter().map(|s| s.to_string()).collect()
}

fn graph_of(entries: Vec<(&str, Vec<&str>)>) -> DependencyGraph {
    DependencyGraph {
        entries: entries
            .into_iter()
            .map(|(file, deps)| GraphEntry { file: file.to_string(), deps: strings(&deps) })
            .collect(),
    }
}

fn known_files(paths: &[&str]) -> Disk {
    Disk { sources: Vec::new(), regular_files: strings(paths) }
}

#[test]
fn digits_compare_as_numbers() {
    assert!(natural_less("file2", "file10"));
    assert!(!natural_less("file10", "file2"));
    assert!(!natural_less("file2", "file2"));
    assert!(natural_less("a", "b"));
}

#[test]
fn white_space_does_not_tell_texts_apart() {
    assert!(!natural_less("a b", "ab"));
    assert!(!natural_less("ab", "a b"));
}

#[test]
fn natural_sort_of_names() {
    let sorted = sort_natural(&strings(&["rfc2086.txt", "rfc822.txt", "rfc1.txt"]));
    assert_eq!(sorted, strings(&["rfc1.txt", "rfc822.txt", "rfc2086.txt"]));
}

#[test]
fn natural_sort_keeps_every_copy() {
    let sorted = sort_natural(&strings(&["b", "a", "b", "a10", "a9"]));
    assert_eq!(sorted, strings(&["a", "a9", "a10", "b", "b"]));
}

#[test]
fn natural_sort_is_stable() {
    let sorted = sort_natural(&strings(&["x y", "xy", "a", "x  y"]));
    assert_eq!(sorted, strings(&["a", "x y", "xy", "x  y"]));
}

#[test]
fn natural_sort_twice_is_natural_sort_once() {
    let once = sort_natural(&strings(&["z1", "z10", "z2", "a b", "ab", "m"]));
    let twice = sort_natural(&once);
    assert_eq!(once, twice);
}

#[test]
fn natural_sort_of_nothing() {
    assert_eq!(sort_natural(&Vec::new()), Vec::<String>::new());
}

#[test]
fn texts_round_trip_through_characters() {
    assert_eq!(text_of(&chars_of("pkg/mödule.py")), "pkg/mödule.py");
    assert_eq!(chars_of("a/b"), vec!['a', '/', 'b']);
}

#[test]
fn byte_ranges_cut_between_characters() {
    assert_eq!(slice_bytes("import \"./b\"", 8, 11), Some("./b"));
    assert_eq!(slice_bytes("abc", 1, 1), Some(""));
    assert_eq!(slice_bytes("abc", 2, 1), None);
    assert_eq!(slice_bytes("abc", 0, 4), None);
    assert_eq!(slice_bytes("é", 1, 2), None);
    assert_eq!(slice_bytes("aé", 0, 2), None);
    assert_eq!(slice_bytes("aéb", 1, 3), Some("é"));
}

#[test]
fn base_names() {
    assert_eq!(file_name("/proj/pkg/__init__.py"), "__init__.py");
    assert_eq!(file_name("a.js"), "a.js");
    assert_eq!(file_name("/proj/dir/"), "");
}

#[test]
fn parents() {
    assert_eq!(parent("/proj/a.js"), Some("/proj".to_string()));
    assert_eq!(parent("/a.js"), Some("/".to_string()));
    assert_eq!(parent("a.js"), Some(String::new()));
    assert_eq!(parent("/"), None);
    assert_eq!(parent(""), None);
}

#[test]
fn extensions() {
    assert_eq!(file_extension("/proj/a.test.tsx"), Some("tsx".to_string()));
    assert_eq!(file_extension("/proj/Makefile"), None);
    assert_eq!(file_extension("/proj/.gitignore"), None);
    assert_eq!(file_extension("/proj.d/file"), None);
    assert_eq!(file_extension("/proj/a."), Some(String::new()));
}

#[test]
fn joins() {
    assert_eq!(join("/proj", "./b.js"), "/proj/./b.js");
    assert_eq!(join("/proj/", "b.js"), "/proj/b.js");
    assert_eq!(join("/proj", "/abs/b.js"), "/abs/b.js");
    assert_eq!(join("", "b.js"), "b.js");
    assert_eq!(join("/proj", ""), "/proj/");
}

#[test]
fn within_the_root() {
    assert!(lies_within("/proj/a.js", "/proj"));
    assert!(lies_within("/proj", "/proj"));
    assert!(lies_within("/proj/a.js", "/"));
    assert!(lies_within("/proj/a.js", ""));
    assert!(!lies_within("/project/a.js", "/proj"));
    assert!(!lies_within("/pro", "/proj"));
    assert!(!lies_within("/other/a.js", "/proj"));
}

#[test]
fn package_initialisers() {
    assert!(is_init_file("/proj/pkg/__init__.py"));
    assert!(is_init_file("__init__.py"));
    assert!(!is_init_file("/proj/pkg/init.py"));
    assert!(!is_init_file("/proj/__init__.py/m.py"));
}

#[test]
fn same_texts() {
    assert!(same_text("abc", "abc"));
    assert!(!same_text("abc", "abd"));
    assert!(!same_text("abc", "ab"));
    assert!(same_text("", ""));
}

#[test]
fn languages_in_order() {
    assert_eq!(Lang::all(), vec![Lang::JavaScript, Lang::Python, Lang::Rust, Lang::Cpp]);
}

#[test]
fn accepted_extensions() {
    for path in ["/p/a.js", "/p/a.jsx", "/p/a.ts", "/p/a.tsx"] {
        assert!(Lang::JavaScript.accepts(path));
        assert!(!Lang::Python.accepts(path));
    }
    assert!(Lang::Python.accepts("/p/a.py"));
    assert!(Lang::Rust.accepts("/p/a.rs"));
    for path in ["/p/a.c", "/p/a.cpp", "/p/a.h", "/p/a.hpp", "/p/a.hxx"] {
        assert!(Lang::Cpp.accepts(path));
        assert!(!Lang::Rust.accepts(path));
    }
    assert!(!Lang::Cpp.accepts("/p/a.cc"));
    assert!(!Lang::Python.accepts("/p/py"));
    assert!(!Lang::JavaScript.accepts("/p/a.JS"));
}

#[test]
fn suffix_lists() {
    assert_eq!(
        Lang::JavaScript.suffix_list(),
        vec![
            "", ".js", ".jsx", ".ts", ".tsx", "/index.js", "/index.jsx", "/index.ts",
            "/index.tsx"
        ]
    );
    assert_eq!(Lang::Python.suffix_list(), vec![".py", "/__init__.py"]);
    assert_eq!(Lang::Rust.suffix_list(), vec![".rs", "/mod.rs"]);
    assert_eq!(Lang::Cpp.suffix_list(), vec!["", ".h", ".hpp", ".hxx"]);
}

#[test]
fn python_rewrites() {
    assert_eq!(Lang::Python.rewrite("..pkg.mod"), "../pkg/mod");
    assert_eq!(Lang::Python.rewrite(".pkg"), "pkg");
    assert_eq!(Lang::Python.rewrite("a.b.c"), "a/b/c");
    assert_eq!(Lang::Python.rewrite("..."), "../../");
    assert_eq!(Lang::Python.rewrite("."), "");
    assert_eq!(Lang::Python.rewrite("....x"), "../../../x");
}

#[test]
fn rust_rewrites() {
    assert_eq!(Lang::Rust.rewrite("self::a::b"), "a/b");
    assert_eq!(Lang::Rust.rewrite("a::b"), "a/b");
    assert_eq!(Lang::Rust.rewrite("super::b"), "../b");
    assert_eq!(Lang::Rust.rewrite("super::super::b"), "../super/b");
    assert_eq!(Lang::Rust.rewrite("name"), "name");
    assert_eq!(Lang::Rust.rewrite("a:::b"), "a/:b");
    assert_eq!(Lang::Rust.rewrite("selfish::a"), "selfish/a");
}

#[test]
fn other_languages_keep_the_literal() {
    assert_eq!(Lang::JavaScript.rewrite("./a.b/c"), "./a.b/c");
    assert_eq!(Lang::Cpp.rewrite("lib/h.h"), "lib/h.h");
}

#[test]
fn quotes_are_stripped() {
    assert_eq!(strip_quotes("\"./b\""), "./b");
    assert_eq!(strip_quotes("'./b'"), "./b");
    assert_eq!(strip_quotes("\"'./b'\""), "./b");
    assert_eq!(strip_quotes("./b"), "./b");
    assert_eq!(strip_quotes("\"\""), "");
    assert_eq!(strip_quotes("a\"b"), "a\"b");
}

#[test]
fn dots_only() {
    assert!(only_dots("."));
    assert!(only_dots("..."));
    assert!(!only_dots(""));
    assert!(!only_dots(".a"));
    assert!(!only_dots("a."));
}

#[test]
fn candidates_are_cleaned() {
    let paths = candidate_paths("/proj/src/a", "../b", &Lang::Rust.suffix_list());
    assert_eq!(paths, strings(&["/proj/src/b.rs", "/proj/src/b/mod.rs"]));
    let js = candidate_paths("/proj", "./sub", &Lang::JavaScript.suffix_list());
    assert_eq!(js[0], "/proj/sub");
    assert_eq!(js[5], "/proj/sub/index.js");
    assert_eq!(js.len(), 9);
}

#[test]
fn first_candidate_that_is_a_file_within_the_root_wins() {
    let disk = known_files(&["/proj/b/index.js", "/proj/b.ts", "/else/b.js"]);
    let paths = strings(&["/else/b.js", "/proj/b.js", "/proj/b.ts", "/proj/b/index.js"]);
    assert_eq!(pick_first(&paths, "/proj", &disk), Some("/proj/b.ts".to_string()));
    assert_eq!(pick_first(&paths, "/nowhere", &disk), None);
    assert_eq!(pick_first(&Vec::new(), "/proj", &disk), None);
}

#[test]
fn resolving_a_fragment() {
    let disk = known_files(&["/proj/pkg/__init__.py", "/proj/m.py"]);
    let suffixes = Lang::Python.suffix_list();
    assert_eq!(
        resolve_relative_path("/proj", "pkg", "/proj", &suffixes, &disk),
        Some("/proj/pkg/__init__.py".to_string())
    );
    assert_eq!(
        resolve_relative_path("/proj/sub", "../m", "/proj", &suffixes, &disk),
        Some("/proj/m.py".to_string())
    );
    assert_eq!(resolve_relative_path("/proj", "missing", "/proj", &suffixes, &disk), None);
    assert_eq!(resolve_relative_path("/proj/sub", "../m", "/proj/sub", &suffixes, &disk), None);
}

#[test]
fn python_module_is_recorded() {
    let disk = known_files(&["/proj/pkg/m.py"]);
    let mut graph = DependencyGraph::new();
    process_python_module(".m", "/proj/pkg/a.py", "/proj", &disk, &mut graph);
    process_python_module("nothing", "/proj/pkg/a.py", "/proj", &disk, &mut graph);
    process_python_module("m", "/proj/pkg/m.py", "/proj", &disk, &mut graph);
    assert_eq!(graph.len(), 1);
    assert_eq!(graph.get("/proj/pkg/a.py"), Some(&strings(&["/proj/pkg/m.py"])));
}

#[test]
fn edges_are_appended_in_order() {
    let mut graph = DependencyGraph::new();
    graph.add_edge("/p/a", "/p/x".to_string());
    graph.add_edge("/p/b", "/p/y".to_string());
    graph.add_edge("/p/a", "/p/z".to_string());
    assert_eq!(graph.len(), 2);
    assert_eq!(graph.position("/p/a"), Some(0));
    assert_eq!(graph.position("/p/b"), Some(1));
    assert_eq!(graph.position("/p/c"), None);
    assert_eq!(graph.get("/p/a"), Some(&strings(&["/p/x", "/p/z"])));
    assert_eq!(graph.get("/p/c"), None);
}

#[test]
fn queries_find_imports() {
    let found = find_matches(Lang::JavaScript, import_query(Lang::JavaScript), "import a from './b';")
        .expect("the grammar is set up");
    assert_eq!(found.len(), 1);
    assert_eq!(found[0].pattern, 0);
    assert_eq!(found[0].captures.len(), 1);
    assert_eq!(found[0].captures[0].name, "path");
    assert_eq!(found[0].captures[0].start, 15);
    assert_eq!(found[0].captures[0].end, 18);
}

#[test]
fn a_query_that_does_not_compile_finds_nothing() {
    assert!(find_matches(Lang::Python, "(no_such_node) @x", "import a").is_none());
    assert!(find_matches(Lang::Rust, "(((", "mod a;").is_none());
}

#[test]
fn require_of_another_function_is_not_an_import() {
    let imports = extract(Lang::JavaScript, "/p/a.js", "load('./b'); require('./c');");
    assert_eq!(imports.len(), 1);
    assert_eq!(imports[0].literal, "./c");
    assert_eq!(imports[0].kind, ImportKind::StringPath);
    assert_eq!(imports[0].source_file, "/p/a.js");
    assert_eq!(imports[0].language, Lang::JavaScript);
}

#[test]
fn python_imports_by_pattern() {
    let text = "import a.b\nfrom c.d import e\nfrom .f import g\nfrom .. import h, i as j\n";
    let imports = extract(Lang::Python, "/p/x.py", text);
    let literals: Vec<&str> = imports.iter().map(|i| i.literal.as_str()).collect();
    assert_eq!(literals, vec!["a.b", "c.d", ".f", "..h", "..i"]);
    assert!(imports.iter().all(|i| i.kind == ImportKind::Module));
}

#[test]
fn rust_imports_by_pattern() {
    let imports = extract(Lang::Rust, "/p/lib.rs", "mod util;\nuse crate::a::b;\nuse c;\nuse d::{e, f};\n");
    let found: Vec<(&str, ImportKind)> =
        imports.iter().map(|i| (i.literal.as_str(), i.kind)).collect();
    assert_eq!(
        found,
        vec![
            ("util", ImportKind::ModItem),
            ("crate::a::b", ImportKind::Module),
            ("c", ImportKind::Module),
        ]
    );
}

#[test]
fn cpp_imports() {
    let imports = extract(Lang::Cpp, "/p/a.cpp", "#include \"x/y.h\"\n#include <z.h>\n");
    assert_eq!(imports.len(), 1);
    assert_eq!(imports[0].literal, "x/y.h");
    assert_eq!(imports[0].kind, ImportKind::Header);
}

#[test]
fn text_without_imports_has_none() {
    assert_eq!(extract(Lang::Python, "/p/a.py", "x = 1\n").len(), 0);
    assert_eq!(extract(Lang::JavaScript, "/p/a.js", "").len(), 0);
}

#[test]
fn captures_are_read_by_name() {
    let text = "0123456789";
    let captures = vec![
        Capture::new("path", 0..2),
        Capture::new("_fn", 2..4),
        Capture::new("path", 4..4),
        Capture::new("path", 8..20),
        Capture::new("path", 9..10),
    ];
    assert_eq!(texts_named(text, &captures, "path"), strings(&["01", "", "9"]));
    assert_eq!(texts_named(text, &captures, "_fn"), strings(&["23"]));
    assert_eq!(texts_named(text, &captures, "other"), Vec::<String>::new());
}

#[test]
fn matches_are_read_by_language() {
    let text = "..ab\"c\"";
    let dots = || PatternMatch::new(2, vec![
        Capture::new("dots", 0..2),
        Capture::new("name", 2..3),
        Capture::new("name", 3..4),
    ]);
    assert_eq!(literals_of_match(Lang::Python, text, &dots()), strings(&["..a", "..b"]));
    let not_dots = PatternMatch::new(2, vec![Capture::new("dots", 1..3), Capture::new("name", 3..4)]);
    assert_eq!(literals_of_match(Lang::Python, text, &not_dots), Vec::<String>::new());
    let no_dots = PatternMatch::new(2, vec![Capture::new("name", 3..4)]);
    assert_eq!(literals_of_match(Lang::Python, text, &no_dots), Vec::<String>::new());
    let module = || PatternMatch::new(1, vec![Capture::new("module", 2..4)]);
    assert_eq!(literals_of_match(Lang::Python, text, &module()), strings(&["ab"]));
    let unknown = PatternMatch::new(3, vec![Capture::new("module", 2..4)]);
    assert_eq!(literals_of_match(Lang::Python, text, &unknown), Vec::<String>::new());
    let quoted = || PatternMatch::new(0, vec![Capture::new("path", 4..7)]);
    assert_eq!(literals_of_match(Lang::JavaScript, text, &quoted()), strings(&["c"]));
    let header = PatternMatch::new(0, vec![Capture::new("header", 4..7)]);
    assert_eq!(literals_of_match(Lang::Cpp, text, &header), strings(&["c"]));
    assert_eq!(literals_of_match(Lang::Rust, text, &module()), strings(&["ab"]));
    let imports = imports_from_matches(Lang::Rust, "/p/a.rs", text, &vec![module(), PatternMatch::new(0, vec![Capture::new("module", 2..3)])]);
    assert_eq!(imports.len(), 2);
    assert_eq!(imports[0].kind, ImportKind::Module);
    assert_eq!(imports[1].kind, ImportKind::ModItem);
    assert_eq!(imports[1].literal, "a");
}

#[test]
fn path_sets_keep_first_arrivals() {
    let mut set = PathSet::new();
    assert!(set.insert("/p/b".to_string()));
    assert!(set.insert("/p/a".to_string()));
    assert!(!set.insert("/p/b".to_string()));
    set.extend_from(&strings(&["/p/a", "/p/c", "/p/c"]));
    assert_eq!(set.paths(), &strings(&["/p/b", "/p/a", "/p/c"]));
    assert_eq!(set.len(), 3);
    assert!(set.contains("/p/c"));
    assert!(!set.contains("/p/d"));
}

#[test]
fn expansion_goes_through_initialisers_only() {
    let graph = graph_of(vec![
        ("/p/user.py", vec!["/p/pkg/__init__.py", "/p/plain.py"]),
        ("/p/pkg/__init__.py", vec!["/p/pkg/m.py", "/p/sub/__init__.py"]),
        ("/p/sub/__init__.py", vec!["/p/sub/deep.py"]),
        ("/p/plain.py", vec!["/p/hidden.py"]),
        ("/p/pkg/m.py", vec!["/p/far.py"]),
    ]);
    let expanded = expand_init_dependencies(&graph);
    assert_eq!(
        expanded.get("/p/user.py"),
        Some(&strings(&[
            "/p/pkg/__init__.py",
            "/p/pkg/m.py",
            "/p/plain.py",
            "/p/sub/__init__.py",
            "/p/sub/deep.py"
        ]))
    );
    assert_eq!(expanded.get("/p/plain.py"), Some(&strings(&["/p/hidden.py"])));
    assert_eq!(
        expanded.get("/p/pkg/__init__.py"),
        Some(&strings(&["/p/pkg/m.py", "/p/sub/__init__.py", "/p/sub/deep.py"]))
    );
    let keys: Vec<&str> = expanded.entries.iter().map(|e| e.file.as_str()).collect();
    assert_eq!(
        keys,
        vec!["/p/user.py", "/p/pkg/__init__.py", "/p/sub/__init__.py", "/p/plain.py", "/p/pkg/m.py"]
    );
}

#[test]
fn initialisers_that_import_each_other_end_the_search() {
    let graph = graph_of(vec![
        ("/p/a/__init__.py", vec!["/p/b/__init__.py"]),
        ("/p/b/__init__.py", vec!["/p/a/__init__.py", "/p/b/x.py"]),
        ("/p/main.py", vec!["/p/a/__init__.py"]),
    ]);
    let expanded = expand_init_dependencies(&graph);
    assert_eq!(
        expanded.get("/p/main.py"),
        Some(&strings(&["/p/a/__init__.py", "/p/b/__init__.py", "/p/b/x.py"]))
    );
    assert_eq!(
        expanded.get("/p/a/__init__.py"),
        Some(&strings(&["/p/a/__init__.py", "/p/b/__init__.py", "/p/b/x.py"]))
    );
}

#[test]
fn expansion_sorts_naturally_and_drops_repeats() {
    let graph = graph_of(vec![("/p/a.py", vec!["/p/m10.py", "/p/m2.py", "/p/m10.py", "/p/m1.py"])]);
    let expanded = expand_init_dependencies(&graph);
    assert_eq!(expanded.get("/p/a.py"), Some(&strings(&["/p/m1.py", "/p/m2.py", "/p/m10.py"])));
}

#[test]
fn expansion_twice_is_expansion_once() {
    let graph = graph_of(vec![
        ("/p/user.py", vec!["/p/pkg/__init__.py", "/p/z 1.py", "/p/z1.py"]),
        ("/p/pkg/__init__.py", vec!["/p/pkg/m.py", "/p/sub/__init__.py", "/p/user.py"]),
        ("/p/sub/__init__.py", vec!["/p/sub/deep.py", "/p/pkg/__init__.py"]),
        ("/p/empty.py", vec![]),
    ]);
    let once = expand_init_dependencies(&graph);
    let twice = expand_init_dependencies(&once);
    assert_eq!(once.len(), twice.len());
    for (a, b) in once.entries.iter().zip(twice.entries.iter()) {
        assert_eq!(a.file, b.file);
        assert_eq!(a.deps, b.deps);
    }
    assert_eq!(once.get("/p/empty.py"), Some(&Vec::new()));
}

#[test]
fn expansion_of_the_empty_graph() {
    assert_eq!(expand_init_dependencies(&DependencyGraph::new()).len(), 0);
}

#[test]
fn search_extends_what_was_found() {
    let graph = graph_of(vec![
        ("/p/pkg/__init__.py", vec!["/p/pkg/m.py", "/p/start.py"]),
        ("/p/start.py", vec!["/p/never.py"]),
    ]);
    let mut found = PathSet::new();
    found.extend_from(&strings(&["/p/start.py", "/p/pkg/__init__.py"]));
    collect_transitive_init_deps(&graph, &mut found);
    assert_eq!(found.paths(), &strings(&["/p/start.py", "/p/pkg/__init__.py", "/p/pkg/m.py"]));
}

#[test]
fn scanning_probing_and_assembling_by_steps() {
    let files = strings(&["/p/a.py", "/p/b.js", "/p/c.py"]);
    let mut disk = Disk {
        sources: vec![
            SourceFile { path: "/p/a.py".to_string(), text: "import c\n".to_string() },
            SourceFile { path: "/p/b.js".to_string(), text: "import a from './x';".to_string() },
        ],
        regular_files: Vec::new(),
    };
    let imports = scan_imports(&files, &disk);
    let literals: Vec<&str> = imports.iter().map(|i| i.literal.as_str()).collect();
    assert_eq!(literals, vec!["./x", "c"]);
    let wanted = probe_paths(&imports);
    assert_eq!(wanted.len(), 11);
    assert_eq!(wanted[0], "/p/x");
    assert_eq!(wanted[9], "/p/c.py");
    assert_eq!(wanted[10], "/p/c/__init__.py");
    assert_eq!(assemble("/p", &imports, &disk).len(), 0);
    disk.regular_files = strings(&["/p/c.py", "/p/unrelated"]);
    let graph = assemble("/p", &imports, &disk);
    assert_eq!(graph.len(), 1);
    assert_eq!(graph.get("/p/a.py"), Some(&strings(&["/p/c.py"])));
}

#[test]
fn report_is_the_expanded_analysis() {
    let tree = vec![
        import_graph::tree::TreeEntry {
            name: "__init__.py".to_string(),
            node: import_graph::tree::TreeNode::file("/p/__init__.py".to_string()),
        },
        import_graph::tree::TreeEntry {
            name: "m10.py".to_string(),
            node: import_graph::tree::TreeNode::file("/p/m10.py".to_string()),
        },
        import_graph::tree::TreeEntry {
            name: "m9.py".to_string(),
            node: import_graph::tree::TreeNode::file("/p/m9.py".to_string()),
        },
        import_graph::tree::TreeEntry {
            name: "use.py".to_string(),
            node: import_graph::tree::TreeNode::file("/p/use.py".to_string()),
        },
    ];
    let disk = Disk {
        sources: vec![
            SourceFile {
                path: "/p/__init__.py".to_string(),
                text: "from . import m10\nfrom . import m9\n".to_string(),
            },
            SourceFile { path: "/p/use.py".to_string(), text: "from . import __init__\n".to_string() },
        ],
        regular_files: strings(&["/p/__init__.py", "/p/m10.py", "/p/m9.py", "/p/use.py"]),
    };
    let report = dependency_report("/p", &tree, &disk);
    assert_eq!(report.get("/p/__init__.py"), Some(&strings(&["/p/m9.py", "/p/m10.py"])));
    assert_eq!(
        report.get("/p/use.py"),
        Some(&strings(&["/p/__init__.py", "/p/m9.py", "/p/m10.py"]))
    );
}

#[test]
fn literals_resolve_by_language() {
    let disk = known_files(&["/proj/src/b.rs", "/proj/src/a/mod.rs", "/proj/pkg/m.py"]);
    assert_eq!(
        resolve("/proj/src/a", "super::b", Lang::Rust, "/proj", &disk),
        Some("/proj/src/b.rs".to_string())
    );
    assert_eq!(
        resolve("/proj/src", "self::a", Lang::Rust, "/proj", &disk),
        Some("/proj/src/a/mod.rs".to_string())
    );
    assert_eq!(
        resolve("/proj/pkg/sub", "..m", Lang::Python, "/proj", &disk),
        Some("/proj/pkg/m.py".to_string())
    );
    assert_eq!(resolve("/proj/pkg", "m", Lang::JavaScript, "/proj", &disk), None);
    let import = RawImport {
        source_file: "/proj/pkg/a.py".to_string(),
        language: Lang::Python,
        literal: ".m".to_string(),
        kind: ImportKind::Module,
    };
    assert_eq!(resolve_import(&import, "/proj", &disk), Some("/proj/pkg/m.py".to_string()));
    let rootless = RawImport {
        source_file: String::new(),
        language: Lang::Python,
        literal: "m".to_string(),
        kind: ImportKind::Module,
    };
    assert_eq!(resolve_import(&rootless, "/proj", &disk), None);
}

#[test]
fn the_first_language_that_accepts_reads_the_file() {
    assert_eq!(Lang::reading("/p/a.tsx"), Some(Lang::JavaScript));
    assert_eq!(Lang::reading("/p/a.py"), Some(Lang::Python));
    assert_eq!(Lang::reading("/p/a.rs"), Some(Lang::Rust));
    assert_eq!(Lang::reading("/p/a.hxx"), Some(Lang::Cpp));
    assert_eq!(Lang::reading("/p/a.txt"), None);
    assert_eq!(Lang::reading("/p/rs"), None);
}
