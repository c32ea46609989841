use ignore::gitignore::{Gitignore, GitignoreBuilder};
use import_graph::assets::static_asset;
use import_graph::listing::{
    arrange_entries, list_directory, rules_for_folder, tree_entry, DirEntry,
};
use import_graph::models::{validate_path, DirectoryQuery, FileResult, FilesRequest};
use import_graph::tree::{collect_files, NodeKind, TreeEntry, TreeNode};

fn entry(name: &str, is_dir: bool) -> DirEntry {
    DirEntry { name: name.to_string(), path: format!("/proj/{}", name), is_dir }
}

fn names(entries: &[DirEntry]) -> Vec<&str> {
    entries.iter().map(|e| e.name.as_str()).collect()
}

fn rules(lines: &[&str]) -> Gitignore {
    let mut builder = GitignoreBuilder::new("/proj");
    for line in lines {
        builder.add_line(None, line).expect("the rule is well formed");
    }
    builder.build().expect("the rules build")
}

#[test]
fn folders_come_first_then_natural_order() {
    let entries = vec![
        entry("file10.txt", false),
        entry("src", true),
        entry("file2.txt", false),
        entry("docs10", true),
        entry("docs9", true),
        entry("README.md", false),
    ];
    let shown = arrange_entries(entries, &Vec::new());
    assert_eq!(names(&shown), vec!["docs9", "docs10", "src", "README.md", "file2.txt", "file10.txt"]);
}

#[test]
fn flagged_entries_are_left_out() {
    let entries = vec![entry("b", false), entry("a", false), entry("c", true)];
    let shown = arrange_entries(entries, &vec![false, true, false]);
    assert_eq!(names(&shown), vec!["c", "b"]);
    let all = vec![entry("b", false), entry("a", false)];
    assert_eq!(arrange_entries(all, &vec![true, true, true]).len(), 0);
    let short = vec![entry("b", false), entry("a", false)];
    assert_eq!(names(&arrange_entries(short, &vec![true])), vec!["a"]);
}

#[test]
fn ignore_rules_decide_what_is_shown() {
    let entries = vec![
        entry("build", true),
        entry("build.rs", false),
        entry("debug.log", false),
        entry("src", true),
        entry("target", true),
        entry("target.txt", false),
    ];
    let shown = list_directory(entries, &rules(&["*.log", "target/", "/build"]));
    assert_eq!(names(&shown), vec!["src", "build.rs", "target.txt"]);
}

#[test]
fn an_empty_rule_set_shows_everything() {
    let entries = vec![entry("b.txt", false), entry("a", true)];
    let shown = list_directory(entries, &Gitignore::empty());
    assert_eq!(names(&shown), vec!["a", "b.txt"]);
}

#[test]
fn exceptions_to_rules_are_shown() {
    let entries = vec![entry("a.log", false), entry("keep.log", false)];
    let shown = list_directory(entries, &rules(&["*.log", "!keep.log"]));
    assert_eq!(names(&shown), vec!["keep.log"]);
}

#[test]
fn tree_entries_follow_the_directory_entry() {
    let child = tree_entry(&entry("a.py", false), Vec::new());
    assert_eq!(child.name, "a.py");
    assert_eq!(child.node.kind, NodeKind::File);
    assert_eq!(child.node.path, "/proj/a.py");
    assert!(child.node.children.is_none());
    assert_eq!(child.node.kind_name(), "file");
    let dir = tree_entry(&entry("pkg", true), vec![child]);
    assert_eq!(dir.node.kind, NodeKind::Folder);
    assert_eq!(dir.node.kind_name(), "folder");
    assert_eq!(dir.node.children.as_ref().map(|c| c.len()), Some(1));
}

#[test]
fn files_are_collected_depth_first() {
    let tree = vec![
        TreeEntry {
            name: "pkg".to_string(),
            node: TreeNode::folder(
                "/p/pkg".to_string(),
                vec![
                    TreeEntry {
                        name: "sub".to_string(),
                        node: TreeNode::folder(
                            "/p/pkg/sub".to_string(),
                            vec![TreeEntry {
                                name: "x.py".to_string(),
                                node: TreeNode::file("/p/pkg/sub/x.py".to_string()),
                            }],
                        ),
                    },
                    TreeEntry {
                        name: "a.py".to_string(),
                        node: TreeNode::file("/p/pkg/a.py".to_string()),
                    },
                ],
            ),
        },
        TreeEntry { name: "empty".to_string(), node: TreeNode::folder("/p/empty".to_string(), Vec::new()) },
        TreeEntry { name: "z.js".to_string(), node: TreeNode::file("/p/z.js".to_string()) },
    ];
    let mut files = vec!["first".to_string()];
    collect_files(&tree, &mut files);
    assert_eq!(files, vec!["first", "/p/pkg/sub/x.py", "/p/pkg/a.py", "/p/z.js"]);
    let mut none = Vec::new();
    collect_files(&Vec::new(), &mut none);
    assert!(none.is_empty());
}

#[test]
fn a_path_that_does_not_exist_is_refused() {
    assert_eq!(
        validate_path("/no/such", false, Ok("/no/such".to_string())),
        Err("Path does not exist: /no/such".to_string())
    );
    assert_eq!(
        validate_path("/no/such", false, Err("gone".to_string())),
        Err("Path does not exist: /no/such".to_string())
    );
}

#[test]
fn a_path_without_canonical_form_is_refused() {
    assert_eq!(
        validate_path("loop", true, Err("too many links".to_string())),
        Err("Failed to canonicalize path: too many links".to_string())
    );
}

#[test]
fn a_path_that_exists_is_given_in_canonical_form() {
    assert_eq!(validate_path("./proj/..", true, Ok("/home".to_string())), Ok("/home".to_string()));
}

#[test]
fn a_query_without_path_means_the_current_directory() {
    assert_eq!(DirectoryQuery { path: None }.requested_directory(), ".");
    assert_eq!(DirectoryQuery { path: Some("/proj".to_string()) }.requested_directory(), "/proj");
}

#[test]
fn a_file_query_needs_a_path() {
    assert_eq!(DirectoryQuery { path: None }.requested_file(), Err("Path is required".to_string()));
    assert_eq!(
        DirectoryQuery { path: Some("/proj/a".to_string()) }.requested_file(),
        Ok("/proj/a".to_string())
    );
}

#[test]
fn file_results() {
    let good = FileResult::of(Ok("text".to_string()));
    assert!(good.success);
    assert_eq!(good.content, Some("text".to_string()));
    assert_eq!(good.error, None);
    let bad = FileResult::of(Err("denied".to_string()));
    assert!(!bad.success);
    assert_eq!(bad.content, None);
    assert_eq!(bad.error, Some("denied".to_string()));
    assert!(FileResult::read(String::new()).success);
    assert!(!FileResult::failed(String::new()).success);
    assert_eq!(FilesRequest { paths: vec!["a".to_string()] }.paths.len(), 1);
}

#[test]
fn static_assets() {
    let index = static_asset("/");
    assert_eq!(index.name, "index.html");
    assert_eq!(index.content_type, "text/html");
    assert_eq!(static_asset("").name, "index.html");
    let script = static_asset("/assets/app.js");
    assert_eq!(script.name, "assets/app.js");
    assert_eq!(script.content_type, "text/javascript");
    let plain = static_asset("///data/blob");
    assert_eq!(plain.name, "data/blob");
    assert_eq!(plain.content_type, "application/octet-stream");
}

#[test]
fn the_rules_of_a_folder_replace_the_inherited_ones() {
    let inherited = rules(&["*.log"]);
    let own = rules(&["*.tmp"]);
    let entries = || vec![entry("a.log", false), entry("b.tmp", false)];
    let without = list_directory(entries(), rules_for_folder(None, &inherited));
    assert_eq!(names(&without), vec!["b.tmp"]);
    let with = list_directory(entries(), rules_for_folder(Some(&own), &inherited));
    assert_eq!(names(&with), vec!["a.log"]);
}

#[test]
fn entries_are_put_to_the_rules_by_their_names() {
    let nested = |name: &str, is_dir: bool| DirEntry {
        name: name.to_string(),
        path: format!("/proj/docs/{}", name),
        is_dir,
    };
    let by_folder = list_directory(vec![nested("a.md", false)], &rules(&["docs/*.md"]));
    assert_eq!(names(&by_folder), vec!["a.md"]);
    let by_name = list_directory(vec![nested("a.md", false)], &rules(&["*.md"]));
    assert_eq!(by_name.len(), 0);
    let rooted = list_directory(vec![nested("build", true)], &rules(&["/build"]));
    assert_eq!(rooted.len(), 0);
    let only_folders = list_directory(
        vec![nested("cache", true), nested("cache.txt", false), nested("tmp", false)],
        &rules(&["cache/", "tmp/"]),
    );
    assert_eq!(names(&only_folders), vec!["cache.txt", "tmp"]);
}
