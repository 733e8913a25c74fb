use github_fetcher_mcp::client::{
    GithubContentType, GithubContents, GithubDirectoryEntry, GithubFile,
};
use github_fetcher_mcp::models::{EntryType, TreeEntry};
use github_fetcher_mcp::tree::{assemble_tree, ChildrenIndex, TreeExpansion};

fn dir_entry(name: &str, path: &str, kind: GithubContentType) -> GithubDirectoryEntry {
    GithubDirectoryEntry {
        name: name.to_string(),
        path: path.to_string(),
        kind,
        size: None,
        target: None,
        submodule_git_url: None,
    }
}

fn leaf(kind: EntryType, name: &str, path: &str) -> TreeEntry {
    TreeEntry {
        kind,
        name: name.to_string(),
        path: path.to_string(),
        size: None,
        target: None,
        submodule_git_url: None,
        children: Vec::new(),
    }
}

#[test]
fn depth_one_issues_no_nested_fetches() {
    let contents = GithubContents::Directory(vec![
        dir_entry("sub", "sub", GithubContentType::Dir),
        dir_entry("f.txt", "f.txt", GithubContentType::File),
    ]);

    let expansion = TreeExpansion::new(contents, "", 1);
    assert!(expansion.done());
    assert!(expansion.next_path().is_none());

    let entries = expansion.finish();
    assert_eq!(entries.len(), 2);
    assert_eq!(entries[0].name, "sub");
    assert!(entries[0].children.is_empty());
    assert_eq!(entries[1].name, "f.txt");
}

#[test]
fn depth_two_fetches_each_directory_once_and_nests_its_children() {
    let contents = GithubContents::Directory(vec![
        dir_entry("sub", "sub", GithubContentType::Dir),
        dir_entry("top.txt", "top.txt", GithubContentType::File),
    ]);

    let mut expansion = TreeExpansion::new(contents, "", 2);
    assert!(!expansion.done());
    assert_eq!(expansion.next_path().as_deref(), Some("sub"));

    expansion.deliver(GithubContents::Directory(vec![dir_entry(
        "inner.txt",
        "sub/inner.txt",
        GithubContentType::File,
    )]));
    assert!(expansion.done());

    let entries = expansion.finish();
    assert_eq!(entries.len(), 2);
    assert_eq!(entries[0].name, "sub");
    assert_eq!(entries[0].children.len(), 1);
    assert_eq!(entries[0].children[0].name, "inner.txt");
    assert!(matches!(entries[0].children[0].kind, EntryType::File));
    assert_eq!(entries[1].name, "top.txt");
    assert!(entries[1].children.is_empty());
}

#[test]
fn extra_depth_changes_nothing_once_the_tree_is_exhausted() {
    // the remote tree has depth one: the root's single directory lists
    // only files, so any budget of two or more yields the same tree
    let listing = vec![dir_entry("sub", "sub", GithubContentType::Dir)];
    let sub_listing = vec![dir_entry("a.txt", "sub/a.txt", GithubContentType::File)];

    let mut shallow = TreeExpansion::new(GithubContents::Directory(listing.clone()), "", 2);
    let mut deep = TreeExpansion::new(GithubContents::Directory(listing), "", 3);

    assert_eq!(shallow.next_path(), deep.next_path());
    shallow.deliver(GithubContents::Directory(sub_listing.clone()));
    deep.deliver(GithubContents::Directory(sub_listing));
    assert!(shallow.done());
    assert!(deep.done());

    let a = shallow.finish();
    let b = deep.finish();
    assert_eq!(a.len(), b.len());
    assert_eq!(a[0].name, b[0].name);
    assert_eq!(a[0].children.len(), b[0].children.len());
    assert_eq!(a[0].children[0].name, b[0].children[0].name);
}

#[test]
fn file_roots_are_keyed_under_their_parent() {
    let contents = GithubContents::File(GithubFile {
        path: "docs/readme.md".to_string(),
        kind: GithubContentType::File,
        size: Some(7),
        content: None,
        encoding: None,
        target: None,
        submodule_git_url: None,
    });

    let expansion = TreeExpansion::new(contents, "docs/readme.md", 1);
    let entries = expansion.finish();
    assert_eq!(entries.len(), 1);
    assert_eq!(entries[0].name, "readme.md");
    assert_eq!(entries[0].size, Some(7));
}

#[test]
fn assembly_consumes_each_key_exactly_once() {
    let mut index = ChildrenIndex::new();
    index.insert_under("".to_string(), leaf(EntryType::Dir, "a", "a"));
    index.insert_under("a".to_string(), leaf(EntryType::File, "f.txt", "a/f.txt"));
    index.insert_under("a".to_string(), leaf(EntryType::File, "g.txt", "a/g.txt"));
    assert_eq!(index.len(), 2);

    let entries = assemble_tree(&mut index, "");
    assert_eq!(entries.len(), 1);
    assert_eq!(entries[0].name, "a");
    assert_eq!(entries[0].children.len(), 2);
    assert_eq!(entries[0].children[0].name, "f.txt");
    assert_eq!(entries[0].children[1].name, "g.txt");

    // both keys were consumed; nothing can be attached twice
    assert_eq!(index.len(), 0);
    let again = assemble_tree(&mut index, "");
    assert!(again.is_empty());
}

#[test]
fn children_keep_the_order_their_listing_reported() {
    let contents = GithubContents::Directory(vec![
        dir_entry("z.txt", "z.txt", GithubContentType::File),
        dir_entry("a.txt", "a.txt", GithubContentType::File),
        dir_entry("m.txt", "m.txt", GithubContentType::File),
    ]);
    let entries = TreeExpansion::new(contents, "", 1).finish();
    let names: Vec<&str> = entries.iter().map(|e| e.name.as_str()).collect();
    assert_eq!(names, ["z.txt", "a.txt", "m.txt"]);
}
