use github_fetcher_mcp::client::{
    contents_stats, directory_stats, entry_name, normalize_root_path, parent_path,
    GithubContentType, GithubContents, GithubDirectoryEntry, GithubFile, GithubRepoSummary,
    GithubSearchItem, GithubSearchRepo,
};
use github_fetcher_mcp::models::{EntryType, RepoSummary, SearchResult};
use github_fetcher_mcp::tree::TreeExpansion;

fn dir_entry(
    name: &str,
    path: &str,
    kind: GithubContentType,
    size: Option<u64>,
    target: Option<&str>,
    submodule_git_url: Option<&str>,
) -> GithubDirectoryEntry {
    GithubDirectoryEntry {
        name: name.to_string(),
        path: path.to_string(),
        kind,
        size,
        target: target.map(|t| t.to_string()),
        submodule_git_url: submodule_git_url.map(|u| u.to_string()),
    }
}

#[test]
fn expands_symlink_and_submodule_entries() {
    let contents = GithubContents::Directory(vec![
        dir_entry(
            "link",
            "link",
            GithubContentType::Symlink,
            Some(12),
            Some("target/path"),
            None,
        ),
        dir_entry(
            "module",
            "module",
            GithubContentType::Submodule,
            None,
            None,
            Some("https://example.com/repo.git"),
        ),
    ]);

    let expansion = TreeExpansion::new(contents, "", 1);
    assert!(expansion.done());
    let entries = expansion.finish();

    assert_eq!(entries.len(), 2);

    let link = entries.iter().find(|entry| entry.name == "link").unwrap();
    assert!(matches!(link.kind, EntryType::Symlink));
    assert_eq!(link.target.as_deref(), Some("target/path"));
    assert_eq!(link.size, Some(12));
    assert!(link.children.is_empty());

    let module = entries.iter().find(|entry| entry.name == "module").unwrap();
    assert!(matches!(module.kind, EntryType::Submodule));
    assert_eq!(
        module.submodule_git_url.as_deref(),
        Some("https://example.com/repo.git")
    );
    assert!(module.size.is_none());
    assert!(module.children.is_empty());
}

#[test]
fn expands_top_level_symlink_file_entry() {
    let contents = GithubContents::File(GithubFile {
        path: "link".to_string(),
        kind: GithubContentType::Symlink,
        size: Some(3),
        content: None,
        encoding: None,
        target: Some("target".to_string()),
        submodule_git_url: None,
    });

    let expansion = TreeExpansion::new(contents, "", 1);
    assert!(expansion.done());
    let entries = expansion.finish();

    assert_eq!(entries.len(), 1);
    assert!(matches!(entries[0].kind, EntryType::Symlink));
    assert_eq!(entries[0].target.as_deref(), Some("target"));
    assert_eq!(entries[0].size, Some(3));
    assert!(entries[0].children.is_empty());
}

#[test]
fn converts_search_item() {
    let item = GithubSearchItem {
        name: "file.rs".to_string(),
        path: "src/file.rs".to_string(),
        repository: GithubSearchRepo {
            full_name: "octo/repo".to_string(),
        },
    };

    let result: SearchResult = item.into();

    assert_eq!(result.name, "file.rs");
    assert_eq!(result.path, "src/file.rs");
    assert_eq!(result.repository, "octo/repo");
}

#[test]
fn converts_repo_summary() {
    let repo = GithubRepoSummary {
        name: "repo".to_string(),
        full_name: "octo/repo".to_string(),
        private: false,
        html_url: "https://github.com/octo/repo".to_string(),
        description: Some("cool repo".to_string()),
    };

    let summary: RepoSummary = repo.into();

    assert_eq!(summary.name, "repo");
    assert_eq!(summary.full_name, "octo/repo");
    assert!(!summary.private);
    assert_eq!(summary.html_url, "https://github.com/octo/repo");
    assert_eq!(summary.description.as_deref(), Some("cool repo"));
}

#[test]
fn builds_stats_for_file() {
    let file = GithubFile {
        path: "dir/file.txt".to_string(),
        kind: GithubContentType::File,
        size: Some(10),
        content: None,
        encoding: None,
        target: None,
        submodule_git_url: None,
    };

    let stats = file.into_stats();

    assert!(matches!(stats.kind, EntryType::File));
    assert_eq!(stats.name, "file.txt");
    assert_eq!(stats.path, "dir/file.txt");
    assert_eq!(stats.size, Some(10));
    assert!(stats.target.is_none());
}

#[test]
fn builds_stats_for_directory() {
    let stats = directory_stats("dir/sub");

    assert!(matches!(stats.kind, EntryType::Dir));
    assert_eq!(stats.name, "sub");
    assert_eq!(stats.path, "dir/sub");
    assert!(stats.size.is_none());
    assert!(stats.target.is_none());
}

#[test]
fn stats_for_directory_contents_normalize_the_query_path() {
    let contents = GithubContents::Directory(vec![]);
    let stats = contents_stats(contents, "/dir/sub/");

    assert!(matches!(stats.kind, EntryType::Dir));
    assert_eq!(stats.path, "dir/sub");
    assert_eq!(stats.name, "sub");
}

#[test]
fn path_helpers_split_on_the_last_slash() {
    assert_eq!(entry_name("a/b/c"), "c");
    assert_eq!(entry_name("abc"), "abc");
    assert_eq!(entry_name("a/"), "");
    assert_eq!(parent_path("a/b/c"), "a/b");
    assert_eq!(parent_path("abc"), "");
    assert_eq!(normalize_root_path("/a/b/"), "a/b");
    assert_eq!(normalize_root_path("///"), "");
    assert_eq!(normalize_root_path("plain"), "plain");
}

#[test]
fn clears_size_for_directories_and_submodules() {
    let entry = dir_entry("sub", "dir/sub", GithubContentType::Dir, Some(99), None, None);
    let node = entry.into_tree_entry(Vec::new());
    assert!(matches!(node.kind, EntryType::Dir));
    assert!(node.size.is_none());
    assert_eq!(node.name, "sub");
    assert_eq!(node.path, "dir/sub");
}
