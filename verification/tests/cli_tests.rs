use github_fetcher_mcp::cli::{Args, ToolSelection};
use github_fetcher_mcp::client::{
    list_repos_fallback_error, list_repos_step, repo_lookup_step, ListReposStep, RepoLookupStep,
};
use github_fetcher_mcp::error::{response_error_message, ApiErrorBody};

fn args_with(tools: Option<Vec<ToolSelection>>) -> Args {
    Args {
        api_base: "https://api.github.com".to_string(),
        token: None,
        token_env: "GITHUB_AUTH_TOKEN".to_string(),
        tools,
    }
}

#[test]
fn tool_names_match_the_wire_protocol() {
    assert_eq!(ToolSelection::GetRepo.as_str(), "get_repo");
    assert_eq!(ToolSelection::ListTags.as_str(), "list_tags");
    assert_eq!(ToolSelection::ListBranches.as_str(), "list_branches");
    assert_eq!(ToolSelection::Tree.as_str(), "tree");
    assert_eq!(ToolSelection::GetFile.as_str(), "get_file");
    assert_eq!(ToolSelection::ListRepos.as_str(), "list_repos");
    assert_eq!(ToolSelection::Search.as_str(), "search");
    assert_eq!(ToolSelection::GetStats.as_str(), "get_stats");
}

#[test]
fn all_tools_are_allowed_by_default() {
    let allowed = args_with(None).allowed_tools();
    assert_eq!(allowed.len(), 8);
    assert_eq!(allowed, ToolSelection::all());
}

#[test]
fn selected_tools_are_kept_once_in_order() {
    let allowed = args_with(Some(vec![
        ToolSelection::Tree,
        ToolSelection::GetRepo,
        ToolSelection::Tree,
    ]))
    .allowed_tools();
    assert_eq!(allowed, vec![ToolSelection::Tree, ToolSelection::GetRepo]);
}

#[test]
fn repo_listing_reacts_to_each_status_class() {
    assert!(matches!(list_repos_step(404), ListReposStep::NextBase));
    assert!(matches!(list_repos_step(200), ListReposStep::Parse));
    assert!(matches!(list_repos_step(204), ListReposStep::Parse));
    assert!(matches!(list_repos_step(403), ListReposStep::Abort));
    assert!(matches!(list_repos_step(500), ListReposStep::Abort));
}

#[test]
fn repo_lookup_treats_not_found_as_absence() {
    assert!(matches!(repo_lookup_step(404), RepoLookupStep::Absent));
    assert!(matches!(repo_lookup_step(200), RepoLookupStep::Parse));
    assert!(matches!(repo_lookup_step(301), RepoLookupStep::Fail));
    assert!(matches!(repo_lookup_step(500), RepoLookupStep::Fail));
}

#[test]
fn repo_listing_fallback_error_is_generic() {
    let err = list_repos_fallback_error();
    assert_eq!(err.code, "0");
    assert_eq!(
        err.message,
        "Failed to list repositories for the requested owner."
    );
}

#[test]
fn error_body_keeps_message_and_code() {
    let err = ApiErrorBody::new("boom".to_string(), "418".to_string());
    assert_eq!(err.message, "boom");
    assert_eq!(err.code, "418");
}

#[test]
fn renders_status_codes_in_decimal() {
    assert_eq!(github_fetcher_mcp::error::status_code_string(0), "0");
    assert_eq!(github_fetcher_mcp::error::status_code_string(7), "7");
    assert_eq!(github_fetcher_mcp::error::status_code_string(404), "404");
    assert_eq!(github_fetcher_mcp::error::status_code_string(65535), "65535");
}

#[test]
fn picks_the_most_specific_error_message() {
    assert_eq!(
        response_error_message(
            Some("Not Found".to_string()),
            "{}".to_string(),
            "fallback".to_string()
        ),
        "Not Found"
    );
    assert_eq!(
        response_error_message(None, "raw body".to_string(), "fallback".to_string()),
        "raw body"
    );
    assert_eq!(
        response_error_message(None, "".to_string(), "fallback".to_string()),
        "fallback"
    );
}
