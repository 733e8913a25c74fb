//! Server configuration: which tools are exposed, and where credentials
//! and the API base come from.

use vstd::prelude::*;

verus! {

/// The tools the server can expose.
#[derive(Debug, Clone, Copy, PartialEq, Eq, Hash, Structural)]
pub enum ToolSelection {
    GetRepo,
    ListTags,
    ListBranches,
    Tree,
    GetFile,
    ListRepos,
    Search,
    GetStats,
}

impl ToolSelection {
    /// The wire name of the tool.
    pub open spec fn spec_name(self) -> Seq<char> {
        match self {
            ToolSelection::GetRepo => "get_repo"@,
            ToolSelection::ListTags => "list_tags"@,
            ToolSelection::ListBranches => "list_branches"@,
            ToolSelection::Tree => "tree"@,
            ToolSelection::GetFile => "get_file"@,
            ToolSelection::ListRepos => "list_repos"@,
            ToolSelection::Search => "search"@,
            ToolSelection::GetStats => "get_stats"@,
        }
    }

    pub fn as_str(&self) -> (r: &'static str)
        ensures
            r@ == self.spec_name(),
    {
        match self {
            ToolSelection::GetRepo => "get_repo",
            ToolSelection::ListTags => "list_tags",
            ToolSelection::ListBranches => "list_branches",
            ToolSelection::Tree => "tree",
            ToolSelection::GetFile => "get_file",
            ToolSelection::ListRepos => "list_repos",
            ToolSelection::Search => "search",
            ToolSelection::GetStats => "get_stats",
        }
    }

    /// Every tool, in the fixed order they are declared.
    pub open spec fn spec_all() -> Seq<ToolSelection> {
        seq![
            ToolSelection::GetRepo,
            ToolSelection::ListTags,
            ToolSelection::ListBranches,
            ToolSelection::Tree,
            ToolSelection::GetFile,
            ToolSelection::ListRepos,
            ToolSelection::Search,
            ToolSelection::GetStats,
        ]
    }

    pub fn all() -> (r: Vec<ToolSelection>)
        ensures
            r@ == Self::spec_all(),
    {
        let mut v: Vec<ToolSelection> = Vec::new();
        v.push(ToolSelection::GetRepo);
        v.push(ToolSelection::ListTags);
        v.push(ToolSelection::ListBranches);
        v.push(ToolSelection::Tree);
        v.push(ToolSelection::GetFile);
        v.push(ToolSelection::ListRepos);
        v.push(ToolSelection::Search);
        v.push(ToolSelection::GetStats);
        proof {
            assert(v@ =~= Self::spec_all());
        }
        v
    }
}

/// Command-line configuration of the server: the API base URL, an
/// optional token, the environment variable to read one from otherwise,
/// and an optional restriction of the exposed tools.
pub struct Args {
    pub api_base: String,
    pub token: Option<String>,
    pub token_env: String,
    pub tools: Option<Vec<ToolSelection>>,
}

/// The selection with later repeats dropped: each tool once, in the order
/// first named.
pub open spec fn dedup_tools(s: Seq<ToolSelection>) -> Seq<ToolSelection>
    decreases s.len(),
{
    if s.len() == 0 {
        seq![]
    } else {
        let rest = dedup_tools(s.drop_last());
        if rest.contains(s.last()) {
            rest
        } else {
            rest + seq![s.last()]
        }
    }
}

fn contains_tool(v: &Vec<ToolSelection>, t: ToolSelection) -> (r: bool)
    ensures
        r == v@.contains(t),
{
    let n = v.len();
    let mut i: usize = 0;
    while i < n
        invariant
            n == v@.len(),
            0 <= i <= n,
            forall|j: int| 0 <= j < i ==> v@[j] != t,
        decreases n - i,
    {
        if v[i] == t {
            return true;
        }
        i = i + 1;
    }
    false
}

impl Args {
    /// The tools to expose: those selected, each once, in the order first
    /// named — or all of them when none were named.
    pub fn allowed_tools(&self) -> (r: Vec<ToolSelection>)
        ensures
            r@ == match self.tools {
                Some(ts) => dedup_tools(ts@),
                None => ToolSelection::spec_all(),
            },
    {
        match &self.tools {
            None => ToolSelection::all(),
            Some(ts) => {
                let n = ts.len();
                let mut out: Vec<ToolSelection> = Vec::new();
                let mut i: usize = 0;
                proof {
                    assert(ts@.take(0) =~= Seq::<ToolSelection>::empty());
                    assert(out@ =~= dedup_tools(ts@.take(0)));
                }
                while i < n
                    invariant
                        n == ts@.len(),
                        0 <= i <= n,
                        out@ == dedup_tools(ts@.take(i as int)),
                    decreases n - i,
                {
                    let t = ts[i];
                    proof {
                        assert(ts@.take(i + 1).drop_last() =~= ts@.take(i as int));
                        assert(ts@.take(i + 1).last() == ts@[i as int]);
                    }
                    if !contains_tool(&out, t) {
                        out.push(t);
                    }
                    i = i + 1;
                }
                proof {
                    assert(ts@.take(n as int) =~= ts@);
                }
                out
            },
        }
    }
}

} // verus!
