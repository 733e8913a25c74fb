//! The shapes a contents fetch returns, the conversions from them to the
//! tool-facing types, the shared path helpers, and the decoding of file
//! payloads.

use vstd::prelude::*;
use crate::error::ApiErrorBody;
use crate::models::{
    EntryType, LicenseInfo, RepoInfo, RepoSummary, SearchResult, Stats, TreeEntry, TreeEntryView,
};

verus! {

/// Classification of a content node as the provider reports it.
#[derive(Debug, Clone, Copy, PartialEq, Eq, Structural)]
pub enum GithubContentType {
    File,
    Dir,
    Symlink,
    Submodule,
}

impl GithubContentType {
    /// The tool-facing kind this provider kind maps to.
    pub open spec fn spec_entry_type(self) -> EntryType {
        match self {
            GithubContentType::Dir => EntryType::Dir,
            GithubContentType::File => EntryType::File,
            GithubContentType::Symlink => EntryType::Symlink,
            GithubContentType::Submodule => EntryType::Submodule,
        }
    }

    pub fn to_entry_type(&self) -> (r: EntryType)
        ensures
            r == self.spec_entry_type(),
    {
        match self {
            GithubContentType::Dir => EntryType::Dir,
            GithubContentType::File => EntryType::File,
            GithubContentType::Symlink => EntryType::Symlink,
            GithubContentType::Submodule => EntryType::Submodule,
        }
    }
}

/// A single file (or symlink or submodule) descriptor, as fetched.
#[derive(Debug, Clone)]
pub struct GithubFile {
    pub path: String,
    pub kind: GithubContentType,
    pub size: Option<u64>,
    pub content: Option<String>,
    pub encoding: Option<String>,
    pub target: Option<String>,
    pub submodule_git_url: Option<String>,
}

/// One entry of a directory listing, as fetched.
#[derive(Debug, Clone)]
pub struct GithubDirectoryEntry {
    pub name: String,
    pub path: String,
    pub kind: GithubContentType,
    pub size: Option<u64>,
    pub target: Option<String>,
    pub submodule_git_url: Option<String>,
}

/// What fetching a path returns: a file descriptor or a directory listing.
pub enum GithubContents {
    File(GithubFile),
    Directory(Vec<GithubDirectoryEntry>),
}

/// The size an entry reports outward: cleared for directories and
/// submodules, where it is not meaningful.
pub open spec fn spec_entry_size(kind: EntryType, size: Option<u64>) -> Option<u64> {
    match kind {
        EntryType::Dir | EntryType::Submodule => None,
        _ => size,
    }
}

impl GithubFile {
    /// The tree node this descriptor converts to, with the given children.
    pub open spec fn spec_tree_entry(self, children: Seq<TreeEntryView>) -> TreeEntryView {
        TreeEntryView {
            kind: self.kind.spec_entry_type(),
            name: entry_name_spec(self.path@),
            path: self.path@,
            size: spec_entry_size(self.kind.spec_entry_type(), self.size),
            target: match self.target {
                Some(t) => Some(t@),
                None => None,
            },
            submodule_git_url: match self.submodule_git_url {
                Some(u) => Some(u@),
                None => None,
            },
            children,
        }
    }

    /// Convert the descriptor into a tree node carrying the given children.
    pub fn into_tree_entry(self, children: Vec<TreeEntry>) -> (r: TreeEntry)
        ensures
            r.deep_view() == self.spec_tree_entry(children.deep_view()),
    {
        let kind = self.kind.to_entry_type();
        let name = entry_name(self.path.as_str());
        let r = TreeEntry {
            kind,
            name,
            path: self.path,
            size: match kind {
                EntryType::Dir | EntryType::Submodule => None,
                _ => self.size,
            },
            target: self.target,
            submodule_git_url: self.submodule_git_url,
            children,
        };
        proof {
            crate::models::lemma_children_deep_view(r);
        }
        r
    }

    /// Convert the descriptor into path statistics.
    pub fn into_stats(self) -> (r: Stats)
        ensures
            r.kind == self.kind.spec_entry_type(),
            r.name@ == entry_name_spec(self.path@),
            r.path == self.path,
            r.size == spec_entry_size(self.kind.spec_entry_type(), self.size),
            r.target == self.target,
            r.submodule_git_url == self.submodule_git_url,
    {
        let kind = self.kind.to_entry_type();
        let name = entry_name(self.path.as_str());
        Stats {
            kind,
            name,
            path: self.path,
            size: match kind {
                EntryType::Dir | EntryType::Submodule => None,
                _ => self.size,
            },
            target: self.target,
            submodule_git_url: self.submodule_git_url,
        }
    }
}

impl GithubDirectoryEntry {
    /// The tree node this listing entry converts to, with the given
    /// children.
    pub open spec fn spec_tree_entry(self, children: Seq<TreeEntryView>) -> TreeEntryView {
        TreeEntryView {
            kind: self.kind.spec_entry_type(),
            name: entry_name_spec(self.path@),
            path: self.path@,
            size: spec_entry_size(self.kind.spec_entry_type(), self.size),
            target: match self.target {
                Some(t) => Some(t@),
                None => None,
            },
            submodule_git_url: match self.submodule_git_url {
                Some(u) => Some(u@),
                None => None,
            },
            children,
        }
    }

    /// Convert the listing entry into a tree node carrying the given
    /// children.
    pub fn into_tree_entry(self, children: Vec<TreeEntry>) -> (r: TreeEntry)
        ensures
            r.deep_view() == self.spec_tree_entry(children.deep_view()),
    {
        let kind = self.kind.to_entry_type();
        let name = entry_name(self.path.as_str());
        let r = TreeEntry {
            kind,
            name,
            path: self.path,
            size: match kind {
                EntryType::Dir | EntryType::Submodule => None,
                _ => self.size,
            },
            target: self.target,
            submodule_git_url: self.submodule_git_url,
            children,
        };
        proof {
            crate::models::lemma_children_deep_view(r);
        }
        r
    }
}

/// Repository metadata as the provider reports it.
pub struct GithubRepo {
    pub description: Option<String>,
    pub stargazers_count: u64,
    pub forks_count: u64,
    pub license: Option<GithubLicense>,
}

/// License metadata as the provider reports it.
pub struct GithubLicense {
    pub key: Option<String>,
    pub name: Option<String>,
    pub spdx_id: Option<String>,
    pub url: Option<String>,
}

/// One code-search hit as the provider reports it.
pub struct GithubSearchItem {
    pub name: String,
    pub path: String,
    pub repository: GithubSearchRepo,
}

/// The repository a code-search hit belongs to.
pub struct GithubSearchRepo {
    pub full_name: String,
}

/// One repository of a listing as the provider reports it.
pub struct GithubRepoSummary {
    pub name: String,
    pub full_name: String,
    pub private: bool,
    pub html_url: String,
    pub description: Option<String>,
}

impl From<GithubLicense> for LicenseInfo {
    fn from(license: GithubLicense) -> (r: Self) {
        LicenseInfo {
            key: license.key,
            name: license.name,
            spdx_id: license.spdx_id,
            url: license.url,
        }
    }
}

impl vstd::std_specs::convert::FromSpecImpl<GithubLicense> for LicenseInfo {
    open spec fn obeys_from_spec() -> bool {
        true
    }

    open spec fn from_spec(license: GithubLicense) -> Self {
        LicenseInfo {
            key: license.key,
            name: license.name,
            spdx_id: license.spdx_id,
            url: license.url,
        }
    }
}

impl From<GithubRepo> for RepoInfo {
    fn from(repo: GithubRepo) -> (r: Self) {
        RepoInfo {
            description: repo.description,
            stars: repo.stargazers_count,
            forks: repo.forks_count,
            license: match repo.license {
                Some(license) => Some(LicenseInfo::from(license)),
                None => None,
            },
        }
    }
}

impl vstd::std_specs::convert::FromSpecImpl<GithubRepo> for RepoInfo {
    open spec fn obeys_from_spec() -> bool {
        true
    }

    open spec fn from_spec(repo: GithubRepo) -> Self {
        RepoInfo {
            description: repo.description,
            stars: repo.stargazers_count,
            forks: repo.forks_count,
            license: match repo.license {
                Some(license) => Some(
                    <LicenseInfo as vstd::std_specs::convert::FromSpec<GithubLicense>>::from_spec(
                        license,
                    ),
                ),
                None => None,
            },
        }
    }
}

impl From<GithubSearchItem> for SearchResult {
    fn from(item: GithubSearchItem) -> (r: Self) {
        SearchResult {
            name: item.name,
            path: item.path,
            repository: item.repository.full_name,
        }
    }
}

impl vstd::std_specs::convert::FromSpecImpl<GithubSearchItem> for SearchResult {
    open spec fn obeys_from_spec() -> bool {
        true
    }

    open spec fn from_spec(item: GithubSearchItem) -> Self {
        SearchResult {
            name: item.name,
            path: item.path,
            repository: item.repository.full_name,
        }
    }
}

impl From<GithubRepoSummary> for RepoSummary {
    fn from(repo: GithubRepoSummary) -> (r: Self) {
        RepoSummary {
            name: repo.name,
            full_name: repo.full_name,
            private: repo.private,
            description: repo.description,
            html_url: repo.html_url,
        }
    }
}

impl vstd::std_specs::convert::FromSpecImpl<GithubRepoSummary> for RepoSummary {
    open spec fn obeys_from_spec() -> bool {
        true
    }

    open spec fn from_spec(repo: GithubRepoSummary) -> Self {
        RepoSummary {
            name: repo.name,
            full_name: repo.full_name,
            private: repo.private,
            description: repo.description,
            html_url: repo.html_url,
        }
    }
}

/// The position of the last `/`, if any.
pub open spec fn last_slash(s: Seq<char>) -> Option<int>
    decreases s.len(),
{
    if s.len() == 0 {
        None
    } else if s.last() == '/' {
        Some(s.len() - 1)
    } else {
        last_slash(s.drop_last())
    }
}

/// The part after the last `/`, or the whole path without one.
pub open spec fn entry_name_spec(s: Seq<char>) -> Seq<char> {
    match last_slash(s) {
        Some(i) => s.skip(i + 1),
        None => s,
    }
}

/// The part before the last `/`, or empty without one.
pub open spec fn parent_path_spec(s: Seq<char>) -> Seq<char> {
    match last_slash(s) {
        Some(i) => s.take(i),
        None => seq![],
    }
}

proof fn lemma_last_slash_some(s: Seq<char>, k: int)
    requires
        0 <= k < s.len(),
        s[k] == '/',
        forall|q: int| k < q < s.len() ==> s[q] != '/',
    ensures
        last_slash(s) == Some(k),
    decreases s.len(),
{
    if k == s.len() - 1 {
    } else {
        lemma_last_slash_some(s.drop_last(), k);
    }
}

proof fn lemma_last_slash_none(s: Seq<char>)
    requires
        forall|q: int| 0 <= q < s.len() ==> s[q] != '/',
    ensures
        last_slash(s) is None,
    decreases s.len(),
{
    if s.len() > 0 {
        lemma_last_slash_none(s.drop_last());
    }
}

/// Scan for the last `/` of the path.
fn find_last_slash(path: &str) -> (r: Option<usize>)
    ensures
        match r {
            Some(i) => i < path@.len() && last_slash(path@) == Some(i as int),
            None => last_slash(path@) is None,
        },
{
    let n = path.unicode_len();
    let mut last: Option<usize> = None;
    let mut i: usize = 0;
    while i < n
        invariant
            n == path@.len(),
            0 <= i <= n,
            match last {
                Some(k) => k < i && path@[k as int] == '/' && forall|q: int|
                    k < q < i ==> path@[q] != '/',
                None => forall|q: int| 0 <= q < i ==> path@[q] != '/',
            },
        decreases n - i,
    {
        if path.get_char(i) == '/' {
            last = Some(i);
        }
        i = i + 1;
    }
    proof {
        match last {
            Some(k) => lemma_last_slash_some(path@, k as int),
            None => lemma_last_slash_none(path@),
        }
    }
    last
}

/// The base name of a path: everything after the last `/`, or the whole
/// path when it has none.
pub fn entry_name(path: &str) -> (r: String)
    ensures
        r@ == entry_name_spec(path@),
{
    let n = path.unicode_len();
    match find_last_slash(path) {
        Some(i) => {
            proof {
                assert(path@.subrange(i + 1, n as int) =~= path@.skip(i + 1));
            }
            String::from_str(path.substring_char(i + 1, n))
        },
        None => String::from_str(path),
    }
}

/// The parent of a path: everything before the last `/`, or empty for a
/// root-level path.
pub fn parent_path(path: &str) -> (r: String)
    ensures
        r@ == parent_path_spec(path@),
{
    match find_last_slash(path) {
        Some(i) => {
            proof {
                assert(path@.subrange(0, i as int) =~= path@.take(i as int));
            }
            String::from_str(path.substring_char(0, i))
        },
        None => {
            proof {
                assert(Seq::<char>::empty() =~= seq![]);
            }
            String::new()
        },
    }
}

/// The sequence with its leading slashes removed.
pub open spec fn trim_slash_start(s: Seq<char>) -> Seq<char>
    decreases s.len(),
{
    if s.len() > 0 && s[0] == '/' {
        trim_slash_start(s.drop_first())
    } else {
        s
    }
}

/// The sequence with its trailing slashes removed.
pub open spec fn trim_slash_end(s: Seq<char>) -> Seq<char>
    decreases s.len(),
{
    if s.len() > 0 && s.last() == '/' {
        trim_slash_end(s.drop_last())
    } else {
        s
    }
}

/// The path with slashes removed from both ends.
pub open spec fn normalize_root_path_spec(s: Seq<char>) -> Seq<char> {
    trim_slash_end(trim_slash_start(s))
}

proof fn lemma_trim_slash_start(s: Seq<char>, lo: int)
    requires
        0 <= lo <= s.len(),
        forall|j: int| 0 <= j < lo ==> s[j] == '/',
        lo == s.len() || s[lo] != '/',
    ensures
        trim_slash_start(s) == s.skip(lo),
    decreases lo,
{
    if lo == 0 {
        assert(s.skip(0) =~= s);
    } else {
        lemma_trim_slash_start(s.drop_first(), lo - 1);
        assert(s.drop_first().skip(lo - 1) =~= s.skip(lo));
    }
}

proof fn lemma_trim_slash_end(s: Seq<char>, hi: int)
    requires
        0 <= hi <= s.len(),
        forall|j: int| hi <= j < s.len() ==> s[j] == '/',
        hi == 0 || s[hi - 1] != '/',
    ensures
        trim_slash_end(s) == s.take(hi),
    decreases s.len() - hi,
{
    if hi == s.len() {
        assert(s.take(hi) =~= s);
    } else {
        lemma_trim_slash_end(s.drop_last(), hi);
        assert(s.drop_last().take(hi) =~= s.take(hi));
    }
}

/// The query path with leading and trailing slashes removed: the parent
/// key a directory root is assembled under.
pub fn normalize_root_path(path: &str) -> (r: String)
    ensures
        r@ == normalize_root_path_spec(path@),
{
    let n = path.unicode_len();
    let mut lo: usize = 0;
    while lo < n && path.get_char(lo) == '/'
        invariant
            n == path@.len(),
            0 <= lo <= n,
            forall|j: int| 0 <= j < lo ==> path@[j] == '/',
        decreases n - lo,
    {
        lo = lo + 1;
    }
    let mut hi: usize = n;
    while hi > lo && path.get_char(hi - 1) == '/'
        invariant
            n == path@.len(),
            0 <= lo <= hi <= n,
            forall|j: int| hi <= j < n ==> path@[j] == '/',
        decreases hi,
    {
        hi = hi - 1;
    }
    proof {
        lemma_trim_slash_start(path@, lo as int);
        let d = path@.skip(lo as int);
        lemma_trim_slash_end(d, hi - lo);
        assert(d.take(hi - lo) =~= path@.subrange(lo as int, hi as int));
    }
    String::from_str(path.substring_char(lo, hi))
}

/// The statistics of a directory: kind `Dir`, named after the last path
/// segment, with no size, target or submodule URL.
pub fn directory_stats(path: &str) -> (r: Stats)
    ensures
        r.kind == EntryType::Dir,
        r.name@ == entry_name_spec(path@),
        r.path@ == path@,
        r.size is None,
        r.target is None,
        r.submodule_git_url is None,
{
    let normalized = String::from_str(path);
    Stats {
        kind: EntryType::Dir,
        name: entry_name(path),
        path: normalized,
        size: None,
        target: None,
        submodule_git_url: None,
    }
}


/// The payload with every newline removed, as done before base64 decoding.
pub open spec fn strip_newlines_spec(s: Seq<char>) -> Seq<char>
    decreases s.len(),
{
    if s.len() == 0 {
        seq![]
    } else if s.last() == '\n' {
        strip_newlines_spec(s.drop_last())
    } else {
        strip_newlines_spec(s.drop_last()) + seq![s.last()]
    }
}

/// What decoding a base64 payload with the standard alphabet yields, or
/// `None` where the payload is not valid base64.
pub uninterp spec fn base64_decode_of(s: Seq<char>) -> Option<Seq<u8>>;

/// What decoding a byte sequence as UTF-8 yields, or `None` where the
/// bytes are not valid UTF-8.
pub uninterp spec fn utf8_chars_of(bytes: Seq<u8>) -> Option<Seq<char>>;

/// Relies on the base64 crate's standard-alphabet engine: what `decode`
/// returns depends on the characters of the payload alone.
#[verifier::external_body]
fn b64_decode(payload: &str) -> (r: Option<Vec<u8>>)
    ensures
        match r {
            Some(v) => base64_decode_of(payload@) == Some(v@),
            None => base64_decode_of(payload@) is None,
        },
{
    base64::Engine::decode(&base64::engine::general_purpose::STANDARD, payload).ok()
}

/// Relies on std's `String::from_utf8`: the characters are a function of
/// the bytes alone, and invalid UTF-8 is rejected.
#[verifier::external_body]
fn utf8_to_string(bytes: Vec<u8>) -> (r: Option<String>)
    ensures
        match r {
            Some(t) => utf8_chars_of(bytes@) == Some(t@),
            None => utf8_chars_of(bytes@) is None,
        },
{
    String::from_utf8(bytes).ok()
}

/// Remove every newline from the payload.
fn strip_newlines(s: &str) -> (r: String)
    ensures
        r@ == strip_newlines_spec(s@),
{
    let n = s.unicode_len();
    let mut out = String::new();
    let mut i: usize = 0;
    proof {
        assert(s@.take(0) =~= Seq::<char>::empty());
    }
    while i < n
        invariant
            n == s@.len(),
            0 <= i <= n,
            out@ == strip_newlines_spec(s@.take(i as int)),
        decreases n - i,
    {
        let c = s.get_char(i);
        proof {
            assert(s@.take(i + 1).drop_last() =~= s@.take(i as int));
            assert(s@.take(i + 1).last() == s@[i as int]);
        }
        if c != '\n' {
            out.append(s.substring_char(i, i + 1));
            proof {
                assert(s@.subrange(i as int, i + 1) =~= seq![s@[i as int]]);
            }
        }
        i = i + 1;
    }
    proof {
        assert(s@.take(n as int) =~= s@);
    }
    out
}

/// The encoding tag a file descriptor carries, with base64 assumed when
/// absent.
pub open spec fn spec_effective_encoding(f: GithubFile) -> Seq<char> {
    match f.encoding {
        Some(e) => e@,
        None => "base64"@,
    }
}

/// Decode the text of a fetched file: the path must name a file, its
/// encoding must be base64, its payload must be present, and the payload
/// must decode, newlines stripped, to valid UTF-8. A directory is a
/// validation failure with code 400; the decode failures carry code 0.
pub fn decode_file_contents(contents: GithubContents) -> (r: Result<String, ApiErrorBody>)
    ensures
        match contents {
            GithubContents::Directory(_) => r matches Err(e) && e.code@ == "400"@ && e.message@
                == "Requested path is a directory, not a file."@,
            GithubContents::File(f) => {
                let enc = spec_effective_encoding(f);
                if enc != "base64"@ {
                    r matches Err(e) && e.code@ == "0"@ && e.message@ == "Unsupported encoding: "@
                        + enc
                } else {
                    match f.content {
                        None => r matches Err(e) && e.code@ == "0"@ && e.message@
                            == "File content missing"@,
                        Some(payload) => match base64_decode_of(strip_newlines_spec(payload@)) {
                            None => r matches Err(e) && e.code@ == "0"@ && e.message@
                                == "Invalid base64 in file content"@,
                            Some(bytes) => match utf8_chars_of(bytes) {
                                None => r matches Err(e) && e.code@ == "0"@ && e.message@
                                    == "File content is not valid UTF-8"@,
                                Some(text) => r matches Ok(t) && t@ == text,
                            },
                        },
                    }
                }
            },
        },
{
    match contents {
        GithubContents::Directory(_) => Err(
            ApiErrorBody::new(
                String::from_str("Requested path is a directory, not a file."),
                String::from_str("400"),
            ),
        ),
        GithubContents::File(f) => {
            let encoding = match f.encoding {
                Some(e) => e,
                None => String::from_str("base64"),
            };
            if encoding != String::from_str("base64") {
                return Err(
                    ApiErrorBody::new(
                        String::from_str("Unsupported encoding: ").concat(encoding.as_str()),
                        String::from_str("0"),
                    ),
                );
            }
            match f.content {
                None => Err(
                    ApiErrorBody::new(
                        String::from_str("File content missing"),
                        String::from_str("0"),
                    ),
                ),
                Some(payload) => {
                    let clean = strip_newlines(payload.as_str());
                    match b64_decode(clean.as_str()) {
                        None => Err(
                            ApiErrorBody::new(
                                String::from_str("Invalid base64 in file content"),
                                String::from_str("0"),
                            ),
                        ),
                        Some(bytes) => match utf8_to_string(bytes) {
                            None => Err(
                                ApiErrorBody::new(
                                    String::from_str("File content is not valid UTF-8"),
                                    String::from_str("0"),
                                ),
                            ),
                            Some(text) => Ok(text),
                        },
                    }
                },
            }
        },
    }
}


/// The statistics the path-statistics tool reports for a fetched path: a
/// file descriptor reports its own metadata; a directory reports kind
/// `Dir` under the normalized query path.
pub fn contents_stats(contents: GithubContents, path: &str) -> (r: Stats)
    ensures
        match contents {
            GithubContents::File(f) => {
                &&& r.kind == f.kind.spec_entry_type()
                &&& r.name@ == entry_name_spec(f.path@)
                &&& r.path == f.path
                &&& r.size == spec_entry_size(f.kind.spec_entry_type(), f.size)
                &&& r.target == f.target
                &&& r.submodule_git_url == f.submodule_git_url
            },
            GithubContents::Directory(_) => {
                &&& r.kind == EntryType::Dir
                &&& r.name@ == entry_name_spec(normalize_root_path_spec(path@))
                &&& r.path@ == normalize_root_path_spec(path@)
                &&& r.size is None
                &&& r.target is None
                &&& r.submodule_git_url is None
            },
        },
{
    match contents {
        GithubContents::File(f) => f.into_stats(),
        GithubContents::Directory(_) => {
            let normalized = normalize_root_path(path);
            directory_stats(normalized.as_str())
        },
    }
}

/// What one response to the repository-metadata lookup means.
#[derive(Debug, Clone, Copy, PartialEq, Eq, Structural)]
pub enum RepoLookupStep {
    /// A success: parse the body as the repository's metadata.
    Parse,
    /// Not found: a normal outcome for this lookup alone, an absent result.
    Absent,
    /// Any other failure: surface it.
    Fail,
}

/// Decide what one response to the repository-metadata lookup means: not
/// found maps to an absent result — for this lookup only, not for content
/// fetches — success is parsed, anything else fails.
pub fn repo_lookup_step(status: u16) -> (r: RepoLookupStep)
    ensures
        (r is Absent) <==> status == 404,
        (r is Parse) <==> (200 <= status < 300),
        (r is Fail) <==> (!(200 <= status < 300) && status != 404),
{
    if status == 404 {
        RepoLookupStep::Absent
    } else if 200 <= status && status < 300 {
        RepoLookupStep::Parse
    } else {
        RepoLookupStep::Fail
    }
}

/// What the repository-listing loop does with one response.
#[derive(Debug, Clone, Copy, PartialEq, Eq, Structural)]
pub enum ListReposStep {
    /// A success: parse the body as the listing.
    Parse,
    /// Not found: try the next owner kind (user first, then organization).
    NextBase,
    /// Any other failure: abort with that failure.
    Abort,
}

/// Decide what one response to the repository listing means: not found
/// moves on to the next owner kind, success is parsed, anything else
/// aborts.
pub fn list_repos_step(status: u16) -> (r: ListReposStep)
    ensures
        (r is NextBase) <==> status == 404,
        (r is Parse) <==> (200 <= status < 300),
        (r is Abort) <==> (!(200 <= status < 300) && status != 404),
{
    if status == 404 {
        ListReposStep::NextBase
    } else if 200 <= status && status < 300 {
        ListReposStep::Parse
    } else {
        ListReposStep::Abort
    }
}

/// The error reported when every owner kind was tried and none recorded a
/// failure of its own.
pub fn list_repos_fallback_error() -> (r: ApiErrorBody)
    ensures
        r.message@ == "Failed to list repositories for the requested owner."@,
        r.code@ == "0"@,
{
    ApiErrorBody::new(
        String::from_str("Failed to list repositories for the requested owner."),
        String::from_str("0"),
    )
}

/// Convert a fetched repository listing to the tool's shape, in order.
pub fn convert_repo_summaries(items: Vec<GithubRepoSummary>) -> (r: Vec<RepoSummary>)
    ensures
        r@.len() == items@.len(),
        forall|i: int|
            0 <= i < items@.len() ==> r@[i] == <RepoSummary as vstd::std_specs::convert::FromSpec<
                GithubRepoSummary,
            >>::from_spec(items@[i]),
{
    let ghost items0 = items@;
    let mut rem = items;
    let mut out: Vec<RepoSummary> = Vec::new();
    while rem.len() > 0
        invariant
            out@.len() + rem@.len() == items0.len(),
            rem@ == items0.skip(out@.len() as int),
            forall|i: int|
                0 <= i < out@.len() ==> out@[i] == <RepoSummary as
                    vstd::std_specs::convert::FromSpec<GithubRepoSummary>>::from_spec(items0[i]),
        decreases rem@.len(),
    {
        let ghost rb = rem@;
        let item = rem.remove(0);
        proof {
            assert(rem@ =~= rb.drop_first());
            assert(rb[0] == items0[out@.len() as int]);
        }
        out.push(RepoSummary::from(item));
    }
    out
}

/// Convert fetched code-search hits to the tool's shape, in order.
pub fn convert_search_items(items: Vec<GithubSearchItem>) -> (r: Vec<SearchResult>)
    ensures
        r@.len() == items@.len(),
        forall|i: int|
            0 <= i < items@.len() ==> r@[i] == <SearchResult as vstd::std_specs::convert::FromSpec<
                GithubSearchItem,
            >>::from_spec(items@[i]),
{
    let ghost items0 = items@;
    let mut rem = items;
    let mut out: Vec<SearchResult> = Vec::new();
    while rem.len() > 0
        invariant
            out@.len() + rem@.len() == items0.len(),
            rem@ == items0.skip(out@.len() as int),
            forall|i: int|
                0 <= i < out@.len() ==> out@[i] == <SearchResult as
                    vstd::std_specs::convert::FromSpec<GithubSearchItem>>::from_spec(items0[i]),
        decreases rem@.len(),
    {
        let ghost rb = rem@;
        let item = rem.remove(0);
        proof {
            assert(rem@ =~= rb.drop_first());
            assert(rb[0] == items0[out@.len() as int]);
        }
        out.push(SearchResult::from(item));
    }
    out
}


/// The query path split at `/`, empty pieces dropped: the trailing
/// segments of a contents-fetch URL.
pub open spec fn split_segments(s: Seq<char>) -> Seq<Seq<char>>
    decreases s.len(),
{
    if s.len() == 0 {
        seq![]
    } else {
        match crate::models::find_from(s, seq!['/'], 0) {
            Some(i) => {
                if 0 <= i < s.len() {
                    (if i == 0 {
                        seq![]
                    } else {
                        seq![s.take(i)]
                    }) + split_segments(s.skip(i + 1))
                } else {
                    seq![s]
                }
            },
            None => seq![s],
        }
    }
}

/// The character sequences a list of strings holds.
spec fn string_views(q: Seq<String>) -> Seq<Seq<char>> {
    Seq::new(q.len(), |i: int| q[i]@)
}

/// The URL path segments of a contents fetch: the fixed prefix naming the
/// repository's contents API, then the non-empty segments of the query
/// path.
#[verifier::loop_isolation(false)]
pub fn contents_segments(owner: &str, repo: &str, path: &str) -> (r: Vec<String>)
    ensures
        r@.len() == 4 + split_segments(path@).len(),
        r@[0]@ == "repos"@,
        r@[1]@ == owner@,
        r@[2]@ == repo@,
        r@[3]@ == "contents"@,
        forall|i: int| 0 <= i < split_segments(path@).len() ==> r@[4 + i]@ == split_segments(
            path@,
        )[i],
{
    let ghost s = path@;
    let mut r: Vec<String> = Vec::new();
    r.push(String::from_str("repos"));
    r.push(String::from_str(owner));
    r.push(String::from_str(repo));
    r.push(String::from_str("contents"));
    let n = path.unicode_len();
    let mut pos: usize = 0;
    proof {
        assert(string_views(r@.skip(4)) =~= Seq::<Seq<char>>::empty());
        assert(s.skip(0) =~= s);
        assert(Seq::<Seq<char>>::empty() + split_segments(s) =~= split_segments(s));
    }
    while pos < n
        invariant
            n == s.len(),
            0 <= pos <= n,
            4 <= r@.len(),
            r@[0]@ == "repos"@,
            r@[1]@ == owner@,
            r@[2]@ == repo@,
            r@[3]@ == "contents"@,
            split_segments(s) == string_views(r@.skip(4)) + split_segments(s.skip(pos as int)),
        decreases n - pos,
    {
        let ghost suffix = s.skip(pos as int);
        let mut j: usize = pos;
        while j < n && path.get_char(j) != '/'
            invariant
                pos <= j <= n,
                forall|q: int| pos <= q < j ==> s[q] != '/',
            decreases n - j,
        {
            j = j + 1;
        }
        proof {
            assert(suffix.len() > 0);
            assert forall|q: int| 0 <= q < j - pos implies !crate::models::matches_at(
                suffix,
                seq!['/'],
                q,
            ) by {
                assert(suffix[q] == s[pos + q]);
                if crate::models::matches_at(suffix, seq!['/'], q) {
                    assert(suffix.subrange(q, q + 1)[0] == suffix[q]);
                }
            }
            if j < n {
                assert(suffix.subrange(j - pos, j - pos + 1) =~= seq!['/']) by {
                    assert(suffix[j - pos] == s[j as int]);
                }
                assert(crate::models::matches_at(suffix, seq!['/'], j - pos));
                crate::models::lemma_find_from_first(suffix, seq!['/'], 0, j - pos);
            } else {
                assert forall|q: int| 0 <= q implies !crate::models::matches_at(
                    suffix,
                    seq!['/'],
                    q,
                ) by {
                    if 0 <= q < j - pos {
                    } else {
                        if crate::models::matches_at(suffix, seq!['/'], q) {
                            assert(suffix.subrange(q, q + 1)[0] == suffix[q]);
                            assert(suffix[q] == s[pos + q]);
                        }
                    }
                }
                crate::models::lemma_find_from_none(suffix, seq!['/'], 0);
            }
        }
        let ghost rb = r@;
        if j > pos {
            r.push(String::from_str(path.substring_char(pos, j)));
            proof {
                assert(suffix.take(j - pos) =~= s.subrange(pos as int, j as int));
                assert(string_views(r@.skip(4)) =~= string_views(rb.skip(4)) + seq![
                    suffix.take(j - pos),
                ]);
            }
        }
        if j < n {
            proof {
                assert(suffix.skip(j - pos + 1) =~= s.skip(j + 1));
                if j > pos {
                    assert((string_views(rb.skip(4)) + seq![suffix.take(j - pos)])
                        + split_segments(s.skip(j + 1)) =~= string_views(rb.skip(4)) + (seq![
                        suffix.take(j - pos),
                    ] + split_segments(s.skip(j + 1))));
                } else {
                    assert(string_views(rb.skip(4)) + (seq![] + split_segments(s.skip(j + 1)))
                        =~= string_views(rb.skip(4)) + split_segments(s.skip(j + 1)));
                }
            }
            pos = j + 1;
        } else {
            proof {
                assert(suffix.take(j - pos) =~= suffix);
                assert(s.skip(n as int) =~= Seq::<char>::empty());
                assert((string_views(rb.skip(4)) + seq![suffix]) + split_segments(s.skip(n as int))
                    =~= string_views(rb.skip(4)) + (seq![suffix] + split_segments(
                    s.skip(n as int),
                )));
            }
            pos = n;
        }
    }
    proof {
        assert(s.skip(pos as int) =~= Seq::<char>::empty());
        assert(string_views(r@.skip(4)) + split_segments(s.skip(pos as int)) =~= string_views(
            r@.skip(4),
        ));
        assert(forall|i: int|
            0 <= i < split_segments(s).len() ==> r@[4 + i]@ == #[trigger] string_views(
                r@.skip(4),
            )[i]);
    }
    r
}

} // verus!
