//! Plain data shapes exchanged by the tools, the line-range type used by
//! the content windowing engine, and the parser for its textual forms.

use vstd::prelude::*;

verus! {

broadcast use vstd::std_specs::vec::group_vec_axioms, vstd::seq::group_seq_axioms;

/// Arguments naming a repository.
pub struct RepoArgs {
    pub owner: String,
    pub repo: String,
}

/// Arguments for the path-statistics tool.
pub struct StatsArgs {
    pub owner: String,
    pub repo: String,
    pub path: String,
    pub git_ref: Option<String>,
}

/// Arguments for the tree tool.
pub struct TreeArgs {
    pub owner: String,
    pub repo: String,
    pub path: Option<String>,
    pub depth: usize,
    pub git_ref: Option<String>,
}

/// Arguments for the file-retrieval tool.
pub struct GetFileArgs {
    pub owner: String,
    pub repo: String,
    pub path: String,
    pub git_ref: Option<String>,
    pub line_range: Option<LineRange>,
    pub max_chars: Option<usize>,
}

/// Repository metadata returned by the repository tool.
pub struct RepoInfo {
    pub description: Option<String>,
    pub stars: u64,
    pub forks: u64,
    pub license: Option<LicenseInfo>,
}

/// Result envelope of the repository tool.
pub struct RepoResponse {
    pub repo: Option<RepoInfo>,
}

/// License details inside repository metadata.
pub struct LicenseInfo {
    pub key: Option<String>,
    pub name: Option<String>,
    pub spdx_id: Option<String>,
    pub url: Option<String>,
}

/// Classification of a repository path.
#[derive(Debug, Clone, Copy, PartialEq, Eq, Structural)]
pub enum EntryType {
    File,
    Dir,
    Symlink,
    Submodule,
}

/// An assembled node of the nested tree: its kind, base name, optional
/// metadata, and the children discovered while depth budget remained.
pub struct TreeEntry {
    pub kind: EntryType,
    /// Base name of the entry (no parent path).
    pub name: String,
    /// Full path relative to the repository root, kept for tree assembly.
    pub path: String,
    pub size: Option<u64>,
    pub target: Option<String>,
    pub submodule_git_url: Option<String>,
    pub children: Vec<TreeEntry>,
}

/// The mathematical value of a [`TreeEntry`]: the same shape over
/// sequences of characters.
pub struct TreeEntryView {
    pub kind: EntryType,
    pub name: Seq<char>,
    pub path: Seq<char>,
    pub size: Option<u64>,
    pub target: Option<Seq<char>>,
    pub submodule_git_url: Option<Seq<char>>,
    pub children: Seq<TreeEntryView>,
}

impl DeepView for TreeEntry {
    type V = TreeEntryView;

    open spec fn deep_view(&self) -> TreeEntryView
        decreases self,
    {
        TreeEntryView {
            kind: self.kind,
            name: self.name@,
            path: self.path@,
            size: self.size,
            target: match self.target {
                Some(ref t) => Some(t@),
                None => None,
            },
            submodule_git_url: match self.submodule_git_url {
                Some(ref u) => Some(u@),
                None => None,
            },
            children: Seq::new(
                self.children@.len(),
                |i: int|
                    if 0 <= i < self.children@.len() {
                        self.children@[i].deep_view()
                    } else {
                        vstd::pervasive::arbitrary()
                    },
            ),
        }
    }
}

/// The children of a tree node's value are the values of its children.
pub proof fn lemma_children_deep_view(e: TreeEntry)
    ensures
        e.deep_view().children == e.children.deep_view(),
{
    reveal_with_fuel(<TreeEntry as DeepView>::deep_view, 2);
    assert forall|i: int| 0 <= i < e.children@.len() implies e.deep_view().children[i]
        == e.children.deep_view()[i] by {
        assert(e.deep_view().children[i] == e.children@[i].deep_view());
        assert(e.children.deep_view()[i] == e.children@[i].deep_view());
    }
    assert(e.deep_view().children =~= e.children.deep_view());
}

/// Result envelope of the tree tool.
pub struct TreeResponse {
    pub entries: Vec<TreeEntry>,
}

/// Result envelope of the path-statistics tool.
pub struct StatsResponse {
    pub item: Stats,
}

/// Metadata of a single path: kind, base name, full path, and the
/// optional size, symlink target and submodule URL.
pub struct Stats {
    pub kind: EntryType,
    /// Base name of the entry (no parent path).
    pub name: String,
    /// Full path relative to the repository root.
    pub path: String,
    pub size: Option<u64>,
    pub target: Option<String>,
    pub submodule_git_url: Option<String>,
}

/// Result envelope of the file-retrieval tool.
pub struct FileResponse {
    pub content: String,
}

/// Arguments for the code-search tool.
pub struct SearchArgs {
    pub query: String,
    pub page: Option<usize>,
    pub per_page: Option<usize>,
}

/// Arguments for the repository-listing tool.
pub struct ListReposArgs {
    pub owner: String,
    pub page: Option<usize>,
    pub per_page: Option<usize>,
}

/// One code-search hit.
pub struct SearchResult {
    pub name: String,
    pub path: String,
    pub repository: String,
}

/// Result envelope of the code-search tool.
pub struct SearchResponse {
    pub results: Vec<SearchResult>,
}

/// One repository in a listing.
pub struct RepoSummary {
    pub name: String,
    pub full_name: String,
    pub private: bool,
    pub description: Option<String>,
    pub html_url: String,
}

/// Result envelope of the repository-listing tool.
pub struct ReposResponse {
    pub repos: Vec<RepoSummary>,
}

/// Result envelope of the tag-listing tool.
pub struct TagsResponse {
    pub tags: Vec<String>,
}

/// Result envelope of the branch-listing tool.
pub struct BranchesResponse {
    pub branches: Vec<String>,
}

/// A requested window of 1-based line numbers.
#[derive(Debug, Clone, Copy, PartialEq, Eq, Structural)]
pub enum LineRange {
    /// A single number N or a prefix like `..N` means keep lines 1..=N.
    End(usize),
    /// A range like `start..end` or `start...end` keeps lines start..=end.
    Range { start: usize, end: usize },
    /// A suffix like `start..` keeps lines start..=EOF.
    Start(usize),
}

impl LineRange {
    /// The first kept line and, when bounded, the last kept line.
    pub open spec fn spec_bounds(self) -> (usize, Option<usize>) {
        match self {
            LineRange::End(end) => (1usize, Some(end)),
            LineRange::Range { start, end } => (start, Some(end)),
            LineRange::Start(start) => (start, None),
        }
    }

    pub fn bounds(self) -> (r: (usize, Option<usize>))
        ensures
            r == self.spec_bounds(),
    {
        match self {
            LineRange::End(end) => (1, Some(end)),
            LineRange::Range { start, end } => (start, Some(end)),
            LineRange::Start(start) => (start, None),
        }
    }
}

/// Default traversal depth for the tree tool: list the immediate children
/// of the requested path only.
pub fn default_depth() -> (d: usize)
    ensures
        d == 1,
{
    1
}

/// ASCII whitespace, ignored around a line-range expression and its parts.
pub open spec fn is_space(c: char) -> bool {
    c == ' ' || c == '\t' || c == '\n' || c == '\r' || c == '\u{c}'
}

/// The sequence with its leading whitespace removed.
pub open spec fn trim_start_spec(s: Seq<char>) -> Seq<char>
    decreases s.len(),
{
    if s.len() > 0 && is_space(s[0]) {
        trim_start_spec(s.drop_first())
    } else {
        s
    }
}

/// The sequence with its trailing whitespace removed.
pub open spec fn trim_end_spec(s: Seq<char>) -> Seq<char>
    decreases s.len(),
{
    if s.len() > 0 && is_space(s.last()) {
        trim_end_spec(s.drop_last())
    } else {
        s
    }
}

/// The sequence with whitespace removed from both ends.
pub open spec fn trim_spec(s: Seq<char>) -> Seq<char> {
    trim_end_spec(trim_start_spec(s))
}

/// A decimal digit.
pub open spec fn is_digit(c: char) -> bool {
    '0' as int <= c as int && c as int <= '9' as int
}

pub open spec fn digit_val(c: char) -> nat {
    (c as int - '0' as int) as nat
}

pub open spec fn all_digits(s: Seq<char>) -> bool {
    forall|i: int| 0 <= i < s.len() ==> is_digit(#[trigger] s[i])
}

/// The numeric value of a digit string, most significant digit first.
pub open spec fn digits_val(s: Seq<char>) -> nat
    decreases s.len(),
{
    if s.len() == 0 {
        0
    } else {
        digits_val(s.drop_last()) * 10 + digit_val(s.last())
    }
}

/// A leading plus sign, accepted before the digits, removed.
pub open spec fn strip_plus(s: Seq<char>) -> Seq<char> {
    if s.len() > 0 && s[0] == '+' {
        s.drop_first()
    } else {
        s
    }
}

/// The number a piece of a line-range expression denotes: at least one
/// digit after an optional plus sign, within the machine word.
pub open spec fn parse_usize_spec(s: Seq<char>) -> Option<usize> {
    let d = strip_plus(s);
    if d.len() > 0 && all_digits(d) && digits_val(d) <= usize::MAX {
        Some(digits_val(d) as usize)
    } else {
        None
    }
}

/// The pattern occurs in `s` at position `i`.
pub open spec fn matches_at(s: Seq<char>, pat: Seq<char>, i: int) -> bool {
    0 <= i && i + pat.len() <= s.len() && s.subrange(i, i + pat.len()) == pat
}

/// The first position at or after `i` where the pattern occurs.
pub open spec fn find_from(s: Seq<char>, pat: Seq<char>, i: int) -> Option<int>
    decreases s.len() - i,
{
    if pat.len() < 1 || i < 0 || i + pat.len() > s.len() {
        None
    } else if matches_at(s, pat, i) {
        Some(i)
    } else {
        find_from(s, pat, i + 1)
    }
}

/// The first position where the pattern occurs.
pub open spec fn find_sub(s: Seq<char>, pat: Seq<char>) -> Option<int> {
    find_from(s, pat, 0)
}

/// The separator a line-range expression is split on: the first of
/// `...`, `..`, `:` that occurs anywhere in it, in that precedence order.
pub open spec fn separator_of(s: Seq<char>) -> Option<Seq<char>> {
    if find_sub(s, seq!['.', '.', '.']) is Some {
        Some(seq!['.', '.', '.'])
    } else if find_sub(s, seq!['.', '.']) is Some {
        Some(seq!['.', '.'])
    } else if find_sub(s, seq![':']) is Some {
        Some(seq![':'])
    } else {
        None
    }
}

proof fn lemma_trim_start(s: Seq<char>, lo: int)
    requires
        0 <= lo <= s.len(),
        forall|j: int| 0 <= j < lo ==> is_space(#[trigger] s[j]),
        lo == s.len() || !is_space(s[lo]),
    ensures
        trim_start_spec(s) == s.skip(lo),
    decreases lo,
{
    if lo == 0 {
        assert(s.skip(0) =~= s);
    } else {
        assert(is_space(s[0]));
        lemma_trim_start(s.drop_first(), lo - 1);
        assert(s.drop_first().skip(lo - 1) =~= s.skip(lo));
    }
}

proof fn lemma_trim_end(s: Seq<char>, hi: int)
    requires
        0 <= hi <= s.len(),
        forall|j: int| hi <= j < s.len() ==> is_space(#[trigger] s[j]),
        hi == 0 || !is_space(s[hi - 1]),
    ensures
        trim_end_spec(s) == s.take(hi),
    decreases s.len() - hi,
{
    if hi == s.len() {
        assert(s.take(hi) =~= s);
        if s.len() > 0 {
            assert(!is_space(s.last()));
        }
    } else {
        assert(is_space(s.last()));
        lemma_trim_end(s.drop_last(), hi);
        assert(s.drop_last().take(hi) =~= s.take(hi));
    }
}

fn space(c: char) -> (b: bool)
    ensures
        b == is_space(c),
{
    c == ' ' || c == '\t' || c == '\n' || c == '\r' || c == '\u{c}'
}

/// The input with ASCII whitespace removed from both ends.
fn trim(s: &str) -> (r: &str)
    ensures
        r@ == trim_spec(s@),
{
    let n = s.unicode_len();
    let mut lo: usize = 0;
    while lo < n && space(s.get_char(lo))
        invariant
            n == s@.len(),
            0 <= lo <= n,
            forall|j: int| 0 <= j < lo ==> is_space(#[trigger] s@[j]),
        decreases n - lo,
    {
        lo = lo + 1;
    }
    let mut hi: usize = n;
    while hi > lo && space(s.get_char(hi - 1))
        invariant
            n == s@.len(),
            0 <= lo <= hi <= n,
            forall|j: int| hi <= j < n ==> is_space(#[trigger] s@[j]),
        decreases hi,
    {
        hi = hi - 1;
    }
    proof {
        lemma_trim_start(s@, lo as int);
        let d = s@.skip(lo as int);
        lemma_trim_end(d, hi - lo);
        assert(d.take(hi - lo) =~= s@.subrange(lo as int, hi as int));
    }
    s.substring_char(lo, hi)
}

proof fn lemma_digits_subrange_succ(s: Seq<char>, i: int, j: int)
    requires
        0 <= i <= j < s.len(),
    ensures
        digits_val(s.subrange(i, j + 1)) == digits_val(s.subrange(i, j)) * 10 + digit_val(s[j]),
{
    assert(s.subrange(i, j + 1).drop_last() =~= s.subrange(i, j));
    assert(s.subrange(i, j + 1).last() == s[j]);
}

proof fn lemma_digits_monotone(s: Seq<char>, k: int)
    requires
        0 <= k <= s.len(),
    ensures
        digits_val(s) >= digits_val(s.take(k)),
    decreases s.len() - k,
{
    if k == s.len() {
        assert(s.take(k) =~= s);
    } else {
        assert(s.take(k + 1).drop_last() =~= s.take(k));
        assert(digits_val(s.take(k + 1)) == digits_val(s.take(k)) * 10 + digit_val(s.take(k + 1).last()));
        lemma_digits_monotone(s, k + 1);
    }
}

/// The number an already-trimmed piece denotes, if it is one.
fn parse_usize_str(s: &str) -> (r: Option<usize>)
    ensures
        r == parse_usize_spec(s@),
{
    let n = s.unicode_len();
    let mut i: usize = 0;
    if n > 0 && s.get_char(0) == '+' {
        i = 1;
    }
    proof {
        assert(strip_plus(s@) =~= s@.skip(i as int));
    }
    if i == n {
        return None;
    }
    let ghost d = s@.skip(i as int);
    let mut acc: usize = 0;
    let mut j: usize = i;
    while j < n
        invariant
            n == s@.len(),
            0 <= i <= j <= n,
            i < n,
            d == s@.skip(i as int),
            d == strip_plus(s@),
            forall|q: int| i <= q < j ==> is_digit(#[trigger] s@[q]),
            acc == digits_val(s@.subrange(i as int, j as int)),
        decreases n - j,
    {
        let c = s.get_char(j);
        let u = c as u32;
        if u < 48 || u > 57 {
            proof {
                assert(d[j - i] == s@[j as int]);
                assert(!is_digit(d[j - i]));
            }
            return None;
        }
        let dv = (u - 48) as usize;
        proof {
            assert(is_digit(s@[j as int]));
            assert(dv == digit_val(s@[j as int]));
        }
        let step = match acc.checked_mul(10) {
            Some(m) => m.checked_add(dv),
            None => None,
        };
        match step {
            Some(v) => {
                proof {
                    lemma_digits_subrange_succ(s@, i as int, j as int);
                }
                acc = v;
            },
            None => {
                proof {
                    lemma_digits_subrange_succ(s@, i as int, j as int);
                    assert(digits_val(s@.subrange(i as int, j + 1)) > usize::MAX);
                    assert(d.take(j + 1 - i) =~= s@.subrange(i as int, j + 1));
                    lemma_digits_monotone(d, j + 1 - i);
                }
                return None;
            },
        }
        j = j + 1;
    }
    proof {
        assert(d.take(n - i) =~= s@.subrange(i as int, n as int));
        assert(d.take(n - i) =~= d);
        assert(forall|q: int| 0 <= q < d.len() ==> d[q] == s@[q + i] && is_digit(#[trigger] d[q]));
    }
    Some(acc)
}

pub(crate) proof fn lemma_find_from_first(s: Seq<char>, pat: Seq<char>, lo: int, i: int)
    requires
        pat.len() >= 1,
        0 <= lo <= i,
        forall|j: int| lo <= j < i ==> !matches_at(s, pat, j),
        matches_at(s, pat, i),
    ensures
        find_from(s, pat, lo) == Some(i),
    decreases i - lo,
{
    if lo < i {
        lemma_find_from_first(s, pat, lo + 1, i);
    }
}

pub(crate) proof fn lemma_find_from_none(s: Seq<char>, pat: Seq<char>, lo: int)
    requires
        pat.len() >= 1,
        0 <= lo,
        forall|j: int| lo <= j ==> !matches_at(s, pat, j),
    ensures
        find_from(s, pat, lo) is None,
    decreases s.len() - lo,
{
    if lo + pat.len() <= s.len() {
        lemma_find_from_none(s, pat, lo + 1);
    }
}

pub(crate) proof fn lemma_find_from_found(s: Seq<char>, pat: Seq<char>, lo: int)
    ensures
        find_from(s, pat, lo) matches Some(i) ==> matches_at(s, pat, i) && lo <= i,
    decreases s.len() - lo,
{
    if pat.len() < 1 || lo < 0 || lo + pat.len() > s.len() {
    } else if matches_at(s, pat, lo) {
    } else {
        lemma_find_from_found(s, pat, lo + 1);
    }
}

/// The first position where the pattern occurs in the input.
fn find_sub_str(s: &str, pat: &str) -> (r: Option<usize>)
    requires
        pat@.len() >= 1,
    ensures
        match r {
            Some(i) => find_sub(s@, pat@) == Some(i as int),
            None => find_sub(s@, pat@) is None,
        },
{
    let n = s.unicode_len();
    let m = pat.unicode_len();
    if m > n {
        proof {
            lemma_find_from_none(s@, pat@, 0);
        }
        return None;
    }
    let mut i: usize = 0;
    while i <= n - m
        invariant
            n == s@.len(),
            m == pat@.len(),
            1 <= m <= n,
            0 <= i <= n - m + 1,
            forall|j: int| 0 <= j < i ==> !matches_at(s@, pat@, j),
        decreases n - i,
    {
        let mut k: usize = 0;
        let mut hit = true;
        while k < m && hit
            invariant
                n == s@.len(),
                m == pat@.len(),
                0 <= k <= m,
                i + m <= n,
                hit ==> forall|q: int| 0 <= q < k ==> s@[i + q] == pat@[q],
                !hit ==> !matches_at(s@, pat@, i as int),
            decreases (if hit {
                1int
            } else {
                0int
            }), m - k,
        {
            if s.get_char(i + k) != pat.get_char(k) {
                proof {
                    assert(s@.subrange(i as int, i + m)[k as int] == s@[i + k]);
                }
                hit = false;
            } else {
                k = k + 1;
            }
        }
        if hit {
            proof {
                assert(s@.subrange(i as int, i + m) =~= pat@);
                lemma_find_from_first(s@, pat@, 0, i as int);
            }
            return Some(i);
        }
        i = i + 1;
    }
    proof {
        assert forall|j: int| 0 <= j implies !matches_at(s@, pat@, j) by {
            if j >= i {
                assert(j + pat@.len() > s@.len());
            }
        }
        lemma_find_from_none(s@, pat@, 0);
    }
    None
}

/// What a line-range expression denotes. A bare number keeps lines from
/// the top; otherwise the expression is split at the first occurrence of
/// its separator, and each side, trimmed, must be empty or a number — a
/// side that is neither, two empty sides, or no separator at all is a
/// parse failure.
pub open spec fn parse_line_range_spec(value: Seq<char>) -> Option<LineRange> {
    let v = trim_spec(value);
    if v.len() == 0 {
        None
    } else if parse_usize_spec(v) is Some {
        Some(LineRange::End(parse_usize_spec(v)->Some_0))
    } else {
        match separator_of(v) {
            None => None,
            Some(pat) => {
                let i = find_sub(v, pat)->Some_0;
                let lt = trim_spec(v.take(i));
                let rt = trim_spec(v.skip(i + pat.len()));
                let left = parse_usize_spec(lt);
                let right = parse_usize_spec(rt);
                if (lt.len() > 0 && left is None) || (rt.len() > 0 && right is None) {
                    None
                } else {
                    match (left, right) {
                        (Some(start), Some(end)) => Some(LineRange::Range { start, end }),
                        (Some(start), None) => Some(LineRange::Start(start)),
                        (None, Some(end)) => Some(LineRange::End(end)),
                        (None, None) => None,
                    }
                }
            },
        }
    }
}

/// Parse a line-range expression: a bare number `N` keeps lines 1..=N,
/// `a..b`, `a...b` and `a:b` keep lines a..=b, `a..` and `a:` keep lines
/// from a to the end, and `..b` and `:b` keep lines 1..=b. Whitespace
/// around the expression and around each side is ignored; anything else
/// fails.
pub fn parse_line_range(value: &str) -> (r: Option<LineRange>)
    ensures
        r == parse_line_range_spec(value@),
{
    let t = trim(value);
    let n = t.unicode_len();
    if n == 0 {
        return None;
    }
    if let Some(end) = parse_usize_str(t) {
        return Some(LineRange::End(end));
    }
    proof {
        reveal_strlit("...");
        reveal_strlit("..");
        reveal_strlit(":");
        assert("..."@ =~= seq!['.', '.', '.']);
        assert(".."@ =~= seq!['.', '.']);
        assert(":"@ =~= seq![':']);
    }
    let found: Option<(usize, usize)> = if let Some(p) = find_sub_str(t, "...") {
        Some((p, 3))
    } else if let Some(p) = find_sub_str(t, "..") {
        Some((p, 2))
    } else if let Some(p) = find_sub_str(t, ":") {
        Some((p, 1))
    } else {
        None
    };
    match found {
        None => None,
        Some((p, m)) => {
            proof {
                lemma_find_from_found(t@, seq!['.', '.', '.'], 0);
                lemma_find_from_found(t@, seq!['.', '.'], 0);
                lemma_find_from_found(t@, seq![':'], 0);
            }
            let left = trim(t.substring_char(0, p));
            let right = trim(t.substring_char(p + m, n));
            proof {
                assert(t@.subrange(0, p as int) =~= t@.take(p as int));
                assert(t@.subrange(p + m, n as int) =~= t@.skip(p + m));
            }
            let ls = parse_usize_str(left);
            let rs = parse_usize_str(right);
            if (left.unicode_len() > 0 && ls.is_none()) || (right.unicode_len() > 0
                && rs.is_none()) {
                None
            } else {
                match (ls, rs) {
                    (Some(start), Some(end)) => Some(LineRange::Range { start, end }),
                    (Some(start), None) => Some(LineRange::Start(start)),
                    (None, Some(end)) => Some(LineRange::End(end)),
                    (None, None) => None,
                }
            }
        },
    }
}

} // verus!
