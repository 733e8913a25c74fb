//! The tree core: the children index built during breadth-first
//! expansion, the expansion state machine that decides which nested
//! fetches to issue, and the recursive assembly of the nested tree.

use vstd::prelude::*;
use vstd::set_lib::lemma_len_subset;
use crate::client::{
    parent_path, parent_path_spec, normalize_root_path, normalize_root_path_spec, GithubContents,
    GithubDirectoryEntry, GithubFile,
};
use crate::models::{lemma_children_deep_view, EntryType, TreeEntry, TreeEntryView};

verus! {

broadcast use vstd::std_specs::vec::group_vec_axioms, vstd::seq::group_seq_axioms, vstd::set::group_set_axioms, vstd::map::group_map_axioms;

/// Whether two strings hold the same characters.
fn str_eq(a: &str, b: &str) -> (r: bool)
    ensures
        r == (a@ == b@),
{
    let n = a.unicode_len();
    let m = b.unicode_len();
    if n != m {
        return false;
    }
    let mut i: usize = 0;
    while i < n
        invariant
            n == a@.len(),
            n == b@.len(),
            0 <= i <= n,
            forall|j: int| 0 <= j < i ==> a@[j] == b@[j],
        decreases n - i,
    {
        if a.get_char(i) != b.get_char(i) {
            return false;
        }
        i = i + 1;
    }
    proof {
        assert(a@ =~= b@);
    }
    true
}

/// The map an association list denotes, later pairs shadowing earlier
/// ones (the index never holds two pairs with one key).
spec fn map_of(s: Seq<(String, Vec<TreeEntry>)>) -> Map<Seq<char>, Seq<TreeEntryView>>
    decreases s.len(),
{
    if s.len() == 0 {
        Map::empty()
    } else {
        map_of(s.drop_last()).insert(s.last().0@, s.last().1.deep_view())
    }
}

proof fn lemma_map_of_finite(s: Seq<(String, Vec<TreeEntry>)>)
    ensures
        map_of(s).dom().finite(),
    decreases s.len(),
{
    if s.len() > 0 {
        lemma_map_of_finite(s.drop_last());
    }
}

proof fn lemma_map_of_contains(s: Seq<(String, Vec<TreeEntry>)>, k: Seq<char>)
    ensures
        map_of(s).contains_key(k) <==> exists|i: int| 0 <= i < s.len() && #[trigger] s[i].0@ == k,
    decreases s.len(),
{
    if s.len() > 0 {
        lemma_map_of_contains(s.drop_last(), k);
        if s.last().0@ == k {
            assert(s[s.len() - 1].0@ == k);
        } else if map_of(s).contains_key(k) {
            let i = choose|i: int| 0 <= i < s.len() - 1 && #[trigger] s.drop_last()[i].0@ == k;
            assert(s[i].0@ == k);
        } else {
            assert forall|i: int| 0 <= i < s.len() implies #[trigger] s[i].0@ != k by {
                if i < s.len() - 1 {
                    assert(s.drop_last()[i].0@ == s[i].0@);
                }
            }
        }
    }
}

proof fn lemma_map_of_index(s: Seq<(String, Vec<TreeEntry>)>, i: int)
    requires
        0 <= i < s.len(),
        forall|p: int, q: int| 0 <= p < q < s.len() ==> s[p].0@ != s[q].0@,
    ensures
        map_of(s).contains_key(s[i].0@),
        map_of(s)[s[i].0@] == s[i].1.deep_view(),
    decreases s.len(),
{
    if i == s.len() - 1 {
    } else {
        assert(s.drop_last()[i] == s[i]);
        lemma_map_of_index(s.drop_last(), i);
        assert(s[i].0@ != s.last().0@);
    }
}

proof fn lemma_map_of_len(s: Seq<(String, Vec<TreeEntry>)>)
    requires
        forall|p: int, q: int| 0 <= p < q < s.len() ==> s[p].0@ != s[q].0@,
    ensures
        map_of(s).dom().finite(),
        map_of(s).dom().len() == s.len(),
    decreases s.len(),
{
    lemma_map_of_finite(s);
    if s.len() > 0 {
        lemma_map_of_len(s.drop_last());
        lemma_map_of_contains(s.drop_last(), s.last().0@);
        assert(forall|i: int| 0 <= i < s.len() - 1 ==> #[trigger] s.drop_last()[i].0@ == s[i].0@);
        assert(!map_of(s.drop_last()).contains_key(s.last().0@));
    }
}

proof fn lemma_map_of_remove(s: Seq<(String, Vec<TreeEntry>)>, i: int)
    requires
        0 <= i < s.len(),
        forall|p: int, q: int| 0 <= p < q < s.len() ==> s[p].0@ != s[q].0@,
    ensures
        map_of(s.remove(i)) == map_of(s).remove(s[i].0@),
    decreases s.len(),
{
    let k = s[i].0@;
    if i == s.len() - 1 {
        assert(s.remove(i) =~= s.drop_last());
        lemma_map_of_contains(s.drop_last(), k);
        assert(forall|j: int| 0 <= j < s.len() - 1 ==> #[trigger] s.drop_last()[j].0@ == s[j].0@);
        assert(!map_of(s.drop_last()).contains_key(k));
        assert(map_of(s.drop_last()).insert(k, s.last().1.deep_view()).remove(k) =~= map_of(
            s.drop_last(),
        ));
    } else {
        let t = s.remove(i);
        assert(t.drop_last() =~= s.drop_last().remove(i));
        assert(t.last() == s.last());
        assert(forall|j: int| 0 <= j < s.len() - 1 ==> #[trigger] s.drop_last()[j].0@ == s[j].0@);
        lemma_map_of_remove(s.drop_last(), i);
        assert(k != s.last().0@);
        assert(map_of(s.drop_last()).remove(k).insert(s.last().0@, s.last().1.deep_view())
            =~= map_of(s.drop_last()).insert(s.last().0@, s.last().1.deep_view()).remove(k));
    }
}

/// The mapping from parent path to the children discovered for it but not
/// yet attached. Built during expansion, drained during assembly.
pub struct ChildrenIndex {
    entries: Vec<(String, Vec<TreeEntry>)>,
}

impl View for ChildrenIndex {
    type V = Map<Seq<char>, Seq<TreeEntryView>>;

    closed spec fn view(&self) -> Map<Seq<char>, Seq<TreeEntryView>> {
        map_of(self.entries@)
    }
}

impl ChildrenIndex {
    /// Each parent key appears at most once.
    pub closed spec fn wf(self) -> bool {
        forall|p: int, q: int|
            0 <= p < q < self.entries@.len() ==> self.entries@[p].0@ != self.entries@[q].0@
    }

    pub fn new() -> (r: Self)
        ensures
            r.wf(),
            r@ == Map::<Seq<char>, Seq<TreeEntryView>>::empty(),
    {
        ChildrenIndex { entries: Vec::new() }
    }

    /// A well-formed index has as many keys as stored pairs.
    proof fn lemma_wf_len(self)
        requires
            self.wf(),
        ensures
            self@.dom().finite(),
            self@.dom().len() == self.entries@.len(),
    {
        lemma_map_of_len(self.entries@);
    }

    /// The number of parent keys held.
    pub fn len(&self) -> (r: usize)
        requires
            self.wf(),
        ensures
            self@.dom().finite(),
            r == self@.dom().len(),
    {
        proof {
            self.lemma_wf_len();
        }
        self.entries.len()
    }

    /// Find the position of a key, if present.
    fn find_key(&self, parent: &str) -> (r: Option<usize>)
        ensures
            match r {
                Some(i) => i < self.entries@.len() && self.entries@[i as int].0@ == parent@,
                None => forall|j: int|
                    0 <= j < self.entries@.len() ==> self.entries@[j].0@ != parent@,
            },
    {
        let n = self.entries.len();
        let mut i: usize = 0;
        while i < n
            invariant
                n == self.entries@.len(),
                0 <= i <= n,
                forall|j: int| 0 <= j < i ==> self.entries@[j].0@ != parent@,
            decreases n - i,
        {
            if str_eq(self.entries[i].0.as_str(), parent) {
                return Some(i);
            }
            i = i + 1;
        }
        None
    }

    /// Append one child under the given parent key, creating the key if
    /// it is new.
    pub fn insert_under(&mut self, parent: String, entry: TreeEntry)
        requires
            old(self).wf(),
        ensures
            final(self).wf(),
            final(self)@ == old(self)@.insert(
                parent@,
                (if old(self)@.contains_key(parent@) {
                    old(self)@[parent@]
                } else {
                    seq![]
                }) + seq![entry.deep_view()],
            ),
    {
        let ghost s0 = self.entries@;
        proof {
            lemma_map_of_contains(s0, parent@);
        }
        match self.find_key(parent.as_str()) {
            Some(i) => {
                proof {
                    lemma_map_of_index(s0, i as int);
                    lemma_map_of_remove(s0, i as int);
                }
                let mut pair = self.entries.remove(i);
                let ghost v0 = pair.1;
                pair.1.push(entry);
                proof {
                    assert(pair.1.deep_view() =~= v0.deep_view() + seq![entry.deep_view()]);
                }
                self.entries.push(pair);
                proof {
                    let s1 = s0.remove(i as int);
                    assert(self.entries@.drop_last() =~= s1);
                    assert forall|p: int, q: int|
                        0 <= p < q < self.entries@.len() implies self.entries@[p].0@
                        != self.entries@[q].0@ by {
                        if q == self.entries@.len() - 1 {
                            if p < i {
                                assert(s1[p] == s0[p]);
                            } else {
                                assert(s1[p] == s0[p + 1]);
                            }
                        }
                    }
                    assert(map_of(self.entries@) =~= old(self)@.insert(
                        parent@,
                        old(self)@[parent@] + seq![entry.deep_view()],
                    ));
                }
            },
            None => {
                let mut children = Vec::new();
                children.push(entry);
                proof {
                    assert(children.deep_view() =~= seq![entry.deep_view()]);
                    assert(seq![] + seq![entry.deep_view()] =~= seq![entry.deep_view()]);
                }
                self.entries.push((parent, children));
                proof {
                    assert(self.entries@.drop_last() =~= s0);
                }
            },
        }
    }

    /// Remove a parent key, returning the children recorded under it.
    pub fn remove(&mut self, parent: &str) -> (r: Option<Vec<TreeEntry>>)
        requires
            old(self).wf(),
        ensures
            final(self).wf(),
            match r {
                Some(v) => old(self)@.contains_key(parent@) && v.deep_view() == old(self)@[parent@]
                    && final(self)@ == old(self)@.remove(parent@),
                None => !old(self)@.contains_key(parent@) && final(self)@ == old(self)@,
            },
    {
        let ghost s0 = self.entries@;
        proof {
            lemma_map_of_contains(s0, parent@);
        }
        match self.find_key(parent) {
            Some(i) => {
                proof {
                    lemma_map_of_index(s0, i as int);
                    lemma_map_of_remove(s0, i as int);
                }
                let pair = self.entries.remove(i);
                proof {
                    let s1 = s0.remove(i as int);
                    assert forall|p: int, q: int|
                        0 <= p < q < s1.len() implies s1[p].0@ != s1[q].0@ by {
                        let p0 = if p < i {
                            p
                        } else {
                            p + 1
                        };
                        let q0 = if q < i {
                            q
                        } else {
                            q + 1
                        };
                        assert(s1[p] == s0[p0]);
                        assert(s1[q] == s0[q0]);
                    }
                }
                Some(pair.1)
            },
            None => None,
        }
    }
}

/// The entry with its children replaced.
pub open spec fn with_children(e: TreeEntryView, children: Seq<TreeEntryView>) -> TreeEntryView {
    TreeEntryView { children, ..e }
}

/// Remove the children recorded under `parent` and attach to each
/// directory among them the subtree assembled, in turn, under its own
/// path; the first component is what is left of the index. The fuel
/// bounds the recursion; one unit is spent for each key consumed, so any
/// fuel beyond the number of keys gives the same result.
pub open spec fn assemble_at(
    index: Map<Seq<char>, Seq<TreeEntryView>>,
    parent: Seq<char>,
    fuel: nat,
) -> (Map<Seq<char>, Seq<TreeEntryView>>, Seq<TreeEntryView>)
    decreases fuel, 0nat, 0nat,
{
    if fuel == 0 {
        (index, seq![])
    } else if !index.contains_key(parent) {
        (index, seq![])
    } else {
        assemble_list(index.remove(parent), index[parent], (fuel - 1) as nat)
    }
}

/// Assemble the children of each directory entry in order, threading the
/// index through, and return the completed entries.
pub open spec fn assemble_list(
    index: Map<Seq<char>, Seq<TreeEntryView>>,
    es: Seq<TreeEntryView>,
    fuel: nat,
) -> (Map<Seq<char>, Seq<TreeEntryView>>, Seq<TreeEntryView>)
    decreases fuel, 1nat, es.len(),
{
    if es.len() == 0 {
        (index, seq![])
    } else {
        let e = es[0];
        if e.kind is Dir {
            let (index1, kids) = assemble_at(index, e.path, fuel);
            let (index2, rest) = assemble_list(index1, es.drop_first(), fuel);
            (index2, seq![with_children(e, kids)] + rest)
        } else {
            let (index2, rest) = assemble_list(index, es.drop_first(), fuel);
            (index2, seq![e] + rest)
        }
    }
}

/// Assembly only consumes keys: what remains of the index is part of what
/// was there, and a consumed parent key is gone.
pub proof fn lemma_assemble_at_dom(
    index: Map<Seq<char>, Seq<TreeEntryView>>,
    parent: Seq<char>,
    fuel: nat,
)
    requires
        index.dom().finite(),
    ensures
        assemble_at(index, parent, fuel).0.dom().finite(),
        assemble_at(index, parent, fuel).0.dom() <= index.dom(),
        fuel > 0 && index.contains_key(parent) ==> !assemble_at(
            index,
            parent,
            fuel,
        ).0.contains_key(parent),
    decreases fuel, 0nat, 0nat,
{
    if fuel > 0 && index.contains_key(parent) {
        lemma_assemble_list_dom(index.remove(parent), index[parent], (fuel - 1) as nat);
    }
}

/// Assembling a list of entries only consumes keys.
pub proof fn lemma_assemble_list_dom(
    index: Map<Seq<char>, Seq<TreeEntryView>>,
    es: Seq<TreeEntryView>,
    fuel: nat,
)
    requires
        index.dom().finite(),
    ensures
        assemble_list(index, es, fuel).0.dom().finite(),
        assemble_list(index, es, fuel).0.dom() <= index.dom(),
    decreases fuel, 1nat, es.len(),
{
    if es.len() > 0 {
        let e = es[0];
        if e.kind is Dir {
            lemma_assemble_at_dom(index, e.path, fuel);
            lemma_assemble_list_dom(assemble_at(index, e.path, fuel).0, es.drop_first(), fuel);
        } else {
            lemma_assemble_list_dom(index, es.drop_first(), fuel);
        }
    }
}

/// Any fuel beyond the number of keys in the index gives the same result.
pub proof fn lemma_assemble_at_fuel(
    index: Map<Seq<char>, Seq<TreeEntryView>>,
    parent: Seq<char>,
    fuel1: nat,
    fuel2: nat,
)
    requires
        index.dom().finite(),
        fuel1 > index.dom().len(),
        fuel2 > index.dom().len(),
    ensures
        assemble_at(index, parent, fuel1) == assemble_at(index, parent, fuel2),
    decreases fuel1 + fuel2, 0nat, 0nat,
{
    if index.contains_key(parent) {
        lemma_assemble_list_fuel(
            index.remove(parent),
            index[parent],
            (fuel1 - 1) as nat,
            (fuel2 - 1) as nat,
        );
    }
}

/// Any fuel beyond the number of keys in the index gives the same result.
pub proof fn lemma_assemble_list_fuel(
    index: Map<Seq<char>, Seq<TreeEntryView>>,
    es: Seq<TreeEntryView>,
    fuel1: nat,
    fuel2: nat,
)
    requires
        index.dom().finite(),
        fuel1 > index.dom().len(),
        fuel2 > index.dom().len(),
    ensures
        assemble_list(index, es, fuel1) == assemble_list(index, es, fuel2),
    decreases fuel1 + fuel2, 1nat, es.len(),
{
    if es.len() > 0 {
        let e = es[0];
        if e.kind is Dir {
            lemma_assemble_at_fuel(index, e.path, fuel1, fuel2);
            let index1 = assemble_at(index, e.path, fuel1).0;
            lemma_assemble_at_dom(index, e.path, fuel1);
            lemma_len_subset(index1.dom(), index.dom());
            lemma_assemble_list_fuel(index1, es.drop_first(), fuel1, fuel2);
        } else {
            lemma_assemble_list_fuel(index, es.drop_first(), fuel1, fuel2);
        }
    }
}

/// The assembled tree under a parent key, and what is left of the index.
pub open spec fn assemble_spec(
    index: Map<Seq<char>, Seq<TreeEntryView>>,
    parent: Seq<char>,
) -> (Map<Seq<char>, Seq<TreeEntryView>>, Seq<TreeEntryView>) {
    assemble_at(index, parent, index.dom().len() + 1)
}

/// Law: the assembler consumes each parent key it uses: the key is
/// removed from the index, and no other key is added, so no children list
/// is ever attached twice. (That a key occurs in the index at most once
/// is the index's own invariant.)
pub proof fn lemma_assemble_consumes(index: Map<Seq<char>, Seq<TreeEntryView>>, parent: Seq<char>)
    requires
        index.dom().finite(),
    ensures
        assemble_spec(index, parent).0.dom() <= index.dom(),
        index.contains_key(parent) ==> !assemble_spec(index, parent).0.contains_key(parent),
{
    lemma_assemble_at_dom(index, parent, index.dom().len() + 1);
}

/// Remove the children recorded under `parent` from the index, attach to
/// each directory among them the subtree assembled under its own path,
/// and return them; absent keys yield no children. Every key used is
/// consumed.
#[verifier::loop_isolation(false)]
pub fn assemble_tree(index: &mut ChildrenIndex, parent: &str) -> (out: Vec<TreeEntry>)
    requires
        old(index).wf(),
    ensures
        final(index).wf(),
        final(index)@ == assemble_spec(old(index)@, parent@).0,
        out.deep_view() == assemble_spec(old(index)@, parent@).1,
    decreases index@.dom().len(),
{
    let ghost m0 = index@;
    let ghost fuel0 = m0.dom().len() + 1;
    proof {
        index.lemma_wf_len();
    }
    match index.remove(parent) {
        None => {
            let out: Vec<TreeEntry> = Vec::new();
            proof {
                assert(out.deep_view() =~= Seq::<TreeEntryView>::empty());
            }
            out
        },
        Some(mut entries) => {
            let ghost es = entries.deep_view();
            let ghost f = (fuel0 - 1) as nat;
            let mut out: Vec<TreeEntry> = Vec::new();
            proof {
                assert(out.deep_view() =~= Seq::<TreeEntryView>::empty());
                assert(es.skip(0) =~= es);
                lemma_map_of_finite_of_wf(*index);
            }
            let ghost k: int = 0;
            while entries.len() > 0
                invariant
                    index.wf(),
                    index@.dom().finite(),
                    0 <= k <= es.len(),
                    f > index@.dom().len(),
                    entries.deep_view() == es.skip(k),
                    assemble_list(m0.remove(parent@), es, f).0 == assemble_list(
                        index@,
                        es.skip(k),
                        f,
                    ).0,
                    assemble_list(m0.remove(parent@), es, f).1 == out.deep_view() + assemble_list(
                        index@,
                        es.skip(k),
                        f,
                    ).1,
                decreases entries@.len(),
            {
                proof {
                    assert(es.skip(k).len() == entries.deep_view().len());
                    assert(entries.deep_view().len() == entries@.len());
                }
                let mut e = entries.remove(0);
                proof {
                    assert(entries.deep_view() =~= es.skip(k).drop_first());
                    assert(es.skip(k).drop_first() =~= es.skip(k + 1));
                }
                let ghost ev = es.skip(k)[0];
                proof {
                    assert(ev == e.deep_view());
                }
                let is_dir = match e.kind {
                    EntryType::Dir => true,
                    _ => false,
                };
                if is_dir {
                    let ghost mb = index@;
                    let children = assemble_tree(index, e.path.as_str());
                    proof {
                        lemma_assemble_at_fuel(mb, e.path@, mb.dom().len() + 1, f);
                        lemma_assemble_at_dom(mb, e.path@, f);
                        lemma_len_subset(index@.dom(), mb.dom());
                    }
                    let ghost c0 = e.children;
                    e.children = children;
                    proof {
                        lemma_children_deep_view(e);
                        assert(e.deep_view() == with_children(
                            ev,
                            assemble_at(mb, ev.path, f).1,
                        ));
                    }
                    let ghost outb = out.deep_view();
                    out.push(e);
                    proof {
                        assert(out.deep_view() =~= outb + seq![e.deep_view()]);
                        assert(outb + (seq![e.deep_view()] + assemble_list(
                            index@,
                            es.skip(k + 1),
                            f,
                        ).1) =~= (outb + seq![e.deep_view()]) + assemble_list(
                            index@,
                            es.skip(k + 1),
                            f,
                        ).1);
                    }
                } else {
                    let ghost outb = out.deep_view();
                    out.push(e);
                    proof {
                        assert(out.deep_view() =~= outb + seq![e.deep_view()]);
                        assert(outb + (seq![e.deep_view()] + assemble_list(
                            index@,
                            es.skip(k + 1),
                            f,
                        ).1) =~= (outb + seq![e.deep_view()]) + assemble_list(
                            index@,
                            es.skip(k + 1),
                            f,
                        ).1);
                    }
                }
                proof {
                    k = k + 1;
                }
            }
            proof {
                assert(es.skip(k).len() == 0);
                assert(es.skip(k) =~= Seq::<TreeEntryView>::empty());
                assert(out.deep_view() + Seq::<TreeEntryView>::empty() =~= out.deep_view());
                lemma_assemble_at_fuel(m0, parent@, fuel0, m0.dom().len() + 1);
            }
            out
        },
    }
}

/// A well-formed index denotes a finite map.
proof fn lemma_map_of_finite_of_wf(index: ChildrenIndex)
    ensures
        index@.dom().finite(),
{
    lemma_map_of_finite(index.entries@);
}

/// A nested fetch not yet issued: the directory path to list and the
/// depth budget that remains for its subtree.
pub struct PendingFetch {
    pub path: String,
    pub depth: usize,
}

/// The mathematical value of a pending fetch.
pub struct PendingFetchView {
    pub path: Seq<char>,
    pub depth: usize,
}

impl View for PendingFetch {
    type V = PendingFetchView;

    open spec fn view(&self) -> PendingFetchView {
        PendingFetchView { path: self.path@, depth: self.depth }
    }
}

spec fn pending_views(s: Seq<PendingFetch>) -> Seq<PendingFetchView> {
    Seq::new(s.len(), |i: int| s[i]@)
}

/// The index with one more child appended under the given parent key.
pub open spec fn index_append(
    index: Map<Seq<char>, Seq<TreeEntryView>>,
    key: Seq<char>,
    e: TreeEntryView,
) -> Map<Seq<char>, Seq<TreeEntryView>> {
    index.insert(
        key,
        (if index.contains_key(key) {
            index[key]
        } else {
            seq![]
        }) + seq![e],
    )
}

/// The index after recording a directory listing: each entry, as a leaf
/// tree node, appended in order under its own parent path.
pub open spec fn record_listing(
    index: Map<Seq<char>, Seq<TreeEntryView>>,
    entries: Seq<GithubDirectoryEntry>,
) -> Map<Seq<char>, Seq<TreeEntryView>>
    decreases entries.len(),
{
    if entries.len() == 0 {
        index
    } else {
        record_listing(
            index_append(
                index,
                parent_path_spec(entries[0].path@),
                entries[0].spec_tree_entry(seq![]),
            ),
            entries.drop_first(),
        )
    }
}

/// The index after recording a fetched node: a file descriptor becomes a
/// single leaf under its parent path; a directory listing is recorded
/// entry by entry.
pub open spec fn record_node(
    index: Map<Seq<char>, Seq<TreeEntryView>>,
    node: GithubContents,
) -> Map<Seq<char>, Seq<TreeEntryView>> {
    match node {
        GithubContents::File(f) => index_append(
            index,
            parent_path_spec(f.path@),
            f.spec_tree_entry(seq![]),
        ),
        GithubContents::Directory(entries) => record_listing(index, entries@),
    }
}

/// The nested fetches a listing spawns under the given depth budget: one
/// per directory entry, in order, with one unit of budget spent — none
/// once the budget reaches one.
pub open spec fn spawned(entries: Seq<GithubDirectoryEntry>, depth: usize) -> Seq<PendingFetchView>
    decreases entries.len(),
{
    if entries.len() == 0 {
        seq![]
    } else {
        (if entries[0].kind is Dir && depth > 1 {
            seq![PendingFetchView { path: entries[0].path@, depth: (depth - 1) as usize }]
        } else {
            seq![]
        }) + spawned(entries.drop_first(), depth)
    }
}

/// The nested fetches a fetched node spawns: files spawn none.
pub open spec fn spawned_node(node: GithubContents, depth: usize) -> Seq<PendingFetchView> {
    match node {
        GithubContents::File(_) => seq![],
        GithubContents::Directory(entries) => spawned(entries@, depth),
    }
}

proof fn lemma_spawned_depth_one(entries: Seq<GithubDirectoryEntry>)
    ensures
        spawned(entries, 1) == Seq::<PendingFetchView>::empty(),
    decreases entries.len(),
{
    if entries.len() > 0 {
        lemma_spawned_depth_one(entries.drop_first());
        assert(seq![] + spawned(entries.drop_first(), 1) =~= spawned(entries.drop_first(), 1));
    }
}

/// Law: a depth budget of one issues no nested fetches: expanding any
/// node at budget one spawns nothing, so the expansion records exactly
/// the node's own entries — the direct children of the requested path —
/// and is complete.
pub proof fn lemma_depth_one_no_fetches(node: GithubContents)
    ensures
        spawned_node(node, 1).len() == 0,
{
    match node {
        GithubContents::File(_) => {},
        GithubContents::Directory(entries) => {
            lemma_spawned_depth_one(entries@);
        },
    }
}

/// The listing converted in order: each entry as a leaf tree node with no
/// children.
pub open spec fn listing_entries(entries: Seq<GithubDirectoryEntry>) -> Seq<TreeEntryView>
    decreases entries.len(),
{
    if entries.len() == 0 {
        seq![]
    } else {
        seq![entries[0].spec_tree_entry(seq![])] + listing_entries(entries.drop_first())
    }
}

proof fn lemma_listing_entries_index(entries: Seq<GithubDirectoryEntry>)
    ensures
        listing_entries(entries).len() == entries.len(),
        forall|i: int|
            0 <= i < entries.len() ==> listing_entries(entries)[i] == #[trigger] entries[i].spec_tree_entry(
                seq![],
            ),
    decreases entries.len(),
{
    if entries.len() > 0 {
        lemma_listing_entries_index(entries.drop_first());
        assert forall|i: int| 0 <= i < entries.len() implies listing_entries(entries)[i]
            == #[trigger] entries[i].spec_tree_entry(seq![]) by {
            if i > 0 {
                assert(listing_entries(entries)[i] == listing_entries(entries.drop_first())[i - 1]);
                assert(entries.drop_first()[i - 1] == entries[i]);
            }
        }
    }
}

proof fn lemma_record_listing_single_key(
    index: Map<Seq<char>, Seq<TreeEntryView>>,
    entries: Seq<GithubDirectoryEntry>,
    key: Seq<char>,
)
    requires
        entries.len() > 0,
        forall|i: int|
            0 <= i < entries.len() ==> parent_path_spec(#[trigger] entries[i].path@) == key,
    ensures
        record_listing(index, entries) == index.insert(
            key,
            (if index.contains_key(key) {
                index[key]
            } else {
                seq![]
            }) + listing_entries(entries),
        ),
    decreases entries.len(),
{
    let e0 = entries[0].spec_tree_entry(seq![]);
    let prior: Seq<TreeEntryView> = if index.contains_key(key) {
        index[key]
    } else {
        seq![]
    };
    let rest = entries.drop_first();
    let m1 = index_append(index, key, e0);
    assert(record_listing(index, entries) == record_listing(m1, rest));
    assert(listing_entries(entries) == seq![e0] + listing_entries(rest));
    if entries.len() == 1 {
        assert(rest.len() == 0);
        assert(record_listing(m1, rest) == m1);
        assert(listing_entries(rest) == Seq::<TreeEntryView>::empty());
        assert(prior + (seq![e0] + listing_entries(rest)) =~= prior + seq![e0]);
        assert(record_listing(index, entries) =~= index.insert(
            key,
            prior + listing_entries(entries),
        ));
    } else {
        assert forall|i: int| 0 <= i < rest.len() implies parent_path_spec(
            #[trigger] rest[i].path@,
        ) == key by {
            assert(rest[i] == entries[i + 1]);
        }
        lemma_record_listing_single_key(m1, rest, key);
        assert(m1.contains_key(key) && m1[key] == prior + seq![e0]);
        assert(record_listing(m1, rest) == m1.insert(
            key,
            (prior + seq![e0]) + listing_entries(rest),
        ));
        assert((prior + seq![e0]) + listing_entries(rest) =~= prior + (seq![e0] + listing_entries(
            rest,
        )));
        assert(record_listing(index, entries) =~= index.insert(
            key,
            prior + listing_entries(entries),
        ));
    }
}

proof fn lemma_assemble_list_leaves(es: Seq<TreeEntryView>, fuel: nat)
    requires
        forall|i: int|
            0 <= i < es.len() ==> (#[trigger] es[i]).children == Seq::<TreeEntryView>::empty(),
    ensures
        assemble_list(Map::<Seq<char>, Seq<TreeEntryView>>::empty(), es, fuel) == (
            Map::<Seq<char>, Seq<TreeEntryView>>::empty(),
            es,
        ),
    decreases es.len(),
{
    let empty_index = Map::<Seq<char>, Seq<TreeEntryView>>::empty();
    if es.len() == 0 {
        assert(Seq::<TreeEntryView>::empty() =~= es);
    } else {
        let e = es[0];
        assert(e.children == Seq::<TreeEntryView>::empty());
        if e.kind is Dir {
            assert(assemble_at(empty_index, e.path, fuel) == (empty_index, Seq::<
                TreeEntryView,
            >::empty()));
            assert(with_children(e, seq![]) == e);
        }
        assert forall|i: int| 0 <= i < es.drop_first().len() implies (#[trigger] es.drop_first()[i]).children
            == Seq::<TreeEntryView>::empty() by {
            assert(es.drop_first()[i] == es[i + 1]);
        }
        lemma_assemble_list_leaves(es.drop_first(), fuel);
        assert(assemble_list(empty_index, es, fuel).1 =~= es) by {
            assert(seq![e] + es.drop_first() =~= es);
        }
    }
}

/// Law: a depth budget of one lists exactly the direct children of the
/// requested path. For a directory root whose listing names children of
/// the root key — the shape of every listing the provider returns — the
/// expansion spawns no fetch, records exactly the listing in order with
/// empty children, and assembling at the root key returns it unchanged.
pub proof fn lemma_depth_one_lists_direct_children(
    entries: Seq<GithubDirectoryEntry>,
    root_key: Seq<char>,
)
    requires
        forall|i: int|
            0 <= i < entries.len() ==> parent_path_spec(#[trigger] entries[i].path@) == root_key,
    ensures
        spawned(entries, 1).len() == 0,
        assemble_spec(
            record_listing(Map::<Seq<char>, Seq<TreeEntryView>>::empty(), entries),
            root_key,
        ).1 == listing_entries(entries),
{
    lemma_spawned_depth_one(entries);
    lemma_listing_entries_index(entries);
    if entries.len() == 0 {
        assert(listing_entries(entries) =~= Seq::<TreeEntryView>::empty());
    } else {
        lemma_record_listing_single_key(
            Map::<Seq<char>, Seq<TreeEntryView>>::empty(),
            entries,
            root_key,
        );
        let es = listing_entries(entries);
        assert(seq![] + es =~= es);
        let m = Map::<Seq<char>, Seq<TreeEntryView>>::empty().insert(root_key, es);
        let fuel = m.dom().len() + 1;
        assert(m.remove(root_key) =~= Map::<Seq<char>, Seq<TreeEntryView>>::empty());
        assert forall|i: int| 0 <= i < es.len() implies (#[trigger] es[i]).children == Seq::<
            TreeEntryView,
        >::empty() by {
            assert(es[i] == entries[i].spec_tree_entry(seq![]));
        }
        lemma_assemble_list_leaves(es, (fuel - 1) as nat);
    }
}

/// Law: a file root is recorded as a single leaf under its own parent
/// path, spawns no fetch at any depth, and assembling at that parent
/// returns exactly the one leaf.
pub proof fn lemma_file_root_single_leaf(f: GithubFile, depth: usize)
    ensures
        spawned_node(GithubContents::File(f), depth).len() == 0,
        assemble_spec(
            record_node(Map::<Seq<char>, Seq<TreeEntryView>>::empty(), GithubContents::File(f)),
            parent_path_spec(f.path@),
        ).1 == seq![f.spec_tree_entry(seq![])],
{
    let key = parent_path_spec(f.path@);
    let ste = f.spec_tree_entry(seq![]);
    assert(seq![] + seq![ste] =~= seq![ste]);
    let m = Map::<Seq<char>, Seq<TreeEntryView>>::empty().insert(key, seq![ste]);
    let fuel = m.dom().len() + 1;
    assert(m.remove(key) =~= Map::<Seq<char>, Seq<TreeEntryView>>::empty());
    lemma_assemble_list_leaves(seq![ste], (fuel - 1) as nat);
}

/// The fetched node has at least one directory among its entries.
pub open spec fn has_dir_entries(node: GithubContents) -> bool {
    match node {
        GithubContents::File(_) => false,
        GithubContents::Directory(entries) => exists|i: int|
            0 <= i < entries@.len() && (#[trigger] entries@[i].kind) is Dir,
    }
}

/// Two pending queues owe the same fetches, the second with one more unit
/// of depth budget on each.
pub open spec fn one_deeper(p1: Seq<PendingFetchView>, p2: Seq<PendingFetchView>) -> bool {
    &&& p1.len() == p2.len()
    &&& forall|i: int|
        0 <= i < p1.len() ==> {
            &&& (#[trigger] p2[i]).path == (#[trigger] p1[i]).path
            &&& 1 <= p1[i].depth < usize::MAX
            &&& p2[i].depth == p1[i].depth + 1
        }
}

proof fn lemma_one_deeper_concat(
    a: Seq<PendingFetchView>,
    b: Seq<PendingFetchView>,
    c: Seq<PendingFetchView>,
    d: Seq<PendingFetchView>,
)
    requires
        one_deeper(a, c),
        one_deeper(b, d),
    ensures
        one_deeper(a + b, c + d),
{
    assert forall|i: int| 0 <= i < (a + b).len() implies {
        &&& ((c + d)[i]).path == ((a + b)[i]).path
        &&& 1 <= (a + b)[i].depth < usize::MAX
        &&& (c + d)[i].depth == (a + b)[i].depth + 1
    } by {
        if i < a.len() {
            assert((a + b)[i] == a[i]);
            assert((c + d)[i] == c[i]);
        } else {
            assert((a + b)[i] == b[i - a.len()]);
            assert((c + d)[i] == d[i - a.len()]);
        }
    }
}

proof fn lemma_spawned_no_dirs(entries: Seq<GithubDirectoryEntry>, depth: usize)
    requires
        forall|i: int| 0 <= i < entries.len() ==> !((#[trigger] entries[i].kind) is Dir),
    ensures
        spawned(entries, depth) == Seq::<PendingFetchView>::empty(),
    decreases entries.len(),
{
    if entries.len() > 0 {
        assert(forall|i: int|
            0 <= i < entries.drop_first().len() ==> entries.drop_first()[i]
                == #[trigger] entries[i + 1]);
        lemma_spawned_no_dirs(entries.drop_first(), depth);
        assert(seq![] + spawned(entries.drop_first(), depth) =~= spawned(
            entries.drop_first(),
            depth,
        ));
    }
}

proof fn lemma_spawned_one_deeper(entries: Seq<GithubDirectoryEntry>, depth: usize)
    requires
        2 <= depth < usize::MAX,
    ensures
        one_deeper(spawned(entries, depth), spawned(entries, (depth + 1) as usize)),
    decreases entries.len(),
{
    if entries.len() == 0 {
    } else {
        lemma_spawned_one_deeper(entries.drop_first(), depth);
        if entries[0].kind is Dir {
            lemma_one_deeper_concat(
                seq![PendingFetchView { path: entries[0].path@, depth: (depth - 1) as usize }],
                spawned(entries.drop_first(), depth),
                seq![PendingFetchView { path: entries[0].path@, depth }],
                spawned(entries.drop_first(), (depth + 1) as usize),
            );
        } else {
            lemma_one_deeper_concat(
                seq![],
                spawned(entries.drop_first(), depth),
                seq![],
                spawned(entries.drop_first(), (depth + 1) as usize),
            );
        }
    }
}

/// Law: extra depth changes nothing once a subtree is exhausted. What an
/// expansion records in its index never depends on the depth budget, so
/// two expansions of one root — one seeded at depth `d`, one at `d + 1` —
/// that are handed the same fetched nodes keep equal indexes throughout;
/// this lemma shows their fetch queues also stay aligned (same paths, one
/// unit of budget apart) across each step, provided a listing delivered
/// against an exhausted budget has no directory entries — which is
/// exactly what holds when the tree under the root has depth below `d`.
/// Aligned queues owe the same fetches, and the assembled tree is a
/// function of the index and the root key alone, so both runs return the
/// same tree.
pub proof fn lemma_extra_depth_step(node: GithubContents, depth: usize)
    requires
        1 <= depth < usize::MAX,
        depth == 1 ==> !has_dir_entries(node),
    ensures
        one_deeper(spawned_node(node, depth), spawned_node(node, (depth + 1) as usize)),
{
    match node {
        GithubContents::File(_) => {},
        GithubContents::Directory(entries) => {
            if depth == 1 {
                lemma_spawned_no_dirs(entries@, 1);
                lemma_spawned_no_dirs(entries@, 2);
            } else {
                lemma_spawned_one_deeper(entries@, depth);
            }
        },
    }
}

/// Law: the queue alignment of [`lemma_extra_depth_step`] is preserved by
/// one delivery: both runs pop the same owed fetch and spawn aligned
/// follow-ups, so by induction over the deliveries the two runs issue the
/// same fetches and end with equal indexes.
pub proof fn lemma_extra_depth_delivery(
    p1: Seq<PendingFetchView>,
    p2: Seq<PendingFetchView>,
    node: GithubContents,
)
    requires
        one_deeper(p1, p2),
        p1.len() > 0,
        p1[0].depth == 1 ==> !has_dir_entries(node),
    ensures
        one_deeper(
            p1.drop_first() + spawned_node(node, p1[0].depth),
            p2.drop_first() + spawned_node(node, p2[0].depth),
        ),
{
    assert(p2[0].depth == p1[0].depth + 1);
    lemma_extra_depth_step(node, p1[0].depth);
    assert forall|i: int| 0 <= i < p1.drop_first().len() implies {
        &&& (#[trigger] p2.drop_first()[i]).path == (#[trigger] p1.drop_first()[i]).path
        &&& 1 <= p1.drop_first()[i].depth < usize::MAX
        &&& p2.drop_first()[i].depth == p1.drop_first()[i].depth + 1
    } by {
        assert(p1.drop_first()[i] == p1[i + 1]);
        assert(p2.drop_first()[i] == p2[i + 1]);
    }
    lemma_one_deeper_concat(
        p1.drop_first(),
        spawned_node(node, p1[0].depth),
        p2.drop_first(),
        spawned_node(node, p2[0].depth),
    );
}

/// An expansion run played against a sequence of fetched nodes: each
/// delivery is recorded and its spawned fetches join the queue, until the
/// queue or the deliveries run out. The result is the index built and the
/// fetches still owed.
pub open spec fn run_expansion(
    index: Map<Seq<char>, Seq<TreeEntryView>>,
    pending: Seq<PendingFetchView>,
    deliveries: Seq<GithubContents>,
) -> (Map<Seq<char>, Seq<TreeEntryView>>, Seq<PendingFetchView>)
    decreases deliveries.len(),
{
    if pending.len() == 0 || deliveries.len() == 0 {
        (index, pending)
    } else {
        run_expansion(
            record_node(index, deliveries[0]),
            pending.drop_first() + spawned_node(deliveries[0], pending[0].depth),
            deliveries.drop_first(),
        )
    }
}

/// The deliveries never hand a listing with directories to a fetch whose
/// budget is exhausted — what holds of every delivery sequence drawn from
/// a tree whose depth lies below the front budgets.
pub open spec fn deliveries_within_depth(
    pending: Seq<PendingFetchView>,
    deliveries: Seq<GithubContents>,
) -> bool
    decreases deliveries.len(),
{
    if pending.len() == 0 || deliveries.len() == 0 {
        true
    } else {
        &&& (pending[0].depth == 1 ==> !has_dir_entries(deliveries[0]))
        &&& deliveries_within_depth(
            pending.drop_first() + spawned_node(deliveries[0], pending[0].depth),
            deliveries.drop_first(),
        )
    }
}

/// Law: a whole run gains nothing from extra depth once the tree is
/// exhausted. Two runs handed the same fetched nodes, one with every
/// budget one unit higher, build the same index and keep their queues
/// aligned, provided no exhausted budget ever meets a listing with
/// directories — which is exactly a run over a tree of depth below the
/// smaller budget. Aligned queues request the same paths, so against one
/// remote tree both runs see the same deliveries; equal indexes and one
/// root key give equal assembled trees.
pub proof fn lemma_extra_depth_run(
    index: Map<Seq<char>, Seq<TreeEntryView>>,
    p1: Seq<PendingFetchView>,
    p2: Seq<PendingFetchView>,
    deliveries: Seq<GithubContents>,
)
    requires
        one_deeper(p1, p2),
        deliveries_within_depth(p1, deliveries),
    ensures
        run_expansion(index, p1, deliveries).0 == run_expansion(index, p2, deliveries).0,
        one_deeper(
            run_expansion(index, p1, deliveries).1,
            run_expansion(index, p2, deliveries).1,
        ),
    decreases deliveries.len(),
{
    if p1.len() == 0 || deliveries.len() == 0 {
    } else {
        lemma_extra_depth_delivery(p1, p2, deliveries[0]);
        assert(p2[0].depth == p1[0].depth + 1);
        lemma_extra_depth_run(
            record_node(index, deliveries[0]),
            p1.drop_first() + spawned_node(deliveries[0], p1[0].depth),
            p2.drop_first() + spawned_node(deliveries[0], p2[0].depth),
            deliveries.drop_first(),
        );
    }
}

/// One breadth-first expansion in flight: the fetches still owed, the
/// children discovered so far keyed by parent path, and the key the final
/// tree is assembled under. The caller performs each pending fetch and
/// hands the node back; a fetch failure simply abandons the expansion.
pub struct TreeExpansion {
    root_parent: String,
    pending: Vec<PendingFetch>,
    index: ChildrenIndex,
}

impl TreeExpansion {
    pub closed spec fn wf(self) -> bool {
        self.index.wf()
    }

    /// The children index built so far.
    pub closed spec fn spec_index(self) -> Map<Seq<char>, Seq<TreeEntryView>> {
        self.index@
    }

    /// The fetches owed, in the order they must be delivered.
    pub closed spec fn spec_pending(self) -> Seq<PendingFetchView> {
        pending_views(self.pending@)
    }

    /// The parent key the final tree is assembled under.
    pub closed spec fn spec_root_parent(self) -> Seq<char> {
        self.root_parent@
    }

    /// Record one fetched node at the given depth budget: its entries go
    /// into the index, and the fetches it spawns join the queue.
    #[verifier::loop_isolation(false)]
    fn process(&mut self, node: GithubContents, depth: usize)
        requires
            old(self).wf(),
        ensures
            final(self).wf(),
            final(self).spec_index() == record_node(old(self).spec_index(), node),
            final(self).spec_pending() == old(self).spec_pending() + spawned_node(node, depth),
            final(self).spec_root_parent() == old(self).spec_root_parent(),
    {
        match node {
            GithubContents::File(f) => {
                let parent = parent_path(f.path.as_str());
                let ghost fv = f;
                let children: Vec<TreeEntry> = Vec::new();
                proof {
                    assert(children.deep_view() =~= Seq::<TreeEntryView>::empty());
                }
                let entry = f.into_tree_entry(children);
                proof {
                    assert(entry.deep_view() == fv.spec_tree_entry(seq![]));
                }
                self.index.insert_under(parent, entry);
                proof {
                    assert(pending_views(self.pending@) + seq![] =~= pending_views(self.pending@));
                }
            },
            GithubContents::Directory(entries) => {
                let mut rem = entries;
                let ghost es0 = rem@;
                let ghost m0 = self.index@;
                let ghost p0 = pending_views(self.pending@);
                while rem.len() > 0
                    invariant
                        self.index.wf(),
                        self.root_parent == old(self).root_parent,
                        record_listing(m0, es0) == record_listing(self.index@, rem@),
                        p0 + spawned(es0, depth) == pending_views(self.pending@) + spawned(
                            rem@,
                            depth,
                        ),
                    decreases rem@.len(),
                {
                    let ghost rb = rem@;
                    let ghost pb = pending_views(self.pending@);
                    let e = rem.remove(0);
                    proof {
                        assert(rem@ =~= rb.drop_first());
                    }
                    let is_dir = match e.kind {
                        crate::client::GithubContentType::Dir => true,
                        _ => false,
                    };
                    if is_dir && depth > 1 {
                        self.pending.push(
                            PendingFetch { path: e.path.clone(), depth: depth - 1 },
                        );
                        proof {
                            assert(pending_views(self.pending@) =~= pb + seq![
                                PendingFetchView { path: rb[0].path@, depth: (depth - 1) as usize },
                            ]);
                        }
                    }
                    let parent = parent_path(e.path.as_str());
                    let children: Vec<TreeEntry> = Vec::new();
                    proof {
                        assert(children.deep_view() =~= Seq::<TreeEntryView>::empty());
                    }
                    let entry = e.into_tree_entry(children);
                    proof {
                        assert(entry.deep_view() == rb[0].spec_tree_entry(seq![]));
                    }
                    self.index.insert_under(parent, entry);
                    proof {
                        assert(pb + (seq![
                            PendingFetchView { path: rb[0].path@, depth: (depth - 1) as usize },
                        ] + spawned(rem@, depth)) =~= (pb + seq![
                            PendingFetchView { path: rb[0].path@, depth: (depth - 1) as usize },
                        ]) + spawned(rem@, depth));
                        assert(pb + (seq![] + spawned(rem@, depth)) =~= pb + spawned(rem@, depth));
                    }
                }
                proof {
                    assert(rem@.len() == 0);
                    assert(record_listing(self.index@, rem@) == self.index@);
                    assert(pending_views(self.pending@) + spawned(rem@, depth) =~= pending_views(
                        self.pending@,
                    ));
                    assert(p0 + spawned(es0, depth) =~= pending_views(self.pending@));
                }
            },
        }
    }

    /// Seed an expansion: the root node is recorded at the full depth
    /// budget, and the root parent key is the normalized query path for a
    /// directory, or the parent of the file's own path for a file.
    pub fn new(root: GithubContents, path: &str, depth: usize) -> (r: Self)
        requires
            depth >= 1,
        ensures
            r.wf(),
            r.spec_root_parent() == match root {
                GithubContents::Directory(_) => normalize_root_path_spec(path@),
                GithubContents::File(f) => parent_path_spec(f.path@),
            },
            r.spec_index() == record_node(Map::<Seq<char>, Seq<TreeEntryView>>::empty(), root),
            r.spec_pending() == spawned_node(root, depth),
    {
        let root_parent = match &root {
            GithubContents::Directory(_) => normalize_root_path(path),
            GithubContents::File(f) => parent_path(f.path.as_str()),
        };
        let mut r = TreeExpansion { root_parent, pending: Vec::new(), index: ChildrenIndex::new() };
        proof {
            assert(pending_views(r.pending@) =~= Seq::<PendingFetchView>::empty());
        }
        r.process(root, depth);
        proof {
            assert(Seq::<PendingFetchView>::empty() + spawned_node(root, depth) =~= spawned_node(
                root,
                depth,
            ));
        }
        r
    }

    /// The path of the next fetch owed, or nothing when the expansion is
    /// complete.
    pub fn next_path(&self) -> (r: Option<String>)
        ensures
            match r {
                Some(p) => self.spec_pending().len() > 0 && p@ == self.spec_pending()[0].path,
                None => self.spec_pending().len() == 0,
            },
    {
        if self.pending.len() > 0 {
            Some(self.pending[0].path.clone())
        } else {
            None
        }
    }

    /// Whether every owed fetch has been delivered.
    pub fn done(&self) -> (r: bool)
        ensures
            r == (self.spec_pending().len() == 0),
    {
        self.pending.len() == 0
    }

    /// Deliver the node fetched for the front of the queue: its entries
    /// are recorded, and the fetches it spawns, at one unit less of the
    /// front's budget, join the back of the queue.
    pub fn deliver(&mut self, node: GithubContents)
        requires
            old(self).wf(),
            old(self).spec_pending().len() > 0,
        ensures
            final(self).wf(),
            final(self).spec_index() == record_node(old(self).spec_index(), node),
            final(self).spec_pending() == old(self).spec_pending().drop_first() + spawned_node(
                node,
                old(self).spec_pending()[0].depth,
            ),
            final(self).spec_root_parent() == old(self).spec_root_parent(),
    {
        let pf = self.pending.remove(0);
        proof {
            assert(pending_views(self.pending@) =~= pending_views(
                old(self).pending@,
            ).drop_first());
        }
        self.process(node, pf.depth);
    }

    /// Assemble the nested tree from everything recorded, rooted at the
    /// root parent key. Called once every owed fetch has been delivered.
    pub fn finish(self) -> (r: Vec<TreeEntry>)
        requires
            self.wf(),
            self.spec_pending().len() == 0,
        ensures
            r.deep_view() == assemble_spec(self.spec_index(), self.spec_root_parent()).1,
    {
        let root_parent = self.root_parent;
        let mut index = self.index;
        assemble_tree(&mut index, root_parent.as_str())
    }
}

} // verus!
