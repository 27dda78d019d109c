//! The sandboxed virtual filesystem a guest session works against.
//!
//! All guest-visible storage lives inside one sandbox. A session ([`Fs`])
//! holds the externally supplied home directory, the working directory, and
//! the store of nodes. Its mathematical model ([`FsModel`]) keys every node
//! by its absolute resolved path: the sandbox root is the empty key, and a
//! key's parent is the key without its last segment. Well-formedness
//! ([`Fs::wf`]) says the root exists and is a directory, every node's parent
//! exists and is a directory, and the working directory names an existing
//! directory.
//!
//! Operations follow POSIX-compatible success/failure semantics: a failed
//! operation reports `false` (or `None`) and leaves the store unchanged.

use vstd::prelude::*;
use crate::path::clone_segments;
use crate::path::lemma_parse_segments_nonempty;
use crate::path::lemma_sandbox_containment;
use crate::path::parse_path;
use crate::path::parse_spec;
use crate::path::resolve_against;
use crate::path::resolve_spec;
use crate::path::segments_eq;
use crate::path::segments_wf;
use crate::path::VirtualPath;

verus! {

/// Model of one stored node: a directory or a regular file with its bytes.
pub enum NodeModel {
    Dir,
    File(Seq<u8>),
}

/// One stored node.
pub enum Node {
    Dir,
    File(Vec<u8>),
}

impl View for Node {
    type V = NodeModel;

    open spec fn view(&self) -> NodeModel {
        match self {
            Node::Dir => NodeModel::Dir,
            Node::File(data) => NodeModel::File(data@),
        }
    }
}

struct Entry {
    path: Vec<String>,
    node: Node,
}

spec fn entry_key(e: Entry) -> Seq<Seq<char>> {
    e.path.deep_view()
}

/// Model of a session: the home directory, the working directory, and the
/// node store, all keyed by absolute resolved paths.
pub struct FsModel {
    pub home: Seq<Seq<char>>,
    pub cwd: Seq<Seq<char>>,
    pub nodes: Map<Seq<Seq<char>>, NodeModel>,
}

/// A sandboxed filesystem session.
pub struct Fs {
    home: Vec<String>,
    cwd: Vec<String>,
    entries: Vec<Entry>,
}

spec fn store_map(s: Seq<Entry>) -> Map<Seq<Seq<char>>, NodeModel>
    decreases s.len(),
{
    if s.len() == 0 {
        Map::empty()
    } else {
        store_map(s.drop_last()).insert(entry_key(s.last()), s.last().node@)
    }
}

spec fn unique_keys(s: Seq<Entry>) -> bool {
    forall|i: int, j: int|
        0 <= i < j < s.len() ==> entry_key(#[trigger] s[i]) != entry_key(#[trigger] s[j])
}

impl View for Fs {
    type V = FsModel;

    closed spec fn view(&self) -> FsModel {
        FsModel {
            home: self.home.deep_view(),
            cwd: self.cwd.deep_view(),
            nodes: store_map(self.entries@),
        }
    }
}

/// Well-formedness of a node store: the root is present as a directory, keys
/// are fully resolved, and every non-root node hangs under a directory.
pub open spec fn map_wf(m: Map<Seq<Seq<char>>, NodeModel>) -> bool {
    &&& m.dom().contains(Seq::empty())
    &&& m[Seq::empty()] == NodeModel::Dir
    &&& forall|k: Seq<Seq<char>>| #[trigger] m.dom().contains(k) ==> segments_wf(k)
    &&& forall|k: Seq<Seq<char>>|
        m.dom().contains(k) && k.len() > 0 ==> m.dom().contains(#[trigger] k.drop_last())
            && m[k.drop_last()] == NodeModel::Dir
}

/// Whether `k` names a directory that still has an entry under it.
pub open spec fn has_child(m: Map<Seq<Seq<char>>, NodeModel>, k: Seq<Seq<char>>) -> bool {
    exists|k2: Seq<Seq<char>>|
        #[trigger] m.dom().contains(k2) && k2.len() > 0 && k2.drop_last() == k
}

/// `k` is a (not necessarily strict) path prefix of `p`.
pub open spec fn is_path_prefix(k: Seq<Seq<char>>, p: Seq<Seq<char>>) -> bool {
    k.len() <= p.len() && k == p.take(k.len() as int)
}

/// Some listed path has exactly the segments `q`.
pub open spec fn listed(found: Seq<crate::path::PathModel>, q: Seq<Seq<char>>) -> bool {
    exists|j: int| 0 <= j < found.len() && (#[trigger] found[j]).segments == q
}

spec fn covers(s: Seq<Entry>, upto: int, k: Seq<Seq<char>>, q: Seq<Seq<char>>) -> bool {
    exists|jj: int| 0 <= jj < upto && entry_key(#[trigger] s[jj]) == k + q
}

/// `found` is exactly the snapshot of the subtree under `k`: every listed
/// path is relative, non-empty and exists under `k`; every node under `k` is
/// listed; and no path is listed twice.
pub open spec fn snapshot_of(
    m: Map<Seq<Seq<char>>, NodeModel>,
    k: Seq<Seq<char>>,
    found: Seq<crate::path::PathModel>,
) -> bool {
    &&& forall|j: int|
        0 <= j < found.len() ==> !(#[trigger] found[j]).absolute && found[j].segments.len() > 0
            && m.dom().contains(k + found[j].segments)
    &&& forall|k2: Seq<Seq<char>>|
        #[trigger] m.dom().contains(k2) && is_path_prefix(k, k2) && k2.len() > k.len() ==> listed(
            found,
            k2.skip(k.len() as int),
        )
    &&& forall|a: int, b: int|
        0 <= a < b < found.len() ==> found[a].segments != found[b].segments
}

/// `names` is exactly the set of names of the children of `k`, each once.
pub open spec fn children_listing(
    m: Map<Seq<Seq<char>>, NodeModel>,
    k: Seq<Seq<char>>,
    names: Seq<Seq<char>>,
) -> bool {
    &&& forall|q: Seq<char>| names.contains(q) <==> m.dom().contains(#[trigger] k.push(q))
    &&& forall|a: int, b: int| 0 <= a < b < names.len() ==> names[a] != names[b]
}

/// The absolute location a guest path string denotes in a session.
pub open spec fn locate_spec(fs: FsModel, s: Seq<char>) -> Seq<Seq<char>> {
    resolve_spec(fs.cwd, parse_spec(s))
}

/// A location a guest can denote is always fully resolved: this is the
/// sandbox-containment guarantee at the session level.
pub proof fn lemma_locate_wf(fs: FsModel, s: Seq<char>)
    requires
        segments_wf(fs.cwd),
    ensures
        segments_wf(locate_spec(fs, s)),
{
    lemma_parse_segments_nonempty(s);
    if parse_spec(s).absolute {
        lemma_sandbox_containment(Seq::empty(), parse_spec(s).segments);
    } else {
        lemma_sandbox_containment(fs.cwd, parse_spec(s).segments);
    }
}

proof fn lemma_store_map_index(s: Seq<Entry>, i: int)
    requires
        unique_keys(s),
        0 <= i < s.len(),
    ensures
        store_map(s).dom().contains(entry_key(s[i])),
        store_map(s)[entry_key(s[i])] == s[i].node@,
    decreases s.len(),
{
    if i < s.len() - 1 {
        assert(unique_keys(s.drop_last()));
        assert(s.drop_last()[i] == s[i]);
        lemma_store_map_index(s.drop_last(), i);
        assert(entry_key(s[i]) != entry_key(s.last()));
    }
}

proof fn lemma_store_map_absent(s: Seq<Entry>, k: Seq<Seq<char>>)
    requires
        forall|i: int| 0 <= i < s.len() ==> entry_key(#[trigger] s[i]) != k,
    ensures
        !store_map(s).dom().contains(k),
    decreases s.len(),
{
    if s.len() > 0 {
        assert(forall|i: int|
            0 <= i < s.drop_last().len() ==> entry_key(#[trigger] s.drop_last()[i]) != k);
        lemma_store_map_absent(s.drop_last(), k);
    }
}

proof fn lemma_store_map_covered(s: Seq<Entry>, k: Seq<Seq<char>>)
    requires
        store_map(s).dom().contains(k),
    ensures
        exists|i: int| 0 <= i < s.len() && entry_key(#[trigger] s[i]) == k,
    decreases s.len(),
{
    if s.len() > 0 {
        if entry_key(s.last()) == k {
            assert(entry_key(s[s.len() - 1]) == k);
        } else {
            lemma_store_map_covered(s.drop_last(), k);
            let i = choose|i: int|
                0 <= i < s.drop_last().len() && entry_key(#[trigger] s.drop_last()[i]) == k;
            assert(entry_key(s[i]) == k);
        }
    }
}

proof fn lemma_store_map_push(s: Seq<Entry>, e: Entry)
    ensures
        store_map(s.push(e)) == store_map(s).insert(entry_key(e), e.node@),
{
    assert(s.push(e).drop_last() =~= s);
}

proof fn lemma_store_map_remove(s: Seq<Entry>, i: int)
    requires
        unique_keys(s),
        0 <= i < s.len(),
    ensures
        store_map(s.remove(i)) == store_map(s).remove(entry_key(s[i])),
    decreases s.len(),
{
    let k = entry_key(s[i]);
    if i == s.len() - 1 {
        assert(s.remove(i) =~= s.drop_last());
        assert(forall|j: int|
            0 <= j < s.drop_last().len() ==> entry_key(#[trigger] s.drop_last()[j])
                == entry_key(s[j]));
        lemma_store_map_absent(s.drop_last(), k);
        assert(store_map(s.drop_last()).insert(k, s[i].node@).remove(k) =~= store_map(
            s.drop_last(),
        ));
    } else {
        let s2 = s.remove(i);
        s.remove_ensures(i);
        assert(s2.drop_last() =~= s.drop_last().remove(i));
        assert(s2.last() == s.last());
        assert(unique_keys(s.drop_last()));
        assert(s.drop_last()[i] == s[i]);
        lemma_store_map_remove(s.drop_last(), i);
        let lk = entry_key(s.last());
        let lv = s.last().node@;
        assert(lk != k);
        assert(store_map(s.drop_last()).remove(k).insert(lk, lv) =~= store_map(
            s.drop_last(),
        ).insert(lk, lv).remove(k));
    }
}

impl Fs {
    spec fn inv(&self) -> bool {
        unique_keys(self.entries@)
    }

    /// Well-formedness of a session.
    pub closed spec fn wf(&self) -> bool {
        &&& self.inv()
        &&& map_wf(self@.nodes)
        &&& segments_wf(self@.cwd)
        &&& segments_wf(self@.home)
        &&& self@.nodes.dom().contains(self@.cwd)
        &&& self@.nodes[self@.cwd] == NodeModel::Dir
    }

    /// What well-formedness guarantees about the model of a session.
    pub proof fn lemma_wf_facts(&self)
        requires
            self.wf(),
        ensures
            map_wf(self@.nodes),
            segments_wf(self@.cwd),
            segments_wf(self@.home),
            self@.nodes.dom().contains(self@.cwd),
            self@.nodes[self@.cwd] == NodeModel::Dir,
    {
    }

    /// The sandbox home directory this session was created over.
    pub fn home_segments(&self) -> (r: Vec<String>)
        ensures
            r.deep_view() == self@.home,
    {
        clone_segments(&self.home)
    }

    /// The current working directory.
    pub fn working_directory(&self) -> (r: Vec<String>)
        ensures
            r.deep_view() == self@.cwd,
    {
        clone_segments(&self.cwd)
    }

    /// Resolve a guest path string to the absolute location it denotes in
    /// this session (pure: no node is touched).
    pub fn locate(&self, s: &str) -> (r: Vec<String>)
        ensures
            r.deep_view() == locate_spec(self@, s@),
            self.wf() ==> segments_wf(r.deep_view()),
    {
        let p = parse_path(s);
        let r = resolve_against(&self.cwd, &p);
        proof {
            if self.wf() {
                lemma_locate_wf(self@, s@);
            }
        }
        r
    }

    fn find_index(&self, key: &Vec<String>) -> (r: Option<usize>)
        requires
            self.inv(),
        ensures
            match r {
                Some(i) => i < self.entries@.len() && entry_key(self.entries@[i as int])
                    == key.deep_view() && self@.nodes.dom().contains(key.deep_view())
                    && self@.nodes[key.deep_view()] == self.entries@[i as int].node@,
                None => !self@.nodes.dom().contains(key.deep_view()),
            },
    {
        let ghost k = key.deep_view();
        let mut i: usize = 0;
        while i < self.entries.len()
            invariant
                self.inv(),
                i <= self.entries@.len(),
                k == key.deep_view(),
                forall|j: int| 0 <= j < i ==> entry_key(#[trigger] self.entries@[j]) != k,
            decreases self.entries@.len() - i,
        {
            if segments_eq(&self.entries[i].path, key) {
                proof {
                    lemma_store_map_index(self.entries@, i as int);
                }
                return Some(i);
            }
            i = i + 1;
        }
        proof {
            lemma_store_map_absent(self.entries@, k);
        }
        None
    }

    /// Whether any node exists at a resolved location.
    pub fn exists_at(&self, key: &Vec<String>) -> (r: bool)
        requires
            self.wf(),
        ensures
            r == self@.nodes.dom().contains(key.deep_view()),
    {
        self.find_index(key).is_some()
    }

    /// Whether a regular file exists at a resolved location.
    pub fn is_file_at(&self, key: &Vec<String>) -> (r: bool)
        requires
            self.wf(),
        ensures
            r == (self@.nodes.dom().contains(key.deep_view()) && self@.nodes[key.deep_view()]
                is File),
    {
        match self.find_index(key) {
            Some(i) => match &self.entries[i].node {
                Node::File(_) => true,
                Node::Dir => false,
            },
            None => false,
        }
    }

    /// Whether a directory exists at a resolved location.
    pub fn is_dir_at(&self, key: &Vec<String>) -> (r: bool)
        requires
            self.wf(),
        ensures
            r == (self@.nodes.dom().contains(key.deep_view()) && self@.nodes[key.deep_view()]
                is Dir),
    {
        match self.find_index(key) {
            Some(i) => match &self.entries[i].node {
                Node::File(_) => false,
                Node::Dir => true,
            },
            None => false,
        }
    }

    /// Read the whole regular file at a resolved location.
    pub fn read_at(&self, key: &Vec<String>) -> (r: Option<Vec<u8>>)
        requires
            self.wf(),
        ensures
            match r {
                Some(data) => self@.nodes.dom().contains(key.deep_view())
                    && self@.nodes[key.deep_view()] == NodeModel::File(data@),
                None => !(self@.nodes.dom().contains(key.deep_view())
                    && self@.nodes[key.deep_view()] is File),
            },
    {
        match self.find_index(key) {
            Some(i) => match &self.entries[i].node {
                Node::File(data) => Some(clone_bytes(data)),
                Node::Dir => None,
            },
            None => None,
        }
    }

    /// The length in bytes of the regular file at a resolved location.
    pub fn file_len_at(&self, key: &Vec<String>) -> (r: Option<usize>)
        requires
            self.wf(),
        ensures
            match r {
                Some(n) => self@.nodes.dom().contains(key.deep_view())
                    && self@.nodes[key.deep_view()] is File && self@.nodes[key.deep_view()]->File_0.len()
                    == n,
                None => !(self@.nodes.dom().contains(key.deep_view())
                    && self@.nodes[key.deep_view()] is File),
            },
    {
        match self.find_index(key) {
            Some(i) => match &self.entries[i].node {
                Node::File(data) => Some(data.len()),
                Node::Dir => None,
            },
            None => None,
        }
    }

    /// Change the working directory. Succeeds exactly when the location names
    /// an existing directory; fails without any change otherwise.
    pub fn set_working_directory(&mut self, key: &Vec<String>) -> (r: bool)
        requires
            old(self).wf(),
            segments_wf(key.deep_view()),
        ensures
            final(self).wf(),
            final(self)@.nodes == old(self)@.nodes,
            final(self)@.home == old(self)@.home,
            r == (old(self)@.nodes.dom().contains(key.deep_view())
                && old(self)@.nodes[key.deep_view()] is Dir),
            r ==> final(self)@.cwd == key.deep_view(),
            !r ==> final(self)@.cwd == old(self)@.cwd,
    {
        if self.is_dir_at(key) {
            self.cwd = clone_segments(key);
            true
        } else {
            false
        }
    }
}

/// When creating or overwriting the regular file at `k` succeeds: `k` is not
/// the root, no directory sits at `k`, and its parent is an existing
/// directory.
pub open spec fn write_allowed(m: Map<Seq<Seq<char>>, NodeModel>, k: Seq<Seq<char>>) -> bool {
    &&& k.len() > 0
    &&& !(m.dom().contains(k) && m[k] is Dir)
    &&& m.dom().contains(k.drop_last()) && m[k.drop_last()] is Dir
}

/// When removing the node at `k` succeeds: it exists, is not the root, is not
/// the working directory, and is a regular file or a childless directory.
pub open spec fn remove_allowed(
    m: Map<Seq<Seq<char>>, NodeModel>,
    k: Seq<Seq<char>>,
    cwd: Seq<Seq<char>>,
) -> bool {
    &&& m.dom().contains(k)
    &&& k.len() > 0
    &&& k != cwd
    &&& (m[k] is File || !has_child(m, k))
}

/// When creating the directory at `p` (with intermediate directories)
/// succeeds: no prefix of `p` is occupied by a regular file.
pub open spec fn dirs_allowed(m: Map<Seq<Seq<char>>, NodeModel>, p: Seq<Seq<char>>) -> bool {
    forall|j: int|
        0 <= j <= p.len() ==> !(m.dom().contains(#[trigger] p.take(j)) && m[p.take(j)] is File)
}

/// The store after creating the directory at `p` together with every missing
/// intermediate directory.
pub open spec fn with_dirs(m: Map<Seq<Seq<char>>, NodeModel>, p: Seq<Seq<char>>) -> Map<
    Seq<Seq<char>>,
    NodeModel,
> {
    Map::new(
        |k: Seq<Seq<char>>| m.dom().contains(k) || is_path_prefix(k, p),
        |k: Seq<Seq<char>>|
            if m.dom().contains(k) {
                m[k]
            } else {
                NodeModel::Dir
            },
    )
}

/// A store holding only the sandbox root.
pub open spec fn root_map() -> Map<Seq<Seq<char>>, NodeModel> {
    Map::empty().insert(Seq::empty(), NodeModel::Dir)
}

spec fn with_dirs_upto(m: Map<Seq<Seq<char>>, NodeModel>, p: Seq<Seq<char>>, c: int) -> Map<
    Seq<Seq<char>>,
    NodeModel,
> {
    Map::new(
        |k: Seq<Seq<char>>| m.dom().contains(k) || (is_path_prefix(k, p) && k.len() <= c),
        |k: Seq<Seq<char>>|
            if m.dom().contains(k) {
                m[k]
            } else {
                NodeModel::Dir
            },
    )
}

proof fn lemma_unique_remove(s: Seq<Entry>, i: int)
    requires
        unique_keys(s),
        0 <= i < s.len(),
    ensures
        unique_keys(s.remove(i)),
        forall|j: int|
            0 <= j < s.remove(i).len() ==> entry_key(#[trigger] s.remove(i)[j]) != entry_key(s[i]),
{
    s.remove_ensures(i);
    assert forall|a: int, b: int|
        0 <= a < b < s.remove(i).len() implies entry_key(#[trigger] s.remove(i)[a]) != entry_key(
        #[trigger] s.remove(i)[b],
    ) by {
        if a < i {
            assert(s.remove(i)[a] == s[a]);
        } else {
            assert(s.remove(i)[a] == s[a + 1]);
        }
        if b < i {
            assert(s.remove(i)[b] == s[b]);
        } else {
            assert(s.remove(i)[b] == s[b + 1]);
        }
    }
    assert forall|j: int| 0 <= j < s.remove(i).len() implies entry_key(#[trigger] s.remove(i)[j])
        != entry_key(s[i]) by {
        if j < i {
            assert(s.remove(i)[j] == s[j]);
        } else {
            assert(s.remove(i)[j] == s[j + 1]);
        }
    }
}

proof fn lemma_absent_keys(s: Seq<Entry>, k: Seq<Seq<char>>)
    requires
        unique_keys(s),
        !store_map(s).dom().contains(k),
    ensures
        forall|i: int| 0 <= i < s.len() ==> entry_key(#[trigger] s[i]) != k,
{
    assert forall|i: int| 0 <= i < s.len() implies entry_key(#[trigger] s[i]) != k by {
        lemma_store_map_index(s, i);
    }
}

proof fn lemma_map_wf_insert_file(m: Map<Seq<Seq<char>>, NodeModel>, k: Seq<Seq<char>>, d: Seq<u8>)
    requires
        map_wf(m),
        segments_wf(k),
        write_allowed(m, k),
    ensures
        map_wf(m.insert(k, NodeModel::File(d))),
{
    let m2 = m.insert(k, NodeModel::File(d));
    assert(k != Seq::<Seq<char>>::empty());
    assert forall|k2: Seq<Seq<char>>|
        m2.dom().contains(k2) && k2.len() > 0 implies m2.dom().contains(
        #[trigger] k2.drop_last(),
    ) && m2[k2.drop_last()] == NodeModel::Dir by {
        if k2 == k {
            assert(k.drop_last().len() != k.len());
        } else {
            assert(m.dom().contains(k2));
            if k2.drop_last() == k {
                assert(m[k] == NodeModel::Dir);
                assert(false);
            }
        }
    }
}

proof fn lemma_map_wf_remove(m: Map<Seq<Seq<char>>, NodeModel>, k: Seq<Seq<char>>)
    requires
        map_wf(m),
        m.dom().contains(k),
        k.len() > 0,
        m[k] is File || !has_child(m, k),
    ensures
        map_wf(m.remove(k)),
{
    let m2 = m.remove(k);
    assert(k != Seq::<Seq<char>>::empty());
    assert forall|k2: Seq<Seq<char>>|
        m2.dom().contains(k2) && k2.len() > 0 implies m2.dom().contains(
        #[trigger] k2.drop_last(),
    ) && m2[k2.drop_last()] == NodeModel::Dir by {
        assert(m.dom().contains(k2));
        if k2.drop_last() == k {
            assert(m[k] == NodeModel::Dir);
            assert(has_child(m, k));
            assert(false);
        }
    }
}

impl Fs {
    /// Create a fresh sandbox session over an externally supplied home
    /// directory: the store holds the root directory and the home directory
    /// chain, and the working directory starts at the sandbox root.
    pub fn new(home: &str) -> (fs: Fs)
        ensures
            fs.wf(),
            fs@.cwd == Seq::<Seq<char>>::empty(),
            fs@.home == resolve_spec(Seq::empty(), parse_spec(home@)),
            fs@.nodes == with_dirs(root_map(), fs@.home),
    {
        let empty_base: Vec<String> = Vec::new();
        let hp = parse_path(home);
        let hk = resolve_against(&empty_base, &hp);
        proof {
            assert(empty_base.deep_view() =~= Seq::<Seq<char>>::empty());
            lemma_parse_segments_nonempty(home@);
            lemma_sandbox_containment(Seq::empty(), parse_spec(home@).segments);
            if !parse_spec(home@).absolute {
                assert(hk.deep_view() == resolve_spec(Seq::empty(), parse_spec(home@)));
            }
        }
        let home_field = clone_segments(&hk);
        let root_entry = Entry { path: Vec::new(), node: Node::Dir };
        proof {
            assert(root_entry.path.deep_view() =~= Seq::<Seq<char>>::empty());
        }
        let ghost root_key = root_entry.path.deep_view();
        let mut entries0: Vec<Entry> = Vec::new();
        entries0.push(root_entry);
        proof {
            assert(entries0@.len() == 1);
        }
        let mut fs = Fs { home: home_field, cwd: Vec::new(), entries: entries0 };
        proof {
            let s = fs.entries@;
            assert(s.len() == 1);
            assert(s.drop_last() =~= Seq::<Entry>::empty());
            assert(store_map(s.drop_last()) == Map::<Seq<Seq<char>>, NodeModel>::empty());
            assert(entry_key(s.last()) == root_key);
            assert(root_key =~= Seq::<Seq<char>>::empty());
            assert(s.last().node@ == NodeModel::Dir);
            assert(store_map(s) =~= root_map());
            assert(fs.cwd.deep_view() =~= Seq::<Seq<char>>::empty());
            assert(map_wf(fs@.nodes)) by {
                assert forall|k: Seq<Seq<char>>| #[trigger]
                    fs@.nodes.dom().contains(k) implies segments_wf(k) && k.len() == 0 by {
                    assert(k == Seq::<Seq<char>>::empty());
                }
            }
            assert(fs.wf());
            assert(dirs_allowed(fs@.nodes, hk.deep_view())) by {
                assert forall|j: int|
                    0 <= j <= hk.deep_view().len() && fs@.nodes.dom().contains(
                        #[trigger] hk.deep_view().take(j),
                    ) implies !(fs@.nodes[hk.deep_view().take(j)] is File) by {
                    assert(hk.deep_view().take(j) == Seq::<Seq<char>>::empty());
                }
            }
        }
        let ghost m0 = fs@.nodes;
        let created = fs.create_dir_at(&hk);
        proof {
            assert(created);
            assert(fs@.nodes == with_dirs(m0, hk.deep_view()));
            assert(with_dirs(m0, hk.deep_view()) =~= with_dirs(root_map(), fs@.home));
        }
        fs
    }

    /// Create or overwrite the regular file at a resolved location with the
    /// given contents (non-atomically, as the guest contract has it).
    /// Succeeds exactly when the location is not the root, holds no
    /// directory, and its parent is an existing directory; fails without any
    /// change otherwise.
    pub fn write_at(&mut self, key: &Vec<String>, data: Vec<u8>) -> (r: bool)
        requires
            old(self).wf(),
            segments_wf(key.deep_view()),
        ensures
            final(self).wf(),
            final(self)@.home == old(self)@.home,
            final(self)@.cwd == old(self)@.cwd,
            r == write_allowed(old(self)@.nodes, key.deep_view()),
            r ==> final(self)@.nodes == old(self)@.nodes.insert(
                key.deep_view(),
                NodeModel::File(data@),
            ),
            !r ==> final(self)@.nodes == old(self)@.nodes,
    {
        let ghost k = key.deep_view();
        let ghost m0 = self@.nodes;
        if key.len() == 0 {
            return false;
        }
        let mut parent = clone_segments(key);
        parent.pop();
        proof {
            assert(parent.deep_view() =~= k.drop_last());
        }
        if !self.is_dir_at(&parent) {
            return false;
        }
        let new_entry = Entry { path: clone_segments(key), node: Node::File(data) };
        let ghost ndata = new_entry.node@;
        match self.find_index(key) {
            Some(i) => {
                match &self.entries[i].node {
                    Node::Dir => false,
                    Node::File(_) => {
                        proof {
                            lemma_store_map_remove(self.entries@, i as int);
                            lemma_unique_remove(self.entries@, i as int);
                        }
                        let ghost s1 = self.entries@.remove(i as int);
                        self.entries.remove(i);
                        proof {
                            assert(self.entries@ == s1);
                            lemma_store_map_push(self.entries@, new_entry);
                        }
                        self.entries.push(new_entry);
                        proof {
                            assert(store_map(self.entries@) =~= m0.insert(k, ndata));
                            assert(unique_keys(self.entries@)) by {
                                assert(forall|j: int|
                                    0 <= j < s1.len() ==> entry_key(#[trigger] s1[j]) != k);
                            }
                            lemma_map_wf_insert_file(m0, k, data@);
                            assert(old(self)@.cwd != k);
                            assert(final(self).wf());
                        }
                        true
                    },
                }
            },
            None => {
                proof {
                    lemma_absent_keys(self.entries@, k);
                    lemma_store_map_push(self.entries@, new_entry);
                }
                self.entries.push(new_entry);
                proof {
                    assert(store_map(self.entries@) == m0.insert(k, ndata));
                    assert(unique_keys(self.entries@));
                    lemma_map_wf_insert_file(m0, k, data@);
                    assert(old(self)@.cwd != k);
                    assert(final(self).wf());
                }
                true
            },
        }
    }

    /// Remove the regular file or empty directory at a resolved location.
    /// Fails without any change when nothing is there, or the location is the
    /// root, the working directory, or a directory that still has children.
    pub fn remove_at(&mut self, key: &Vec<String>) -> (r: bool)
        requires
            old(self).wf(),
        ensures
            final(self).wf(),
            final(self)@.home == old(self)@.home,
            final(self)@.cwd == old(self)@.cwd,
            r == remove_allowed(old(self)@.nodes, key.deep_view(), old(self)@.cwd),
            r ==> final(self)@.nodes == old(self)@.nodes.remove(key.deep_view()),
            !r ==> final(self)@.nodes == old(self)@.nodes,
    {
        let ghost k = key.deep_view();
        let ghost m0 = self@.nodes;
        if key.len() == 0 {
            return false;
        }
        if segments_eq(key, &self.cwd) {
            return false;
        }
        let i = match self.find_index(key) {
            Some(i) => i,
            None => {
                return false;
            },
        };
        let is_file = match &self.entries[i].node {
            Node::File(_) => true,
            Node::Dir => false,
        };
        if !is_file {
            proof {
                assert(m0.dom().contains(k) && m0[k] is Dir);
            }
            let mut j: usize = 0;
            while j < self.entries.len()
                invariant
                    self.inv(),
                    old(self).wf(),
                    *self == *old(self),
                    m0 == self@.nodes,
                    j <= self.entries@.len(),
                    k == key.deep_view(),
                    k.len() > 0,
                    k != self@.cwd,
                    m0.dom().contains(k) && m0[k] is Dir,
                    forall|jj: int|
                        0 <= jj < j ==> !(entry_key(#[trigger] self.entries@[jj]).len() > 0
                            && entry_key(self.entries@[jj]).drop_last() == k),
                decreases self.entries@.len() - j,
            {
                let ghost ek = entry_key(self.entries@[j as int]);
                proof {
                    assert(ek.len() == self.entries@[j as int].path@.len());
                }
                let e_len = self.entries[j].path.len();
                if e_len >= 1 && e_len - 1 == key.len() && starts_with(&self.entries[j].path, key) {
                    proof {
                        assert(ek.len() == k.len() + 1);
                        assert(ek.drop_last() =~= k);
                        lemma_store_map_index(self.entries@, j as int);
                        assert(has_child(m0, k));
                    }
                    return false;
                }
                proof {
                    if ek.len() > 0 && ek.drop_last() == k {
                        assert(ek.len() == k.len() + 1);
                        assert(is_path_prefix(k, ek)) by {
                            assert(k =~= ek.take(k.len() as int));
                        }
                        assert(false);
                    }
                }
                j = j + 1;
            }
            proof {
                assert(!has_child(m0, k)) by {
                    if has_child(m0, k) {
                        let k2 = choose|k2: Seq<Seq<char>>| #[trigger]
                            m0.dom().contains(k2) && k2.len() > 0 && k2.drop_last() == k;
                        lemma_store_map_covered(self.entries@, k2);
                        let jj = choose|jj: int|
                            0 <= jj < self.entries@.len() && entry_key(#[trigger] self.entries@[jj])
                                == k2;
                        assert(false);
                    }
                }
            }
        }
        proof {
            lemma_store_map_remove(self.entries@, i as int);
            lemma_unique_remove(self.entries@, i as int);
            lemma_map_wf_remove(m0, k);
        }
        self.entries.remove(i);
        proof {
            assert(final(self).wf());
        }
        true
    }

    /// Create the directory at a resolved location, creating every missing
    /// intermediate directory. Succeeds exactly when no prefix of the
    /// location is occupied by a regular file (in particular, an existing
    /// directory there counts as success); fails without any change
    /// otherwise.
    pub fn create_dir_at(&mut self, key: &Vec<String>) -> (r: bool)
        requires
            old(self).wf(),
            segments_wf(key.deep_view()),
        ensures
            final(self).wf(),
            final(self)@.home == old(self)@.home,
            final(self)@.cwd == old(self)@.cwd,
            r == dirs_allowed(old(self)@.nodes, key.deep_view()),
            r ==> final(self)@.nodes == with_dirs(old(self)@.nodes, key.deep_view()),
            !r ==> final(self)@.nodes == old(self)@.nodes,
    {
        let ghost k = key.deep_view();
        let ghost m0 = self@.nodes;
        // First pass: check that no prefix is occupied by a regular file, so
        // that a failed call leaves the store untouched.
        let mut prefix: Vec<String> = Vec::new();
        proof {
            assert(prefix.deep_view() =~= k.take(0));
            assert(k.take(0) =~= Seq::<Seq<char>>::empty());
            assert(!(m0[k.take(0)] is File));
        }
        let mut j: usize = 0;
        while j < key.len()
            invariant
                self.inv(),
                old(self).wf(),
                *self == *old(self),
                m0 == self@.nodes,
                k == key.deep_view(),
                j <= key@.len(),
                key@.len() == k.len(),
                prefix.deep_view() == k.take(j as int),
                forall|jj: int|
                    0 <= jj <= j ==> !(m0.dom().contains(#[trigger] k.take(jj))
                        && m0[k.take(jj)] is File),
            decreases key@.len() - j,
        {
            let ghost pre0 = prefix.deep_view();
            prefix.push(key[j].clone());
            proof {
                assert(prefix.deep_view() =~= pre0.push(k[j as int]));
                assert(k.take(j + 1) =~= k.take(j as int).push(k[j as int]));
            }
            match self.find_index(&prefix) {
                Some(i) => {
                    match &self.entries[i].node {
                        Node::File(_) => {
                            proof {
                                assert(m0.dom().contains(k.take(j + 1)) && m0[k.take(j + 1)]
                                    is File);
                                assert(!dirs_allowed(m0, k));
                            }
                            return false;
                        },
                        Node::Dir => {},
                    }
                },
                None => {},
            }
            j = j + 1;
        }
        proof {
            if key@.len() == 0 {
                assert(k.take(0) =~= Seq::<Seq<char>>::empty());
                assert(!(m0[Seq::empty()] is File));
            }
            assert(dirs_allowed(m0, k));
        }
        // Second pass: insert every missing prefix, shortest first.
        let mut prefix2: Vec<String> = Vec::new();
        proof {
            assert(prefix2.deep_view() =~= k.take(0));
            assert(with_dirs_upto(m0, k, 0) =~= m0) by {
                assert(k.take(0) =~= Seq::<Seq<char>>::empty());
                assert(m0.dom().contains(k.take(0)));
                assert forall|x: Seq<Seq<char>>|
                    is_path_prefix(x, k) && x.len() <= 0 implies m0.dom().contains(x) by {
                    assert(x =~= k.take(0));
                }
            }
        }
        let mut c: usize = 0;
        while c < key.len()
            invariant
                self.inv(),
                map_wf(self@.nodes),
                segments_wf(self@.cwd),
                segments_wf(self@.home),
                self@.nodes.dom().contains(self@.cwd),
                self@.nodes[self@.cwd] == NodeModel::Dir,
                self@.home == old(self)@.home,
                self@.cwd == old(self)@.cwd,
                m0 == old(self)@.nodes,
                k == key.deep_view(),
                segments_wf(k),
                c <= key@.len(),
                key@.len() == k.len(),
                prefix2.deep_view() == k.take(c as int),
                dirs_allowed(m0, k),
                self@.nodes == with_dirs_upto(m0, k, c as int),
            decreases key@.len() - c,
        {
            let ghost mc = self@.nodes;
            let ghost pre0 = prefix2.deep_view();
            prefix2.push(key[c].clone());
            proof {
                assert(prefix2.deep_view() =~= pre0.push(k[c as int]));
                assert(k.take(c + 1) =~= k.take(c as int).push(k[c as int]));
            }
            let ghost pk = k.take(c + 1);
            match self.find_index(&prefix2) {
                Some(_) => {
                    proof {
                        assert(self@.nodes =~= with_dirs_upto(m0, k, c + 1)) by {
                            assert(mc.dom().contains(pk));
                            assert(forall|x: Seq<Seq<char>>|
                                is_path_prefix(x, k) && x.len() <= c + 1 && x.len() > c ==> x
                                    =~= pk);
                        }
                    }
                },
                None => {
                    let new_entry = Entry { path: clone_segments(&prefix2), node: Node::Dir };
                    proof {
                        lemma_absent_keys(self.entries@, pk);
                        lemma_store_map_push(self.entries@, new_entry);
                    }
                    self.entries.push(new_entry);
                    proof {
                        assert(unique_keys(self.entries@));
                        assert(self@.nodes == mc.insert(pk, NodeModel::Dir));
                        assert(self@.nodes =~= with_dirs_upto(m0, k, c + 1)) by {
                            assert(forall|x: Seq<Seq<char>>|
                                is_path_prefix(x, k) && x.len() <= c + 1 && x.len() > c ==> x
                                    =~= pk);
                        }
                        assert(map_wf(self@.nodes)) by {
                            assert(pk.drop_last() =~= k.take(c as int));
                            assert(mc.dom().contains(k.take(c as int)));
                            assert(!(mc[k.take(c as int)] is File)) by {
                                if m0.dom().contains(k.take(c as int)) {
                                    assert(mc[k.take(c as int)] == m0[k.take(c as int)]);
                                }
                            }
                            assert(segments_wf(pk)) by {
                                assert(forall|t: int| 0 <= t < pk.len() ==> pk[t] == k[t]);
                            }
                            assert forall|k2: Seq<Seq<char>>|
                                self@.nodes.dom().contains(k2) && k2.len() > 0 implies self
                                @.nodes.dom().contains(#[trigger] k2.drop_last()) && self@.nodes[k2.drop_last()]
                                == NodeModel::Dir by {
                                if k2 != pk {
                                    assert(mc.dom().contains(k2));
                                    assert(mc.dom().contains(k2.drop_last()) && mc[k2.drop_last()]
                                        == NodeModel::Dir);
                                    assert(k2.drop_last() != pk);
                                }
                            }
                        }
                        assert(self@.cwd != pk);
                    }
                },
            }
            c = c + 1;
        }
        proof {
            assert(self@.nodes =~= with_dirs(m0, k)) by {
                assert(forall|x: Seq<Seq<char>>| is_path_prefix(x, k) ==> x.len() <= k.len());
            }
        }
        true
    }

    /// List the names of the immediate children of the directory at a
    /// resolved location — every child once and nothing else — or fail when
    /// no directory is there.
    pub fn list_children_at(&self, key: &Vec<String>) -> (r: Option<Vec<String>>)
        requires
            self.wf(),
        ensures
            match r {
                Some(names) => {
                    &&& self@.nodes.dom().contains(key.deep_view()) && self@.nodes[key.deep_view()]
                        is Dir
                    &&& children_listing(self@.nodes, key.deep_view(), names.deep_view())
                },
                None => !(self@.nodes.dom().contains(key.deep_view()) && self@.nodes[key.deep_view()]
                    is Dir),
            },
    {
        let ghost k = key.deep_view();
        if !self.is_dir_at(key) {
            return None;
        }
        let mut names: Vec<String> = Vec::new();
        let mut i: usize = 0;
        while i < self.entries.len()
            invariant
                self.wf(),
                i <= self.entries@.len(),
                k == key.deep_view(),
                forall|q: Seq<char>|
                    names.deep_view().contains(q) <==> exists|j: int|
                        0 <= j < i && entry_key(#[trigger] self.entries@[j]) == k.push(q),
                forall|a: int, b: int|
                    0 <= a < b < names.deep_view().len() ==> names.deep_view()[a]
                        != names.deep_view()[b],
            decreases self.entries@.len() - i,
        {
            let ghost ek = entry_key(self.entries@[i as int]);
            let ghost names0 = names.deep_view();
            let e_len = self.entries[i].path.len();
            if e_len >= 1 && e_len - 1 == key.len() && starts_with(&self.entries[i].path, key) {
                proof {
                    assert(ek.drop_last() =~= k);
                    assert(ek =~= k.push(ek.last()));
                }
                let name = self.entries[i].path[e_len - 1].clone();
                proof {
                    assert(name@ == ek.last());
                    if names0.contains(name@) {
                        let j = choose|j: int|
                            0 <= j < i && entry_key(#[trigger] self.entries@[j]) == k.push(name@);
                        assert(entry_key(self.entries@[j]) == entry_key(self.entries@[i as int]));
                        assert(false);
                    }
                }
                names.push(name);
                proof {
                    assert(names.deep_view() =~= names0.push(ek.last()));
                    assert forall|q: Seq<char>|
                        names.deep_view().contains(q) <==> exists|j: int|
                            0 <= j < i + 1 && entry_key(#[trigger] self.entries@[j]) == k.push(
                                q,
                            ) by {
                        if names.deep_view().contains(q) {
                            if names0.contains(q) {
                            } else {
                                assert(q == ek.last());
                                assert(entry_key(self.entries@[i as int]) == k.push(q));
                            }
                        }
                        if exists|j: int|
                            0 <= j < i + 1 && entry_key(#[trigger] self.entries@[j]) == k.push(q) {
                            let j = choose|j: int|
                                0 <= j < i + 1 && entry_key(#[trigger] self.entries@[j]) == k.push(
                                    q,
                                );
                            if j == i {
                                assert(q == k.push(q).last());
                                assert(names.deep_view().last() == ek.last());
                            } else {
                                assert(names0.contains(q));
                            }
                            assert(names.deep_view().contains(q)) by {
                                if q == ek.last() {
                                    assert(names.deep_view()[names.deep_view().len() - 1] == q);
                                } else {
                                    let t = choose|t: int|
                                        0 <= t < names0.len() && names0[t] == q;
                                    assert(names.deep_view()[t] == q);
                                }
                            }
                        }
                    }
                }
            } else {
                proof {
                    assert forall|q: Seq<char>|
                        names.deep_view().contains(q) <==> exists|j: int|
                            0 <= j < i + 1 && entry_key(#[trigger] self.entries@[j]) == k.push(
                                q,
                            ) by {
                        if exists|j: int|
                            0 <= j < i + 1 && entry_key(#[trigger] self.entries@[j]) == k.push(q) {
                            let j = choose|j: int|
                                0 <= j < i + 1 && entry_key(#[trigger] self.entries@[j]) == k.push(
                                    q,
                                );
                            if j == i {
                                assert(ek == k.push(q));
                                assert(ek.len() == k.len() + 1);
                                assert(ek.drop_last() =~= k);
                                assert(is_path_prefix(k, ek)) by {
                                    assert(k =~= ek.take(k.len() as int));
                                }
                                assert(false);
                            }
                            assert(j < i);
                        }
                    }
                }
            }
            i = i + 1;
        }
        proof {
            assert forall|q: Seq<char>|
                names.deep_view().contains(q) <==> self@.nodes.dom().contains(k.push(q)) by {
                if names.deep_view().contains(q) {
                    let j = choose|j: int|
                        0 <= j < self.entries@.len() && entry_key(#[trigger] self.entries@[j])
                            == k.push(q);
                    lemma_store_map_index(self.entries@, j);
                }
                if self@.nodes.dom().contains(k.push(q)) {
                    lemma_store_map_covered(self.entries@, k.push(q));
                }
            }
        }
        Some(names)
    }

    /// Collect the whole subtree under the directory at a resolved location,
    /// as paths relative to it — every descendant once and nothing else — or
    /// fail when no directory is there.
    pub fn enumerate_recursive_at(&self, key: &Vec<String>) -> (r: Option<Vec<VirtualPath>>)
        requires
            self.wf(),
        ensures
            match r {
                Some(found) => {
                    &&& self@.nodes.dom().contains(key.deep_view()) && self@.nodes[key.deep_view()]
                        is Dir
                    &&& snapshot_of(self@.nodes, key.deep_view(), found.deep_view())
                },
                None => !(self@.nodes.dom().contains(key.deep_view()) && self@.nodes[key.deep_view()]
                    is Dir),
            },
    {
        let ghost k = key.deep_view();
        if !self.is_dir_at(key) {
            return None;
        }
        let mut found: Vec<VirtualPath> = Vec::new();
        let mut i: usize = 0;
        while i < self.entries.len()
            invariant
                self.wf(),
                i <= self.entries@.len(),
                k == key.deep_view(),
                forall|j: int|
                    0 <= j < found.deep_view().len() ==> !(#[trigger] found.deep_view()[j]).absolute
                        && found.deep_view()[j].segments.len() > 0 && covers(
                        self.entries@,
                        i as int,
                        k,
                        found.deep_view()[j].segments,
                    ),
                forall|jj: int|
                    0 <= jj < i && entry_key(#[trigger] self.entries@[jj]).len() > k.len()
                        && is_path_prefix(k, entry_key(self.entries@[jj])) ==> listed(
                        found.deep_view(),
                        entry_key(self.entries@[jj]).skip(k.len() as int),
                    ),
                forall|a: int, b: int|
                    0 <= a < b < found.deep_view().len() ==> found.deep_view()[a].segments
                        != found.deep_view()[b].segments,
            decreases self.entries@.len() - i,
        {
            let ghost ek = entry_key(self.entries@[i as int]);
            let ghost found0 = found.deep_view();
            let e_len = self.entries[i].path.len();
            if e_len > key.len() && starts_with(&self.entries[i].path, key) {
                let ghost q = ek.skip(k.len() as int);
                proof {
                    assert(ek =~= k + q);
                    assert(q.len() > 0);
                }
                let mut suffix: Vec<String> = Vec::new();
                let mut t: usize = key.len();
                proof {
                    assert(suffix.deep_view() =~= ek.subrange(k.len() as int, k.len() as int));
                }
                while t < e_len
                    invariant
                        self.wf(),
                        i < self.entries@.len(),
                        ek == entry_key(self.entries@[i as int]),
                        k.len() <= t <= e_len,
                        e_len == ek.len(),
                        k == key.deep_view(),
                        suffix.deep_view() == ek.subrange(k.len() as int, t as int),
                    decreases e_len - t,
                {
                    let ghost suf0 = suffix.deep_view();
                    suffix.push(self.entries[i].path[t].clone());
                    proof {
                        assert(suffix.deep_view() =~= suf0.push(ek[t as int]));
                        assert(ek.subrange(k.len() as int, t + 1) =~= ek.subrange(
                            k.len() as int,
                            t as int,
                        ).push(ek[t as int]));
                    }
                    t = t + 1;
                }
                proof {
                    assert(suffix.deep_view() =~= q);
                    if listed(found0, q) {
                        let j = choose|j: int|
                            0 <= j < found0.len() && (#[trigger] found0[j]).segments == q;
                        assert(covers(self.entries@, i as int, k, q));
                        let jj = choose|jj: int|
                            0 <= jj < i && entry_key(#[trigger] self.entries@[jj]) == k + q;
                        assert(entry_key(self.entries@[jj]) == entry_key(
                            self.entries@[i as int],
                        ));
                        assert(false);
                    }
                }
                let vp = VirtualPath { absolute: false, segments: suffix };
                proof {
                    assert(vp.deep_view().segments == q);
                    assert(!vp.deep_view().absolute);
                }
                found.push(vp);
                proof {
                    assert(found.deep_view() =~= found0.push(vp.deep_view()));
                    assert forall|j: int|
                        0 <= j < found.deep_view().len() implies !(#[trigger] found.deep_view()[j]).absolute
                        && found.deep_view()[j].segments.len() > 0 && covers(
                        self.entries@,
                        i + 1,
                        k,
                        found.deep_view()[j].segments,
                    ) by {
                        if j < found0.len() {
                            assert(found.deep_view()[j] == found0[j]);
                            assert(covers(self.entries@, i as int, k, found0[j].segments));
                            let jj = choose|jj: int|
                                0 <= jj < i && entry_key(#[trigger] self.entries@[jj]) == k
                                    + found0[j].segments;
                            assert(0 <= jj < i + 1 && entry_key(self.entries@[jj]) == k
                                + found.deep_view()[j].segments);
                        } else {
                            assert(found.deep_view()[j] == vp.deep_view());
                            assert(entry_key(self.entries@[i as int]) == k + q);
                            assert(0 <= i < i + 1);
                        }
                    }
                    assert forall|jj: int|
                        0 <= jj < i + 1 && entry_key(#[trigger] self.entries@[jj]).len() > k.len()
                            && is_path_prefix(k, entry_key(self.entries@[jj])) implies listed(
                        found.deep_view(),
                        entry_key(self.entries@[jj]).skip(k.len() as int),
                    ) by {
                        if jj == i {
                            assert(found.deep_view()[found0.len() as int].segments == q);
                        } else {
                            assert(listed(found0, entry_key(self.entries@[jj]).skip(
                                k.len() as int,
                            )));
                            let j = choose|j: int|
                                0 <= j < found0.len() && (#[trigger] found0[j]).segments
                                    == entry_key(self.entries@[jj]).skip(k.len() as int);
                            assert(found.deep_view()[j].segments == entry_key(
                                self.entries@[jj],
                            ).skip(k.len() as int));
                        }
                    }
                }
            } else {
                proof {
                    assert(!(ek.len() > k.len() && is_path_prefix(k, ek)));
                    assert forall|j: int|
                        0 <= j < found.deep_view().len() implies !(#[trigger] found.deep_view()[j]).absolute
                        && found.deep_view()[j].segments.len() > 0 && covers(
                        self.entries@,
                        i + 1,
                        k,
                        found.deep_view()[j].segments,
                    ) by {
                        assert(covers(self.entries@, i as int, k, found.deep_view()[j].segments));
                        let jj = choose|jj: int|
                            0 <= jj < i && entry_key(#[trigger] self.entries@[jj]) == k
                                + found.deep_view()[j].segments;
                        assert(0 <= jj < i + 1);
                    }
                }
            }
            i = i + 1;
        }
        proof {
            assert forall|j: int|
                0 <= j < found.deep_view().len() implies !(#[trigger] found.deep_view()[j]).absolute
                && found.deep_view()[j].segments.len() > 0 && self@.nodes.dom().contains(
                k + found.deep_view()[j].segments,
            ) by {
                assert(covers(
                    self.entries@,
                    self.entries@.len() as int,
                    k,
                    found.deep_view()[j].segments,
                ));
                let jj = choose|jj: int|
                    0 <= jj < self.entries@.len() && entry_key(#[trigger] self.entries@[jj]) == k
                        + found.deep_view()[j].segments;
                lemma_store_map_index(self.entries@, jj);
            }
            assert forall|k2: Seq<Seq<char>>|
                #[trigger] self@.nodes.dom().contains(k2) && is_path_prefix(k, k2) && k2.len()
                    > k.len() implies listed(found.deep_view(), k2.skip(k.len() as int)) by {
                lemma_store_map_covered(self.entries@, k2);
                let jj = choose|jj: int|
                    0 <= jj < self.entries@.len() && entry_key(#[trigger] self.entries@[jj]) == k2;
                assert(entry_key(self.entries@[jj]).len() > k.len());
                assert(is_path_prefix(k, entry_key(self.entries@[jj])));
            }
        }
        Some(found)
    }
}

/// Whether `parent` is a path prefix of `child`.
fn starts_with(child: &Vec<String>, parent: &Vec<String>) -> (r: bool)
    ensures
        r == is_path_prefix(parent.deep_view(), child.deep_view()),
{
    if parent.len() > child.len() {
        return false;
    }
    let mut i: usize = 0;
    while i < parent.len()
        invariant
            i <= parent@.len(),
            parent@.len() <= child@.len(),
            forall|j: int| 0 <= j < i ==> parent.deep_view()[j] == child.deep_view()[j],
        decreases parent@.len() - i,
    {
        if !parent[i].eq(&child[i]) {
            proof {
                assert(parent.deep_view()[i as int] != child.deep_view()[i as int]);
                assert(child.deep_view().take(parent.deep_view().len() as int)[i as int]
                    == child.deep_view()[i as int]);
            }
            return false;
        }
        i = i + 1;
    }
    proof {
        assert(parent.deep_view() =~= child.deep_view().take(parent.deep_view().len() as int));
    }
    true
}

/// Copy a byte vector.
fn clone_bytes(v: &Vec<u8>) -> (r: Vec<u8>)
    ensures
        r@ == v@,
{
    let mut r: Vec<u8> = Vec::new();
    let mut i: usize = 0;
    while i < v.len()
        invariant
            i <= v@.len(),
            r@ == v@.take(i as int),
        decreases v@.len() - i,
    {
        r.push(v[i]);
        proof {
            assert(v@.take(i + 1) =~= v@.take(i as int).push(v@[i as int]));
        }
        i = i + 1;
    }
    proof {
        assert(v@.take(v@.len() as int) =~= v@);
    }
    r
}

} // verus!
