//! The guest-visible file-operations facade, and the default-instance holder.
//!
//! Every operation takes a guest path (a nullable string), resolves it
//! through the path virtualization layer, performs the storage call, and
//! translates the host outcome into what the guest observes: almost always a
//! boolean, occasionally an optional value. A null path short-circuits to
//! failure without touching storage. Recoverable host failures collapse to
//! `false`; configuration errors and unimplemented failure paths abort the
//! call with an explicit [`Unsupported`] signal (see [`crate::outcome`]).

use vstd::prelude::*;
use crate::enumerator::DirectoryEnumerator;
use crate::outcome::FileAttributes;
use crate::outcome::Unsupported;
use crate::path::is_absolute_string;
use crate::path::path_to_string;
use crate::path::render_spec;
use crate::path::PathModel;
use crate::path::VirtualPath;
use crate::storage::children_listing;
use crate::storage::is_path_prefix;
use crate::storage::locate_spec;
use crate::storage::remove_allowed;
use crate::storage::snapshot_of;
use crate::storage::with_dirs;
use crate::storage::dirs_allowed;
use crate::storage::write_allowed;
use crate::storage::Fs;
use crate::storage::NodeModel;

verus! {

/// The bytes a createFile call stores: the supplied contents, or nothing.
pub open spec fn file_contents_spec(contents: Option<Vec<u8>>) -> Seq<u8> {
    match contents {
        Some(data) => data@,
        None => Seq::empty(),
    }
}

/// fileExistsAtPath: whether any node sits at the path; a null path is false.
/// True for directories as well as regular files.
pub fn file_exists_at_path(fs: &Fs, path: Option<&str>) -> (r: bool)
    requires
        fs.wf(),
    ensures
        r == match path {
            Some(p) => fs@.nodes.dom().contains(locate_spec(fs@, p@)),
            None => false,
        },
{
    match path {
        None => false,
        Some(p) => {
            let key = fs.locate(p);
            fs.exists_at(&key)
        },
    }
}

/// fileExistsAtPath:isDirectory:: the pair (exists, is-directory), where
/// is-directory is NOT(regular file at path) — so a missing non-null path
/// reports (false, true). A null path reports (false, false). The guest
/// boundary writes the second component through the out-parameter when one
/// was supplied.
pub fn file_exists_at_path_is_directory(fs: &Fs, path: Option<&str>) -> (r: (bool, bool))
    requires
        fs.wf(),
    ensures
        match path {
            Some(p) => r.0 == fs@.nodes.dom().contains(locate_spec(fs@, p@)) && r.1 == !(
            fs@.nodes.dom().contains(locate_spec(fs@, p@)) && fs@.nodes[locate_spec(fs@, p@)]
                is File),
            None => r == (false, false),
        },
{
    match path {
        None => (false, false),
        Some(p) => {
            let key = fs.locate(p);
            (fs.exists_at(&key), !fs.is_file_at(&key))
        },
    }
}

/// createFileAtPath:contents:attributes:: true when a regular file already
/// sits at the path (which is left unchanged, never overwritten) or when a
/// file holding the contents — zero bytes if absent — was created
/// (non-atomically). False when a directory is in the way or the parent is
/// missing. Attribute payloads are unimplemented and must be absent.
pub fn create_file_at_path(
    fs: &mut Fs,
    path: Option<&str>,
    contents: Option<Vec<u8>>,
    attributes_present: bool,
) -> (r: Result<bool, Unsupported>)
    requires
        old(fs).wf(),
    ensures
        final(fs).wf(),
        final(fs)@.home == old(fs)@.home,
        final(fs)@.cwd == old(fs)@.cwd,
        match r {
            Err(e) => e == Unsupported::Attributes && attributes_present && final(fs)@.nodes
                == old(fs)@.nodes,
            Ok(b) => !attributes_present && match path {
                None => !b && final(fs)@.nodes == old(fs)@.nodes,
                Some(p) => ({
                    let k = locate_spec(old(fs)@, p@);
                    let m0 = old(fs)@.nodes;
                    if m0.dom().contains(k) && m0[k] is File {
                        b && final(fs)@.nodes == m0
                    } else {
                        b == write_allowed(m0, k) && (b ==> final(fs)@.nodes == m0.insert(
                            k,
                            NodeModel::File(file_contents_spec(contents)),
                        )) && (!b ==> final(fs)@.nodes == m0)
                    }
                }),
            },
        },
{
    if attributes_present {
        return Err(Unsupported::Attributes);
    }
    match path {
        None => Ok(false),
        Some(p) => {
            let key = fs.locate(p);
            if fs.is_file_at(&key) {
                return Ok(true);
            }
            let data = match contents {
                Some(data) => data,
                None => Vec::new(),
            };
            Ok(fs.write_at(&key, data))
        },
    }
}

/// removeItemAtPath:error:: true when the item was removed. On failure with
/// no error out-parameter supplied, false, the out-parameter untouched; on
/// failure with one supplied, the structured error that should fill it is
/// unimplemented and the call aborts with an explicit signal.
pub fn remove_item_at_path(fs: &mut Fs, path: Option<&str>, error_requested: bool) -> (r: Result<
    bool,
    Unsupported,
>)
    requires
        old(fs).wf(),
    ensures
        final(fs).wf(),
        final(fs)@.home == old(fs)@.home,
        final(fs)@.cwd == old(fs)@.cwd,
        match r {
            Err(e) => {
                &&& e == Unsupported::ErrorObject
                &&& error_requested
                &&& match path {
                    None => true,
                    Some(p) => !remove_allowed(
                        old(fs)@.nodes,
                        locate_spec(old(fs)@, p@),
                        old(fs)@.cwd,
                    ),
                }
                &&& final(fs)@.nodes == old(fs)@.nodes
            },
            Ok(b) => {
                if b {
                    match path {
                        Some(p) => remove_allowed(
                            old(fs)@.nodes,
                            locate_spec(old(fs)@, p@),
                            old(fs)@.cwd,
                        ) && final(fs)@.nodes == old(fs)@.nodes.remove(locate_spec(old(fs)@, p@)),
                        None => false,
                    }
                } else {
                    &&& !error_requested
                    &&& match path {
                        None => true,
                        Some(p) => !remove_allowed(
                            old(fs)@.nodes,
                            locate_spec(old(fs)@, p@),
                            old(fs)@.cwd,
                        ),
                    }
                    &&& final(fs)@.nodes == old(fs)@.nodes
                }
            },
        },
{
    let removed = match path {
        None => false,
        Some(p) => {
            let key = fs.locate(p);
            fs.remove_at(&key)
        },
    };
    if removed {
        Ok(true)
    } else if error_requested {
        Err(Unsupported::ErrorObject)
    } else {
        Ok(false)
    }
}

/// createDirectoryAtPath:withIntermediateDirectories:attributes:error:: true
/// when the directory (and every missing intermediate directory) was created
/// or already existed; false when a regular file is in the way. Attribute
/// payloads must be absent and intermediate directories must be requested —
/// anything else is a configuration error.
pub fn create_directory_at_path(
    fs: &mut Fs,
    path: Option<&str>,
    create_intermediates: bool,
    attributes_present: bool,
) -> (r: Result<bool, Unsupported>)
    requires
        old(fs).wf(),
    ensures
        final(fs).wf(),
        final(fs)@.home == old(fs)@.home,
        final(fs)@.cwd == old(fs)@.cwd,
        match r {
            Err(e) => {
                &&& (attributes_present || !create_intermediates)
                &&& e == if attributes_present {
                    Unsupported::Attributes
                } else {
                    Unsupported::Intermediates
                }
                &&& final(fs)@.nodes == old(fs)@.nodes
            },
            Ok(b) => {
                &&& !attributes_present
                &&& create_intermediates
                &&& match path {
                    None => !b && final(fs)@.nodes == old(fs)@.nodes,
                    Some(p) => ({
                        let k = locate_spec(old(fs)@, p@);
                        let m0 = old(fs)@.nodes;
                        &&& b == dirs_allowed(m0, k)
                        &&& (b ==> final(fs)@.nodes == with_dirs(m0, k))
                        &&& (!b ==> final(fs)@.nodes == m0)
                    }),
                }
            },
        },
{
    if attributes_present {
        return Err(Unsupported::Attributes);
    }
    if !create_intermediates {
        return Err(Unsupported::Intermediates);
    }
    match path {
        None => Ok(false),
        Some(p) => {
            let key = fs.locate(p);
            Ok(fs.create_dir_at(&key))
        },
    }
}

/// The legacy createDirectory call shape, with the attributes and path slots
/// swapped: a thin adapter over the same resolve-and-create implementation,
/// kept as its own entry point because guest binaries may invoke either.
pub fn create_directory_legacy(
    fs: &mut Fs,
    attributes_present: bool,
    create_intermediates: bool,
    path: Option<&str>,
) -> (r: Result<bool, Unsupported>)
    requires
        old(fs).wf(),
    ensures
        final(fs).wf(),
        final(fs)@.home == old(fs)@.home,
        final(fs)@.cwd == old(fs)@.cwd,
        match r {
            Err(e) => {
                &&& (attributes_present || !create_intermediates)
                &&& e == if attributes_present {
                    Unsupported::Attributes
                } else {
                    Unsupported::Intermediates
                }
                &&& final(fs)@.nodes == old(fs)@.nodes
            },
            Ok(b) => {
                &&& !attributes_present
                &&& create_intermediates
                &&& match path {
                    None => !b && final(fs)@.nodes == old(fs)@.nodes,
                    Some(p) => ({
                        let k = locate_spec(old(fs)@, p@);
                        let m0 = old(fs)@.nodes;
                        &&& b == dirs_allowed(m0, k)
                        &&& (b ==> final(fs)@.nodes == with_dirs(m0, k))
                        &&& (!b ==> final(fs)@.nodes == m0)
                    }),
                }
            },
        },
{
    create_directory_at_path(fs, path, create_intermediates, attributes_present)
}

/// enumeratorAtPath:: start a recursive enumeration of the subtree under the
/// path. The returned enumerator owns a snapshot taken now: entries added to
/// the directory later are never observed. The null-equivalent sentinel comes
/// back when the path is null or names no directory.
pub fn enumerator_at_path(fs: &Fs, path: Option<&str>) -> (r: Option<DirectoryEnumerator>)
    requires
        fs.wf(),
    ensures
        match r {
            Some(e) => match path {
                Some(p) => {
                    &&& e.wf()
                    &&& e@.cursor == 0
                    &&& fs@.nodes.dom().contains(locate_spec(fs@, p@)) && fs@.nodes[locate_spec(
                        fs@,
                        p@,
                    )] is Dir
                    &&& snapshot_of(fs@.nodes, locate_spec(fs@, p@), e@.entries)
                },
                None => false,
            },
            None => match path {
                Some(p) => !(fs@.nodes.dom().contains(locate_spec(fs@, p@)) && fs@.nodes[locate_spec(
                    fs@,
                    p@,
                )] is Dir),
                None => true,
            },
        },
{
    match path {
        None => None,
        Some(p) => {
            let key = fs.locate(p);
            match fs.enumerate_recursive_at(&key) {
                Some(found) => Some(DirectoryEnumerator::new(found)),
                None => None,
            }
        },
    }
}

/// directoryContentsAtPath:: the ordered list of the names of the immediate
/// children of the directory at the path, or the null-equivalent sentinel
/// when the path is null or names no directory. Shallow only.
pub fn directory_contents_at_path(fs: &Fs, path: Option<&str>) -> (r: Option<Vec<String>>)
    requires
        fs.wf(),
    ensures
        match r {
            Some(names) => match path {
                Some(p) => {
                    &&& fs@.nodes.dom().contains(locate_spec(fs@, p@)) && fs@.nodes[locate_spec(
                        fs@,
                        p@,
                    )] is Dir
                    &&& children_listing(fs@.nodes, locate_spec(fs@, p@), names.deep_view())
                },
                None => false,
            },
            None => match path {
                Some(p) => !(fs@.nodes.dom().contains(locate_spec(fs@, p@)) && fs@.nodes[locate_spec(
                    fs@,
                    p@,
                )] is Dir),
                None => true,
            },
        },
{
    match path {
        None => None,
        Some(p) => {
            let key = fs.locate(p);
            fs.list_children_at(&key)
        },
    }
}

/// contentsOfDirectoryAtPath:error:: the same listing as
/// [`directory_contents_at_path`]; on failure with an error out-parameter
/// supplied, the structured error is unimplemented and the call aborts with
/// an explicit signal.
pub fn contents_of_directory_at_path(fs: &Fs, path: Option<&str>, error_requested: bool) -> (r:
    Result<Option<Vec<String>>, Unsupported>)
    requires
        fs.wf(),
    ensures
        match r {
            Ok(Some(names)) => match path {
                Some(p) => {
                    &&& fs@.nodes.dom().contains(locate_spec(fs@, p@)) && fs@.nodes[locate_spec(
                        fs@,
                        p@,
                    )] is Dir
                    &&& children_listing(fs@.nodes, locate_spec(fs@, p@), names.deep_view())
                },
                None => false,
            },
            Ok(None) => {
                &&& !error_requested
                &&& match path {
                    Some(p) => !(fs@.nodes.dom().contains(locate_spec(fs@, p@))
                        && fs@.nodes[locate_spec(fs@, p@)] is Dir),
                    None => true,
                }
            },
            Err(e) => {
                &&& e == Unsupported::ErrorObject
                &&& error_requested
                &&& match path {
                    Some(p) => !(fs@.nodes.dom().contains(locate_spec(fs@, p@))
                        && fs@.nodes[locate_spec(fs@, p@)] is Dir),
                    None => true,
                }
            },
        },
{
    match directory_contents_at_path(fs, path) {
        Some(names) => Ok(Some(names)),
        None => {
            if error_requested {
                Err(Unsupported::ErrorObject)
            } else {
                Ok(None)
            }
        },
    }
}

/// contentsAtPath:: the whole contents of the regular file at the path, or
/// the null-equivalent sentinel. The path must be absolute (the guest-visible
/// contract asserts this). Whether a directory rather than a file sits there
/// is not checked separately: reading a directory fails at the storage layer
/// and yields the sentinel.
pub fn contents_at_path(fs: &Fs, path: &str) -> (r: Option<Vec<u8>>)
    requires
        fs.wf(),
        is_absolute_string(path@),
    ensures
        match r {
            Some(data) => fs@.nodes.dom().contains(locate_spec(fs@, path@)) && fs@.nodes[locate_spec(
                fs@,
                path@,
            )] == NodeModel::File(data@),
            None => !(fs@.nodes.dom().contains(locate_spec(fs@, path@)) && fs@.nodes[locate_spec(
                fs@,
                path@,
            )] is File),
        },
{
    let key = fs.locate(path);
    fs.read_at(&key)
}

/// copyItemAtPath:toPath:error:: reads the whole source file into memory and
/// writes it to the destination, overwriting a file already there. Every
/// failure path is unimplemented in the emulated contract: a source that
/// cannot be read, or a destination that cannot be written, aborts the whole
/// operation with an explicit signal rather than returning false. A null
/// source or destination short-circuits to false.
pub fn copy_item_at_path(fs: &mut Fs, src: Option<&str>, dst: Option<&str>) -> (r: Result<
    bool,
    Unsupported,
>)
    requires
        old(fs).wf(),
    ensures
        final(fs).wf(),
        final(fs)@.home == old(fs)@.home,
        final(fs)@.cwd == old(fs)@.cwd,
        match r {
            Ok(b) => {
                if b {
                    match (src, dst) {
                        (Some(sp), Some(dp)) => ({
                            let sk = locate_spec(old(fs)@, sp@);
                            let dk = locate_spec(old(fs)@, dp@);
                            let m0 = old(fs)@.nodes;
                            &&& m0.dom().contains(sk) && m0[sk] is File
                            &&& write_allowed(m0, dk)
                            &&& final(fs)@.nodes == m0.insert(dk, m0[sk])
                        }),
                        _ => false,
                    }
                } else {
                    (src is None || dst is None) && final(fs)@.nodes == old(fs)@.nodes
                }
            },
            Err(e) => {
                &&& e == Unsupported::CopyFailure
                &&& src is Some && dst is Some
                &&& final(fs)@.nodes == old(fs)@.nodes
                &&& ({
                    let sk = locate_spec(old(fs)@, src->0@);
                    let dk = locate_spec(old(fs)@, dst->0@);
                    let m0 = old(fs)@.nodes;
                    !(m0.dom().contains(sk) && m0[sk] is File) || !write_allowed(m0, dk)
                })
            },
        },
{
    let sp = match src {
        Some(sp) => sp,
        None => {
            return Ok(false);
        },
    };
    let dp = match dst {
        Some(dp) => dp,
        None => {
            return Ok(false);
        },
    };
    let src_key = fs.locate(sp);
    let data = match fs.read_at(&src_key) {
        Some(data) => data,
        None => {
            return Err(Unsupported::CopyFailure);
        },
    };
    let dst_key = fs.locate(dp);
    if fs.write_at(&dst_key, data) {
        Ok(true)
    } else {
        Err(Unsupported::CopyFailure)
    }
}

/// attributesOfItemAtPath:error:: the attribute set of the item, holding its
/// size in bytes. A missing or unreadable item — or a directory, whose size
/// cannot be read this way — reports size 0 without signalling any failure.
pub fn attributes_of_item_at_path(fs: &Fs, path: Option<&str>) -> (r: FileAttributes)
    requires
        fs.wf(),
    ensures
        r.file_size == match path {
            Some(p) => ({
                let k = locate_spec(fs@, p@);
                if fs@.nodes.dom().contains(k) && fs@.nodes[k] is File {
                    fs@.nodes[k]->File_0.len() as u64
                } else {
                    0
                }
            }),
            None => 0,
        },
{
    match path {
        None => FileAttributes { file_size: 0 },
        Some(p) => {
            let key = fs.locate(p);
            match fs.file_len_at(&key) {
                Some(n) => FileAttributes { file_size: n as u64 },
                None => FileAttributes { file_size: 0 },
            }
        },
    }
}

/// currentDirectoryPath: the working directory, rendered as a guest string.
pub fn current_directory_path(fs: &Fs) -> (r: String)
    ensures
        r@ == render_spec(PathModel { absolute: true, segments: fs@.cwd }),
{
    let segs = fs.working_directory();
    path_to_string(&VirtualPath { absolute: true, segments: segs })
}

/// changeCurrentDirectoryPath:: move the working directory. True exactly when
/// the path names an existing directory; a host rejection — or a null path —
/// fails silently to false.
pub fn change_current_directory_path(fs: &mut Fs, path: Option<&str>) -> (r: bool)
    requires
        old(fs).wf(),
    ensures
        final(fs).wf(),
        final(fs)@.home == old(fs)@.home,
        final(fs)@.nodes == old(fs)@.nodes,
        match path {
            Some(p) => {
                &&& r == (old(fs)@.nodes.dom().contains(locate_spec(old(fs)@, p@))
                    && old(fs)@.nodes[locate_spec(old(fs)@, p@)] is Dir)
                &&& (r ==> final(fs)@.cwd == locate_spec(old(fs)@, p@))
                &&& (!r ==> final(fs)@.cwd == old(fs)@.cwd)
            },
            None => !r && final(fs)@.cwd == old(fs)@.cwd,
        },
{
    match path {
        None => false,
        Some(p) => {
            let key = fs.locate(p);
            fs.set_working_directory(&key)
        },
    }
}

/// Process-wide state of the default-instance holder: the facade handle
/// created on first access and reused for the rest of the session.
pub struct State {
    default_manager: Option<u64>,
}

impl View for State {
    type V = Option<u64>;

    closed spec fn view(&self) -> Option<u64> {
        self.default_manager
    }
}

impl Default for State {
    /// A holder with no instance yet.
    fn default() -> (s: State)
        ensures
            s@ is None,
    {
        State { default_manager: None }
    }
}

impl State {
    /// A holder with no instance yet.
    pub fn new() -> (s: State)
        ensures
            s@ is None,
    {
        State { default_manager: None }
    }

    /// defaultManager: the first access stores the caller's freshly allocated
    /// candidate handle and returns it; every later access returns the stored
    /// handle and the caller discards its candidate. First writer wins.
    pub fn default_manager(&mut self, candidate: u64) -> (h: u64)
        ensures
            final(self)@ == Some(h),
            h == match old(self)@ {
                Some(existing) => existing,
                None => candidate,
            },
    {
        match self.default_manager {
            Some(existing) => existing,
            None => {
                self.default_manager = Some(candidate);
                candidate
            },
        }
    }
}

/// Idempotent singleton: once a handle is stored, every later access returns
/// that same handle — two consecutive accesses yield reference-identical
/// handles, whatever candidate instances the would-be writers bring.
pub proof fn lemma_singleton_idempotent(holder: Option<u64>, candidate1: u64, candidate2: u64)
    ensures
        ({
            let h1 = match holder {
                Some(existing) => existing,
                None => candidate1,
            };
            let h2 = match Some(h1) {
                Some(existing) => existing,
                None => candidate2,
            };
            h1 == h2
        }),
{
}

/// Create-then-exists: when createFile reports success — because a regular
/// file already sat at the resolved location, or because one was just written
/// — a node exists at that location afterwards and it is a regular file, so
/// pathExists reports true and the exists-and-is-directory query reports
/// is-directory false. The working directory is preserved by the call, so the
/// same guest string resolves to the same location before and after.
pub proof fn lemma_create_then_exists(
    m0: Map<Seq<Seq<char>>, NodeModel>,
    m1: Map<Seq<Seq<char>>, NodeModel>,
    k: Seq<Seq<char>>,
    data: Seq<u8>,
)
    requires
        (m0.dom().contains(k) && m0[k] is File && m1 == m0) || (write_allowed(m0, k) && m1
            == m0.insert(k, NodeModel::File(data))),
    ensures
        m1.dom().contains(k),
        m1[k] is File,
{
}

/// The directory analogue: when createDirectory succeeds, a node exists at
/// the resolved location afterwards and it is a directory, so pathExists
/// reports true and the exists-and-is-directory query reports is-directory
/// true.
pub proof fn lemma_create_directory_then_exists(
    m0: Map<Seq<Seq<char>>, NodeModel>,
    k: Seq<Seq<char>>,
)
    requires
        dirs_allowed(m0, k),
    ensures
        with_dirs(m0, k).dom().contains(k),
        with_dirs(m0, k)[k] is Dir,
{
    assert(is_path_prefix(k, k)) by {
        assert(k =~= k.take(k.len() as int));
    }
    if m0.dom().contains(k) {
        assert(k.take(k.len() as int) =~= k);
        assert(!(m0[k.take(k.len() as int)] is File));
    }
}

} // verus!
