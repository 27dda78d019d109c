//! Resolution of symbolic search-path domains to canonical sandbox locations.
//!
//! A guest asks for a search-path domain (application directory, documents,
//! application support) within a domain mask, optionally tilde-expanded. Only
//! one combination is supported — the user domain with tilde expansion — and
//! resolution is a flat deterministic join rooted at the externally supplied
//! home directory: no storage is touched. The domain table is a sequential
//! lookup in which the first match wins, with an otherwise-unused numeric
//! alias resolving to the same Documents location as the documents directory
//! itself.

use vstd::prelude::*;
use crate::outcome::Unsupported;
use crate::path::child_of;
use crate::path::path_to_string;
use crate::path::render_spec;
use crate::path::PathModel;
use crate::path::VirtualPath;
use crate::storage::Fs;

verus! {

/// The application directory identifier.
pub const NS_APPLICATION_DIRECTORY: u32 = 1;

/// The otherwise-unused identifier that aliases the Documents directory.
pub const NS_DOCUMENT_DIRECTORY_ALIAS: u32 = 5;

/// The documents directory identifier.
pub const NS_DOCUMENT_DIRECTORY: u32 = 9;

/// The application-support directory identifier.
pub const NS_APPLICATION_SUPPORT_DIRECTORY: u32 = 14;

/// The single supported search-path domain mask: the user domain.
pub const NS_USER_DOMAIN_MASK: u32 = 1;

/// The user Documents directory: `home/Documents`.
pub open spec fn documents_path_spec(home: Seq<Seq<char>>) -> Seq<Seq<char>> {
    home.push("Documents"@)
}

/// The per-session temporary directory: `home/tmp`.
pub open spec fn temporary_path_spec(home: Seq<Seq<char>>) -> Seq<Seq<char>> {
    home.push("tmp"@)
}

/// The application-support directory: `home/Library/Application Support`.
pub open spec fn application_support_path_spec(home: Seq<Seq<char>>) -> Seq<Seq<char>> {
    home.push("Library"@).push("Application Support"@)
}

/// The fixed sandbox location of installed applications.
pub open spec fn applications_path_spec() -> Seq<Seq<char>> {
    seq!["Applications"@]
}

/// Whether a directory identifier is in the supported table.
pub open spec fn supported_directory(directory: u32) -> bool {
    ||| directory == NS_APPLICATION_DIRECTORY
    ||| directory == NS_DOCUMENT_DIRECTORY
    ||| directory == NS_DOCUMENT_DIRECTORY_ALIAS
    ||| directory == NS_APPLICATION_SUPPORT_DIRECTORY
}

/// The canonical sandbox location of a supported search-path directory. The
/// lookup is ordered and the first match wins: the arm matching the documents
/// directory also catches its numeric alias, so the alias can never reach a
/// later arm. This aliasing is intentional, not a collision.
pub open spec fn domain_path_spec(home: Seq<Seq<char>>, directory: u32) -> Seq<Seq<char>> {
    if directory == NS_APPLICATION_DIRECTORY {
        applications_path_spec()
    } else if directory == NS_DOCUMENT_DIRECTORY || directory == NS_DOCUMENT_DIRECTORY_ALIAS {
        documents_path_spec(home)
    } else {
        application_support_path_spec(home)
    }
}

/// Resolve the user Documents directory under the supplied home directory.
/// Pure segment manipulation: no storage access.
pub fn resolve_user_path(home: &Vec<String>) -> (r: Vec<String>)
    ensures
        r.deep_view() == documents_path_spec(home.deep_view()),
{
    child_of(home, "Documents")
}

/// Resolve the temporary directory under the supplied home directory.
pub fn resolve_temporary_path(home: &Vec<String>) -> (r: Vec<String>)
    ensures
        r.deep_view() == temporary_path_spec(home.deep_view()),
{
    child_of(home, "tmp")
}

/// Resolve the application-support directory under the supplied home
/// directory.
pub fn resolve_application_support_path(home: &Vec<String>) -> (r: Vec<String>)
    ensures
        r.deep_view() == application_support_path_spec(home.deep_view()),
{
    let lib = child_of(home, "Library");
    child_of(&lib, "Application Support")
}

/// Resolve the fixed applications directory.
pub fn resolve_applications_path() -> (r: Vec<String>)
    ensures
        r.deep_view() == applications_path_spec(),
{
    let base: Vec<String> = Vec::new();
    let r = child_of(&base, "Applications");
    proof {
        assert(base.deep_view() =~= Seq::<Seq<char>>::empty());
        assert(r.deep_view() =~= applications_path_spec());
    }
    r
}

/// Resolve a search-path domain request to its canonical sandbox location.
/// Only the user domain with tilde expansion is supported: any other
/// combination is a configuration error, and an identifier outside the table
/// an unsupported directory; both abort the call with an explicit signal.
pub fn resolve_domain(home: &Vec<String>, directory: u32, domain_mask: u32, expand_tilde: bool) -> (r:
    Result<Vec<String>, Unsupported>)
    ensures
        match r {
            Ok(p) => domain_mask == NS_USER_DOMAIN_MASK && expand_tilde && supported_directory(
                directory,
            ) && p.deep_view() == domain_path_spec(home.deep_view(), directory),
            Err(e) => {
                ||| ((domain_mask != NS_USER_DOMAIN_MASK || !expand_tilde) && e
                    == Unsupported::Configuration)
                ||| (domain_mask == NS_USER_DOMAIN_MASK && expand_tilde && !supported_directory(
                    directory,
                ) && e == Unsupported::Directory)
            },
        },
{
    if domain_mask != NS_USER_DOMAIN_MASK || !expand_tilde {
        return Err(Unsupported::Configuration);
    }
    if directory == NS_APPLICATION_DIRECTORY {
        Ok(resolve_applications_path())
    } else if directory == NS_DOCUMENT_DIRECTORY || directory == NS_DOCUMENT_DIRECTORY_ALIAS {
        Ok(resolve_user_path(home))
    } else if directory == NS_APPLICATION_SUPPORT_DIRECTORY {
        Ok(resolve_application_support_path(home))
    } else {
        Err(Unsupported::Directory)
    }
}

/// Resolution determinism: two results of resolving the same supported
/// directory over the same home directory are equal.
pub proof fn lemma_domain_resolution_deterministic(
    home: Seq<Seq<char>>,
    directory: u32,
    r1: Seq<Seq<char>>,
    r2: Seq<Seq<char>>,
)
    requires
        r1 == domain_path_spec(home, directory),
        r2 == domain_path_spec(home, directory),
    ensures
        r1 == r2,
{
}

/// The home directory of the sandbox, rendered as a guest string.
#[allow(non_snake_case)]
pub fn NSHomeDirectory(fs: &Fs) -> (r: String)
    ensures
        r@ == render_spec(PathModel { absolute: true, segments: fs@.home }),
{
    let segs = fs.home_segments();
    path_to_string(&VirtualPath { absolute: true, segments: segs })
}

/// The temporary directory of the sandbox, rendered as a guest string.
#[allow(non_snake_case)]
pub fn NSTemporaryDirectory(fs: &Fs) -> (r: String)
    ensures
        r@ == render_spec(PathModel { absolute: true, segments: temporary_path_spec(fs@.home) }),
{
    let home = fs.home_segments();
    let segs = resolve_temporary_path(&home);
    path_to_string(&VirtualPath { absolute: true, segments: segs })
}

/// The search-path list for a domain request: on the supported configuration,
/// a single-element list holding the canonical location as a guest string.
#[allow(non_snake_case)]
pub fn NSSearchPathForDirectoriesInDomains(
    fs: &Fs,
    directory: u32,
    domain_mask: u32,
    expand_tilde: bool,
) -> (r: Result<Vec<String>, Unsupported>)
    ensures
        match r {
            Ok(dirs) => domain_mask == NS_USER_DOMAIN_MASK && expand_tilde && supported_directory(
                directory,
            ) && dirs.deep_view() =~= seq![
                render_spec(
                    PathModel { absolute: true, segments: domain_path_spec(fs@.home, directory) },
                ),
            ],
            Err(e) => {
                ||| ((domain_mask != NS_USER_DOMAIN_MASK || !expand_tilde) && e
                    == Unsupported::Configuration)
                ||| (domain_mask == NS_USER_DOMAIN_MASK && expand_tilde && !supported_directory(
                    directory,
                ) && e == Unsupported::Directory)
            },
        },
{
    let home = fs.home_segments();
    match resolve_domain(&home, directory, domain_mask, expand_tilde) {
        Ok(segs) => {
            let rendered = path_to_string(&VirtualPath { absolute: true, segments: segs });
            let mut dirs: Vec<String> = Vec::new();
            dirs.push(rendered);
            proof {
                assert(dirs.deep_view() =~= seq![
                    render_spec(
                        PathModel {
                            absolute: true,
                            segments: domain_path_spec(fs@.home, directory),
                        },
                    ),
                ]);
            }
            Ok(dirs)
        },
        Err(e) => Err(e),
    }
}

} // verus!
