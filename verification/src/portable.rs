//! Where the application keeps its own things: beside the application, not in a per-user
//! system folder. On macOS that is beside the `.app` bundle, not beside the executable buried
//! inside it.
//!
//! How a path is taken apart (its last name, its parent, its extension) is the standard
//! library's, and differs by platform; the rule here is which names make a bundle.
use std::path::{Path, PathBuf};

use vstd::prelude::*;

use crate::text::same_text;

verus! {

#[verifier::external_type_specification]
#[verifier::external_body]
pub struct ExPath(Path);

/// The path a `PathBuf` holds.
pub uninterp spec fn buf_path(p: &PathBuf) -> &Path;

/// `PathBuf::as_path`: the path a `PathBuf` holds, borrowed.
pub assume_specification[ PathBuf::as_path ](p: &PathBuf) -> (r: &Path)
    ensures
        r == buf_path(p),
;

/// What `Path::file_name` gives for `p`, as text.
pub uninterp spec fn path_file_name(p: &Path) -> Option<Seq<char>>;

/// What `Path::parent` gives for `p`.
pub uninterp spec fn path_parent(p: &Path) -> Option<PathBuf>;

/// What `Path::extension` gives for `p`, as text.
pub uninterp spec fn path_extension(p: &Path) -> Option<Seq<char>>;

/// A text, when there is one, as characters.
pub open spec fn text_view(o: Option<String>) -> Option<Seq<char>> {
    match o {
        Some(t) => Some(t@),
        None => None,
    }
}

/// `Path::file_name`, as text (a name that is not Unicode has its odd bytes replaced, so it
/// never reads as one of the names compared here). The platform's rules for taking a path
/// apart are what the name `path_file_name` stands for.
#[verifier::external_body]
pub(crate) fn file_name_of(p: &Path) -> (r: Option<String>)
    ensures
        text_view(r) == path_file_name(p),
{
    p.file_name().map(|n| n.to_string_lossy().into_owned())
}

/// `Path::parent`.
#[verifier::external_body]
fn parent_of(p: &Path) -> (r: Option<PathBuf>)
    ensures
        r == path_parent(p),
{
    p.parent().map(|q| q.to_path_buf())
}

/// `Path::extension`, as text.
#[verifier::external_body]
fn extension_of(p: &Path) -> (r: Option<String>)
    ensures
        text_view(r) == path_extension(p),
{
    p.extension().map(|e| e.to_string_lossy().into_owned())
}

/// Whether the last names of a directory make it the inside of a bundle:
/// `…/Something.app/Contents/MacOS`.
pub open spec fn bundle_shape(dir_name: Seq<char>, parent_name: Seq<char>, bundle_ext: Seq<char>) -> bool {
    dir_name == "MacOS"@ && parent_name == "Contents"@ && bundle_ext == "app"@
}

/// What the names around a directory decide: with `dir_name` its name, `parent_name` its
/// parent's, and `bundle_ext` the extension of the folder above that, the folder holding that
/// one (`outer`) when they make a bundle's shape, and `None` otherwise — also when a name is
/// missing.
pub open spec fn bundle_choice(
    dir_name: Option<Seq<char>>,
    parent_name: Option<Seq<char>>,
    bundle_ext: Option<Seq<char>>,
    outer: Option<PathBuf>,
) -> Option<PathBuf> {
    match (dir_name, parent_name, bundle_ext) {
        (Some(a), Some(b), Some(c)) => if bundle_shape(a, b, c) {
            outer
        } else {
            None
        },
        _ => None,
    }
}

/// A name as text, when there is one.
pub open spec fn name_of(n: Option<&str>) -> Option<Seq<char>> {
    match n {
        Some(t) => Some(t@),
        None => None,
    }
}

/// The decision [`strip_bundle`] makes once the names are read: `outer` when the directory
/// is called `MacOS`, its parent `Contents` and the folder above that has the extension `app`;
/// `None` for anything else, so nothing is invented for a plain folder.
pub fn bundle_parent(
    dir_name: Option<&str>,
    parent_name: Option<&str>,
    bundle_ext: Option<&str>,
    outer: Option<PathBuf>,
) -> (r: Option<PathBuf>)
    ensures
        r == bundle_choice(name_of(dir_name), name_of(parent_name), name_of(bundle_ext), outer),
{
    match (dir_name, parent_name, bundle_ext) {
        (Some(a), Some(b), Some(c)) => {
            if same_text(a, "MacOS") && same_text(b, "Contents") && same_text(c, "app") {
                outer
            } else {
                None
            }
        },
        _ => None,
    }
}

/// The name of `p`'s parent, if both are there.
pub open spec fn parent_name(p: &Path) -> Option<Seq<char>> {
    match path_parent(p) {
        Some(q) => path_file_name(buf_path(&q)),
        None => None,
    }
}

/// `p`'s grandparent, if there is one.
pub open spec fn grandparent(p: &Path) -> Option<PathBuf> {
    match path_parent(p) {
        Some(q) => path_parent(buf_path(&q)),
        None => None,
    }
}

/// The extension of `p`'s grandparent, if there is one.
pub open spec fn grandparent_ext(p: &Path) -> Option<Seq<char>> {
    match grandparent(p) {
        Some(g) => path_extension(buf_path(&g)),
        None => None,
    }
}

/// The folder holding `p`'s grandparent, if there is one.
pub open spec fn grandparent_parent(p: &Path) -> Option<PathBuf> {
    match grandparent(p) {
        Some(g) => path_parent(buf_path(&g)),
        None => None,
    }
}

/// Given the directory an executable sits in, the directory the surrounding `.app` sits in,
/// matched by shape: its name is `MacOS`, its parent's `Contents`, and that one's parent has
/// the extension `app`. `None` for anything else, so nothing is invented for a plain folder.
pub fn strip_bundle(dir: &Path) -> (r: Option<PathBuf>)
    ensures
        r == bundle_choice(path_file_name(dir), parent_name(dir), grandparent_ext(dir), grandparent_parent(dir)),
{
    let macos = match file_name_of(dir) {
        Some(n) => n,
        None => return None,
    };
    let contents = parent_of(dir);
    let cname = match &contents {
        Some(p) => file_name_of(p.as_path()),
        None => None,
    };
    let bundle = match &contents {
        Some(p) => parent_of(p.as_path()),
        None => None,
    };
    let ext = match &bundle {
        Some(p) => extension_of(p.as_path()),
        None => None,
    };
    let outer = match &bundle {
        Some(p) => parent_of(p.as_path()),
        None => None,
    };
    bundle_parent(
        Some(macos.as_str()),
        match &cname {
            Some(n) => Some(n.as_str()),
            None => None,
        },
        match &ext {
            Some(e) => Some(e.as_str()),
            None => None,
        },
        outer,
    )
}

} // verus!
