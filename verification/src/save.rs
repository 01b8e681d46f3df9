//! Events that file dialogs hand to the viewer, and the file names it
//! proposes when saving.
use vstd::prelude::*;
use vstd::std_specs::iter::IteratorSpec;
use std::path::{Path, PathBuf};

verus! {

#[verifier::external_type_specification]
#[verifier::external_body]
pub struct ExPathBuf(PathBuf);

/// What a background file operation reports to the viewer.
#[derive(Debug)]
pub enum IoEvent {
    /// A file was read.
    MeshLoaded { file_name: String, data: Vec<u8>, path: Option<PathBuf> },
    /// An operation failed.
    Error(String),
}

/// The MSH format to save in.
#[derive(Debug, Clone, Copy, PartialEq, Eq, Structural)]
pub enum MshSaveFormat {
    V2,
    V4,
}

/// The file name proposed for saving: the stem when it is not empty,
/// `mesh` otherwise, then `_v2.msh` or `_v4.msh`.
pub open spec fn save_name(stem: Option<Seq<char>>, format: MshSaveFormat) -> Seq<char> {
    (match stem {
        Some(s) => if s.len() > 0 {
            s
        } else {
            "mesh"@
        },
        None => "mesh"@,
    }) + match format {
        MshSaveFormat::V2 => "_v2.msh"@,
        MshSaveFormat::V4 => "_v4.msh"@,
    }
}

/// `s` is a run of consecutive characters of `name`.
pub open spec fn piece_of(s: Seq<char>, name: Seq<char>) -> bool {
    exists|i: int, j: int| 0 <= i <= j <= name.len() && s == name.subrange(i, j)
}

/// The text of `name` after its last `/`, all of it where there is none.
pub open spec fn after_last_slash(name: Seq<char>) -> Seq<char>
    decreases name.len(),
{
    if name.len() == 0 {
        name
    } else if name.last() == '/' {
        seq![]
    } else {
        after_last_slash(name.drop_last()).push(name.last())
    }
}

/// `c` is a backslash.
pub open spec fn is_backslash(c: char) -> bool {
    c as u32 == 0x5c
}

/// `s` holds no backslash.
pub open spec fn no_backslash(s: Seq<char>) -> bool {
    forall|i: int| 0 <= i < s.len() ==> !is_backslash(#[trigger] s[i])
}

/// A plain file name: not empty, not `.` or `..`, and without `/`, `\`
/// or `:`.
pub open spec fn plain_file_name(s: Seq<char>) -> bool {
    &&& s.len() > 0
    &&& s != seq!['.']
    &&& s != seq!['.', '.']
    &&& forall|i: int| 0 <= i < s.len() ==> #[trigger] s[i] != '/' && !is_backslash(s[i]) && s[i] != ':'
}

/// The place of the last `.` of `s`, -1 for none.
pub open spec fn last_dot(s: Seq<char>) -> int
    decreases s.len(),
{
    if s.len() == 0 {
        -1
    } else if s.last() == '.' {
        s.len() - 1
    } else {
        last_dot(s.drop_last())
    }
}

/// The stem of a file name: the text before its last `.` where that `.` is
/// not the first character, all of it otherwise.
pub open spec fn stem_of(s: Seq<char>) -> Seq<char> {
    if last_dot(s) > 0 {
        s.subrange(0, last_dot(s))
    } else {
        s
    }
}

/// A path without `\\` whose text after the last `/` (all of it where
/// there is none) is a plain file name.
pub open spec fn plain_path(name: Seq<char>) -> bool {
    no_backslash(name) && plain_file_name(after_last_slash(name))
}

/// `Path::file_stem` of `name`, as text: the final component of the path
/// without its extension. The stem is a run of characters of `name` without
/// `/`. Where `name` has no `\\` and the text after its last `/` (all of it
/// where there is none) is a plain file name, that text is the final
/// component on every platform, and the stem is the text before its last
/// `.` unless that `.` comes first. Of other names, such as ones with `\\`,
/// which separates components on some platforms only, nothing more is said.
#[verifier::external_body]
fn file_stem_text(name: &str) -> (r: Option<String>)
    ensures
        r matches Some(s) ==> piece_of(s@, name@) && !s@.contains('/'),
        plain_path(name@) ==> r is Some && r->0@ == stem_of(after_last_slash(name@)),
{
    match Path::new(name).file_stem() {
        Some(stem) => match stem.to_str() {
            Some(t) => Some(t.to_string()),
            None => None,
        },
        None => None,
    }
}

/// Appends the characters of `s` to `out`.
fn append(out: &mut String, s: &str)
    ensures
        final(out)@ == old(out)@ + s@,
{
    let mut it = s.chars();
    loop
        invariant
            out@ + it.remaining() == old(out)@ + s@,
            it.decrease() is Some,
        ensures
            out@ == old(out)@ + s@,
        decreases it.decrease()->0,
    {
        match it.next() {
            Some(c) => {
                out.push(c);
            },
            None => {
                assert(out@ =~= old(out)@ + s@);
                break ;
            },
        }
    }
}

/// The file name proposed for saving given the stem of the current mesh's
/// name: the stem when it is not empty, `mesh` otherwise, then `_v2.msh` or
/// `_v4.msh`.
pub fn save_name_for_stem(stem: Option<&str>, format: MshSaveFormat) -> (r: String)
    ensures
        r@ == save_name(
            match stem {
                Some(s) => Some(s@),
                None => None,
            },
            format,
        ),
{
    let mut out = String::new();
    match stem {
        Some(s) => {
            if !s.is_empty() {
                append(&mut out, s);
            } else {
                append(&mut out, "mesh");
            }
        },
        None => {
            append(&mut out, "mesh");
        },
    }
    match format {
        MshSaveFormat::V2 => append(&mut out, "_v2.msh"),
        MshSaveFormat::V4 => append(&mut out, "_v4.msh"),
    }
    assert(out@ =~= save_name(
        match stem {
            Some(s) => Some(s@),
            None => None,
        },
        format,
    ));
    out
}

/// The default file name for saving a mesh: the file stem of its name (see
/// `save_name_for_stem`), `mesh` when there is no name or no stem. For a
/// name without `\\` whose text after the last `/` is a plain file name,
/// the stem is that text before its last `.` (unless the `.` comes first).
pub fn default_save_name(mesh_name: Option<&str>, format: MshSaveFormat) -> (r: String)
    ensures
        mesh_name is None ==> r@ == save_name(None, format),
        mesh_name matches Some(n) ==> exists|st: Option<Seq<char>>|
            (st matches Some(s) ==> piece_of(s, n@) && !s.contains('/')) && r@ == #[trigger] save_name(st, format),
        mesh_name is Some && plain_path(mesh_name->0@) ==> r@ == save_name(
            Some(stem_of(after_last_slash(mesh_name->0@))),
            format,
        ),
{
    let stem = match mesh_name {
        Some(n) => file_stem_text(n),
        None => None,
    };
    match &stem {
        Some(s) => {
            let r = save_name_for_stem(Some(s.as_str()), format);
            assert(r@ == save_name(Some(s@), format));
            r
        },
        None => {
            let r = save_name_for_stem(None, format);
            assert(r@ == save_name(None, format));
            r
        },
    }
}

} // verus!
