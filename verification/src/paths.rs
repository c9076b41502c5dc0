//! Path texts: separator normalisation and the check of the index path.
//! Whether a path exists is for the caller to find out.

use crate::text::{replace_char, replaced};
use std::path::Path;
use vstd::prelude::*;
use vstd::string::StringExecFns;

verus! {

/// A path as it is kept in records: on Windows every backslash becomes a
/// forward slash, elsewhere the path stays as it is.
pub open spec fn formatted(path: Seq<char>, windows: bool) -> Seq<char> {
    if windows {
        replaced(path, '\\', '/')
    } else {
        path
    }
}

/// Formats a displayed path for the index: with `windows` set, backslashes
/// are turned into forward slashes.
pub fn format_path(p: &str, windows: bool) -> (res: String)
    ensures
        res@ == formatted(p@, windows),
{
    if windows {
        replace_char(p, '\\', '/')
    } else {
        String::from_str(p)
    }
}

/// Error text where the arguments do not name an index path.
pub const NO_INDEX_PATH: &'static str = "Must provide index path.";

/// Error text where nothing exists at the index path.
pub const INDEX_MISSING: &'static str = "Invalid index path, doesn't exists.";

/// Error text where the index path does not carry the index extension.
pub const INDEX_NOT_DB: &'static str = "Invalid index path.";

/// The extension that an index file carries.
pub const INDEX_EXTENSION: &'static str = "db";

/// The verdict on the program's arguments: they hold the program's name
/// and the index path and nothing else, the path exists, and its extension
/// is that of an index file; then the verdict is the path. Otherwise it is
/// the text of the first of these that fails.
pub open spec fn index_path_verdict(
    args: Seq<Seq<char>>,
    found: bool,
    extension: Option<Seq<char>>,
) -> Result<Seq<char>, Seq<char>> {
    if args.len() != 2 {
        Err(NO_INDEX_PATH@)
    } else if !found {
        Err(INDEX_MISSING@)
    } else if extension != Some(INDEX_EXTENSION@) {
        Err(INDEX_NOT_DB@)
    } else {
        Ok(args[1])
    }
}

/// The arguments as sequences of characters.
pub open spec fn arg_texts(args: Seq<String>) -> Seq<Seq<char>> {
    args.map_values(|arg: String| arg@)
}

/// The extension as a sequence of characters, where there is one.
pub open spec fn extension_text(extension: Option<String>) -> Option<Seq<char>> {
    match extension {
        Some(ext) => Some(ext@),
        None => None,
    }
}

/// Whether the verdict `res` says what `expected` says.
pub open spec fn same_verdict(
    res: Result<String, &'static str>,
    expected: Result<Seq<char>, Seq<char>>,
) -> bool {
    match res {
        Ok(path) => expected == Ok::<Seq<char>, Seq<char>>(path@),
        Err(reason) => expected == Err::<Seq<char>, Seq<char>>(reason@),
    }
}

/// The extension that the standard library reads off a path text: the
/// part of the file name behind its last dot, `None` where the path has no
/// file name or the file name no such dot. What counts as the file name
/// goes by the separators of the platform that the library is built for;
/// for one build the extension depends on the text of the path alone.
pub uninterp spec fn extension_of(path: Seq<char>) -> Option<Seq<char>>;

/// Calls `Path::extension` of the standard library on the path and turns
/// the answer into a string. The contract claims only that the answer is
/// the one `extension_of` names: it is read off the text of the path and
/// depends on nothing else. The call asks nothing of the file system and
/// returns for every text.
#[verifier::external_body]
fn path_extension(path: &str) -> (extension: Option<String>)
    ensures
        extension_text(extension) == extension_of(path@),
{
    match Path::new(path).extension() {
        Some(ext) => Some(ext.to_string_lossy().into_owned()),
        None => None,
    }
}

/// Decides on the program's arguments given whether the path they name
/// exists and which extension it carries.
pub fn check_index_path(args: &Vec<String>, found: bool, extension: Option<String>) -> (res: Result<
    String,
    &'static str,
>)
    ensures
        same_verdict(
            res,
            index_path_verdict(arg_texts(args@), found, extension_text(extension)),
        ),
{
    if args.len() != 2 {
        return Err(NO_INDEX_PATH);
    }
    if !found {
        return Err(INDEX_MISSING);
    }
    let wanted = String::from_str(INDEX_EXTENSION);
    let fits = match &extension {
        Some(ext) => *ext == wanted,
        None => false,
    };
    if !fits {
        return Err(INDEX_NOT_DB);
    }
    Ok(args[1].clone())
}

/// Validates the path to the index given on the command line: `args` are
/// the program's name and the path, and `found` says whether anything
/// exists at that path. Reads the extension off the path and decides as
/// `index_path_verdict` says: the path is returned exactly where the
/// arguments are two, something was found at the path, and its extension
/// is that of an index file.
pub fn get_index_path(args: Vec<String>, found: bool) -> (res: Result<String, &'static str>)
    ensures
        args@.len() != 2 ==> same_verdict(res, Err(NO_INDEX_PATH@)),
        args@.len() == 2 ==> same_verdict(
            res,
            index_path_verdict(arg_texts(args@), found, extension_of(args@[1]@)),
        ),
{
    if args.len() != 2 {
        return Err(NO_INDEX_PATH);
    }
    let extension = path_extension(args[1].as_str());
    check_index_path(&args, found, extension)
}

} // verus!
