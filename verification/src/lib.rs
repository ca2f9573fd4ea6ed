//! Conversion of the Japanese fundamental geospatial elevation grids (FGD DEM GML)
//! to GeoTIFF: the verified part of the converter.
//!
//! The library holds the text scanning of the GML fields, the metadata scanner, the
//! placement and tiling logic of the merged mosaic, and the small decisions of the
//! command line front end. File and XML reading, floating-point conversion and the
//! GeoTIFF encoder are driven from the application around it.
pub mod dataset;
pub mod mosaic;
pub mod text;

use vstd::prelude::*;
use vstd::string::StringExecFns;
use crate::text::split_on;

verus! {

/// The GeoTIFF compression that the output uses.
#[derive(Clone, Copy, Debug, PartialEq, Eq, Structural)]
pub enum CompressionKind {
    Uncompressed,
    Deflate,
    Lzw,
    Zstd,
}

/// Whether the strings `a` and `b` hold the same characters.
pub fn same_text(a: &str, b: &str) -> (res: bool)
    ensures
        res == (a@ == b@),
{
    a.to_owned() == b.to_owned()
}

/// The compression that the command line name `name` selects.
pub open spec fn compression_named(name: Seq<char>) -> Option<CompressionKind> {
    if name == "none"@ {
        Some(CompressionKind::Uncompressed)
    } else if name == "deflate"@ {
        Some(CompressionKind::Deflate)
    } else if name == "lzw"@ {
        Some(CompressionKind::Lzw)
    } else if name == "zstd"@ {
        Some(CompressionKind::Zstd)
    } else {
        None
    }
}

impl CompressionKind {
    /// The compression named `name` on the command line (`none`, `deflate`, `lzw`
    /// or `zstd`); none for any other name.
    pub fn from_name(name: &str) -> (res: Option<CompressionKind>)
        ensures
            res == compression_named(name@),
    {
        if same_text(name, "none") {
            Some(CompressionKind::Uncompressed)
        } else if same_text(name, "deflate") {
            Some(CompressionKind::Deflate)
        } else if same_text(name, "lzw") {
            Some(CompressionKind::Lzw)
        } else if same_text(name, "zstd") {
            Some(CompressionKind::Zstd)
        } else {
            None
        }
    }
}

/// What the command line asks for: the input files, the output directory, whether
/// to merge all inputs into one GeoTIFF, and the compression.
#[derive(Debug)]
pub struct Config {
    input_files: Vec<String>,
    output_dir: String,
    merge: bool,
    compression: CompressionKind,
}

impl Config {
    pub fn new(
        input_files: Vec<String>,
        output_dir: String,
        merge: bool,
        compression: CompressionKind,
    ) -> (c: Config)
        ensures
            c.input_files() == input_files,
            c.output_dir() == output_dir,
            c.merge() == merge,
            c.compression() == compression,
    {
        Config { input_files, output_dir, merge, compression }
    }

    pub closed spec fn input_files(&self) -> Vec<String> {
        self.input_files
    }

    pub closed spec fn output_dir(&self) -> String {
        self.output_dir
    }

    pub closed spec fn merge(&self) -> bool {
        self.merge
    }

    pub closed spec fn compression(&self) -> CompressionKind {
        self.compression
    }

    pub fn get_input_files(&self) -> (v: &Vec<String>)
        ensures
            *v == self.input_files(),
    {
        &self.input_files
    }

    pub fn get_output_dir(&self) -> (d: &String)
        ensures
            *d == self.output_dir(),
    {
        &self.output_dir
    }

    pub fn get_merge(&self) -> (m: bool)
        ensures
            m == self.merge(),
    {
        self.merge
    }

    pub fn get_compression(&self) -> (c: CompressionKind)
        ensures
            c == self.compression(),
    {
        self.compression
    }
}

/// Whether `part` occurs in `whole` as a run of consecutive characters.
pub open spec fn is_part_of(part: Seq<char>, whole: Seq<char>) -> bool {
    exists|i: int|
        0 <= i <= whole.len() - part.len() && (#[trigger] whole.skip(i)).take(part.len() as int)
            == part
}

/// Whether `path` reads the same under the Unix and the Windows path syntax that
/// std documents: it holds no `\` (a separator on Windows only), no `:` (which
/// starts a Windows drive prefix) and does not start with `//` (a Windows UNC
/// prefix), so that its components are the pieces between `/` separators.
pub open spec fn portable_path(path: Seq<char>) -> bool {
    &&& !path.contains('\\')
    &&& !path.contains(':')
    &&& !(path.len() >= 2 && path[0] == '/' && path[1] == '/')
}

/// The components of a portable path that can name a file: the pieces between
/// `/` separators, without empty pieces (repeated or trailing separators) and
/// without `.` pieces, which std normalizes away.
pub open spec fn path_names(path: Seq<char>) -> Seq<Seq<char>> {
    split_on(path, '/').filter(|c: Seq<char>| c.len() > 0 && c != seq!['.'])
}

/// The index of the last `.` in `name`, if it holds one.
pub open spec fn last_dot(name: Seq<char>) -> Option<int>
    decreases name.len(),
{
    if name.len() == 0 {
        None
    } else if name.last() == '.' {
        Some(name.len() - 1)
    } else {
        last_dot(name.drop_last())
    }
}

/// The stem that std documents for the file name `name`: the whole name when it
/// holds no `.` or its only `.` is the leading one, and otherwise the part before
/// the last `.`.
pub open spec fn name_stem(name: Seq<char>) -> Seq<char> {
    match last_dot(name) {
        None => name,
        Some(i) => if i == 0 {
            name
        } else {
            name.take(i)
        },
    }
}

/// The file stem of a portable path, as std documents `Path::file_stem`: none when
/// the path has no final component that names a file (it is empty, only
/// separators and `.`, or ends in `..`), and otherwise the stem of that final
/// component.
pub open spec fn portable_stem(path: Seq<char>) -> Option<Seq<char>> {
    let names = path_names(path);
    if names.len() == 0 || names.last() == seq!['.', '.'] {
        None
    } else {
        Some(name_stem(names.last()))
    }
}

/// Calls `std::path::Path::file_stem` on `path`, and `OsStr::to_str` on the stem
/// found: none when the path names no file, an inner none when the stem is no
/// valid UTF-8. The contract claims what std documents:
/// - the stem is a portion of the path's final component, so a run of
///   consecutive characters of the path;
/// - for a path that reads the same under the Unix and the Windows syntax,
///   the stem is `portable_stem(path)` (`file_name` is the last component after
///   `.` components and repeated or trailing separators are dropped, none when
///   that is `..` or there is none; `file_stem` then cuts at the last `.` unless
///   the only `.` leads), and a stem made of the path's own characters is valid
///   UTF-8.
/// What it is for other paths (Windows prefixes and verbatim paths, where `/` may
/// not separate) is left unsaid, and so is whether `to_str` can fail for them.
#[verifier::external_body]
fn file_stem(path: &str) -> (res: Option<Option<String>>)
    ensures
        res matches Some(Some(s)) ==> is_part_of(s@, path@),
        portable_path(path@) ==> match portable_stem(path@) {
            None => res is None,
            Some(stem) => res matches Some(Some(s)) && s@ == stem,
        },
{
    std::path::Path::new(path).file_stem().map(|s| s.to_str().map(|t| t.to_owned()))
}

/// Why no output name could be made from an input path.
#[derive(Clone, Copy, Debug, PartialEq, Eq, Structural)]
pub enum StemError {
    /// The path names no file.
    NoStem,
    /// The file's stem is no valid UTF-8.
    NotUtf8,
}

impl StemError {
    /// The message that describes the error.
    pub fn message(&self) -> (m: String)
        ensures
            m@ == (match *self {
                StemError::NoStem => "Failed to extract stem"@,
                StemError::NotUtf8 => "Failed to convert stem to string"@,
            }),
    {
        match self {
            StemError::NoStem => "Failed to extract stem".to_owned(),
            StemError::NotUtf8 => "Failed to convert stem to string".to_owned(),
        }
    }
}

/// The output stem that a file stem lookup gives: the stem when one was found and
/// is valid UTF-8, and otherwise the error that says which of the two failed.
pub fn stem_from_lookup(found: Option<Option<String>>) -> (res: Result<String, StemError>)
    ensures
        match found {
            None => res == Err::<String, StemError>(StemError::NoStem),
            Some(None) => res == Err::<String, StemError>(StemError::NotUtf8),
            Some(Some(stem)) => res matches Ok(s) && s@ == stem@,
        },
{
    match found {
        None => Err(StemError::NoStem),
        Some(None) => Err(StemError::NotUtf8),
        Some(Some(s)) => Ok(s),
    }
}

/// The file stem of the input path `path` (its file name without the extension),
/// from which the output file is named: a run of consecutive characters of the
/// path; for a path that reads the same on every platform, its portable stem,
/// and the error `NoStem` when it names no file.
pub fn extract_stem(path: &str) -> (res: Result<String, StemError>)
    ensures
        res matches Ok(s) ==> is_part_of(s@, path@),
        portable_path(path@) ==> match portable_stem(path@) {
            None => res == Err::<String, StemError>(StemError::NoStem),
            Some(stem) => res matches Ok(s) && s@ == stem,
        },
{
    stem_from_lookup(file_stem(path))
}

/// The name of the GeoTIFF written for an input whose stem is `stem`.
pub fn tif_file_name(stem: &str) -> (name: String)
    ensures
        name@ == stem@ + ".tif"@,
{
    let mut name = stem.to_owned();
    name.append(".tif");
    name
}

/// The name of the GeoTIFF into which all inputs are merged.
pub fn merged_file_name() -> (name: String)
    ensures
        name@ == "merged.tif"@,
{
    "merged.tif".to_owned()
}

} // verus!
