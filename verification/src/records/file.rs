//! The files that people keep on the host.

use crate::filename::{extension, path_extension, same_bytes};
use crate::text::{lowercase, to_lowercase};
use crate::timeago::{elapsed, time_ago_at, time_ago_text};
use crate::utils::AsRoute;
use sanitize_filename::{sanitize_with_options, Options};
use std::borrow::Cow;
use vstd::prelude::*;
use vstd::string::*;
use vstd::utf8::*;

verus! {

/// A file of a person.
pub struct File {
    pub id: i64,
    /// The name under which its owner sees it.
    pub user_path: String,
    /// Where it lies on the host.
    pub full_path: String,
    pub user_id: i64,
    pub created_at: i32,
    pub updated_at: i32,
}

/// What the list of recent files shows of a file.
pub struct PartialFile {
    pub username: String,
    pub user_path: String,
    pub updated_at: i32,
}

/// A file as a page lists it.
pub struct RenderedFile<'a> {
    pub username: &'a str,
    pub user_path: &'a str,
    /// How long ago the file was last changed.
    pub time_ago: String,
}

/// Whether `ext` is an extension of files that the host accepts.
pub open spec fn is_allowed_extension(ext: Seq<u8>) -> bool {
    ||| ext == encode_utf8("gmi"@)
    ||| ext == encode_utf8("txt"@)
    ||| ext == encode_utf8("jpg"@)
    ||| ext == encode_utf8("jpeg"@)
    ||| ext == encode_utf8("gif"@)
    ||| ext == encode_utf8("png"@)
    ||| ext == encode_utf8("svg"@)
    ||| ext == encode_utf8("webp"@)
    ||| ext == encode_utf8("midi"@)
    ||| ext == encode_utf8("json"@)
    ||| ext == encode_utf8("csv"@)
    ||| ext == encode_utf8("gemini"@)
    ||| ext == encode_utf8("mp3"@)
}

/// Whether `ext` is an extension of files that hold text.
pub open spec fn is_text_extension(ext: Seq<u8>) -> bool {
    ||| ext == encode_utf8("gmi"@)
    ||| ext == encode_utf8("txt"@)
    ||| ext == encode_utf8("json"@)
    ||| ext == encode_utf8("csv"@)
    ||| ext == encode_utf8("gemini"@)
}

/// Whether the name `name` has an extension that the host accepts.
pub open spec fn is_ok_name(name: Seq<char>) -> bool {
    match extension(encode_utf8(name)) {
        Some(ext) => is_allowed_extension(ext),
        None => false,
    }
}

/// Whether the name `name` has an extension of files that hold text.
pub open spec fn is_text_name(name: Seq<char>) -> bool {
    match extension(encode_utf8(name)) {
        Some(ext) => is_text_extension(ext),
        None => false,
    }
}

/// Tests whether the name `name` has an extension that the host accepts.
pub fn ok_name(name: &str) -> (r: bool)
    ensures
        r == is_ok_name(name@),
{
    match path_extension(name.as_bytes()) {
        Some(ext) => {
            same_bytes(ext, "gmi".as_bytes()) || same_bytes(ext, "txt".as_bytes()) || same_bytes(
                ext,
                "jpg".as_bytes(),
            ) || same_bytes(ext, "jpeg".as_bytes()) || same_bytes(ext, "gif".as_bytes())
                || same_bytes(ext, "png".as_bytes()) || same_bytes(ext, "svg".as_bytes())
                || same_bytes(ext, "webp".as_bytes()) || same_bytes(ext, "midi".as_bytes())
                || same_bytes(ext, "json".as_bytes()) || same_bytes(ext, "csv".as_bytes())
                || same_bytes(ext, "gemini".as_bytes()) || same_bytes(ext, "mp3".as_bytes())
        },
        None => false,
    }
}

/// Tests whether the name `name` has an extension of files that hold text.
pub fn text_name(name: &str) -> (r: bool)
    ensures
        r == is_text_name(name@),
{
    match path_extension(name.as_bytes()) {
        Some(ext) => {
            same_bytes(ext, "gmi".as_bytes()) || same_bytes(ext, "txt".as_bytes()) || same_bytes(
                ext,
                "json".as_bytes(),
            ) || same_bytes(ext, "csv".as_bytes()) || same_bytes(ext, "gemini".as_bytes())
        },
        None => false,
    }
}

impl File {
    /// Tests whether files of the name `filename` are taken: whether the
    /// extension of its lower-case form is one of those that the host accepts.
    pub fn ok_extension(filename: &str) -> (r: bool)
        ensures
            r == is_ok_name(lowercase(filename@)),
    {
        let lowered = to_lowercase(filename);
        ok_name(lowered.as_str())
    }

    /// Tests whether the file holds text: whether the extension of the
    /// lower-case form of its name is one of those of text.
    pub fn text_extension(&self) -> (r: bool)
        ensures
            r == is_text_name(lowercase(self.user_path@)),
    {
        let lowered = to_lowercase(self.user_path.as_str());
        text_name(lowered.as_str())
    }
}

impl AsRoute for File {
    open spec fn route(&self) -> Seq<char> {
        "/"@ + self.user_path@
    }

    fn as_route(&self) -> (r: Cow<str>) {
        let mut route = String::from_str("/");
        route.append(self.user_path.as_str());
        Cow::Owned(route)
    }
}

/// A file as a page lists it at the time `now`, in seconds since 1970.
pub fn render_file<'a>(file: &'a PartialFile, now: u64) -> (r: RenderedFile<'a>)
    ensures
        r.username@ == file.username@,
        r.user_path@ == file.user_path@,
        r.time_ago@ == time_ago_text(elapsed(now, file.updated_at as int)),
{
    RenderedFile {
        username: file.username.as_str(),
        user_path: file.user_path.as_str(),
        time_ago: time_ago_at(now, file.updated_at),
    }
}

/// The most files that one person may keep.
pub const MAX_FILES: i32 = 128;

/// Tests whether a person who keeps `count` files may keep one more.
pub fn has_room(count: i32) -> (r: bool)
    ensures
        r == (count < MAX_FILES),
{
    count < MAX_FILES
}

/// Whether the file at `path` holds gemtext: its extension is `gmi` or
/// `gemini`, in these letters.
pub open spec fn is_gemtext_path(path: Seq<char>) -> bool {
    match extension(encode_utf8(path)) {
        Some(ext) => ext == encode_utf8("gmi"@) || ext == encode_utf8("gemini"@),
        None => false,
    }
}

/// Tests whether the file at `path` holds gemtext.
pub fn gemtext_path(path: &str) -> (r: bool)
    ensures
        r == is_gemtext_path(path@),
{
    match path_extension(path.as_bytes()) {
        Some(ext) => same_bytes(ext, "gmi".as_bytes()) || same_bytes(ext, "gemini".as_bytes()),
        None => false,
    }
}

/// What `sanitize_filename::sanitize_with_options` makes of a name, with
/// nothing put in place of what it takes out, names cut to 255 bytes, and
/// without the rules for Windows.
pub uninterp spec fn sanitized(name: Seq<char>) -> Seq<char>;

/// The name `name` made fit for a file, by
/// `sanitize_filename::sanitize_with_options` with the options `windows:
/// false`, `truncate: true` and an empty `replacement`. The contract claims
/// only that the result is a function of `name`.
#[verifier::external_body]
pub(crate) fn sanitize(name: &str) -> (r: String)
    ensures
        r@ == sanitized(name@),
{
    let options = Options { windows: false, truncate: true, replacement: "" };
    sanitize_with_options(name, options)
}

/// The name under which a file is kept that its owner calls `user_path`.
pub fn stored_name(user_path: &str) -> (r: String)
    ensures
        r@ == sanitized(user_path@),
{
    sanitize(user_path)
}

/// Why a file that is uploaded is not taken.
#[derive(Clone, Copy, PartialEq, Eq, Structural, Debug)]
pub enum UploadError {
    /// The upload names no file.
    NoFileName,
    /// The host does not accept files of that extension.
    BadExtension,
}

impl UploadError {
    /// What the person who uploads is told.
    pub fn message(&self) -> (r: &'static str)
        ensures
            r@ == (match *self {
                UploadError::NoFileName => "no file name"@,
                UploadError::BadExtension => "We don't take that kind of file here"@,
            }),
    {
        match self {
            UploadError::NoFileName => "no file name",
            UploadError::BadExtension => "We don't take that kind of file here",
        }
    }
}

/// The name under which an upload is kept that names its file `file_name`, or
/// why it is not taken: an upload must name its file, and the name must have
/// an extension that the host accepts.
pub open spec fn upload_outcome(file_name: Option<Seq<char>>) -> Result<Seq<char>, UploadError> {
    match file_name {
        None => Err(UploadError::NoFileName),
        Some(name) => if is_ok_name(lowercase(name)) {
            Ok(sanitized(name))
        } else {
            Err(UploadError::BadExtension)
        },
    }
}

/// The name under which an upload is kept, or why it is not taken.
pub fn upload_name(file_name: Option<&str>) -> (r: Result<String, UploadError>)
    ensures
        match r {
            Ok(name) => upload_outcome(
                match file_name {
                    Some(n) => Some(n@),
                    None => None,
                },
            ) == Ok::<Seq<char>, UploadError>(name@),
            Err(e) => upload_outcome(
                match file_name {
                    Some(n) => Some(n@),
                    None => None,
                },
            ) == Err::<Seq<char>, UploadError>(e),
        },
{
    match file_name {
        None => Err(UploadError::NoFileName),
        Some(name) => {
            if File::ok_extension(name) {
                Ok(sanitize(name))
            } else {
                Err(UploadError::BadExtension)
            }
        },
    }
}

/// What is wrong with keeping a file under the name `local_path` for a person
/// who keeps `count` files: that there is no room for it, or else that its
/// stored name has no extension that the host accepts.
pub open spec fn file_errors_of(count: u32, local_path: Seq<char>) -> Seq<Seq<char>> {
    if count >= MAX_FILES {
        seq!["You have the max number of files. Delete some to make room for more."@]
    } else if !is_ok_name(lowercase(sanitized(local_path))) {
        seq!["Invalid file extension."@]
    } else {
        Seq::<Seq<char>>::empty()
    }
}

/// What is wrong with keeping a file under the name `local_path` for a person
/// who keeps `count` files; nothing where the file may be kept.
pub fn file_errors(count: u32, local_path: &str) -> (errors: Vec<&'static str>)
    ensures
        errors.deep_view() == file_errors_of(count, local_path@),
{
    let mut errors: Vec<&'static str> = Vec::new();
    if count >= MAX_FILES as u32 {
        errors.push("You have the max number of files. Delete some to make room for more.");
        assert(errors.deep_view() =~= file_errors_of(count, local_path@));
    } else {
        let filename = sanitize(local_path);
        if !File::ok_extension(filename.as_str()) {
            errors.push("Invalid file extension.");
        }
        assert(errors.deep_view() =~= file_errors_of(count, local_path@));
    }
    errors
}

} // verus!
