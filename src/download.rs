//! The decisions of one download: whether the response is usable, which file
//! it is written to, and what happens when that file is already there.
use vstd::prelude::*;
use crate::header::{content_disposition_filename, disposition_filename};
use crate::names::{
    is_normal_component, is_plain_component, is_separator, last_separator,
    normalize_audio_extension, normalized_audio_name,
};

verus! {

/// Why a single download fails before any byte is written.
#[derive(Debug, PartialEq, Eq)]
pub enum DownloadError {
    /// The server answered with a status outside the success class.
    Status(u16),
    /// The response names no file.
    MissingFilename,
    /// The announced name is not a single plain file name (it holds a
    /// separator, or is `.` or `..`).
    UnsafeFilename(String),
    /// The target file exists and overwriting is off.
    AlreadyExists(String),
}

/// HTTP status codes of the success class (200 to 299).
pub open spec fn is_success_status(code: u16) -> bool {
    200 <= code && code < 300
}

/// Whether a response with status `code` is a success.
pub fn status_is_success(code: u16) -> (r: bool)
    ensures
        r == is_success_status(code),
{
    200 <= code && code < 300
}

pub open spec fn header_view(h: Option<&str>) -> Option<Seq<char>> {
    match h {
        Some(v) => Some(v@),
        None => None,
    }
}

/// The announced file name, where the Content-Disposition value names one.
pub open spec fn announced_name(h: Option<Seq<char>>) -> Option<Seq<char>> {
    match h {
        Some(v) => disposition_filename(v),
        None => None,
    }
}

/// The full file name from the Content-Disposition header value, if the
/// response has one.
pub fn get_filename(content_disposition: Option<&str>) -> (r: Result<String, DownloadError>)
    ensures
        match announced_name(header_view(content_disposition)) {
            Some(n) => r matches Ok(s) && s@ == n,
            None => r matches Err(DownloadError::MissingFilename),
        },
{
    match content_disposition {
        Some(h) => match content_disposition_filename(h) {
            Some(name) => Ok(name),
            None => Err(DownloadError::MissingFilename),
        },
        None => Err(DownloadError::MissingFilename),
    }
}

/// The name under which a response is saved: the status must be a success,
/// the response must announce a file name, and that name, after its audio
/// extension is normalized, must be a single plain component, so that the
/// file lands directly in the destination directory.
pub fn resolve_download_name(status: u16, content_disposition: Option<&str>) -> (r: Result<
    String,
    DownloadError,
>)
    ensures
        !is_success_status(status) ==> (r matches Err(DownloadError::Status(c)) && c == status),
        is_success_status(status) ==> match announced_name(header_view(content_disposition)) {
            Some(n) => if is_normal_component(normalized_audio_name(n)) {
                r matches Ok(s) && s@ == normalized_audio_name(n)
            } else {
                r matches Err(DownloadError::UnsafeFilename(s)) && s@ == n
            },
            None => r matches Err(DownloadError::MissingFilename),
        },
        r matches Ok(s) ==> is_normal_component(s@),
{
    if !status_is_success(status) {
        return Err(DownloadError::Status(status));
    }
    let name = get_filename(content_disposition)?;
    let normalized = normalize_audio_extension(name.as_str());
    if is_plain_component(normalized.as_str()) {
        Ok(normalized)
    } else {
        Err(DownloadError::UnsafeFilename(name))
    }
}

/// What to do where the target may already exist: `Ok(false)` to write it
/// fresh, `Ok(true)` to remove the existing file first, or an error where it
/// exists and overwriting is off.
pub fn existing_target(name: &str, exists: bool, overwrite: bool) -> (r: Result<bool, DownloadError>)
    ensures
        !exists ==> r matches Ok(false),
        exists && overwrite ==> r matches Ok(true),
        exists && !overwrite ==> (r matches Err(DownloadError::AlreadyExists(s)) && s@ == name@),
{
    if !exists {
        Ok(false)
    } else if overwrite {
        Ok(true)
    } else {
        Err(DownloadError::AlreadyExists(String::from_str(name)))
    }
}

/// `name` joined to the directory `dir` with `/`.
pub open spec fn join_path(dir: Seq<char>, name: Seq<char>) -> Seq<char> {
    dir + seq!['/'] + name
}

/// The directory part of `p`: all before its last separator.
pub open spec fn parent_of(p: Seq<char>) -> Seq<char> {
    if last_separator(p) < 0 {
        Seq::empty()
    } else {
        p.take(last_separator(p))
    }
}

/// The path of the file `name` in the directory `dir`.
pub fn target_path(dir: &str, name: &str) -> (r: String)
    ensures
        r@ == join_path(dir@, name@),
{
    let mut p = String::from_str(dir);
    p.append("/");
    p.append(name);
    proof {
        reveal_strlit("/");
    }
    p
}

proof fn lemma_last_separator_of_join(dir: Seq<char>, name: Seq<char>)
    requires
        forall|i: int| 0 <= i < name.len() ==> !is_separator(#[trigger] name[i]),
    ensures
        last_separator(join_path(dir, name)) == dir.len(),
    decreases name.len(),
{
    let p = join_path(dir, name);
    if name.len() == 0 {
        assert(p =~= dir.push('/'));
        assert(p.last() == '/');
    } else {
        let shorter = name.drop_last();
        assert(p.drop_last() =~= join_path(dir, shorter));
        assert(p.last() == name[name.len() - 1]);
        lemma_last_separator_of_join(dir, shorter);
    }
}

/// A downloaded file never lands outside its destination: for any name that
/// the resolution accepts, the directory part of the joined path is the
/// destination itself.
pub proof fn lemma_download_target_parent(dir: Seq<char>, name: Seq<char>)
    requires
        is_normal_component(name),
    ensures
        parent_of(join_path(dir, name)) == dir,
{
    lemma_last_separator_of_join(dir, name);
    assert(join_path(dir, name).take(dir.len() as int) =~= dir);
}

} // verus!
