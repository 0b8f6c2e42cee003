//! Paths as text: file names, extensions, and the selections made from lists
//! of paths.
use vstd::prelude::*;
use crate::names::{is_separator, last_separator, non_empty, text_chars, views};

verus! {

/// The text after the last separator of `p`.
pub open spec fn final_segment(p: Seq<char>) -> Seq<char> {
    p.skip(last_separator(p) + 1)
}

/// The file name of `p`: its final segment, unless that is empty, `.` or
/// `..`.
pub open spec fn file_name_of(p: Seq<char>) -> Option<Seq<char>> {
    let s = final_segment(p);
    if s.len() == 0 || s == seq!['.'] || s == seq!['.', '.'] {
        None
    } else {
        Some(s)
    }
}

/// The index of the last `.` in `n`, or -1.
pub open spec fn last_dot(n: Seq<char>) -> int
    decreases n.len(),
{
    if n.len() == 0 {
        -1
    } else if n.last() == '.' {
        n.len() - 1
    } else {
        last_dot(n.drop_last())
    }
}

/// The extension of `p`: what follows the last `.` of its file name, where
/// that dot is not the name's first character.
pub open spec fn extension_of(p: Seq<char>) -> Option<Seq<char>> {
    match file_name_of(p) {
        Some(n) => if last_dot(n) > 0 {
            Some(n.skip(last_dot(n) + 1))
        } else {
            None
        },
        None => None,
    }
}

fn last_separator_index(cs: &Vec<char>) -> (r: Option<usize>)
    ensures
        match r {
            Some(i) => last_separator(cs@) == i as int && i < cs@.len(),
            None => last_separator(cs@) == -1,
        },
{
    let mut i = cs.len();
    proof {
        assert(cs@.take(i as int) =~= cs@);
    }
    while i > 0
        invariant
            i <= cs@.len(),
            last_separator(cs@) == last_separator(cs@.take(i as int)),
        decreases i,
    {
        proof {
            assert(cs@.take(i as int).drop_last() =~= cs@.take(i - 1));
        }
        if cs[i - 1] == '/' || cs[i - 1] == '\\' {
            return Some(i - 1);
        }
        i = i - 1;
    }
    None
}

fn last_dot_index(cs: &Vec<char>) -> (r: Option<usize>)
    ensures
        match r {
            Some(i) => last_dot(cs@) == i as int && i < cs@.len(),
            None => last_dot(cs@) == -1,
        },
{
    let mut i = cs.len();
    proof {
        assert(cs@.take(i as int) =~= cs@);
    }
    while i > 0
        invariant
            i <= cs@.len(),
            last_dot(cs@) == last_dot(cs@.take(i as int)),
        decreases i,
    {
        proof {
            assert(cs@.take(i as int).drop_last() =~= cs@.take(i - 1));
        }
        if cs[i - 1] == '.' {
            return Some(i - 1);
        }
        i = i - 1;
    }
    None
}

/// The file name of `path`, where it has one.
pub fn file_name(path: &str) -> (r: Option<String>)
    ensures
        match r {
            Some(n) => file_name_of(path@) == Some(n@),
            None => file_name_of(path@) is None,
        },
{
    let cs = text_chars(path);
    let n = cs.len();
    let start = match last_separator_index(&cs) {
        Some(i) => i + 1,
        None => 0,
    };
    let seg = path.substring_char(start, n);
    proof {
        assert(seg@ =~= final_segment(path@));
    }
    let len = n - start;
    if len == 0 {
        return None;
    }
    if len == 1 && cs[start] == '.' {
        assert(seg@ =~= seq!['.']);
        return None;
    }
    if len == 2 && cs[start] == '.' && cs[start + 1] == '.' {
        assert(seg@ =~= seq!['.', '.']);
        return None;
    }
    proof {
        if len == 1 {
            assert(seq!['.'][0] == '.');
            assert(seg@[0] == cs@[start as int]);
        }
        if len == 2 {
            assert(seq!['.', '.'][0] == '.' && seq!['.', '.'][1] == '.');
            assert(seg@[0] == cs@[start as int] && seg@[1] == cs@[start + 1]);
        }
    }
    Some(String::from_str(seg))
}

/// The extension of `path`, where it has one.
pub fn extension(path: &str) -> (r: Option<String>)
    ensures
        match r {
            Some(e) => extension_of(path@) == Some(e@),
            None => extension_of(path@) is None,
        },
{
    match file_name(path) {
        Some(name) => {
            let cs = text_chars(name.as_str());
            let k = cs.len();
            match last_dot_index(&cs) {
                Some(d) => {
                    if d > 0 && d < k {
                        Some(String::from_str(name.as_str().substring_char(d + 1, k)))
                    } else {
                        None
                    }
                },
                None => None,
            }
        },
        None => None,
    }
}

pub open spec fn zip_extension() -> Seq<char> {
    seq!['z', 'i', 'p']
}

/// Whether `path` has the extension `zip`.
pub fn is_zip_path(path: &str) -> (r: bool)
    ensures
        r == (extension_of(path@) == Some(zip_extension())),
{
    match extension(path) {
        Some(e) => {
            let s = e.as_str();
            if s.unicode_len() == 3 && s.get_char(0) == 'z' && s.get_char(1) == 'i' && s.get_char(
                2,
            ) == 'p' {
                assert(e@ =~= zip_extension());
                true
            } else {
                proof {
                    let z = zip_extension();
                    assert(z[0] == 'z' && z[1] == 'i' && z[2] == 'p');
                    if e@.len() == 3 {
                        assert(e@ != z);
                    }
                }
                false
            }
        },
        None => false,
    }
}

/// A path together with whether it names a regular file.
pub struct PathEntry {
    pub path: String,
    pub is_file: bool,
}

impl View for PathEntry {
    type V = (Seq<char>, bool);

    open spec fn view(&self) -> (Seq<char>, bool) {
        (self.path@, self.is_file)
    }
}

/// The paths of `es` that name regular files with the extension `zip`, in
/// their order.
pub open spec fn zip_files_of(es: Seq<(Seq<char>, bool)>) -> Seq<Seq<char>>
    decreases es.len(),
{
    if es.len() == 0 {
        Seq::empty()
    } else {
        let prev = zip_files_of(es.drop_last());
        if es.last().1 && extension_of(es.last().0) == Some(zip_extension()) {
            prev.push(es.last().0)
        } else {
            prev
        }
    }
}

pub open spec fn entry_views(v: Seq<PathEntry>) -> Seq<(Seq<char>, bool)> {
    v.map_values(|e: PathEntry| e@)
}

/// The zip files among the given paths: regular files with the extension
/// `zip`, in their order.
pub fn get_all_zip_files(paths: &Vec<PathEntry>) -> (r: Vec<String>)
    ensures
        views(r@) == zip_files_of(entry_views(paths@)),
{
    let mut out: Vec<String> = Vec::new();
    let mut i: usize = 0;
    while i < paths.len()
        invariant
            i <= paths@.len(),
            views(out@) == zip_files_of(entry_views(paths@).take(i as int)),
        decreases paths@.len() - i,
    {
        let e = &paths[i];
        proof {
            let t = entry_views(paths@).take(i + 1);
            assert(t.drop_last() =~= entry_views(paths@).take(i as int));
            assert(t.last() == e@);
        }
        if e.is_file && is_zip_path(e.path.as_str()) {
            let ghost pre = views(out@);
            out.push(e.path.clone());
            proof {
                assert(views(out@) =~= pre.push(e.path@));
            }
        }
        i = i + 1;
    }
    proof {
        assert(entry_views(paths@).take(paths@.len() as int) =~= entry_views(paths@));
    }
    out
}

/// The paths of `ps` with the extension `zip`, in their order.
pub open spec fn zip_paths_of(ps: Seq<Seq<char>>) -> Seq<Seq<char>>
    decreases ps.len(),
{
    if ps.len() == 0 {
        Seq::empty()
    } else {
        let prev = zip_paths_of(ps.drop_last());
        if extension_of(ps.last()) == Some(zip_extension()) {
            prev.push(ps.last())
        } else {
            prev
        }
    }
}

/// The paths with the extension `zip` among the entries of a directory.
pub fn zip_paths(paths: &Vec<String>) -> (r: Vec<String>)
    ensures
        views(r@) == zip_paths_of(views(paths@)),
{
    let mut out: Vec<String> = Vec::new();
    let mut i: usize = 0;
    while i < paths.len()
        invariant
            i <= paths@.len(),
            views(out@) == zip_paths_of(views(paths@).take(i as int)),
        decreases paths@.len() - i,
    {
        let p = &paths[i];
        proof {
            let t = views(paths@).take(i + 1);
            assert(t.drop_last() =~= views(paths@).take(i as int));
            assert(t.last() == p@);
        }
        if is_zip_path(p.as_str()) {
            let ghost pre = views(out@);
            out.push(p.clone());
            proof {
                assert(views(out@) =~= pre.push(p@));
            }
        }
        i = i + 1;
    }
    proof {
        assert(views(paths@).take(paths@.len() as int) =~= views(paths@));
    }
    out
}

/// The path has no file name.
#[derive(Debug, PartialEq, Eq)]
pub struct NoFileName;

/// `s` without its replacement characters (U+FFFD).
pub open spec fn without_replacement(s: Seq<char>) -> Seq<char>
    decreases s.len(),
{
    if s.len() == 0 {
        Seq::empty()
    } else if s.last() == '\u{FFFD}' {
        without_replacement(s.drop_last())
    } else {
        without_replacement(s.drop_last()).push(s.last())
    }
}

/// The file name of `path` for display, without replacement characters.
pub fn get_filename_from_path(path: &str) -> (r: Result<String, NoFileName>)
    ensures
        match file_name_of(path@) {
            Some(n) => r matches Ok(s) && s@ == without_replacement(n),
            None => r is Err,
        },
{
    let name = match file_name(path) {
        Some(n) => n,
        None => return Err(NoFileName),
    };
    let s = name.as_str();
    let n = s.unicode_len();
    let mut out = String::new();
    let mut i: usize = 0;
    while i < n
        invariant
            n == s@.len(),
            s@ == name@,
            i <= n,
            out@ == without_replacement(s@.take(i as int)),
        decreases n - i,
    {
        let c = s.get_char(i);
        proof {
            let t = s@.take(i + 1);
            assert(t.drop_last() =~= s@.take(i as int));
            assert(t.last() == c);
        }
        if c != '\u{FFFD}' {
            let piece = s.substring_char(i, i + 1);
            out.append(piece);
            proof {
                assert(piece@ =~= seq![c]);
            }
        }
        i = i + 1;
    }
    proof {
        assert(s@.take(n as int) =~= s@);
    }
    Ok(out)
}

/// `s` in lower case, as `str::to_lowercase` gives it.
pub uninterp spec fn lowercase_text(s: Seq<char>) -> Seq<char>;

/// Relies on `str::to_lowercase`: the lower-case form of a text depends on
/// its characters alone.
#[verifier::external_body]
fn to_lowercase(s: &str) -> (r: String)
    ensures
        r@ == lowercase_text(s@),
{
    s.to_lowercase()
}

/// The extensions of image files: `jpg`, `jpeg` and `png`.
pub open spec fn is_image_extension(e: Seq<char>) -> bool {
    e == seq!['j', 'p', 'g'] || e == seq!['j', 'p', 'e', 'g'] || e == seq!['p', 'n', 'g']
}

/// Whether the lower-case extension `e` is that of an image file.
pub fn image_extension(e: &str) -> (r: bool)
    ensures
        r == is_image_extension(e@),
{
    let cs = text_chars(e);
    let ghost jpg = seq!['j', 'p', 'g'];
    let ghost jpeg = seq!['j', 'p', 'e', 'g'];
    let ghost png = seq!['p', 'n', 'g'];
    proof {
        assert(jpg[0] == 'j' && jpg[1] == 'p' && jpg[2] == 'g' && jpg.len() == 3);
        assert(jpeg[0] == 'j' && jpeg[1] == 'p' && jpeg[2] == 'e' && jpeg[3] == 'g' && jpeg.len() == 4);
        assert(png[0] == 'p' && png[1] == 'n' && png[2] == 'g' && png.len() == 3);
    }
    if cs.len() == 3 {
        if cs[0] == 'j' && cs[1] == 'p' && cs[2] == 'g' {
            assert(e@ =~= jpg);
            return true;
        }
        if cs[0] == 'p' && cs[1] == 'n' && cs[2] == 'g' {
            assert(e@ =~= png);
            return true;
        }
        assert(e@ != jpg && e@ != png && e@ != jpeg);
        false
    } else if cs.len() == 4 {
        if cs[0] == 'j' && cs[1] == 'p' && cs[2] == 'e' && cs[3] == 'g' {
            assert(e@ =~= jpeg);
            return true;
        }
        assert(e@ != jpg && e@ != png && e@ != jpeg);
        false
    } else {
        assert(e@ != jpg && e@ != png && e@ != jpeg);
        false
    }
}

/// Whether `path` names an image file: its extension, in lower case, is
/// `jpg`, `jpeg` or `png`.
pub fn is_image_path(path: &str) -> (r: bool)
    ensures
        r == (extension_of(path@) matches Some(e) && is_image_extension(lowercase_text(e))),
{
    match extension(path) {
        Some(e) => {
            let lower = to_lowercase(e.as_str());
            image_extension(lower.as_str())
        },
        None => false,
    }
}

/// `s` without leading and trailing white space, as `str::trim` gives it.
pub uninterp spec fn trimmed_text(s: Seq<char>) -> Seq<char>;

/// Relies on `str::trim`: the trimmed text depends on the characters alone.
#[verifier::external_body]
fn trim(s: &str) -> (r: String)
    ensures
        r@ == trimmed_text(s@),
{
    s.trim().to_string()
}

/// The path that the user asked for: the input without surrounding white
/// space, or `None` (meaning the current directory) where nothing is left.
pub fn requested_path(input: Option<String>) -> (r: Option<String>)
    ensures
        match input {
            Some(s) => if trimmed_text(s@).len() > 0 {
                r matches Some(t) && t@ == trimmed_text(s@)
            } else {
                r is None
            },
            None => r is None,
        },
{
    match input {
        Some(s) => non_empty(trim(s.as_str())),
        None => None,
    }
}

/// `p` relative to the directory `base`: what follows `base` and a separator
/// (or directly `base` where it ends in one), or `None` where `p` does not lie
/// below `base`.
pub open spec fn below(p: Seq<char>, base: Seq<char>) -> Option<Seq<char>> {
    if base.len() > 0 && is_separator(base.last()) && p.len() >= base.len() && p.take(
        base.len() as int,
    ) == base {
        Some(p.skip(base.len() as int))
    } else if p.len() > base.len() && p.take(base.len() as int) == base && is_separator(
        p[base.len() as int],
    ) {
        Some(p.skip(base.len() as int + 1))
    } else {
        None
    }
}

/// How `path` reads from the directory `base`: `base` itself where they are
/// equal, the part below `base` where there is one, else `path` unchanged.
pub open spec fn relative_view(path: Seq<char>, base: Seq<char>) -> Seq<char> {
    if path == base {
        base
    } else {
        match below(path, base) {
            Some(rest) => rest,
            None => path,
        }
    }
}

fn seq_prefix(p: &Vec<char>, base: &Vec<char>) -> (r: bool)
    ensures
        r == (p@.len() >= base@.len() && p@.take(base@.len() as int) == base@),
{
    if p.len() < base.len() {
        return false;
    }
    let mut i: usize = 0;
    while i < base.len()
        invariant
            p@.len() >= base@.len(),
            i <= base@.len(),
            p@.take(i as int) == base@.take(i as int),
        decreases base@.len() - i,
    {
        if p[i] != base[i] {
            proof {
                assert(p@.take(base@.len() as int)[i as int] == p@[i as int]);
            }
            return false;
        }
        proof {
            assert(p@.take(i + 1) =~= base@.take(i + 1));
        }
        i = i + 1;
    }
    proof {
        assert(base@.take(base@.len() as int) =~= base@);
    }
    true
}

/// `path` as seen from the directory `base` (the current directory of the
/// caller): see `relative_view`.
pub fn relative_to(path: &str, base: &str) -> (r: String)
    ensures
        r@ == relative_view(path@, base@),
{
    let p = text_chars(path);
    let b = text_chars(base);
    let prefix = seq_prefix(&p, &b);
    let n = p.len();
    let k = b.len();
    if prefix && n == k {
        proof {
            assert(path@ =~= base@);
        }
        return String::from_str(base);
    }
    proof {
        if path@ == base@ {
            assert(p@.take(k as int) =~= p@);
        }
    }
    if k > 0 && (b[k - 1] == '/' || b[k - 1] == '\\') && prefix {
        return String::from_str(path.substring_char(k, n));
    }
    if n > k && prefix && (p[k] == '/' || p[k] == '\\') {
        return String::from_str(path.substring_char(k + 1, n));
    }
    String::from_str(path)
}

} // verus!
