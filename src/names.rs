//! File names and path components: what counts as a plain component and how
//! raw lossless-audio extensions are normalized.
use vstd::prelude::*;

verus! {

/// The texts of a list of strings.
pub open spec fn views(v: Seq<String>) -> Seq<Seq<char>> {
    v.map_values(|s: String| s@)
}

/// Characters that separate path components.
pub open spec fn is_separator(c: char) -> bool {
    c == '/' || c == '\\'
}

/// The index of the last separator in `p`, or -1.
pub open spec fn last_separator(p: Seq<char>) -> int
    decreases p.len(),
{
    if p.len() == 0 {
        -1
    } else if is_separator(p.last()) {
        p.len() - 1
    } else {
        last_separator(p.drop_last())
    }
}

/// A component that names an entry inside its parent directory: not empty, not
/// `.` or `..`, free of separators and of NUL.
pub open spec fn is_normal_component(c: Seq<char>) -> bool {
    &&& c.len() > 0
    &&& c != seq!['.']
    &&& c != seq!['.', '.']
    &&& forall|i: int| 0 <= i < c.len() ==> !is_separator(#[trigger] c[i]) && c[i] != '\0'
}

/// The raw lossless-audio suffix `.aiff`.
pub open spec fn aiff_suffix() -> Seq<char> {
    seq!['.', 'a', 'i', 'f', 'f']
}

pub open spec fn has_aiff_suffix(s: Seq<char>) -> bool {
    s.len() >= 5 && s.subrange(s.len() - 5, s.len() as int) == aiff_suffix()
}

/// A name that ends in `.aiff` loses its last character (`.aif`); any other
/// name is unchanged.
pub open spec fn normalized_audio_name(s: Seq<char>) -> Seq<char> {
    if has_aiff_suffix(s) {
        s.drop_last()
    } else {
        s
    }
}

/// Whether `s` ends in `.aiff` (lower case only).
pub fn ends_with_aiff(s: &str) -> (r: bool)
    ensures
        r == has_aiff_suffix(s@),
{
    let n = s.unicode_len();
    if n < 5 {
        return false;
    }
    let ok = s.get_char(n - 5) == '.' && s.get_char(n - 4) == 'a' && s.get_char(n - 3) == 'i'
        && s.get_char(n - 2) == 'f' && s.get_char(n - 1) == 'f';
    proof {
        let t = s@.subrange(n - 5, n as int);
        if ok {
            assert(t =~= aiff_suffix());
        } else {
            assert(t[0] == s@[n - 5] && t[1] == s@[n - 4] && t[2] == s@[n - 3] && t[3] == s@[n - 2]
                && t[4] == s@[n - 1]);
            assert(t != aiff_suffix());
        }
    }
    ok
}

/// Rewrites a trailing `.aiff` to `.aif` by dropping the last character.
pub fn normalize_audio_extension(name: &str) -> (r: String)
    ensures
        r@ == normalized_audio_name(name@),
{
    if ends_with_aiff(name) {
        let n = name.unicode_len();
        String::from_str(name.substring_char(0, n - 1))
    } else {
        String::from_str(name)
    }
}

/// Whether `c` is a single plain component.
pub fn is_plain_component(c: &str) -> (r: bool)
    ensures
        r == is_normal_component(c@),
{
    let n = c.unicode_len();
    if n == 0 {
        return false;
    }
    if n == 1 && c.get_char(0) == '.' {
        assert(c@ =~= seq!['.']);
        return false;
    }
    if n == 2 && c.get_char(0) == '.' && c.get_char(1) == '.' {
        assert(c@ =~= seq!['.', '.']);
        return false;
    }
    assert(c@ != seq!['.']) by {
        if n == 1 {
            assert(seq!['.'][0] == '.');
        }
    }
    assert(c@ != seq!['.', '.']) by {
        if n == 2 {
            assert(seq!['.', '.'][0] == '.' && seq!['.', '.'][1] == '.');
        }
    }
    let mut i: usize = 0;
    while i < n
        invariant
            n == c@.len(),
            i <= n,
            forall|j: int| 0 <= j < i ==> !is_separator(#[trigger] c@[j]) && c@[j] != '\0',
        decreases n - i,
    {
        let ch = c.get_char(i);
        if ch == '/' || ch == '\\' || ch == '\0' {
            return false;
        }
        i = i + 1;
    }
    true
}

/// `text` where it is not empty.
pub fn non_empty(text: String) -> (r: Option<String>)
    ensures
        text@.len() > 0 ==> (r matches Some(t) && t@ == text@),
        text@.len() == 0 ==> r is None,
{
    if text.as_str().unicode_len() > 0 {
        Some(text)
    } else {
        None
    }
}

/// The characters of `s`, one per element.
pub fn text_chars(s: &str) -> (r: Vec<char>)
    ensures
        r@ == s@,
{
    let n = s.unicode_len();
    let mut out: Vec<char> = Vec::new();
    let mut i: usize = 0;
    while i < n
        invariant
            n == s@.len(),
            i <= n,
            out@ == s@.take(i as int),
        decreases n - i,
    {
        let c = s.get_char(i);
        out.push(c);
        proof {
            assert(out@ =~= s@.take(i + 1));
        }
        i = i + 1;
    }
    proof {
        assert(s@.take(n as int) =~= s@);
    }
    out
}

} // verus!
