//! The list of URLs given on the command line: a JSON array of strings, or a
//! single `https://` URL.
use vstd::prelude::*;
use crate::names::views;

verus! {

/// The input is neither a JSON array of strings nor a single `https://` URL.
#[derive(Debug, PartialEq, Eq)]
pub struct UnrecognizedUrls;

/// `s` read as a JSON array of strings, or `None` where it is not one.
pub uninterp spec fn json_string_array(s: Seq<char>) -> Option<Seq<Seq<char>>>;

/// Relies on `serde_json::from_str::<Vec<String>>`: it reads `s` as a JSON
/// array of strings, and fails where `s` is not one.
#[verifier::external_body]
fn json_strings(s: &str) -> (r: Option<Vec<String>>)
    ensures
        match r {
            Some(v) => json_string_array(s@) == Some(views(v@)),
            None => json_string_array(s@) is None,
        },
{
    serde_json::from_str::<Vec<String>>(s).ok()
}

pub open spec fn https_scheme() -> Seq<char> {
    seq!['h', 't', 't', 'p', 's', ':', '/', '/']
}

pub open spec fn starts_with_https(s: Seq<char>) -> bool {
    s.len() >= 8 && s.take(8) == https_scheme()
}

/// The URLs that `input` lists, given what it reads as in JSON: that array,
/// else the input itself where it is an `https://` URL.
pub open spec fn urls_of(input: Seq<char>, parsed: Option<Seq<Seq<char>>>) -> Option<
    Seq<Seq<char>>,
> {
    match parsed {
        Some(v) => Some(v),
        None => if starts_with_https(input) {
            Some(seq![input])
        } else {
            None
        },
    }
}

pub open spec fn parsed_view(parsed: Option<Vec<String>>) -> Option<Seq<Seq<char>>> {
    match parsed {
        Some(v) => Some(views(v@)),
        None => None,
    }
}

fn starts_with_https_exec(s: &str) -> (r: bool)
    ensures
        r == starts_with_https(s@),
{
    let n = s.unicode_len();
    if n < 8 {
        return false;
    }
    let r = s.get_char(0) == 'h' && s.get_char(1) == 't' && s.get_char(2) == 't' && s.get_char(3)
        == 'p' && s.get_char(4) == 's' && s.get_char(5) == ':' && s.get_char(6) == '/'
        && s.get_char(7) == '/';
    proof {
        let t = s@.take(8);
        let k = https_scheme();
        if r {
            assert(t =~= k);
        } else {
            assert(k[0] == 'h' && k[1] == 't' && k[2] == 't' && k[3] == 'p' && k[4] == 's' && k[5]
                == ':' && k[6] == '/' && k[7] == '/');
            assert(t[0] == s@[0] && t[1] == s@[1] && t[2] == s@[2] && t[3] == s@[3] && t[4]
                == s@[4] && t[5] == s@[5] && t[6] == s@[6] && t[7] == s@[7]);
            assert(t != k);
        }
    }
    r
}

/// The URLs of `input`, given the array of strings it reads as in JSON
/// (`None` where it does not read as one).
pub fn urls_from_parsed(input: &str, parsed: Option<Vec<String>>) -> (r: Result<
    Vec<String>,
    UnrecognizedUrls,
>)
    ensures
        match urls_of(input@, parsed_view(parsed)) {
            Some(u) => r matches Ok(v) && views(v@) == u,
            None => r is Err,
        },
{
    match parsed {
        Some(v) => Ok(v),
        None => {
            if starts_with_https_exec(input) {
                let mut v: Vec<String> = Vec::new();
                v.push(String::from_str(input));
                proof {
                    assert(views(v@) =~= seq![input@]);
                }
                Ok(v)
            } else {
                Err(UnrecognizedUrls)
            }
        },
    }
}

/// Parses the URL argument: a JSON array of strings, or a single `https://`
/// URL; anything else is refused.
pub fn parse_urls(input: &str) -> (r: Result<Vec<String>, UnrecognizedUrls>)
    ensures
        match urls_of(input@, json_string_array(input@)) {
            Some(u) => r matches Ok(v) && views(v@) == u,
            None => r is Err,
        },
{
    let parsed = json_strings(input);
    urls_from_parsed(input, parsed)
}

} // verus!
