//! Tilde expansion for user-supplied paths. The home directory comes from
//! the environment through the `dirs` crate; the expansion itself is plain
//! string logic, verified for every possible home value.

use crate::strutil::concat_strs;
use vstd::prelude::*;
use vstd::string::*;

verus! {

/// What expansion yields: with no home directory the path is unchanged; a
/// lone `~` becomes the home; a path whose first component is `~` has it
/// replaced by the home; any other path (including one merely starting with
/// a `~` character, such as `~x`) is unchanged.
pub open spec fn expand_tilde_spec(path: Seq<char>, home: Option<Seq<char>>) -> Seq<char> {
    match home {
        None => path,
        Some(h) => {
            if path.len() == 1 && path[0] == '~' {
                h
            } else if path.len() >= 2 && path[0] == '~' && path[1] == '/' {
                h + seq!['/'] + path.skip(2)
            } else {
                path
            }
        },
    }
}

/// Expands a leading `~` component against the given home directory.
pub fn expand_tilde_with(path: &str, home: Option<&String>) -> (r: String)
    ensures
        r@ == expand_tilde_spec(
            path@,
            match home {
                Some(h) => Some(h@),
                None => None,
            },
        ),
{
    let n = path.unicode_len();
    match home {
        None => path.to_owned(),
        Some(h) => {
            if n == 1 && path.get_char(0) == '~' {
                h.clone()
            } else if n >= 2 && path.get_char(0) == '~' && path.get_char(1) == '/' {
                let rest = path.substring_char(2, n);
                let a = concat_strs(h.as_str(), "/");
                let b = concat_strs(a.as_str(), rest);
                proof {
                    reveal_strlit("/");
                    assert("/"@ =~= seq!['/']);
                    assert(path@.subrange(2, n as int) =~= path@.skip(2));
                    assert(b@ =~= h@ + seq!['/'] + path@.skip(2));
                }
                b
            } else {
                path.to_owned()
            }
        },
    }
}

/// Relies on dirs::home_dir: the user's home directory, read from the
/// environment; nothing can be promised of the outcome. A home that is not
/// valid UTF-8 counts as none.
#[verifier::external_body]
fn home_dir_string() -> (r: Option<String>) {
    match dirs::home_dir() {
        Some(p) => p.into_os_string().into_string().ok(),
        None => None,
    }
}

/// Expands a leading `~` component against the user's home directory,
/// whatever the environment holds.
pub fn expand_tilde(path: &str) -> (r: String)
    ensures
        exists|h: Option<Seq<char>>| r@ == expand_tilde_spec(path@, h),
{
    match home_dir_string() {
        Some(h) => {
            let r = expand_tilde_with(path, Some(&h));
            proof {
                let hv: Option<Seq<char>> = Some(h@);
                assert(r@ == expand_tilde_spec(path@, hv));
            }
            r
        },
        None => {
            let r = expand_tilde_with(path, None);
            proof {
                let hv: Option<Seq<char>> = None;
                assert(r@ == expand_tilde_spec(path@, hv));
            }
            r
        },
    }
}

} // verus!
