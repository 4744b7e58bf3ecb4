//! The options a reporting run is invoked with, and the normalization the
//! driver applies to a user-supplied filter.

use crate::strutil::{str_views, trim, trim_spec};
use vstd::prelude::*;

verus! {

/// The command-line options: set up the toolchain, or analyze the crate at
/// `utrace` and report, optionally verbosely, optionally with call traces,
/// optionally restricted to the named units.
#[derive(Debug)]
pub struct Cli {
    pub init: bool,
    pub utrace: Option<String>,
    pub verbose: bool,
    pub filter: Option<Vec<String>>,
    pub call_trace: bool,
}

/// Trims every entry of a user-supplied filter; an absent filter stays
/// absent.
#[verifier::loop_isolation(false)]
pub fn normalize_filter(filter: Option<Vec<String>>) -> (r: Option<Vec<String>>)
    ensures
        match r {
            Some(o) => filter is Some && str_views(o@) == str_views(filter.unwrap()@).map_values(
                |s: Seq<char>| trim_spec(s),
            ),
            None => filter is None,
        },
{
    match filter {
        None => None,
        Some(v) => {
            let mut out: Vec<String> = Vec::new();
            let n = v.len();
            let mut i: usize = 0;
            proof {
                assert(str_views(out@) =~= str_views(v@).take(0).map_values(
                    |s: Seq<char>| trim_spec(s),
                ));
            }
            while i < n
                invariant
                    n == v@.len(),
                    0 <= i <= n,
                    str_views(out@) == str_views(v@).take(i as int).map_values(
                        |s: Seq<char>| trim_spec(s),
                    ),
                decreases n - i,
            {
                let t = trim(v[i].as_str());
                let ghost pre = str_views(out@);
                out.push(t);
                proof {
                    assert(str_views(out@) =~= pre.push(trim_spec(v@[i as int]@)));
                    assert(str_views(v@).take(i + 1).map_values(|s: Seq<char>| trim_spec(s))
                        =~= str_views(v@).take(i as int).map_values(
                        |s: Seq<char>| trim_spec(s),
                    ).push(trim_spec(str_views(v@)[i as int])));
                }
                i = i + 1;
            }
            proof {
                assert(str_views(v@).take(n as int) =~= str_views(v@));
            }
            Some(out)
        },
    }
}

} // verus!
