//! Locations inside the tool's working directory, derived from its root.
//! Reading the root itself from the environment is the caller's business;
//! these functions only build the paths.

use crate::strutil::concat_strs;
use vstd::prelude::*;

verus! {

/// The plugin crate's directory under the root.
pub fn plugin_dir(root: &str) -> (r: String)
    ensures
        r@ == root@ + "/plugin"@,
{
    concat_strs(root, "/plugin")
}

/// The built plugin binary under the root.
pub fn plugin_bin(root: &str) -> (r: String)
    ensures
        r@ == root@ + "/target/release/utrace_plugin"@,
{
    concat_strs(root, "/target/release/utrace_plugin")
}

/// The linked toolchain's directory under the root.
pub fn toolchain_dir(root: &str) -> (r: String)
    ensures
        r@ == root@ + "/toolchain"@,
{
    concat_strs(root, "/toolchain")
}

/// The directory the per-unit records are persisted in.
pub fn out_dir(root: &str) -> (r: String)
    ensures
        r@ == root@ + "/out"@,
{
    concat_strs(root, "/out")
}

/// The file a unit's record is persisted under: named by the unit identity
/// alone, so concurrent passes for different units never share a file.
/// An empty identity names no file.
pub fn record_path(dir: &str, krate: &str) -> (r: Option<String>)
    ensures
        match r {
            Some(p) => krate@.len() > 0 && p@ == dir@ + "/"@ + krate@ + ".record"@,
            None => krate@.len() == 0,
        },
{
    if krate.unicode_len() == 0 {
        return None;
    }
    let a = concat_strs(dir, "/");
    let b = concat_strs(a.as_str(), krate);
    let c = concat_strs(b.as_str(), ".record");
    proof {
        assert(c@ =~= dir@ + "/"@ + krate@ + ".record"@);
    }
    Some(c)
}

} // verus!
