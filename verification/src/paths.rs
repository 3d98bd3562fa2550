use vstd::prelude::*;
use vstd::string::StringExecFns;

verus! {

/// The path of the store's file inside a given configuration directory.
/// The directory is handed in by the caller (it is resolved from the
/// platform's conventions outside this crate) and must not end in a slash.
pub fn config_file(config_dir: &str) -> (r: String)
    ensures
        r@ == config_dir@ + "/config.toml"@,
{
    let mut s = config_dir.to_owned();
    s.append("/config.toml");
    s
}

} // verus!
