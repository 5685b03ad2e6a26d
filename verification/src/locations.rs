//! Where the engine's state lives under a home directory.

use vstd::prelude::*;

use crate::paths::{join_path, join_seq};

verus! {

/// The directory holding configuration and storage, under `home`.
pub fn dotbak_dir(home: &str) -> (r: String)
    ensures
        r@ == join_seq(home@, ".dotbak"@),
{
    join_path(home, ".dotbak")
}

/// The configuration file inside the directory `dotbak`.
pub fn config_path(dotbak: &str) -> (r: String)
    ensures
        r@ == join_seq(dotbak@, "config.toml"@),
{
    join_path(dotbak, "config.toml")
}

/// The storage tree inside the directory `dotbak`; the root the managed
/// files are moved under.
pub fn repo_path(dotbak: &str) -> (r: String)
    ensures
        r@ == join_seq(dotbak@, "dotfiles"@),
{
    join_path(dotbak, "dotfiles")
}

} // verus!
