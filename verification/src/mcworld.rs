//! Importing Minecraft worlds into the edit store. This build carries no
//! Minecraft world support.
use vstd::prelude::*;
use crate::edit::EditStore;

verus! {

/// Places the Minecraft worlds found in `dir` at height `base_y`; returns
/// each world's name and extent. Without Minecraft world support this
/// always fails and leaves the edits alone.
pub fn load_mcworlds_in_dir(_dir: &str, _base_y: i32, _edits: &mut EditStore)
    -> (r: Result<Vec<(String, (i32, i32, i32), (i32, i32, i32))>, String>)
    ensures
        r matches Err(e) && e@ == "mcworld support not enabled; recompile with --features mcworld"@,
        *final(_edits) == *old(_edits),
{
    Err("mcworld support not enabled; recompile with --features mcworld".to_owned())
}

} // verus!
