//! The decision rule of the configuration-file watcher: a filesystem event
//! prompts the caller to re-read the tag taxonomy exactly when it is a
//! modification whose path ends in the taxonomy's file name. Observing the
//! directory and delivering the notification are the caller's business.

use vstd::prelude::*;

verus! {

/// The file name the taxonomy is stored under.
pub fn tags_file_name() -> (n: &'static str)
    ensures
        n@ == "tags.json"@,
{
    "tags.json"
}

/// Whether a filesystem event calls for re-reading the taxonomy: it must
/// be a modification, and the final component of its path must be the
/// taxonomy's file name. Every other event is ignored.
pub fn tags_file_event_triggers_reload(is_modify: bool, file_name: Option<&str>) -> (b: bool)
    ensures
        b == (is_modify && file_name is Some && file_name->0@ == "tags.json"@),
{
    match file_name {
        Some(n) => is_modify && crate::lex::str_eq(n, "tags.json"),
        None => false,
    }
}

} // verus!
