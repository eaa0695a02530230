//! Where the layout file is.

use crate::pattern::{regex_compiles, regex_replaced, replaced};
use vstd::prelude::*;

verus! {

/// The path of a file, with a tilde at its beginning replaced by the home
/// directory. The tilde is found as the regular expression `^~`, and the
/// home directory is put in as the engine expands a replacement.
pub fn expand_home(path: &str, home: &str) -> (expanded: String)
    ensures
        expanded@ == if regex_compiles("^~"@) {
            regex_replaced("^~"@, path@, home@)
        } else {
            path@
        },
{
    replaced("^~", path, home)
}

} // verus!
