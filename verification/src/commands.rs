//! Decisions of the command-line front end that do not touch the disk.

use vstd::prelude::*;

verus! {

/// What `cat-file` shows of an object.
#[derive(Debug, PartialEq, Eq, Structural, Clone, Copy)]
pub enum CatFileMode {
    /// The object's kind.
    Type,
    /// The content's length in bytes.
    Size,
    /// The content itself.
    Pretty,
}

/// The view `cat-file` shows for its flags: `-t` wins over `-s`, which wins
/// over `-p`; with none of them there is nothing to show.
pub fn cat_file_mode(pretty: bool, show_type: bool, show_size: bool) -> (res: Option<CatFileMode>)
    ensures
        res == if show_type {
            Some(CatFileMode::Type)
        } else if show_size {
            Some(CatFileMode::Size)
        } else if pretty {
            Some(CatFileMode::Pretty)
        } else {
            None
        },
{
    if show_type {
        Some(CatFileMode::Type)
    } else if show_size {
        Some(CatFileMode::Size)
    } else if pretty {
        Some(CatFileMode::Pretty)
    } else {
        None
    }
}

} // verus!
