use vstd::prelude::*;

verus! {

/// The errors that packing can end in.
#[derive(Debug, PartialEq, Eq)]
pub enum Error {
    /// Every item must fit into an empty bin by itself. Where one or more
    /// items do not, nothing is packed and this error is returned, with a
    /// message that names the first of them.
    AllItemsMustFit(String),
}

} // verus!
