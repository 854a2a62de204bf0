use vstd::prelude::*;

use crate::compression::{suffix_of, CompressionFormat};

verus! {

/// What to do with a finished file.
#[derive(Debug, Clone, Copy, PartialEq, Eq, Structural)]
pub enum Action {
    BlockingDelete,
    CompressAndDelete,
}

/// An action on the file named `arg`.
pub struct Job {
    pub action: Action,
    pub arg: String,
}

impl Job {
    /// The name of the compressed copy that `CompressAndDelete` leaves.
    pub fn compressed_name(&self) -> (r: String)
        ensures
            r@ == self.arg@ + suffix_of(CompressionFormat::Xz),
    {
        let mut name = self.arg.clone();
        name.append(CompressionFormat::Xz.suffix());
        name
    }
}

} // verus!
