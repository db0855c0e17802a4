use vstd::prelude::*;

verus! {

/// What went wrong while writing a rendering to its destination.
#[derive(Debug)]
pub struct WriteError {
    pub message: String,
}

/// A destination that rendered content can be written to. The graph engine
/// only computes; implementors carry the content to a file or another sink
/// and report a failure through `WriteError`.
pub trait Writeable {
    fn write_file(&self, path: &str, content: &str) -> Result<(), WriteError>;
}

} // verus!
