pub mod cli;
pub mod files;
pub mod images;
pub mod strings;
pub mod template;
pub mod vms;

use vstd::prelude::*;

verus! {

/// Failure modes of the catalog and resolution engines.  Every error carries
/// enough context (an image or VM name, a path) for the caller to report it.
#[derive(Debug)]
pub enum Error {
    /// The catalog or a configuration file could not be read.
    ReadConfig(String),
    /// The catalog or a configuration file could not be parsed.
    ParseConfig(String),
    /// A name was requested from the embedded defaults that is not there.
    GetWrongEmbeddedFile(String),
    /// The catalog has no image of the given name.
    UnknownImage(String),
    /// No image file of the given name is on disk.
    ImageDoesNotExists(String),
    /// Fetching an image from its URL failed.
    DownloadImage(String),
    /// A template placeholder could not be resolved.
    Render(String),
    /// A selected VM has no live process under the mode that demands one.
    NotRunning(String),
    /// The selection resolved to no VM although a non-empty result was demanded.
    NoMatchingVm,
    /// A VM's parent chain loops back on itself at the named spec.
    CyclicParent(String),
    /// A VM names a parent spec that does not exist.
    UnknownParent(String),
}

} // verus!
