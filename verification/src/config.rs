//! The compilation settings: where the injection units, the target sources
//! and the output cache live, and the switches that shape the emitted
//! `require` statements and the copying of unmapped files.  Reading the
//! settings from disk or from the command line is the caller's business;
//! the library only carries them.

use vstd::prelude::*;

verus! {

/// The settings as a configuration file declares them; the optional switches
/// default when absent.
#[derive(Debug, Clone)]
pub struct ConfigFile {
    pub injections: String,
    pub src: String,
    pub cache: String,
    pub use_document_root: Option<bool>,
    pub copy_other: Option<bool>,
}

/// The resolved settings of one compilation run.
#[derive(Debug, Clone)]
pub struct Config {
    pub injections: String,
    pub src: String,
    pub cache: String,
    pub origin: String,
    pub use_document_root: bool,
    pub copy_other: bool,
    pub debbuging: bool,
}

impl Config {
    /// Resolves a configuration file against the directory it was found in:
    /// `use_document_root` defaults to on, `copy_other` to off, and
    /// debugging starts off.
    pub fn from_file(file: ConfigFile, origin: String) -> (r: Config)
        ensures
            r.injections == file.injections,
            r.src == file.src,
            r.cache == file.cache,
            r.origin == origin,
            r.use_document_root == match file.use_document_root {
                Some(b) => b,
                None => true,
            },
            r.copy_other == match file.copy_other {
                Some(b) => b,
                None => false,
            },
            !r.debbuging,
    {
        let udr: bool = match file.use_document_root {
            Some(b) => b,
            None => true,
        };
        let co: bool = match file.copy_other {
            Some(b) => b,
            None => false,
        };
        Config {
            injections: file.injections,
            src: file.src,
            cache: file.cache,
            origin,
            use_document_root: udr,
            copy_other: co,
            debbuging: false,
        }
    }
}

} // verus!
