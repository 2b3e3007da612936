//! Process configuration: the one recognized option, the filesystem path of
//! the data file. Discovering and reading the configuration file is I/O and
//! stays with the caller; the library only carries the resolved value.
use vstd::prelude::*;

verus! {

/// The resolved configuration a caller hands to the store.
pub struct Config {
    pub data_path: String,
}

impl Config {
    pub fn new(data_path: String) -> (r: Config)
        ensures
            r.data_path@ == data_path@,
    {
        Config { data_path }
    }
}

} // verus!
