//! Settings of the command-line tools.

use vstd::prelude::*;

verus! {

/// The default number of routes.
pub const DFLT_ROUTES: u8 = 1;

/// The default size of a timestamp key.
pub const DFLT_KEY_SIZE: u8 = 12;

/// Settings read from the command line.
#[derive(Debug, Default, Clone)]
pub struct Config {
    pub routes: u8,
    pub key_size: u8,
}

impl Config {
    /// The default settings: one route, keys of twelve characters.
    pub fn new() -> (r: Config)
        ensures
            r.routes == DFLT_ROUTES,
            r.key_size == DFLT_KEY_SIZE,
    {
        Config { routes: DFLT_ROUTES, key_size: DFLT_KEY_SIZE }
    }
}

} // verus!
