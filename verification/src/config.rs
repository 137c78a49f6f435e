//! Source configuration: the list of filesystem roots to index.
//!
//! Configuration is produced elsewhere (loaded from disk by the surrounding
//! application) and is read-only to the indexing core.

use vstd::prelude::*;

verus! {

/// One configured indexing root, identified by a small integer id that is
/// stamped on every catalog entry it produces.
pub struct Source {
    pub id: u8,
    pub path: String,
}

/// The application's configuration: the port to serve on and the ordered
/// list of sources to index.
pub struct Config {
    pub port: u16,
    pub sources: Vec<Source>,
}

impl Default for Config {
    /// The starting configuration: one source with id 0 and an empty path,
    /// serving on port 8008.
    fn default() -> (c: Config)
        ensures
            c.port == 8008,
            c.sources@.len() == 1,
            c.sources@[0].id == 0,
            c.sources@[0].path@ == Seq::<char>::empty(),
    {
        let mut sources: Vec<Source> = Vec::new();
        sources.push(Source { id: 0, path: String::new() });
        Config { port: 8008, sources }
    }
}

} // verus!
