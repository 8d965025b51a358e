//! Resolution of `require` requests to module files, and the cache of loaded
//! modules with circular-dependency detection.
pub mod cache;
pub mod path;
pub mod searcher;

pub use cache::ModuleCache;
pub use path::{PathEngine, PathResolutionError};
pub use searcher::SearcherEngine;

use vstd::prelude::*;
use crate::module_loader::path::{
    base_or_current, direct_outcome, first_accepted_outcome, lemma_first_accepted_unique, probe_decides,
    resolution_candidates, resolution_error_text,
};
use crate::module_loader::searcher::{default_patterns, search_candidates};

verus! {

/// A result by the texts of its path or message.
pub open spec fn result_text(r: Result<String, String>) -> Result<Seq<char>, Seq<char>> {
    match r {
        Ok(p) => Ok(p@),
        Err(m) => Err(m@),
    }
}

/// What resolving `requested` may give (see `ModuleLoader::resolve_module`):
/// the first search candidate the probe accepts; if it accepts none, the
/// first direct resolution candidate it accepts (for a path without NUL);
/// otherwise the null-byte message, or "module not found" for `requested`.
pub open spec fn resolve_outcome<F: Fn(&str) -> bool>(
    probe: F,
    patterns: Seq<Seq<char>>,
    requested: Seq<char>,
    base: Seq<char>,
    r: Result<Seq<char>, Seq<char>>,
) -> bool {
    let sc = search_candidates(patterns, requested, base);
    let rc = resolution_candidates(requested, base);
    match r {
        Ok(path) => first_accepted_outcome(probe, sc, Some(path)) || (first_accepted_outcome(probe, sc, None)
            && !requested.contains('\0') && first_accepted_outcome(probe, rc, Some(path))),
        Err(m) => {
            &&& first_accepted_outcome(probe, sc, None)
            &&& requested.contains('\0') ==> m == resolution_error_text(PathResolutionError::NullByteDetected)
            &&& !requested.contains('\0') ==> {
                &&& first_accepted_outcome(probe, rc, None)
                &&& m == "module not found: '"@ + requested + "'"@
            }
        },
    }
}

/// Search patterns take precedence: with a probe that gives one answer per
/// path, what `resolve_module` returns is what `SearcherEngine::search`
/// finds, and where that finds nothing, what `PathEngine::resolve_candidate`
/// gives, its error turned into its message.
pub proof fn lemma_resolve_module_precedence<F: Fn(&str) -> bool>(
    probe: F,
    patterns: Seq<Seq<char>>,
    requested: Seq<char>,
    base: Seq<char>,
    searched: Option<Seq<char>>,
    direct: Result<Seq<char>, PathResolutionError>,
    resolved: Result<Seq<char>, Seq<char>>,
)
    requires
        probe_decides(probe),
        first_accepted_outcome(probe, search_candidates(patterns, requested, base), searched),
        direct_outcome(probe, requested, base, direct),
        resolve_outcome(probe, patterns, requested, base, resolved),
    ensures
        searched matches Some(p) ==> resolved == Ok::<Seq<char>, Seq<char>>(p),
        searched is None ==> resolved == match direct {
            Ok(q) => Ok::<Seq<char>, Seq<char>>(q),
            Err(e) => Err(resolution_error_text(e)),
        },
{
    let sc = search_candidates(patterns, requested, base);
    let rc = resolution_candidates(requested, base);
    match resolved {
        Ok(path) => {
            if first_accepted_outcome(probe, sc, Some(path)) {
                lemma_first_accepted_unique(probe, sc, searched, Some(path));
            } else {
                lemma_first_accepted_unique(probe, sc, searched, None);
                match direct {
                    Ok(q) => {
                        lemma_first_accepted_unique(probe, rc, Some(q), Some(path));
                    },
                    Err(e) => {
                        lemma_first_accepted_unique(probe, rc, None, Some(path));
                    },
                }
            }
        },
        Err(m) => {
            lemma_first_accepted_unique(probe, sc, searched, None);
            if !requested.contains('\0') {
                match direct {
                    Ok(q) => {
                        lemma_first_accepted_unique(probe, rc, Some(q), None);
                    },
                    Err(e) => {},
                }
            }
        },
    }
}

/// Finds modules by the searcher's patterns or by direct paths, relative to
/// an optional base directory, and keeps the module cache.
#[derive(Clone, Debug)]
pub struct ModuleLoader<V> {
    searcher: SearcherEngine,
    cache: ModuleCache<V>,
    base_dir: Option<String>,
}

impl<V> ModuleLoader<V> {
    /// The loader's invariant: its cache's.
    pub closed spec fn wf(&self) -> bool {
        self.cache.wf()
    }

    /// The searcher's patterns.
    pub closed spec fn search_patterns(&self) -> Seq<Seq<char>> {
        self.searcher@
    }

    /// The searcher.
    pub closed spec fn searcher_state(&self) -> SearcherEngine {
        self.searcher
    }

    /// The cache.
    pub closed spec fn cache_state(&self) -> ModuleCache<V> {
        self.cache
    }

    /// The base directory requests are resolved against, if one was set.
    pub closed spec fn base(&self) -> Option<Seq<char>> {
        match self.base_dir {
            Some(b) => Some(b@),
            None => None,
        }
    }

    /// The directory requests are resolved against: the base, or `.`.
    pub open spec fn base_path(&self) -> Seq<char> {
        match self.base() {
            Some(b) => b,
            None => "."@,
        }
    }

    /// A loader with the default patterns, an empty cache and no base
    /// directory.
    pub fn new() -> (r: Self)
        ensures
            r.wf(),
            r.search_patterns() == default_patterns(),
            r.cache_state().values() == Map::<Seq<char>, V>::empty(),
            r.cache_state().loading() == Seq::<Seq<char>>::empty(),
            r.base() == None::<Seq<char>>,
    {
        ModuleLoader { searcher: SearcherEngine::new(), cache: ModuleCache::new(), base_dir: None }
    }

    /// The same loader, resolving against `base_dir`.
    pub fn with_base_dir(self, base_dir: &str) -> (r: Self)
        ensures
            r.wf() == self.wf(),
            r.searcher_state() == self.searcher_state(),
            r.cache_state() == self.cache_state(),
            r.base() == Some(base_dir@),
    {
        ModuleLoader { base_dir: Some(base_dir.to_owned()), ..self }
    }

    /// The searcher.
    pub fn searcher(&self) -> (r: &SearcherEngine)
        ensures
            *r == self.searcher_state(),
    {
        &self.searcher
    }

    /// The searcher, to change its patterns.
    pub fn searcher_mut(&mut self) -> (r: &mut SearcherEngine)
        ensures
            *r == old(self).searcher_state(),
            final(self).searcher_state() == *final(r),
            final(self).cache_state() == old(self).cache_state(),
            final(self).base() == old(self).base(),
    {
        &mut self.searcher
    }

    /// The cache.
    pub fn cache(&self) -> (r: &ModuleCache<V>)
        ensures
            *r == self.cache_state(),
    {
        &self.cache
    }

    /// The cache, to record loaded modules.
    pub fn cache_mut(&mut self) -> (r: &mut ModuleCache<V>)
        ensures
            *r == old(self).cache_state(),
            final(self).cache_state() == *final(r),
            final(self).searcher_state() == old(self).searcher_state(),
            final(self).base() == old(self).base(),
    {
        &mut self.cache
    }

    /// Resolves a request: first by the searcher's patterns, then as a
    /// direct path (see `PathEngine::resolve_candidate`); `probe` tells
    /// whether a file exists. A failure is reported as the direct
    /// resolution's error message.
    pub fn resolve_module<F: Fn(&str) -> bool>(&self, requested: &str, probe: &F) -> (r: Result<String, String>)
        requires
            forall|s: &str| #[trigger] probe.requires((s,)),
        ensures
            resolve_outcome(*probe, self.search_patterns(), requested@, self.base_path(), result_text(r)),
    {
        let base: Option<&str> = match &self.base_dir {
            Some(b) => Some(b.as_str()),
            None => None,
        };
        assert(base_or_current(base) == self.base_path());
        match self.searcher.search(requested, base, probe) {
            Some(found) => {
                return Ok(found);
            },
            None => {},
        }
        match PathEngine::resolve_candidate(requested, base, probe) {
            Ok(found) => Ok(found),
            Err(e) => Err(e.message()),
        }
    }
}

} // verus!
