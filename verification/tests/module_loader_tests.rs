use std::cell::RefCell;

use neyuki::module_loader::{ModuleCache, ModuleLoader, PathEngine, PathResolutionError, SearcherEngine};

fn on_disk(p: &str) -> bool {
    std::path::Path::new(p).is_file()
}

#[test]
fn test_searcher_dot_conversion() {
    let searcher = SearcherEngine::new();
    assert!(searcher.patterns().contains(&"./?.nyk".to_string()));
    assert!(searcher.patterns().contains(&"./?/init.nyk".to_string()));
}

#[test]
fn test_module_cache_cycle_detection() {
    let mut cache: ModuleCache<u64> = ModuleCache::new();
    assert!(cache.begin_loading("a").is_ok());
    assert!(cache.begin_loading("b").is_ok());
    let cycle_err = cache.begin_loading("a").unwrap_err();
    assert!(cycle_err.contains("circular dependency detected"));
    cache.finish_loading("b");
    cache.finish_loading("a");
    assert!(cache.begin_loading("a").is_ok());
}

#[test]
fn test_path_resolution_candidate_extensions() {
    // Non-existent module returns clean error
    let err = PathEngine::resolve_candidate("non_existent_12345", None, &on_disk).unwrap_err();
    assert!(matches!(err, PathResolutionError::FileNotFound(_)));
}

#[test]
fn cycle_message_names_the_whole_chain() {
    let mut cache: ModuleCache<u64> = ModuleCache::new();
    cache.begin_loading("main").unwrap();
    cache.begin_loading("util").unwrap();
    let err = cache.begin_loading("main").unwrap_err();
    assert_eq!(
        err,
        "circular dependency detected while requiring 'main': main -> util -> main"
    );
}

#[test]
fn finish_then_begin_again_succeeds() {
    let mut cache: ModuleCache<u64> = ModuleCache::new();
    cache.begin_loading("x").unwrap();
    cache.finish_loading("x");
    assert!(cache.begin_loading("x").is_ok());
    // Finishing a module that is not loading changes nothing.
    cache.finish_loading("never");
    assert!(cache.begin_loading("x").is_err());
}

#[test]
fn cache_values_and_protos_round_trip() {
    let mut cache: ModuleCache<u64> = ModuleCache::new();
    assert_eq!(cache.get_value("m"), None);
    cache.insert_value("m", 7);
    cache.insert_value("n", 8);
    cache.insert_value("m", 9);
    assert_eq!(cache.get_value("m"), Some(9));
    assert_eq!(cache.get_value("n"), Some(8));
    assert!(cache.get_proto("a.nyk").is_none());
    let proto = std::rc::Rc::new(neyuki::bytecode::Proto::new(Some("main".to_string()), 0, true));
    cache.insert_proto("a.nyk", proto);
    let got = cache.get_proto("a.nyk").expect("cached");
    assert_eq!(got.name, Some("main".to_string()));
}

#[test]
fn with_patterns_splits_trims_and_drops_empty() {
    let s = SearcherEngine::with_patterns("  lib/?.nyk ;; \t;vendor/?/init.nyk\n;");
    assert_eq!(s.patterns(), &["lib/?.nyk".to_string(), "vendor/?/init.nyk".to_string()]);
    let empty = SearcherEngine::with_patterns("");
    assert!(empty.patterns().is_empty());
}

#[test]
fn add_pattern_goes_last() {
    let mut s = SearcherEngine::with_patterns("a/?.nyk");
    s.add_pattern("b/?.nyk");
    assert_eq!(s.patterns(), &["a/?.nyk".to_string(), "b/?.nyk".to_string()]);
}

#[test]
fn search_turns_dots_into_directories_and_tries_patterns_in_order() {
    let s = SearcherEngine::new();
    let probed = RefCell::new(Vec::new());
    let probe = |p: &str| {
        probed.borrow_mut().push(p.to_string());
        p == "lib/foo/bar/init.nyk"
    };
    let found = s.search("foo.bar", Some("lib"), &probe);
    assert_eq!(found, Some("lib/foo/bar/init.nyk".to_string()));
    assert_eq!(
        probed.into_inner(),
        vec!["lib/foo/bar.nyk".to_string(), "lib/foo/bar/init.nyk".to_string()]
    );
}

#[test]
fn search_without_base_uses_current_directory() {
    let s = SearcherEngine::with_patterns("./modules/?.nyk;/abs/?.nyk");
    let probed = RefCell::new(Vec::new());
    let probe = |p: &str| {
        probed.borrow_mut().push(p.to_string());
        false
    };
    assert_eq!(s.search("x", None, &probe), None);
    assert_eq!(probed.into_inner(), vec!["./modules/x.nyk".to_string(), "/abs/x.nyk".to_string()]);
}

#[test]
fn resolve_candidate_probes_extensions_then_directories() {
    let probed = RefCell::new(Vec::new());
    let probe = |p: &str| {
        probed.borrow_mut().push(p.to_string());
        false
    };
    let err = PathEngine::resolve_candidate("sub/utils", Some("proj"), &probe).unwrap_err();
    assert_eq!(err, PathResolutionError::FileNotFound("sub/utils".to_string()));
    assert_eq!(
        probed.into_inner(),
        vec![
            "proj/sub/utils.nyk".to_string(),
            "proj/sub/utils.nykb".to_string(),
            "proj/sub/utils/init.nyk".to_string(),
            "proj/sub/utils/mod.nyk".to_string(),
            "proj/sub/utils/index.nyk".to_string(),
        ]
    );
}

#[test]
fn resolve_candidate_replaces_an_existing_extension() {
    let found = PathEngine::resolve_candidate("data.v2", None, &|p: &str| p == "./data.nykb");
    assert_eq!(found, Ok("./data.nykb".to_string()));
}

#[test]
fn resolve_candidate_keeps_explicit_extensions() {
    let probed = RefCell::new(Vec::new());
    let probe = |p: &str| {
        probed.borrow_mut().push(p.to_string());
        true
    };
    let found = PathEngine::resolve_candidate("lib/x.nykb", Some("/srv/"), &probe);
    assert_eq!(found, Ok("/srv/lib/x.nykb".to_string()));
    assert_eq!(probed.into_inner(), vec!["/srv/lib/x.nykb".to_string()]);
}

#[test]
fn resolve_candidate_refuses_nul() {
    let err = PathEngine::resolve_candidate("a\0b", None, &|_p: &str| true).unwrap_err();
    assert_eq!(err, PathResolutionError::NullByteDetected);
    assert_eq!(err.message(), "security error: null byte in module path");
}

#[test]
fn resolution_error_messages() {
    assert_eq!(
        PathResolutionError::FileNotFound("m".to_string()).message(),
        "module not found: 'm'"
    );
    assert_eq!(
        PathResolutionError::PathTraversalForbidden("../x".to_string()).message(),
        "security error: path traversal forbidden in require: '../x'"
    );
    assert_eq!(
        PathResolutionError::SecurityViolation("denied".to_string()).message(),
        "security violation: denied"
    );
}

#[test]
fn sandbox_accepts_paths_inside_the_root() {
    let ok = PathEngine::verify_sandbox(
        "lib/a.nyk",
        Ok("/srv/app/lib/a.nyk".to_string()),
        Ok("/srv/app/".to_string()),
    );
    assert_eq!(ok, Ok(()));
    assert_eq!(
        PathEngine::verify_sandbox("x", Ok("/anything".to_string()), Ok("/".to_string())),
        Ok(())
    );
}

#[test]
fn sandbox_refuses_paths_outside_the_root() {
    let err = PathEngine::verify_sandbox(
        "../evil.nyk",
        Ok("/srv/application/evil.nyk".to_string()),
        Ok("/srv/app".to_string()),
    );
    assert_eq!(err, Err(PathResolutionError::PathTraversalForbidden("../evil.nyk".to_string())));
}

#[test]
fn sandbox_reports_canonicalization_failures() {
    let err = PathEngine::verify_sandbox("x", Ok("/a/x".to_string()), Err("no such dir".to_string()));
    assert_eq!(err, Err(PathResolutionError::SecurityViolation("no such dir".to_string())));
    let err = PathEngine::verify_sandbox("x", Err("gone".to_string()), Ok("/a".to_string()));
    assert_eq!(err, Err(PathResolutionError::SecurityViolation("gone".to_string())));
}

#[test]
fn loader_tries_patterns_before_direct_paths() {
    let loader: ModuleLoader<u64> = ModuleLoader::new().with_base_dir("root");
    let found = loader.resolve_module("pkg", &|p: &str| p == "root/pkg/init.nyk");
    assert_eq!(found, Ok("root/pkg/init.nyk".to_string()));
    let found = loader.resolve_module("pkg", &|p: &str| p == "root/pkg/index.nyk");
    assert_eq!(found, Ok("root/pkg/index.nyk".to_string()));
    let err = loader.resolve_module("pkg", &|_p: &str| false);
    assert_eq!(err, Err("module not found: 'pkg'".to_string()));
}

#[test]
fn loader_exposes_its_searcher_and_cache() {
    let mut loader: ModuleLoader<u64> = ModuleLoader::new();
    loader.searcher_mut().add_pattern("extra/?.nyk");
    assert_eq!(loader.searcher().patterns().len(), 8);
    loader.cache_mut().insert_value("m", 1);
    assert_eq!(loader.cache().get_value("m"), Some(1));
    let found = loader.resolve_module("q", &|p: &str| p == "./extra/q.nyk");
    assert_eq!(found, Ok("./extra/q.nyk".to_string()));
}

#[test]
fn resolution_agrees_with_search_then_direct_paths() {
    let loader: ModuleLoader<u64> = ModuleLoader::new().with_base_dir("root");
    let probe = |p: &str| p == "root/pkg/init.nyk" || p == "root/pkg";
    let searched = loader.searcher().search("pkg", Some("root"), &probe);
    assert_eq!(loader.resolve_module("pkg", &probe), Ok(searched.unwrap()));
    let only_direct = |p: &str| p == "root/lib.nyk";
    assert_eq!(loader.searcher().search("lib.nyk", Some("root"), &only_direct), None);
    let direct = PathEngine::resolve_candidate("lib.nyk", Some("root"), &only_direct);
    assert_eq!(loader.resolve_module("lib.nyk", &only_direct), direct.map_err(|e| e.message()));
}
