use php_injector::Config;
use php_injector::ConfigFile;
use php_injector::should_recompile;
use php_injector::WatchEvent;

#[test]
fn config_defaults_resolve() {
    let file = ConfigFile {
        injections: "inj".to_string(),
        src: "src".to_string(),
        cache: "cache".to_string(),
        use_document_root: None,
        copy_other: None,
    };
    let cfg = Config::from_file(file, "/proj".to_string());
    assert_eq!(cfg.injections, "inj");
    assert_eq!(cfg.src, "src");
    assert_eq!(cfg.cache, "cache");
    assert_eq!(cfg.origin, "/proj");
    assert!(cfg.use_document_root);
    assert!(!cfg.copy_other);
    assert!(!cfg.debbuging);
}

#[test]
fn config_explicit_switches_win() {
    let file = ConfigFile {
        injections: "i".to_string(),
        src: "s".to_string(),
        cache: "c".to_string(),
        use_document_root: Some(false),
        copy_other: Some(true),
    };
    let cfg = Config::from_file(file, ".".to_string());
    assert!(!cfg.use_document_root);
    assert!(cfg.copy_other);
}

#[test]
fn watch_events_trigger_recompilation() {
    assert!(should_recompile(&WatchEvent::Create));
    assert!(should_recompile(&WatchEvent::Write));
    assert!(should_recompile(&WatchEvent::Remove));
    assert!(should_recompile(&WatchEvent::Rename));
    assert!(!should_recompile(&WatchEvent::Other));
}
