use php_injector::parse_i32;
use php_injector::Mixin;
use php_injector::MixinTypes;

#[test]
fn parse_i32_values() {
    assert_eq!(parse_i32("42"), Some(42));
    assert_eq!(parse_i32("-7"), Some(-7));
    assert_eq!(parse_i32("+5"), Some(5));
    assert_eq!(parse_i32("0"), Some(0));
    assert_eq!(parse_i32("2147483647"), Some(2147483647));
    assert_eq!(parse_i32("-2147483648"), Some(-2147483648));
}

#[test]
fn parse_i32_rejects() {
    assert_eq!(parse_i32(""), None);
    assert_eq!(parse_i32("+"), None);
    assert_eq!(parse_i32("4a"), None);
    assert_eq!(parse_i32(" 4"), None);
    assert_eq!(parse_i32("2147483648"), None);
    assert_eq!(parse_i32("-2147483649"), None);
    assert_eq!(parse_i32("99999999999999999999"), None);
}

#[test]
fn extract_arguments_pairs() {
    let args = Mixin::extract_arguments("#@Inject(at=\"HEAD\", target=\"a/b\")").unwrap();
    // quotes are kept in the raw values; extract_type strips them later
    assert_eq!(args.get("at"), Some("\"HEAD\"".to_string()));
    assert_eq!(args.get("target"), Some("\"a/b\"".to_string()));
    assert_eq!(args.get("missing"), None);
}

#[test]
fn extract_arguments_unbalanced() {
    assert!(Mixin::extract_arguments("#@Inject(at=\"HEAD\"").is_none());
    assert!(Mixin::extract_arguments("#@Inject(at=\"HEAD)").is_none());
    assert!(Mixin::extract_arguments("#@Inject(noequals)").is_none());
}

#[test]
fn extract_type_head_defaults_offset() {
    let m = Mixin::extract_type("#@Inject(at=\"HEAD\", target=\"a/b/$Ff\")").unwrap();
    match m.at {
        MixinTypes::Head(h) => assert_eq!(h.offset, 0),
        _ => panic!("expected a head mixin"),
    }
    assert_eq!(m.target, "a/b/$Ff");
}

#[test]
fn extract_type_head_offset_value() {
    let m = Mixin::extract_type("#@Inject(at=\"HEAD\", target=\"a/b/$Ff\", offset=2)").unwrap();
    match m.at {
        MixinTypes::Head(h) => assert_eq!(h.offset, 2),
        _ => panic!("expected a head mixin"),
    }
}

#[test]
fn extract_type_slice_requires_range() {
    let m = Mixin::extract_type("#@Inject(at=\"SLICE\", target=\"a/b/$Ff\", from=1, to=3)")
        .unwrap();
    match m.at {
        MixinTypes::Slice(s) => {
            assert_eq!(s.from, 1);
            assert_eq!(s.to, 3);
        },
        _ => panic!("expected a slice mixin"),
    }
    // a slice without its range is malformed
    assert!(Mixin::extract_type("#@Inject(at=\"SLICE\", target=\"a/b/$Ff\")").is_none());
}

#[test]
fn extract_type_tail_and_search_kinds() {
    let t = Mixin::extract_type("#@Inject(at=\"TAIL\", target=\"a/b/$Ff\", offset=1)").unwrap();
    match t.at {
        MixinTypes::Tail(x) => assert_eq!(x.offset, 1),
        _ => panic!("expected a tail mixin"),
    }
    let p = Mixin::extract_type("#@Inject(at=\"PREPEND\", target=\"a/b/$Ff\", search=\"x\")")
        .unwrap();
    match p.at {
        MixinTypes::Prepend(x) => {
            assert_eq!(x.search, "\"x\"");
            assert_eq!(x.offset, 0);
        },
        _ => panic!("expected a prepend mixin"),
    }
    // a search kind without its search parameter is malformed
    assert!(Mixin::extract_type("#@Inject(at=\"REPLACE\", target=\"a/b/$Ff\")").is_none());
}

#[test]
fn extract_type_unknown_kind_is_absent() {
    let m = Mixin::extract_type("#@Inject(at=\"SIDEWAYS\", target=\"a/b/$Ff\")").unwrap();
    assert!(matches!(m.at, MixinTypes::Absent));
}

#[test]
fn extract_type_bad_offset_is_malformed() {
    assert!(Mixin::extract_type("#@Inject(at=\"HEAD\", target=\"a/b/$Ff\", offset=x)").is_none());
}

#[test]
fn mixin_new_is_blank() {
    let m = Mixin::new();
    assert_eq!(m.name, "");
    assert_eq!(m.namespace, "");
    assert_eq!(m.target, "");
    assert_eq!(m.path, "");
    assert!(m.args.is_empty());
    assert!(matches!(m.at, MixinTypes::Absent));
}
