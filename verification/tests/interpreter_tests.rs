use php_injector::CompileError;
use php_injector::Interpreter;
use php_injector::MixinTypes;

fn donor(lines: &[&str]) -> String {
    lines.join("\n")
}

#[test]
fn one_directive_one_mixin() {
    let text = donor(&[
        "<?php",
        "namespace User;",
        "#@Inject(at=\"TAIL\", target=\"Models/User.php/$CUser$FgetName\")",
        "function getName($x) { return 1; }",
    ]);
    let mut interp = Interpreter::default();
    interp.interpret(&text, "injections/user.php").unwrap();
    assert_eq!(interp.mixins.len(), 1);
    let m = &interp.mixins[0];
    assert_eq!(m.name, "getName");
    assert_eq!(m.namespace, "User");
    assert_eq!(m.args, vec!["$x".to_string()]);
    assert_eq!(m.target, "Models/User.php/$CUser$FgetName");
    assert_eq!(m.path, "injections/user.php");
    assert!(matches!(m.at, MixinTypes::Tail(_)));
}

#[test]
fn directive_without_namespace_is_fatal() {
    let text = donor(&[
        "<?php",
        "#@Inject(at=\"HEAD\", target=\"a/b/$Ff\")",
        "function h() {}",
    ]);
    let mut interp = Interpreter::default();
    let err = interp.interpret(&text, "d.php").unwrap_err();
    assert!(matches!(err, CompileError::DirectiveSyntax(_)));
    assert_eq!(interp.mixins.len(), 0);
}

#[test]
fn unbalanced_directive_is_fatal() {
    let text = donor(&[
        "<?php",
        "namespace N;",
        "#@Inject(at=\"HEAD\", target=\"a/b/$Ff\"",
        "function h() {}",
    ]);
    let mut interp = Interpreter::default();
    let err = interp.interpret(&text, "d.php").unwrap_err();
    assert!(matches!(err, CompileError::DirectiveSyntax(_)));
}

#[test]
fn mixins_sort_in_application_order() {
    // a head, a slice and a tail: the slice must come first, the head and
    // tail keep their discovery order behind it
    let text = donor(&[
        "<?php",
        "namespace N;",
        "#@Inject(at=\"HEAD\", target=\"a.php/$Ff\")",
        "function one() {}",
        "#@Inject(at=\"SLICE\", target=\"a.php/$Fg\", from=1, to=2)",
        "function two() {}",
        "#@Inject(at=\"TAIL\", target=\"a.php/$Fh\")",
        "function three() {}",
    ]);
    let mut interp = Interpreter::default();
    interp.interpret(&text, "d.php").unwrap();
    assert_eq!(interp.mixins.len(), 3);
    assert_eq!(interp.mixins[0].name, "two");
    assert!(matches!(interp.mixins[0].at, MixinTypes::Slice(_)));
    assert_eq!(interp.mixins[1].name, "one");
    assert_eq!(interp.mixins[2].name, "three");
}

#[test]
fn two_heads_keep_discovery_order() {
    let text = donor(&[
        "<?php",
        "namespace N;",
        "#@Inject(at=\"HEAD\", target=\"a.php/$Ff\")",
        "function one() {}",
        "#@Inject(at=\"HEAD\", target=\"a.php/$Ff\")",
        "function two() {}",
    ]);
    let mut interp = Interpreter::default();
    interp.interpret(&text, "d.php").unwrap();
    assert_eq!(interp.mixins.len(), 2);
    assert_eq!(interp.mixins[0].name, "one");
    assert_eq!(interp.mixins[1].name, "two");
}

#[test]
fn accumulates_across_files_and_keeps_order() {
    let a = donor(&[
        "<?php",
        "namespace A;",
        "#@Inject(at=\"HEAD\", target=\"a.php/$Ff\")",
        "function fa() {}",
    ]);
    let b = donor(&[
        "<?php",
        "namespace B;",
        "#@Inject(at=\"SLICE\", target=\"a.php/$Fg\", from=1, to=1)",
        "function fb() {}",
    ]);
    let mut interp = Interpreter::default();
    interp.interpret(&a, "a-inj.php").unwrap();
    interp.interpret(&b, "b-inj.php").unwrap();
    assert_eq!(interp.mixins.len(), 2);
    // the slice from the second file sorts before the earlier head
    assert_eq!(interp.mixins[0].name, "fb");
    assert_eq!(interp.mixins[1].name, "fa");
}

#[test]
fn namespace_resets_per_call() {
    let with_ns = donor(&[
        "<?php",
        "namespace N;",
        "#@Inject(at=\"HEAD\", target=\"a.php/$Ff\")",
        "function f() {}",
    ]);
    let without_ns = donor(&[
        "<?php",
        "#@Inject(at=\"HEAD\", target=\"a.php/$Fg\")",
        "function g() {}",
    ]);
    let mut interp = Interpreter::default();
    interp.interpret(&with_ns, "a.php").unwrap();
    let err = interp.interpret(&without_ns, "b.php").unwrap_err();
    assert!(matches!(err, CompileError::DirectiveSyntax(_)));
    // the failed file leaves the accumulated mixins untouched
    assert_eq!(interp.mixins.len(), 1);
}
