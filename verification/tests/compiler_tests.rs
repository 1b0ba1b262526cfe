use php_injector::compile;
use php_injector::create_mixin_call_string;
use php_injector::extract_source_mappings;
use php_injector::extract_src_map_from_target;
use php_injector::extract_target_mapping;
use php_injector::move_mappings;
use php_injector::CompileError;
use php_injector::Config;
use php_injector::FileEntry;
use php_injector::Interpreter;
use php_injector::Mixin;
use php_injector::SourceMapping;

fn cfg(use_document_root: bool) -> Config {
    Config {
        injections: "injections".to_string(),
        src: "src".to_string(),
        cache: "cache".to_string(),
        origin: ".".to_string(),
        use_document_root,
        copy_other: false,
        debbuging: false,
    }
}

fn setup(target_path: &str, target_text: &str, donor_path: &str, donor_text: &str) -> (
    Vec<Mixin>,
    Vec<FileEntry>,
    Vec<SourceMapping>,
) {
    let mut interp = Interpreter::default();
    interp.interpret(donor_text, donor_path).unwrap();
    let maps = extract_source_mappings(target_text, target_path).unwrap();
    let files = vec![FileEntry { path: target_path.to_string(), text: target_text.to_string() }];
    (interp.mixins, files, maps)
}

#[test]
fn call_string_shape() {
    let mut m = Mixin::new();
    m.name = "log".to_string();
    m.args = vec!["$a".to_string(), "$b".to_string()];
    m.path = "d.php".to_string();
    assert_eq!(
        create_mixin_call_string(&m),
        "\nlog($a, $b); #mixin call log from d.php"
    );
}

#[test]
fn target_helpers() {
    assert_eq!(extract_src_map_from_target("Models/User.php/$CUser$FgetName"), "Models/User.php");
    assert_eq!(
        extract_target_mapping("$CUser$FgetName"),
        Some(vec!["$CUser".to_string(), "$FgetName".to_string()])
    );
    // unknown tags are dropped, malformed chains are rejected
    assert_eq!(extract_target_mapping("$Xy$Fa"), Some(vec!["$Fa".to_string()]));
    assert_eq!(extract_target_mapping("plain"), None);
    assert_eq!(extract_target_mapping(""), Some(vec![]));
}

#[test]
fn move_mappings_shifts_beyond_start() {
    let mut maps = vec![
        SourceMapping {
            path: "a.php".to_string(),
            mapping: "$Ff".to_string(),
            args: vec![],
            from: 2,
            to: 5,
        },
        SourceMapping {
            path: "b.php".to_string(),
            mapping: "$Fg".to_string(),
            args: vec![],
            from: 3,
            to: 9,
        },
    ];
    move_mappings(&mut maps, "a.php", 2, 1).unwrap();
    // coordinates at or before the edit stay, later ones move
    assert_eq!((maps[0].from, maps[0].to), (2, 6));
    // other files are untouched
    assert_eq!((maps[1].from, maps[1].to), (3, 9));
}

#[test]
fn end_to_end_tail_into_class_method() {
    // one TAIL directive against a class method spanning lines 3 to 5
    let target = "<?php\nclass User {\nfunction getName() {\nreturn $this->name;\n}\n}\n";
    let donor = "<?php\nnamespace User;\n#@Inject(at=\"TAIL\", target=\"Models/User.php/$CUser$FgetName\")\nfunction getName($x) { return 1; }\n";
    let (mixins, mut files, mut maps) = setup("Models/User.php", target, "injections/user.php", donor);
    assert_eq!(maps[0].from, 3);
    assert_eq!(maps[0].to, 5);

    let counts = compile(&cfg(true), &mixins, &mut files, &mut maps).unwrap();
    assert_eq!(counts, (1, 1));

    let applied = "<?php\nclass User {\nfunction getName() {\nreturn $this->name;\ngetName($x); #mixin call getName from injections/user.php\n}\n}\n";
    let comment = "\n#mixin User\\getName from injections/user.php\nuse function User\\getName;\n";
    let require = "\nrequire_once $_SERVER['DOCUMENT_ROOT'] . \"/injections/user.php\";\n";
    let expected = format!("{}{}{}{}", &applied[0..5], require, comment, &applied[5..]);
    assert_eq!(files[0].text, expected);
    // the method's closing line moved one down
    assert_eq!((maps[0].from, maps[0].to), (3, 6));
}

#[test]
fn two_heads_insert_at_body_start() {
    let target = "<?php\nfunction f() {\n$a = 1;\n}\n";
    let donor = "<?php\nnamespace N;\n#@Inject(at=\"HEAD\", target=\"t.php/$Ff\")\nfunction one() {}\n#@Inject(at=\"HEAD\", target=\"t.php/$Ff\")\nfunction two() {}\n";
    let (mixins, mut files, mut maps) = setup("t.php", target, "d.php", donor);

    let counts = compile(&cfg(false), &mixins, &mut files, &mut maps).unwrap();
    assert_eq!(counts, (2, 1));

    // each head lands right after the declaration line, so the later mixin's
    // call reads first; both calls are present
    let applied = "<?php\nfunction f() {\ntwo(); #mixin call two from d.php\none(); #mixin call one from d.php\n$a = 1;\n}\n";
    let block_one = "\n#mixin N\\one from d.php\nuse function N\\one;\n";
    let block_two = "\n#mixin N\\two from d.php\nuse function N\\two;\n";
    let require = "\nrequire_once \"/d.php\";\n";
    let expected = format!("{}{}{}{}{}", &applied[0..5], require, block_two, block_one, &applied[5..]);
    assert_eq!(files[0].text, expected);
    // one require for the pair, one use statement per mixin
    assert_eq!(files[0].text.matches("require_once").count(), 1);
    assert_eq!(files[0].text.matches("use function").count(), 2);
    assert_eq!((maps[0].from, maps[0].to), (2, 6));
}

#[test]
fn slice_replaces_exact_lines() {
    let target = "<?php\nfunction f() {\n$a = 1;\n$b = 2;\n}\n";
    let donor = "<?php\nnamespace N;\n#@Inject(at=\"SLICE\", target=\"t.php/$Ff\", from=1, to=2)\nfunction patch() {}\n";
    let (mixins, mut files, mut maps) = setup("t.php", target, "d.php", donor);

    compile(&cfg(false), &mixins, &mut files, &mut maps).unwrap();

    let applied = "<?php\nfunction f() {\npatch(); #mixin call patch from d.php\n}\n";
    let block = "\n#mixin N\\patch from d.php\nuse function N\\patch;\n";
    let require = "\nrequire_once \"/d.php\";\n";
    let expected = format!("{}{}{}{}", &applied[0..5], require, block, &applied[5..]);
    assert_eq!(files[0].text, expected);
    // the position map tracks the removed lines
    assert_eq!((maps[0].from, maps[0].to), (2, 4));

    // re-running the mapper over the result still finds the function intact
    let remapped = extract_source_mappings(&files[0].text, "t.php").unwrap();
    assert!(remapped.iter().any(|m| m.mapping == "$Ff"));
}

#[test]
fn slice_and_tail_on_different_functions_stay_consistent() {
    let target = "<?php\nfunction f() {\n$a = 1;\n$b = 2;\n}\nfunction g() {\n$c = 3;\n}\n";
    let donor = "<?php\nnamespace N;\n#@Inject(at=\"TAIL\", target=\"t.php/$Fg\")\nfunction pg() {}\n#@Inject(at=\"SLICE\", target=\"t.php/$Ff\", from=1, to=2)\nfunction pf() {}\n";
    let (mixins, mut files, mut maps) = setup("t.php", target, "d.php", donor);
    // the slice sorts ahead of the tail even though it was declared later
    assert_eq!(mixins[0].name, "pf");

    compile(&cfg(false), &mixins, &mut files, &mut maps).unwrap();

    // after the slice shrank the file, the tail still lands right before
    // g's closing brace: the tail's lookup saw the already-shifted map
    let applied = "<?php\nfunction f() {\npf(); #mixin call pf from d.php\n}\nfunction g() {\n$c = 3;\npg(); #mixin call pg from d.php\n}\n";
    assert!(files[0].text.ends_with(&applied[5..]));
    let f = maps.iter().find(|m| m.mapping == "$Ff").unwrap();
    let g = maps.iter().find(|m| m.mapping == "$Fg").unwrap();
    assert_eq!((f.from, f.to), (2, 4));
    assert_eq!((g.from, g.to), (5, 8));
}

#[test]
fn whole_file_targets_are_skipped() {
    let target = "<?php\nfunction f() {\n}\n";
    let donor = "<?php\nnamespace N;\n#@Inject(at=\"HEAD\", target=\"t.php\")\nfunction h() {}\n";
    let (mixins, mut files, mut maps) = setup("t.php", target, "d.php", donor);

    let counts = compile(&cfg(false), &mixins, &mut files, &mut maps).unwrap();
    // parsed but never applied: no injection, no import, text unchanged
    assert_eq!(counts, (0, 1));
    assert_eq!(files[0].text, target);
}

#[test]
fn search_kinds_resolve_but_edit_nothing() {
    let target = "<?php\nfunction f() {\n}\n";
    let donor = "<?php\nnamespace N;\n#@Inject(at=\"PREPEND\", target=\"t.php/$Ff\", search=\"x\")\nfunction h() {}\n";
    let (mixins, mut files, mut maps) = setup("t.php", target, "d.php", donor);

    let counts = compile(&cfg(false), &mixins, &mut files, &mut maps).unwrap();
    // the reserved kind resolves its target but is neither applied nor
    // recorded: no edit, no import block, no count
    assert_eq!(counts, (0, 1));
    assert_eq!(files[0].text, target);
}

#[test]
fn unresolvable_search_kind_is_still_fatal() {
    let target = "<?php\nfunction f() {\n}\n";
    let donor = "<?php\nnamespace N;\n#@Inject(at=\"PREPEND\", target=\"t.php/$Fmissing\", search=\"x\")\nfunction h() {}\n";
    let (mixins, mut files, mut maps) = setup("t.php", target, "d.php", donor);
    let err = compile(&cfg(false), &mixins, &mut files, &mut maps).unwrap_err();
    assert!(matches!(err, CompileError::UnresolvedTarget(_)));
}

#[test]
fn unresolved_qualifier_is_fatal() {
    let target = "<?php\nfunction f() {\n}\n";
    let donor = "<?php\nnamespace N;\n#@Inject(at=\"HEAD\", target=\"t.php/$Fmissing\")\nfunction h() {}\n";
    let (mixins, mut files, mut maps) = setup("t.php", target, "d.php", donor);
    let err = compile(&cfg(false), &mixins, &mut files, &mut maps).unwrap_err();
    assert!(matches!(err, CompileError::UnresolvedTarget(_)));
}

#[test]
fn missing_target_file_is_fatal() {
    let maps = extract_source_mappings("<?php\nfunction f() {\n}\n", "gone.php").unwrap();
    let mut maps = maps;
    let mut files: Vec<FileEntry> = vec![];
    let mut interp = Interpreter::default();
    interp
        .interpret(
            "<?php\nnamespace N;\n#@Inject(at=\"HEAD\", target=\"gone.php/$Ff\")\nfunction h() {}\n",
            "d.php",
        )
        .unwrap();
    let err = compile(&cfg(false), &interp.mixins, &mut files, &mut maps).unwrap_err();
    assert!(matches!(err, CompileError::UnresolvedTarget(_)));
}

#[test]
fn locator_without_divider_is_fatal() {
    let target = "<?php\nfunction f() {\n}\n";
    let donor = "<?php\nnamespace N;\n#@Inject(at=\"HEAD\", target=\"$Ff\")\nfunction h() {}\n";
    let (mixins, mut files, mut maps) = setup("t.php", target, "d.php", donor);
    let err = compile(&cfg(false), &mixins, &mut files, &mut maps).unwrap_err();
    assert!(matches!(err, CompileError::UnresolvedTarget(_)));
}

#[test]
fn insertion_line_outside_file_is_fatal() {
    let target = "<?php\nfunction f() {\n}\n";
    let donor = "<?php\nnamespace N;\n#@Inject(at=\"HEAD\", target=\"t.php/$Ff\", offset=100)\nfunction h() {}\n";
    let (mixins, mut files, mut maps) = setup("t.php", target, "d.php", donor);
    let err = compile(&cfg(false), &mixins, &mut files, &mut maps).unwrap_err();
    assert!(matches!(err, CompileError::LineOutOfRange(_)));
}

#[test]
fn head_offset_moves_down_the_body() {
    let target = "<?php\nfunction f() {\n$a = 1;\n$b = 2;\n}\n";
    let donor = "<?php\nnamespace N;\n#@Inject(at=\"HEAD\", target=\"t.php/$Ff\", offset=1)\nfunction h() {}\n";
    let (mixins, mut files, mut maps) = setup("t.php", target, "d.php", donor);
    compile(&cfg(false), &mixins, &mut files, &mut maps).unwrap();
    assert!(files[0]
        .text
        .contains("$a = 1;\nh(); #mixin call h from d.php\n$b = 2;"));
    assert_eq!((maps[0].from, maps[0].to), (2, 6));
}

#[test]
fn tail_offset_moves_up_the_body() {
    let target = "<?php\nfunction f() {\n$a = 1;\n$b = 2;\n}\n";
    let donor = "<?php\nnamespace N;\n#@Inject(at=\"TAIL\", target=\"t.php/$Ff\", offset=1)\nfunction h() {}\n";
    let (mixins, mut files, mut maps) = setup("t.php", target, "d.php", donor);
    compile(&cfg(false), &mixins, &mut files, &mut maps).unwrap();
    assert!(files[0]
        .text
        .contains("$a = 1;\nh(); #mixin call h from d.php\n$b = 2;"));
    assert_eq!((maps[0].from, maps[0].to), (2, 6));
}

#[test]
fn mixins_into_two_files() {
    let ta = "<?php\nfunction fa() {\n}\n";
    let tb = "<?php\nfunction fb() {\n}\n";
    let donor = "<?php\nnamespace N;\n#@Inject(at=\"HEAD\", target=\"a.php/$Ffa\")\nfunction ha() {}\n#@Inject(at=\"HEAD\", target=\"b.php/$Ffb\")\nfunction hb() {}\n";
    let mut interp = Interpreter::default();
    interp.interpret(donor, "d.php").unwrap();
    let mut maps = extract_source_mappings(ta, "a.php").unwrap();
    maps.extend(extract_source_mappings(tb, "b.php").unwrap());
    let mut files = vec![
        FileEntry { path: "a.php".to_string(), text: ta.to_string() },
        FileEntry { path: "b.php".to_string(), text: tb.to_string() },
    ];
    let counts = compile(&cfg(false), &interp.mixins, &mut files, &mut maps).unwrap();
    assert_eq!(counts, (2, 2));
    assert!(files[0].text.contains("ha(); #mixin call ha from d.php"));
    assert!(files[0].text.contains("require_once \"/d.php\";"));
    assert!(files[1].text.contains("hb(); #mixin call hb from d.php"));
    assert!(files[1].text.contains("require_once \"/d.php\";"));
    // one require per (consumer, donor) pair, in each file
    assert_eq!(files[0].text.matches("require_once").count(), 1);
    assert_eq!(files[1].text.matches("require_once").count(), 1);
}
