use php_injector::extract_class_name;
use php_injector::extract_function_name;
use php_injector::extract_function_params;
use php_injector::extract_namespace;
use php_injector::extract_source_mappings;
use php_injector::CompileError;

#[test]
fn namespace_line() {
    assert_eq!(extract_namespace("namespace App;"), "App");
    assert_eq!(extract_namespace("namespace App\\Models;"), "App\\Models");
}

#[test]
fn function_name_of_declaration() {
    assert_eq!(extract_function_name("function getName($x) {"), "getName");
    assert_eq!(extract_function_name("  function foo() {"), "foo");
}

#[test]
fn function_params_tokens() {
    assert_eq!(
        extract_function_params("function f($a, $b)"),
        vec!["$a".to_string(), "$b".to_string()]
    );
    assert_eq!(extract_function_params("function f()"), Vec::<String>::new());
    // duplicates are kept, in order
    assert_eq!(
        extract_function_params("function f($a, $a)"),
        vec!["$a".to_string(), "$a".to_string()]
    );
}

#[test]
fn class_name_variants() {
    assert_eq!(extract_class_name("class User {"), "User");
    assert_eq!(extract_class_name("class A extends B {"), "A");
    assert_eq!(extract_class_name("class A implements C {"), "A");
}

#[test]
fn single_function_file_maps_declaration_to_closing_brace() {
    // a file with exactly one function and no classes yields exactly one
    // mapping, from the declaration line to the line of its closing brace
    let src = "<?php\nfunction foo() {\n$x = 1;\n}\n";
    let maps = extract_source_mappings(src, "t.php").unwrap();
    assert_eq!(maps.len(), 1);
    assert_eq!(maps[0].mapping, "$Ffoo");
    assert_eq!(maps[0].path, "t.php");
    assert_eq!(maps[0].from, 2);
    assert_eq!(maps[0].to, 4);
}

#[test]
fn brace_inside_string_does_not_open_a_scope() {
    // the string literal "{" must not increment depth: the function still
    // closes on its own line
    let src = "<?php\nfunction foo() {\n$x = \"{\"; \n}\n";
    let maps = extract_source_mappings(src, "t.php").unwrap();
    assert_eq!(maps.len(), 1);
    assert_eq!(maps[0].from, 2);
    assert_eq!(maps[0].to, 4);

    // one-line form: the scan records no mapping for a function that opens
    // and closes on its declaration line, but the quoted brace must not
    // leave a scope open, which would be a fatal parse error at end of file
    let one = "<?php\nfunction foo() { $x = \"{\"; }\n";
    let m2 = extract_source_mappings(one, "t.php").unwrap();
    assert_eq!(m2.len(), 0);
}

#[test]
fn class_scope_prefixes_the_qualifier() {
    let src = "<?php\nclass User {\nfunction getName() {\nreturn $this->name;\n}\n}\n";
    let maps = extract_source_mappings(src, "Models/User.php").unwrap();
    assert_eq!(maps.len(), 1);
    assert_eq!(maps[0].mapping, "$CUser$FgetName");
    assert_eq!(maps[0].from, 3);
    assert_eq!(maps[0].to, 5);
}

#[test]
fn functions_after_a_class_lose_the_prefix() {
    let src = "<?php\nclass A {\nfunction m() {\n}\n}\nfunction free() {\n}\n";
    let maps = extract_source_mappings(src, "t.php").unwrap();
    assert_eq!(maps.len(), 2);
    let qualifiers: Vec<&str> = maps.iter().map(|m| m.mapping.as_str()).collect();
    assert!(qualifiers.contains(&"$CA$Fm"));
    assert!(qualifiers.contains(&"$Ffree"));
}

#[test]
fn deferred_opening_brace() {
    // the body starts at the next line with a net positive depth change
    let src = "<?php\nfunction foo()\n{\n$x = 1;\n}\n";
    let maps = extract_source_mappings(src, "t.php").unwrap();
    assert_eq!(maps.len(), 1);
    assert_eq!(maps[0].from, 3);
    assert_eq!(maps[0].to, 5);
}

#[test]
fn comments_are_skipped() {
    let src = "<?php\n// function fake() {\n# function fake2() {\n/* function fake3() { */\nfunction real() {\n}\n";
    let maps = extract_source_mappings(src, "t.php").unwrap();
    assert_eq!(maps.len(), 1);
    assert_eq!(maps[0].mapping, "$Freal");
}

#[test]
fn multiline_comment_block_is_skipped() {
    let src = "<?php\n/*\nfunction fake() {\n*/\nfunction real() {\n}\n";
    let maps = extract_source_mappings(src, "t.php").unwrap();
    assert_eq!(maps.len(), 1);
    assert_eq!(maps[0].mapping, "$Freal");
}

#[test]
fn keyword_inside_identifier_is_no_declaration() {
    let src = "<?php\n$a = function_exists('x');\nmyfunction foo();\n";
    let maps = extract_source_mappings(src, "t.php").unwrap();
    assert_eq!(maps.len(), 0);
}

#[test]
fn multiline_parameter_lists_accumulate() {
    let src = "<?php\nfunction f($a,\n$b)\n{\n}\n";
    let maps = extract_source_mappings(src, "t.php").unwrap();
    assert_eq!(maps.len(), 1);
    assert_eq!(maps[0].args, vec!["$a".to_string(), "$b".to_string()]);
    assert_eq!(maps[0].from, 4);
    assert_eq!(maps[0].to, 5);
}

#[test]
fn unterminated_function_is_fatal() {
    let err = extract_source_mappings("<?php\nfunction foo() {\n$x = 1;\n", "t.php").unwrap_err();
    assert!(matches!(err, CompileError::StructuralParse(_)));
}

#[test]
fn unterminated_class_is_fatal() {
    let err = extract_source_mappings("<?php\nclass A {\n", "t.php").unwrap_err();
    assert!(matches!(err, CompileError::StructuralParse(_)));
}

#[test]
fn name_collision_keeps_the_later_entry() {
    let src = "<?php\nfunction f() {\n$a = 1;\n}\nfunction f() {\n$b = 2;\n}\n";
    let maps = extract_source_mappings(src, "t.php").unwrap();
    assert_eq!(maps.len(), 1);
    assert_eq!(maps[0].from, 5);
    assert_eq!(maps[0].to, 7);
}

#[test]
fn nested_blocks_close_at_the_outer_brace() {
    let src = "<?php\nfunction f() {\nif ($x) {\n$y = 1;\n}\n}\n";
    let maps = extract_source_mappings(src, "t.php").unwrap();
    assert_eq!(maps.len(), 1);
    assert_eq!(maps[0].from, 2);
    assert_eq!(maps[0].to, 6);
}
