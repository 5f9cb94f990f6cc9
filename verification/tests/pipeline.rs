use astdiff::canonicalizer::Canonicalizer;
use astdiff::mapping::MappingGenerator;
use astdiff::parser::{IdentifierExtractor, JsParser};
use astdiff::pretty::PrettyPrinter;
use astdiff::scope::{ScopeAnalyzer, ScopeType, VariableKind};
use astdiff::syntax::SyntaxTree;

fn parse(source: &str) -> SyntaxTree {
    let mut parser = JsParser::new().unwrap();
    parser.parse(source).unwrap()
}

fn canonicalizer_for(tree: &SyntaxTree) -> Canonicalizer {
    let mut analyzer = ScopeAnalyzer::new();
    analyzer.analyze(tree);
    let mut canonicalizer = Canonicalizer::new(analyzer);
    canonicalizer.canonicalize().unwrap();
    canonicalizer
}

#[test]
fn test_basic_functionality() {
    assert!(true);
}

#[test]
fn test_parse_simple_function() {
    let source = "function hello(name) { return name; }";
    let tree = parse(source);
    assert_eq!(tree.nodes[0].kind, "program");
}

#[test]
fn test_extract_identifiers() {
    let mut parser = JsParser::new().unwrap();
    let source = "function add(a, b) { return a + b; }";
    let tree = parser.parse(source).unwrap();
    let extractor = IdentifierExtractor::new(parser.get_language());
    let identifiers = extractor.extract_identifiers(&tree, 0);
    assert!(identifiers.iter().any(|id| id.text == "add" && id.capture_type == "function-name"));
    assert!(identifiers.iter().any(|id| id.text == "a" && id.capture_type == "parameter-name"));
    assert!(identifiers.iter().any(|id| id.text == "b" && id.capture_type == "parameter-name"));
}

#[test]
fn test_simple_scope_analysis() {
    let source = r#"
        var globalVar = 1;
        function outer(x) {
            let innerVar = 2;
            function inner(y) {
                const z = x + y;
                return z;
            }
            return inner;
        }
        "#;
    let tree = parse(source);
    let mut analyzer = ScopeAnalyzer::new();
    analyzer.analyze(&tree);
    let scopes = analyzer.get_scopes();
    assert!(scopes.iter().any(|s| s.id == "global"));
    assert!(scopes.iter().any(|s| s.scope_type == ScopeType::Function));
}

#[test]
fn test_simple_canonicalization() {
    let source = "function a(b, c) { return b + c; }";
    let tree = parse(source);
    let canonicalizer = canonicalizer_for(&tree);
    let canonical_source = canonicalizer.apply_canonicalization(&tree);
    assert!(canonical_source.contains("fn_1"));
    assert!(canonical_source.contains("param_1"));
    assert!(canonical_source.contains("param_2"));
}

#[test]
fn test_mapping_generation() {
    let source = "function add(a, b) { return a + b; }";
    let tree = parse(source);
    let canonicalizer = canonicalizer_for(&tree);
    let generator = MappingGenerator::new(canonicalizer, source.to_string());
    let mapping_file = generator.generate_mapping_file(&tree);
    assert!(mapping_file.contains("# FIRST LAST TYPE CANONICAL NEW"));
    assert!(mapping_file.contains("fn_"));
}

#[test]
fn test_pretty_print() {
    let source = "function add(a,b){var result=a+b;return result;}";
    let tree = parse(source);
    let printer = PrettyPrinter::new();
    let formatted = printer.format(&tree);
    assert!(formatted.contains("function add(a, b) {"));
    assert!(formatted.contains("  var result = a + b;"));
    assert!(formatted.contains("  return result;"));
    assert!(formatted.contains("}"));
}

#[test]
fn canonical_form_of_minified_function() {
    let source = "function a(b,c){var d=b+c;return d;}";
    let tree = parse(source);
    let canonicalizer = canonicalizer_for(&tree);
    let canonical = canonicalizer.apply_canonicalization(&tree);
    assert_eq!(canonical, "function fn_1(param_1,param_2){var var_1=param_1+param_2;return var_1;}");
}

#[test]
fn canonical_form_pretty_printed() {
    let source = "function a(b,c){var d=b+c;return d;}";
    let tree = parse(source);
    let canonical = canonicalizer_for(&tree).apply_canonicalization(&tree);
    let canonical_tree = parse(&canonical);
    let formatted = PrettyPrinter::new().format(&canonical_tree);
    assert_eq!(
        formatted,
        "function fn_1(param_1, param_2) {\n  var var_1 = param_1 + param_2;\n  return var_1;\n}"
    );
}

#[test]
fn canonicalization_without_declarations_keeps_source() {
    let source = "console.log(1 + 2);";
    let tree = parse(source);
    let canonical = canonicalizer_for(&tree).apply_canonicalization(&tree);
    assert_eq!(canonical, source);
}

#[test]
fn find_canonical_name_looks_outward() {
    let source = "var top = 1; function f(p) { return top + p; }";
    let tree = parse(source);
    let canonicalizer = canonicalizer_for(&tree);
    assert_eq!(canonicalizer.find_canonical_name("top", "fn_f"), Some("var_1".to_string()));
    assert_eq!(canonicalizer.find_canonical_name("p", "fn_f"), Some("param_1".to_string()));
    assert_eq!(canonicalizer.find_canonical_name("f", "global"), Some("fn_1".to_string()));
    assert_eq!(canonicalizer.find_canonical_name("missing", "fn_f"), None);
    assert_eq!(canonicalizer.get_mappings().len(), 3);
}

#[test]
fn a_repeated_function_name_gets_a_fresh_scope() {
    let tree = parse("function f() { function f() { var x = 1; } }");
    let mut analyzer = ScopeAnalyzer::new();
    analyzer.analyze(&tree);
    let scopes = analyzer.get_scopes();
    let ids: Vec<&str> = scopes.iter().map(|s| s.id.as_str()).collect();
    assert_eq!(ids, vec!["global", "fn_f", "scope_2"]);
    assert_eq!(scopes[1].parent.as_deref(), Some("global"));
    assert_eq!(scopes[2].parent.as_deref(), Some("fn_f"));
    assert_eq!((scopes[0].depth, scopes[1].depth, scopes[2].depth), (0, 1, 2));
    assert_eq!(scopes[1].children, vec!["scope_2".to_string()]);
    assert_eq!(scopes[2].variables.len(), 1);
}

#[test]
fn canonicalization_is_the_same_on_every_run() {
    for source in ["function p(a){return a}function q(b){return b}", "function p(a){return a}\nfunction q(b){return b}"] {
        let (t1, t2) = (parse(source), parse(source));
        let (c1, c2) = (canonicalizer_for(&t1), canonicalizer_for(&t2));
        assert_eq!(c1.apply_canonicalization(&t1), c2.apply_canonicalization(&t2));
    }
    let source = "function p(a){return a}\nfunction q(b){return b}";
    let t = parse(source);
    assert_eq!(
        canonicalizer_for(&t).apply_canonicalization(&t),
        "function fn_1(param_1){return param_1}\nfunction fn_2(param_1){return param_1}"
    );
}

#[test]
fn parameters_and_variables_are_numbered_per_scope() {
    let tree = parse("function f(x) { var a = 1; }\nfunction g(y, z) { var b = 2; }");
    let c = canonicalizer_for(&tree);
    assert_eq!(c.find_canonical_name("f", "global"), Some("fn_1".to_string()));
    assert_eq!(c.find_canonical_name("g", "global"), Some("fn_2".to_string()));
    assert_eq!(c.find_canonical_name("x", "fn_f"), Some("param_1".to_string()));
    assert_eq!(c.find_canonical_name("y", "fn_g"), Some("param_1".to_string()));
    assert_eq!(c.find_canonical_name("z", "fn_g"), Some("param_2".to_string()));
    assert_eq!(c.find_canonical_name("a", "fn_f"), Some("var_1".to_string()));
    assert_eq!(c.find_canonical_name("b", "fn_g"), Some("var_1".to_string()));
}

#[test]
fn resolve_identifier_finds_enclosing_declaration() {
    let source = "var g = 1; function f(x) { return g + x; }";
    let tree = parse(source);
    let mut analyzer = ScopeAnalyzer::new();
    analyzer.analyze(&tree);
    let v = analyzer.resolve_identifier("g", "fn_f").unwrap();
    assert_eq!(v.name, "g");
    assert_eq!(v.kind, VariableKind::Var);
    let p = analyzer.resolve_identifier("x", "fn_f").unwrap();
    assert_eq!(p.kind, VariableKind::Parameter);
    assert!(analyzer.resolve_identifier("x", "global").is_none());
}

#[test]
fn mapping_file_lists_first_and_last_positions() {
    let source = "function add(a, b) { return a + b; }";
    let tree = parse(source);
    let generator = MappingGenerator::new(canonicalizer_for(&tree), source.to_string());
    let file = generator.generate_mapping_file(&tree);
    assert_eq!(
        file,
        "# FIRST LAST TYPE CANONICAL NEW\n1:10 1:10 func fn_1 fn_1\n1:14 1:29 param param_1 param_1\n1:17 1:33 param param_2 param_2\n"
    );
}

#[test]
fn an_unedited_template_reads_back_as_its_canonical_names() {
    let source = "function add(a, b) { var s = a + b; return s; }\nfunction twice(x) { return add(x, x); }";
    let tree = parse(source);
    let generator = MappingGenerator::new(canonicalizer_for(&tree), source.to_string());
    let file = generator.generate_mapping_file(&tree);
    let listed: Vec<String> =
        file.lines().skip(1).map(|l| l.split_whitespace().nth(3).unwrap().to_string()).collect();
    let mut pairs = MappingGenerator::parse_mapping_file(&file);
    pairs.sort();
    let mut keys: Vec<String> = pairs.iter().map(|(k, _)| k.clone()).collect();
    keys.dedup();
    let mut expected = listed.clone();
    expected.sort();
    expected.dedup();
    assert_eq!(keys, expected);
    assert!(pairs.iter().all(|(k, v)| k == v));
}

#[test]
fn parse_mapping_file_reads_entries() {
    let content = "# FIRST LAST TYPE CANONICAL NEW\n\n1:10 1:10 func fn_1 sum\r\n   \nshort line\n1:14 1:29 param param_1 x\n1:1 1:1 func fn_1 total";
    let pairs = MappingGenerator::parse_mapping_file(content);
    let get = |k: &str| pairs.iter().find(|(a, _)| a == k).map(|(_, b)| b.clone());
    assert_eq!(pairs.len(), 2);
    assert_eq!(get("fn_1"), Some("total".to_string()));
    assert_eq!(get("param_1"), Some("x".to_string()));
}

#[test]
fn apply_mappings_renames_by_canonical_name() {
    let source = "function add(a, b) { return a + b; }";
    let tree = parse(source);
    let generator = MappingGenerator::new(canonicalizer_for(&tree), source.to_string());
    let mappings = vec![("fn_1".to_string(), "sum".to_string()), ("param_1".to_string(), "x".to_string())];
    let renamed = generator.apply_mappings(&tree, &mappings);
    assert_eq!(renamed, "function sum(x, param_2) { return x + param_2; }");
}

#[test]
fn apply_identity_mapping_equals_canonicalization() {
    let source = "function add(a, b) { var s = a + b; return s; }";
    let tree = parse(source);
    let canonical = canonicalizer_for(&tree).apply_canonicalization(&tree);
    let generator = MappingGenerator::new(canonicalizer_for(&tree), source.to_string());
    let file = generator.generate_mapping_file(&tree);
    let mappings = MappingGenerator::parse_mapping_file(&file);
    assert_eq!(generator.apply_mappings(&tree, &mappings), canonical);
}

#[test]
fn run_canonicalize_on_readme_example() {
    let source = "function a(b,c){var d=b+c;return d;}";
    assert_eq!(
        astdiff::run_canonicalize(source, false).unwrap(),
        "function fn_1(param_1,param_2){var var_1=param_1+param_2;return var_1;}"
    );
    assert_eq!(
        astdiff::run_canonicalize(source, true).unwrap(),
        "function fn_1(param_1, param_2) {\n  var var_1 = param_1 + param_2;\n  return var_1;\n}"
    );
}

#[test]
fn run_generate_mapping_lists_canonical_names() {
    let source = "function add(a, b) { return a + b; }";
    assert_eq!(
        astdiff::run_generate_mapping(source).unwrap(),
        "# FIRST LAST TYPE CANONICAL NEW\n1:10 1:10 func fn_1 fn_1\n1:14 1:29 param param_1 param_1\n1:17 1:33 param param_2 param_2\n"
    );
}

#[test]
fn run_apply_mapping_renames_and_formats() {
    let source = "function add(a, b) { return a + b; }";
    let mapping = "# FIRST LAST TYPE CANONICAL NEW\n1:10 1:10 func fn_1 sum\n1:14 1:29 param param_1 x\n";
    assert_eq!(
        astdiff::run_apply_mapping(source, mapping, false).unwrap(),
        "function sum(x, param_2) { return x + param_2; }"
    );
    assert_eq!(
        astdiff::run_apply_mapping(source, mapping, true).unwrap(),
        "function sum(x, param_2) {\n  return x + param_2;\n}"
    );
}

#[test]
fn positions_in_range_holds_for_parsed_source() {
    let tree = parse("var a = 1;\nvar b = 2;");
    assert!(astdiff::mapping::positions_in_range(&tree));
}

#[test]
fn renamed_programs_canonicalize_alike() {
    let a = astdiff::run_canonicalize("function a(b,c){var d=b+c;return d;}", false).unwrap();
    let b = astdiff::run_canonicalize("function sum(left,right){var total=left+right;return total;}", false).unwrap();
    assert_eq!(a, "function fn_1(param_1,param_2){var var_1=param_1+param_2;return var_1;}");
    assert_eq!(b, "function fn_1(param_1,param_2){var var_1=param_1+param_2;return var_1;}");
}

