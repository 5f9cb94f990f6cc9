use astdiff::cli::{Args, Command, Mode, QueryType};
use astdiff::diff::{brace_scan_fits, original_scan_fits, Change, ChangeCategory, ChangeType, DeclarationKind, DiffResult, Location, StructuralDiff};
use astdiff::dump::{checksum_of, content_hash, find_declaration, get_match_for, unmatched, validate, DumpFlags, DumpHeader, DumpHeaderError};
use astdiff::fingerprint::{
    compute_string_diff, compute_string_diff_normalized, normalize_minified_identifiers, normalize_string_with_renames,
    ConstantValue, FingerprintExtractor, FunctionFingerprint, RarityScorer, StringChange, StringContext,
    StringFingerprint, StringImportance,
};
use astdiff::parser::JsParser;
use astdiff::profiling::Profiler;
use astdiff::syntax::SyntaxTree;
use astdiff::text::parses_as_float_exec;
use astdiff::threshold_learning::TrainingDataCollector;

fn parse(source: &str) -> SyntaxTree {
    let mut parser = JsParser::new().unwrap();
    parser.parse(source).unwrap()
}

fn fp(strings: &[&str]) -> FunctionFingerprint {
    FunctionFingerprint {
        strings: strings
            .iter()
            .map(|s| StringFingerprint { value: s.to_string(), context: StringContext::Regular })
            .collect(),
        constants: vec![],
        api_calls: vec![],
        size: 1,
    }
}

#[test]
fn importance_by_character_count() {
    let f = |n: usize| StringFingerprint { value: "x".repeat(n), context: StringContext::Regular }.importance();
    assert_eq!(f(0), StringImportance::Short);
    assert_eq!(f(19), StringImportance::Short);
    assert_eq!(f(20), StringImportance::Medium);
    assert_eq!(f(99), StringImportance::Medium);
    assert_eq!(f(100), StringImportance::LongText);
    assert_eq!(f(500), StringImportance::LongText);
    assert_eq!(f(501), StringImportance::SystemPrompt);
    let wide = StringFingerprint { value: "\u{1F600}".repeat(5), context: StringContext::Regular };
    assert_eq!(wide.importance(), StringImportance::Short);
    let accented = StringFingerprint { value: "é".repeat(19), context: StringContext::Regular };
    assert_eq!(accented.importance(), StringImportance::Short);
}

#[test]
fn renames_inside_strings() {
    let map = vec![("vK1".to_string(), "D4Q".to_string())];
    assert_eq!(normalize_string_with_renames("call vK1(x) then vK12", &map), "call D4Q(x) then vK12");
    assert_eq!(normalize_string_with_renames("$vK1 _a 9vK1", &map), "$vK1 _a 9D4Q");
}

#[test]
fn short_identifiers_are_blanked() {
    assert_eq!(normalize_minified_identifiers("const abc = longname(x1);"), "const _ = longname(_);");
    assert_eq!(normalize_minified_identifiers("12 + ab_cd"), "12 + ab_cd");
    assert_eq!(normalize_minified_identifiers(""), "");
}

#[test]
fn blanking_twice_changes_nothing() {
    for text in ["const abc = longname(x1);", "9ab + $q_1 * veryLongName", "a9 b_ c$", ""] {
        let once = normalize_minified_identifiers(text);
        assert_eq!(normalize_minified_identifiers(&once), once);
        assert!(once.chars().count() <= text.chars().count());
    }
}

#[test]
fn string_diff_pairs_similar_strings() {
    let d = compute_string_diff(&fp(&["hello world", "unchanged"]), &fp(&["hello world!", "unchanged", "brand new string"]));
    assert_eq!(d.changes.len(), 2);
    match &d.changes[0] {
        StringChange::Modified { old, new, distance, max_len } => {
            assert_eq!(old.value, "hello world");
            assert_eq!(new.value, "hello world!");
            assert_eq!(*distance, 1);
            assert_eq!(*max_len, 12);
        }
        other => panic!("unexpected change {:?}", other),
    }
    match &d.changes[1] {
        StringChange::Added(s) => assert_eq!(s.value, "brand new string"),
        other => panic!("unexpected change {:?}", other),
    }
    assert_eq!((d.added_count, d.removed_count, d.modified_count), (1, 0, 1));
    assert!(!d.is_empty());
    assert!(!d.has_important_changes());
}

#[test]
fn string_diff_removes_dissimilar_strings() {
    let d = compute_string_diff(&fp(&["completely different"]), &fp(&["xyz"]));
    assert_eq!((d.added_count, d.removed_count, d.modified_count), (1, 1, 0));
    assert!(matches!(d.changes[0], StringChange::Removed(_)));
    assert!(matches!(d.changes[1], StringChange::Added(_)));
}

#[test]
fn string_diff_of_same_fingerprint_is_empty() {
    let a = fp(&["one string", "another string"]);
    let d = compute_string_diff(&a, &a);
    assert!(d.is_empty());
    assert_eq!(d.important_changes.len(), 0);
}

#[test]
fn string_diff_flags_long_strings() {
    let long1 = "a".repeat(120);
    let long2 = format!("{}b", "a".repeat(119));
    let d = compute_string_diff(&fp(&[&long1]), &fp(&[&long2]));
    assert_eq!(d.modified_count, 1);
    assert!(d.has_important_changes());
}

#[test]
fn string_of_exactly_one_hundred_characters_is_not_important() {
    let d = compute_string_diff(&fp(&[]), &fp(&[&"a".repeat(100)]));
    assert_eq!(d.added_count, 1);
    assert!(d.important_changes.is_empty());
    let d = compute_string_diff(&fp(&[]), &fp(&[&"a".repeat(101)]));
    assert_eq!(d.important_changes.len(), 1);
}

#[test]
fn string_diff_normalized_uses_renames() {
    let map = vec![("vK1".to_string(), "D4Q".to_string())];
    let d = compute_string_diff_normalized(&fp(&["use D4Q here"]), &fp(&["use vK1 here"]), &map);
    assert!(d.is_empty());
    let d2 = compute_string_diff_normalized(&fp(&["use D4Q here"]), &fp(&["use vK1 here"]), &vec![]);
    assert_eq!(d2.modified_count, 1);
}

#[test]
fn fingerprint_of_function() {
    let source = "function f(){ throw new Error('Something failed badly'); setTimeout(g, 1000); fs.readFileSync('/etc/config.json'); var n = 12345; var r = /ab+c/; process.env.get('HOME'); }";
    let tree = parse(source);
    let extractor = FingerprintExtractor::new(source);
    let fp = extractor.extract_function_fingerprint(&tree, 0);
    assert!(fp.strings.iter().any(|s| s.value == "Something failed badly" && s.context == StringContext::ErrorMessage));
    assert!(fp.strings.iter().any(|s| s.value == "/etc/config.json" && s.context == StringContext::FilePath));
    assert!(fp.constants.iter().any(|c| matches!(c.value, ConstantValue::Duration(1000))));
    assert!(fp.constants.iter().any(|c| matches!(c.value, ConstantValue::Number(12345))));
    assert!(fp.constants.iter().any(|c| matches!(&c.value, ConstantValue::Regex(r) if r == "/ab+c/")));
    assert!(fp
        .api_calls
        .iter()
        .any(|a| a.object.as_deref() == Some("fs") && a.method == "readFileSync" && a.first_arg.as_deref() == Some("/etc/config.json")));
    assert!(fp.api_calls.iter().any(|a| a.object.is_none() && a.method == "setTimeout" && a.first_arg.is_none()));
    assert!(fp.api_calls.iter().any(|a| a.object.as_deref() == Some("process.env") && a.method == "get"));
    assert_eq!(fp.size, tree.nodes.len());
}

#[test]
fn string_contexts() {
    let source = "f('/api/users'); f('build-cmd'); f('config_key_name'); f('plain text here'); f('unable to load')";
    let tree = parse(source);
    let fp = FingerprintExtractor::new(source).extract_function_fingerprint(&tree, 0);
    let ctx = |v: &str| fp.strings.iter().find(|s| s.value == v).map(|s| s.context);
    assert_eq!(ctx("/api/users"), Some(StringContext::ApiEndpoint));
    assert_eq!(ctx("build-cmd"), Some(StringContext::CommandName));
    assert_eq!(ctx("config_key_name"), Some(StringContext::ConfigKey));
    assert_eq!(ctx("plain text here"), Some(StringContext::Regular));
    assert_eq!(ctx("unable to load"), Some(StringContext::ErrorMessage));
}

#[test]
fn float_grammar_matches_std() {
    for s in ["1.5", "1e10", ".5", "5.", "-2.5E-3", "inf", "-Infinity", "NaN", "0x1F", "1_000", "", ".", "e5", "1e", "+7", "1.2.3", "infinit"] {
        assert_eq!(parses_as_float_exec(s), s.parse::<f64>().is_ok(), "{}", s);
    }
}

#[test]
fn rarity_counts() {
    let mut scorer = RarityScorer::new();
    let mut a = fp(&["shared", "only-a"]);
    a.constants.push(astdiff::fingerprint::ConstantFingerprint { value: ConstantValue::Number(500000) });
    let b = fp(&["shared"]);
    scorer.add_fingerprint(&a);
    scorer.add_fingerprint(&b);
    assert_eq!(scorer.count_string("shared"), 2);
    assert_eq!(scorer.count_string("only-a"), 1);
    assert_eq!(scorer.count_string("absent"), 0);
    assert_eq!(scorer.count_constant(&ConstantValue::Number(500000)), 1);
    assert_eq!(scorer.count_constant(&ConstantValue::Number(7)), 0);
}

#[test]
fn declarations_and_signatures() {
    let source = "import x from 'mod';\nfunction getData(a, b) { return a + b; }\nvar n = 42, s = 'hey', u;\nclass K { m() {} }\nexport { getData };";
    let tree = parse(source);
    let diff = StructuralDiff::new();
    let decls = diff.extract_declarations(&tree);
    let names: Vec<(&str, DeclarationKind, usize, &str)> =
        decls.iter().map(|d| (d.name.as_str(), d.kind, d.line, d.signature.as_str())).collect();
    assert_eq!(
        names,
        vec![
            ("import@0", DeclarationKind::Import, 1, "import from 'mod'"),
            ("getData", DeclarationKind::Function, 2, "function(params:2,stmts:1)"),
            ("n", DeclarationKind::Variable, 3, "var=number:42"),
            ("s", DeclarationKind::Variable, 3, "var=string:len5"),
            ("K", DeclarationKind::Class, 4, "class(methods:1,fields:0)"),
            ("export@4", DeclarationKind::Export, 5, "export"),
        ]
    );
    for d in &decls {
        assert_eq!(d.size, d.structural_hashes.len());
        assert_eq!(d.minhash_signature.len(), 128);
        assert_eq!(
            d.fingerprint.is_some(),
            matches!(d.kind, DeclarationKind::Function | DeclarationKind::Variable)
        );
    }
}

#[test]
fn let_and_const_declarations_are_extracted() {
    let tree = parse("const x = () => 1;\nlet y = 2;\nvar z = 3;\nfunction f() {}");
    let decls = StructuralDiff::new().extract_declarations_for_inspection(&tree);
    let names: Vec<(&str, DeclarationKind)> = decls.iter().map(|d| (d.name.as_str(), d.kind)).collect();
    assert_eq!(
        names,
        vec![
            ("x", DeclarationKind::Variable),
            ("y", DeclarationKind::Variable),
            ("z", DeclarationKind::Variable),
            ("f", DeclarationKind::Function),
        ]
    );
}

#[test]
fn structural_hashes_ignore_names() {
    let t1 = parse("function a(b){return b+1;}");
    let t2 = parse("function xyz(q){return q+1;}");
    let t3 = parse("function a(b){return b+2;}");
    let diff = StructuralDiff::new();
    let d1 = diff.extract_declarations(&t1);
    let d2 = diff.extract_declarations(&t2);
    let d3 = diff.extract_declarations(&t3);
    assert_eq!(diff.compute_structural_hash(&t1, 0), diff.compute_structural_hash(&t2, 0));
    assert_ne!(diff.compute_structural_hash(&t1, 0), diff.compute_structural_hash(&t3, 0));
    let mut h1 = d1[0].structural_hashes.clone();
    let mut h2 = d2[0].structural_hashes.clone();
    h1.sort();
    h2.sort();
    assert_eq!(h1, h2);
    assert_eq!(d1[0].minhash_signature, d2[0].minhash_signature);
}

#[test]
fn object_hash_ignores_key_order() {
    let t1 = parse("var o = {a: 1, b: 2};");
    let t2 = parse("var o = {b: 2, a: 1};");
    let diff = StructuralDiff::new();
    assert_eq!(diff.compute_structural_hash(&t1, 0), diff.compute_structural_hash(&t2, 0));
}

#[test]
fn minhash_takes_minimum_seeded_hash() {
    let diff = StructuralDiff::new();
    assert_eq!(diff.compute_minhash(&vec![], 3), vec![u64::MAX; 3]);
    let sig = diff.compute_minhash(&vec![7, 9], 2);
    for i in 0..2 {
        let expected = diff.hash_with_seed_u64(7, i).min(diff.hash_with_seed_u64(9, i));
        assert_eq!(sig[i], expected);
    }
    assert_eq!(diff.hash_with_seed_u64(7, 1), diff.hash_with_seed_u64(7, 1));
    assert_ne!(diff.hash_with_seed_u64(7, 1), diff.hash_with_seed_u64(7, 2));
}

#[test]
fn truncation() {
    assert_eq!(StructuralDiff::truncate_with_ellipsis("abc\ndef", 100), "abc↵def");
    assert_eq!(StructuralDiff::truncate_with_ellipsis("abcdef", 3), "abc...");
    assert_eq!(StructuralDiff::truncate_with_ellipsis("a\nbcdef", 3), "a...");
    assert_eq!(StructuralDiff::truncate_with_ellipsis("a\nbcdef", 4), "a↵...");
}

fn change(change_type: ChangeType, description: &str, path: &str, loc: bool) -> Change {
    let location = Location { line: 1, column: 0, code_snippet: String::new(), end_line: None };
    Change {
        change_type,
        location1: if loc { Some(location.clone()) } else { None },
        location2: if loc { Some(location) } else { None },
        description: description.to_string(),
        structural_path: path.to_string(),
        string_diff: None,
    }
}

#[test]
fn rename_mapping_and_statistics() {
    let result = DiffResult {
        identical: false,
        changes: vec![
            change(ChangeType::Modification, "function 'a' matched with 'b'", "global.a->b", true),
            change(ChangeType::Modification, "structure changed", "global.c", true),
            change(ChangeType::Addition, "added", "global.d", false),
            change(ChangeType::Deletion, "removed", "global.e", false),
            change(ChangeType::Modification, "function 'f' matched with 'g'", "other.f->g", true),
        ],
        matched_declarations: 2,
        total_declarations1: 3,
        total_declarations2: 3,
    };
    let diff = StructuralDiff::new();
    let renames = diff.generate_rename_mapping(&result);
    assert_eq!(renames, vec![("a".to_string(), "b".to_string())]);
    assert_eq!(diff.calculate_line_statistics(&result), (1, 1, 3));
}

#[test]
fn mappings_annotate_descriptions() {
    let mut result = DiffResult {
        identical: false,
        changes: vec![change(ChangeType::Modification, "function 'fn_1' matched with 'fn_2'", "global.fn_1->fn_2", true)],
        matched_declarations: 1,
        total_declarations1: 1,
        total_declarations2: 1,
    };
    let mut diff = StructuralDiff::new();
    diff.apply_mappings_to_result(&mut result);
    assert_eq!(result.changes[0].description, "function 'fn_1' matched with 'fn_2'");
    diff.set_mappings1(vec![("fn_1".to_string(), "load".to_string())]);
    diff.set_mappings2(vec![("fn_2".to_string(), "fetch".to_string())]);
    diff.apply_mappings_to_result(&mut result);
    assert_eq!(result.changes[0].description, "function 'load' (fn_1) matched with 'fetch' (fn_2)");
}

#[test]
fn diff_settings() {
    let mut diff = StructuralDiff::new();
    diff.set_use_fingerprints(false);
    diff.set_generate_report(false);
    diff.set_report_path("report.md".to_string());
    assert_eq!(DeclarationKind::Function.to_word(), "function");
    assert_eq!(DeclarationKind::Export.to_word(), "export");
}

fn args() -> Args {
    Args {
        command: None,
        file1: None,
        file2: None,
        map1: None,
        map2: None,
        format: "unified".to_string(),
        export_mappings: None,
        summary: false,
        interleaved: false,
        verbose: false,
        fingerprints: false,
        report: false,
        report_path: None,
        compact: false,
        lite: false,
        no_parallel: false,
        dump: None,
    }
}

#[test]
fn modes_from_arguments() {
    let mut a = args();
    assert!(a.mode().is_none());
    a.file1 = Some("x.js".to_string());
    a.file2 = Some("y.js".to_string());
    a.report_path = Some("r.md".to_string());
    match a.mode() {
        Some(Mode::Diff { file1, report, parallel, .. }) => {
            assert_eq!(file1, "x.js");
            assert!(report);
            assert!(parallel);
        }
        other => panic!("unexpected {:?}", other),
    }
    a.command = Some(Command::Canon { input_file: "in.js".to_string(), map: Some(None), preserve_comments: true, pretty: true });
    assert!(matches!(a.mode(), Some(Mode::GenerateMapping { .. })));
    assert!(a.preserve_comments());
    assert!(a.pretty());
    a.command = Some(Command::Canon { input_file: "in.js".to_string(), map: Some(Some("m.txt".to_string())), preserve_comments: false, pretty: false });
    assert!(matches!(a.mode(), Some(Mode::ApplyMapping { map_file, .. }) if map_file == "m.txt"));
    a.command = Some(Command::Query { dump_file: "d".to_string(), query_type: QueryType::UnmatchedFrom1 });
    assert!(matches!(a.mode(), Some(Mode::Query { query_type: QueryType::UnmatchedFrom1, .. })));
    assert!(!a.pretty());
}

#[test]
fn profiler_records_stops() {
    let mut p = Profiler::new();
    p.stop("never");
    assert!(p.timers().is_empty());
    p.start("phase");
    p.stop("phase");
    p.start("phase");
    p.stop("phase");
    assert_eq!(p.timers().len(), 1);
    assert_eq!(p.timers()[0].0, "phase");
    assert_eq!(p.timers()[0].1.len(), 2);
}

#[test]
fn training_corrections() {
    let mut c = TrainingDataCollector::new();
    c.record_correction("D4Q", "vK1", true);
    c.record_correction("handleError", "processRequest", false);
    assert_eq!(c.corrections().len(), 2);
    assert_eq!(c.corrections()[1], ("handleError".to_string(), "processRequest".to_string(), false));
}

#[test]
fn dump_header_checks() {
    let payload = b"dump contents";
    let h = DumpHeader::new(DumpFlags::new(), checksum_of(payload));
    assert_eq!(h.check(payload), Ok(()));
    let bad = DumpHeader { magic: *b"XXXX", ..h };
    assert_eq!(bad.check(payload), Err(DumpHeaderError::BadMagic));
    let newer = DumpHeader { version: 2, ..h };
    assert_eq!(newer.check(payload), Err(DumpHeaderError::TooNew(2)));
    assert_eq!(h.check(b"dump contentz"), Err(DumpHeaderError::ChecksumMismatch));
}

#[test]
fn dump_checksum_is_the_first_digest_bytes() {
    let digest = content_hash(b"abc");
    let expected = digest[..8].iter().fold(0u64, |acc, &b| acc * 256 + b as u64);
    assert_eq!(checksum_of(b"abc"), expected);
    assert_eq!(checksum_of(b"abc"), 0xba7816bf8f01cfea);
}

#[test]
fn dump_queries_and_hashes() {
    let abc = content_hash(b"abc");
    let hex: String = abc.iter().map(|b| format!("{:02x}", b)).collect();
    assert_eq!(hex, "ba7816bf8f01cfea414140de5dae2223b00361a396177a9cb410ff61f20015ad");
    assert!(validate(&abc, &content_hash(b""), b"abc", b""));
    assert!(!validate(&abc, &abc, b"abc", b"abd"));
    assert_eq!(unmatched(5, &vec![1, 3]), vec![0, 2, 4]);
    assert_eq!(get_match_for(&vec![(2, 0), (4, 1)], 4), Some(1));
    assert_eq!(get_match_for(&vec![(2, 0)], 3), None);
    let names = vec!["a".to_string(), "b".to_string()];
    assert_eq!(find_declaration(&names, "b"), Some(1));
    assert_eq!(find_declaration(&names, "c"), None);
}

#[test]
fn function_at_line_stops_at_balancing_brace() {
    let diff = StructuralDiff::new();
    let source = "var x = 1;\nfunction f() {\n  if (x) {\n    x++;\n  }\n}\nvar y = 2;";
    assert_eq!(
        diff.extract_function_at_line(source, 2),
        Some("function f() {\n  if (x) {\n    x++;\n  }\n}".to_string())
    );
    assert_eq!(
        diff.extract_function_at_line(source, 1),
        Some("var x = 1;\nfunction f() {\n  if (x) {\n    x++;\n  }\n}".to_string())
    );
    assert_eq!(diff.extract_function_at_line(source, 7), Some("var y = 2;".to_string()));
    assert_eq!(diff.extract_function_at_line(source, 0), None);
    assert_eq!(diff.extract_function_at_line(source, 8), None);
    assert_eq!(diff.extract_function_at_line("a { } b {\nc }", 1), Some("a { } b {\nc }".to_string()));
}

#[test]
fn serializable_declaration_keeps_fields() {
    let tree = parse("function getData(a, b) { return a + b; }");
    let diff = StructuralDiff::new();
    let decls = diff.extract_declarations(&tree);
    let s = decls[0].to_serializable();
    assert_eq!(s.name, "getData");
    assert_eq!(s.kind, DeclarationKind::Function);
    assert_eq!(s.line, decls[0].line);
    assert_eq!(s.structural_hashes, decls[0].structural_hashes);
    assert_eq!(s.signature, decls[0].signature);
}

fn lite_change(change_type: ChangeType, desc: &str, l1: Option<(usize, Option<usize>)>, l2: Option<(usize, Option<usize>)>) -> Change {
    let loc = |p: Option<(usize, Option<usize>)>| {
        p.map(|(line, end_line)| Location { line, column: 0, code_snippet: String::new(), end_line })
    };
    Change {
        change_type,
        location1: loc(l1),
        location2: loc(l2),
        description: desc.to_string(),
        structural_path: String::new(),
        string_diff: None,
    }
}

#[test]
fn lite_view_lists_names_and_ranges() {
    let result = DiffResult {
        identical: false,
        changes: vec![
            lite_change(ChangeType::Deletion, "Removed function 'foo'", Some((3, Some(5))), None),
            lite_change(ChangeType::Addition, "Added variable 'bar'", None, Some((7, None))),
            lite_change(ChangeType::Modification, "function 'b' matched with 'a' (was 'a')", Some((1, None)), Some((2, Some(2)))),
            lite_change(ChangeType::Modification, "function 'f' structure changed (80.0% similar)", Some((10, Some(12))), Some((11, None))),
            lite_change(ChangeType::Modification, "function 'g' has text constant changes", Some((20, None)), Some((21, None))),
            lite_change(ChangeType::Reorder, "moved", Some((1, None)), Some((1, None))),
        ],
        matched_declarations: 3,
        total_declarations1: 4,
        total_declarations2: 4,
    };
    let text = StructuralDiff::new().print_lite(&result, "a.js", "b.js");
    assert_eq!(
        text,
        "=== Removed ===\n- foo (a.js:3-5)\n\n=== Added ===\n+ bar (b.js:7)\n\n=== Modified ===\n- b (a.js:1)\n+ a (b.js:2)\n\n- f (a.js:10-12)\n+ f (b.js:11)\n\n"
    );
    let only_added = DiffResult {
        identical: false,
        changes: vec![lite_change(ChangeType::Addition, "odd description", None, Some((4, None)))],
        matched_declarations: 0,
        total_declarations1: 0,
        total_declarations2: 1,
    };
    assert_eq!(
        StructuralDiff::new().print_lite(&only_added, "a.js", "b.js"),
        "=== Added ===\n+ odd description (b.js:4)\n"
    );
}

#[test]
fn unified_diff_shows_context_until_first_difference() {
    let diff = StructuralDiff::new();
    assert_eq!(
        diff.print_unified_diff("a\nb\nc\nd", "a\nx\nc"),
        "  a\n- b\n+ x\n- d\n"
    );
    assert_eq!(diff.print_unified_diff("same\nlines", "same\nlines"), "  same\n  lines\n");
    assert_eq!(diff.print_unified_diff("", "new"), "+ new\n");
}

#[test]
fn original_function_text_by_shape() {
    let diff = StructuralDiff::new();
    let source = "var a;\nfunction f(x) {\n  return x;\n}\nconst g = (y) => y * 2\nlet z = 1;\n";
    assert!(original_scan_fits(source, 2));
    assert_eq!(diff.print_original_function(source, 1, "-"), "- var a;\n");
    assert_eq!(
        diff.print_original_function(source, 2, "+"),
        "+ function f(x) {\n+   return x;\n+ }\n"
    );
    assert_eq!(diff.print_original_function(source, 5, "-"), "- const g = (y) => y * 2\n");
    assert_eq!(diff.print_original_function(source, 6, "-"), "- let z = 1;\n");
    assert_eq!(diff.print_original_function(source, 9, "-"), "");
    assert!(!original_scan_fits("}function f(){return 1}", 1));
    assert!(!brace_scan_fits("}function f(){return 1}", 1));
    assert!(brace_scan_fits("function f(){return 1}", 1));
}

#[test]
fn canonical_snippet_runs_one_line_past_the_function() {
    let diff = StructuralDiff::new();
    let source = "function f() {\n  return 1;\n}\nvar x;\nvar y;";
    assert_eq!(
        diff.print_canonical_snippet(source, 1, "-"),
        "- function f() {\n-   return 1;\n- }\n- var x;\n"
    );
    assert_eq!(diff.print_canonical_snippet(source, 5, "+"), "+ var y;\n");
    assert_eq!(diff.print_canonical_snippet(source, 4, "+"), "+ var x;\n+ var y;\n");
    assert_eq!(diff.print_canonical_snippet(source, 0, "+"), "");
}

#[test]
fn changes_are_grouped_by_category() {
    let result = DiffResult {
        identical: false,
        changes: vec![
            change(ChangeType::Addition, "Added function 'n'", "global.n", true),
            change(ChangeType::Modification, "function 'b' has text constant changes", "global.b", true),
            change(ChangeType::Modification, "function 'x' matched with 'a' (was 'a')", "global.a->x", true),
            change(ChangeType::Reorder, "function 'c' moved", "global.c", true),
            change(ChangeType::Modification, "function 'd' structure changed (40.0% similar)", "global.d", true),
            change(ChangeType::Deletion, "Removed function 'o'", "global.o", true),
        ],
        matched_declarations: 3,
        total_declarations1: 4,
        total_declarations2: 4,
    };
    let diff = StructuralDiff::new();
    assert_eq!(diff.changes_in(&result, ChangeCategory::Added, true), vec![0]);
    assert_eq!(diff.changes_in(&result, ChangeCategory::Removed, true), vec![5]);
    assert_eq!(diff.changes_in(&result, ChangeCategory::Restructured, true), vec![1, 4]);
    assert_eq!(diff.changes_in(&result, ChangeCategory::Restructured, false), vec![4]);
    assert_eq!(diff.changes_in(&result, ChangeCategory::Renamed, true), vec![2]);
    assert_eq!(diff.changes_in(&result, ChangeCategory::Hidden, true), vec![3]);
    assert_eq!(diff.changes_in(&result, ChangeCategory::Hidden, false), vec![1, 3]);
    assert_eq!(StructuralDiff::change_category(&result.changes[3], true), ChangeCategory::Hidden);
}

#[test]
fn rename_parts_split_the_path_at_its_arrows() {
    let c = change(ChangeType::Modification, "function 'x' matched with 'a'", "global.a->x", true);
    assert_eq!(StructuralDiff::rename_parts(&c), Some(("a".to_string(), "x".to_string())));
    let chained = change(ChangeType::Modification, "matched with", "global.a->global.b->c", true);
    assert_eq!(StructuralDiff::rename_parts(&chained), Some(("a".to_string(), "global.b".to_string())));
    let plain = change(ChangeType::Modification, "function 'a' structure changed", "global.a", true);
    assert_eq!(StructuralDiff::rename_parts(&plain), None);
}

#[test]
fn readme_diff_example_keeps_renamed_structure_and_finds_the_changed_endpoint() {
    let file1 = "function getData() {\n    return fetch('/api/data');\n}\n\nfunction processData(data) {\n    return data.map(item => item.value * 2);\n}\n";
    let file2 = "function b(x) {\n    return x.map(y => y.value * 2);\n}\n\nfunction a() {\n    return fetch('/api/v2/data'); // Changed!\n}\n";
    let diff = StructuralDiff::new();
    let d1 = diff.extract_declarations_for_inspection(&parse(file1));
    let d2 = diff.extract_declarations_for_inspection(&parse(file2));
    let find = |ds: &[astdiff::diff::Declaration], n: &str| ds.iter().find(|d| d.name == n).unwrap().clone();
    let (get_data, process_data) = (find(&d1, "getData"), find(&d1, "processData"));
    let (a, b) = (find(&d2, "a"), find(&d2, "b"));
    // processData -> b is only a rename: the same structure and signature.
    assert_eq!(process_data.structural_hashes, b.structural_hashes);
    assert_eq!(process_data.signature, b.signature);
    // getData -> a changed its API endpoint string.
    let sd = compute_string_diff(get_data.fingerprint.as_ref().unwrap(), a.fingerprint.as_ref().unwrap());
    assert_eq!(sd.modified_count, 1);
    assert!(!sd.is_empty());
}
