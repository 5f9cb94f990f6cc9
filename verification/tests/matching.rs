use astdiff::changes::match_changes;
use astdiff::diff::{ChangeType, DeclarationData, DeclarationKind, SerializableDeclaration};
use astdiff::fingerprint::{
    shared_evidence,
    ApiCallFingerprint, ConstantFingerprint, ConstantValue, FunctionFingerprint, StringContext, StringFingerprint,
};
use astdiff::matcher::{create_location_stub, create_location_with_lines, hash_overlap, signatures_close, ParallelMatcherV2};
use astdiff::text::{chars_of, split_lines, trim_chars};

fn data(name: &str, kind: DeclarationKind, size: usize, line: usize, end_line: usize, sig: Vec<u64>) -> DeclarationData {
    DeclarationData {
        name: name.to_string(),
        kind,
        line,
        end_line,
        signature: String::new(),
        structural_hashes: Vec::new(),
        size,
        minhash_signature: sig,
        fingerprint: None,
    }
}

fn sized(name: &str, kind: DeclarationKind, size: usize) -> DeclarationData {
    data(name, kind, size, 1, 1, vec![0; 10])
}

#[test]
fn candidate_pairs_keep_kind_and_size_window_in_size_order() {
    let m = ParallelMatcherV2::new(false);
    let d1 = vec![sized("a", DeclarationKind::Function, 10), sized("b", DeclarationKind::Variable, 1)];
    let d2 = vec![
        sized("x", DeclarationKind::Function, 15),
        sized("y", DeclarationKind::Function, 4),
        sized("z", DeclarationKind::Function, 5),
        sized("w", DeclarationKind::Variable, 1),
        sized("v", DeclarationKind::Function, 16),
        sized("u", DeclarationKind::Function, 5),
    ];
    // size 10 compares with sizes 5..=15; size 1 with 1..=1.
    assert_eq!(m.build_candidate_pairs(&d1, &d2), vec![(0, 2), (0, 5), (0, 0), (1, 3)]);
}

#[test]
fn candidate_window_of_an_empty_declaration_starts_at_one() {
    let m = ParallelMatcherV2::new(false);
    let d1 = vec![sized("a", DeclarationKind::Class, 0)];
    let d2 = vec![sized("x", DeclarationKind::Class, 0), sized("y", DeclarationKind::Class, 1)];
    assert_eq!(m.build_candidate_pairs(&d1, &d2), Vec::<(usize, usize)>::new());
}

#[test]
fn lsh_filter_keeps_same_names_and_close_signatures() {
    let m = ParallelMatcherV2::new(true);
    let d1 = vec![
        data("f", DeclarationKind::Function, 4, 1, 1, vec![1, 2, 3, 4, 5, 6, 7, 8, 9, 10]),
        data("g", DeclarationKind::Function, 4, 2, 2, vec![1, 2, 3, 4, 5, 6, 7, 8, 9, 10]),
    ];
    let d2 = vec![
        data("f", DeclarationKind::Function, 4, 1, 1, vec![0; 10]),
        data("h", DeclarationKind::Function, 4, 2, 2, vec![1, 2, 3, 0, 0, 0, 0, 0, 0, 0]),
        data("k", DeclarationKind::Function, 4, 3, 3, vec![1, 2, 0, 0, 0, 0, 0, 0, 0, 0]),
    ];
    let pairs = vec![(0, 0), (1, 1), (1, 2), (1, 0)];
    // three of ten positions agree for (1, 1): kept; two of ten for (1, 2): dropped.
    assert_eq!(m.parallel_lsh_filter(&pairs, &d1, &d2), vec![(0, 0, true), (1, 1, false)]);
}

#[test]
fn lsh_filter_drops_empty_signatures() {
    let m = ParallelMatcherV2::new(true);
    let d1 = vec![data("f", DeclarationKind::Function, 4, 1, 1, vec![])];
    let d2 = vec![data("g", DeclarationKind::Function, 4, 1, 1, vec![])];
    assert!(m.parallel_lsh_filter(&vec![(0, 0)], &d1, &d2).is_empty());
}

#[test]
fn best_matches_are_one_to_one_and_record_renames() {
    let m = ParallelMatcherV2::new(false);
    let d1 = vec![sized("a", DeclarationKind::Function, 3), sized("b", DeclarationKind::Function, 3)];
    let d2 = vec![sized("x", DeclarationKind::Function, 3), sized("b", DeclarationKind::Function, 3)];
    let ranked = vec![(0, 0), (1, 0), (0, 1), (1, 1)];
    let (matches, renames) = m.resolve_best_matches(&ranked, &d1, &d2);
    assert_eq!(matches, vec![(0, 0), (1, 1)]);
    assert_eq!(renames, vec![("x".to_string(), "a".to_string())]);
}

#[test]
fn a_later_rename_of_the_same_new_name_wins() {
    let m = ParallelMatcherV2::new(false);
    let d1 = vec![sized("a", DeclarationKind::Function, 3), sized("b", DeclarationKind::Function, 3)];
    let d2 = vec![sized("x", DeclarationKind::Function, 3), sized("x", DeclarationKind::Function, 3)];
    let (matches, renames) = m.resolve_best_matches(&vec![(0, 0), (1, 1)], &d1, &d2);
    assert_eq!(matches, vec![(0, 0), (1, 1)]);
    assert_eq!(renames, vec![("x".to_string(), "b".to_string())]);
}

#[test]
fn nothing_ranked_matches_nothing() {
    let m = ParallelMatcherV2::new(false);
    let d1 = vec![sized("a", DeclarationKind::Function, 3)];
    let (matches, renames) = m.resolve_best_matches(&Vec::new(), &d1, &d1);
    assert!(matches.is_empty() && renames.is_empty());
}

#[test]
fn matcher_batches_a_thousand_pairs() {
    let m = ParallelMatcherV2::new(true);
    assert_eq!(m.batch_size(), 1000);
    assert!(m.uses_fingerprints());
}

#[test]
fn location_takes_the_trimmed_first_line_and_the_last_line() {
    let lines = split_lines(&chars_of("let a = 1;\n   function f() {\n}\n"));
    let d = data("f", DeclarationKind::Function, 1, 2, 3, vec![]);
    let loc = create_location_with_lines(&d, &lines);
    assert_eq!((loc.line, loc.column, loc.code_snippet.as_str(), loc.end_line), (2, 0, "function f() {", Some(3)));
    let beyond = data("g", DeclarationKind::Function, 1, 9, 9, vec![]);
    assert_eq!(create_location_with_lines(&beyond, &lines).code_snippet, "");
}

#[test]
fn trimming_removes_white_space_at_both_ends() {
    assert_eq!(trim_chars(&chars_of("  a b \t")), "a b");
    assert_eq!(trim_chars(&chars_of(" \n ")), "");
}

#[test]
fn a_dumped_declaration_reads_back_with_a_placeholder_node() {
    let s = SerializableDeclaration {
        name: "f".to_string(),
        kind: DeclarationKind::Function,
        line: 7,
        signature: "function(a)".to_string(),
        structural_hashes: vec![1, 2],
        size: 2,
        minhash_signature: vec![3],
        fingerprint: None,
    };
    let d = s.to_declaration();
    assert_eq!((d.name.as_str(), d.kind, d.node, d.line, d.size), ("f", DeclarationKind::Function, 0, 7, 2));
    assert_eq!((d.structural_hashes, d.minhash_signature), (vec![1, 2], vec![3]));
}

#[test]
fn location_stub_reads_the_lines_of_the_source() {
    let d = data("f", DeclarationKind::Function, 1, 1, 4, vec![]);
    let loc = create_location_stub(&d, "\t const f = 1;  \r\nnext");
    assert_eq!((loc.line, loc.code_snippet.as_str(), loc.end_line), (1, "const f = 1;", Some(4)));
}

#[test]
fn signatures_are_close_from_three_tenths_of_the_first() {
    assert!(signatures_close(&vec![1, 2, 3, 4, 5, 6, 7, 8, 9, 10], &vec![1, 2, 3]));
    assert!(!signatures_close(&vec![1, 2, 3, 4, 5, 6, 7, 8, 9, 10], &vec![1, 2]));
    assert!(!signatures_close(&vec![], &vec![]));
}

#[test]
fn a_duplicated_fingerprint_keeps_its_contents() {
    let f = FunctionFingerprint {
        strings: vec![StringFingerprint { value: "Error: missing file".to_string(), context: StringContext::ErrorMessage }],
        constants: vec![ConstantFingerprint { value: ConstantValue::Float("1.5".to_string()) }],
        api_calls: vec![ApiCallFingerprint {
            object: Some("fs".to_string()),
            method: "readFileSync".to_string(),
            first_arg: None,
        }],
        size: 12,
    };
    let g = f.duplicate();
    assert_eq!(g.strings[0].value, "Error: missing file");
    assert_eq!(g.strings[0].context, StringContext::ErrorMessage);
    assert!(matches!(&g.constants[0].value, ConstantValue::Float(x) if x == "1.5"));
    assert_eq!((g.api_calls[0].object.as_deref(), g.api_calls[0].method.as_str()), (Some("fs"), "readFileSync"));
    assert_eq!(g.size, 12);
}

fn lines(source: &str) -> Vec<Vec<char>> {
    split_lines(&chars_of(source))
}

#[test]
fn unmatched_declarations_are_removed_and_added() {
    let m = ParallelMatcherV2::new(false);
    let f = |n: &str, l: usize| data(n, DeclarationKind::Function, 1, l, l, vec![]);
    let d1 = vec![f("a", 1), f("b", 2)];
    let d2 = vec![f("x", 1), f("y", 2)];
    let (chosen, renames) = m.resolve_best_matches(&vec![(0, 1), (1, 1), (0, 0)], &d1, &d2);
    assert_eq!(chosen, vec![(0, 1)]);
    assert_eq!(renames, vec![("y".to_string(), "a".to_string())]);
    let changes = match_changes(&d1, &d2, &chosen, &renames, &lines("a\nb"), &lines("x\ny"), &vec!["90.0".to_string()]);
    assert_eq!(changes.len(), 2);
    assert_eq!(changes[0].change_type, ChangeType::Deletion);
    assert_eq!(changes[0].description, "Removed function 'b'");
    assert_eq!(changes[0].structural_path, "global.b");
    assert_eq!(changes[0].location1.as_ref().unwrap().line, 2);
    assert!(changes[0].location2.is_none());
    assert_eq!(changes[1].change_type, ChangeType::Addition);
    assert_eq!(changes[1].description, "Added function 'x'");
    assert_eq!(changes[1].location2.as_ref().unwrap().line, 1);
    assert_eq!(changes[1].location2.as_ref().unwrap().code_snippet, "x");
}

#[test]
fn a_changed_pair_is_described_with_its_similarity() {
    let mut a = data("compute", DeclarationKind::Function, 3, 1, 1, vec![]);
    a.structural_hashes = vec![1, 2];
    let mut b = data("compute", DeclarationKind::Function, 3, 1, 1, vec![]);
    b.structural_hashes = vec![1, 3];
    let changes = match_changes(
        &vec![a],
        &vec![b],
        &vec![(0, 0)],
        &vec![],
        &lines("function compute() { return 1; }"),
        &lines("function compute() { return 2; }"),
        &vec!["75.0".to_string()],
    );
    assert_eq!(changes.len(), 1);
    assert_eq!(changes[0].change_type, ChangeType::Modification);
    assert_eq!(changes[0].description, "function 'compute' structure changed (75.0% similar)");
    assert_eq!(changes[0].structural_path, "global.compute");
}

#[test]
fn a_renamed_pair_with_the_same_text_shows_no_change() {
    let a = data("oldName", DeclarationKind::Function, 3, 1, 1, vec![]);
    let b = data("newName", DeclarationKind::Function, 3, 1, 1, vec![]);
    let renames = vec![("newName".to_string(), "oldName".to_string())];
    let changes = match_changes(
        &vec![a.clone()],
        &vec![b.clone()],
        &vec![(0, 0)],
        &renames,
        &lines("function oldName() { return 1; }"),
        &lines("function newName() { return 1; }"),
        &vec!["100.0".to_string()],
    );
    assert!(changes.is_empty());
    let changes = match_changes(
        &vec![a],
        &vec![b],
        &vec![(0, 0)],
        &vec![],
        &lines("function oldName() { return 1; }"),
        &lines("function newName() { return 1; }"),
        &vec!["100.0".to_string()],
    );
    assert_eq!(changes.len(), 1);
    assert_eq!(changes[0].description, "function 'newName' matched with 'oldName' (was 'oldName')");
    assert_eq!(changes[0].structural_path, "global.oldName->newName");
}

#[test]
fn hash_overlap_counts_distinct_shared_and_total() {
    assert_eq!(hash_overlap(&vec![1, 2, 2, 3], &vec![2, 3, 4, 4]), (2, 4));
    assert_eq!(hash_overlap(&vec![], &vec![]), (0, 0));
    assert_eq!(hash_overlap(&vec![7], &vec![8]), (0, 2));
}

fn sfp(v: &str) -> StringFingerprint {
    StringFingerprint { value: v.to_string(), context: StringContext::Regular }
}

#[test]
fn shared_evidence_lists_common_and_unique_items() {
    let call = |o: Option<&str>, m: &str| ApiCallFingerprint {
        object: o.map(|x| x.to_string()),
        method: m.to_string(),
        first_arg: None,
    };
    let fp1 = FunctionFingerprint {
        strings: vec![sfp("a"), sfp("b"), sfp("c")],
        constants: vec![ConstantFingerprint { value: ConstantValue::Number(3) }, ConstantFingerprint { value: ConstantValue::Duration(1000) }],
        api_calls: vec![call(Some("fs"), "readFile"), call(None, "fetch")],
        size: 1,
    };
    let fp2 = FunctionFingerprint {
        strings: vec![sfp("c"), sfp("d"), sfp("a")],
        constants: vec![ConstantFingerprint { value: ConstantValue::Duration(1000) }],
        api_calls: vec![call(None, "fetch"), call(Some("fs"), "writeFile")],
        size: 1,
    };
    let (s, c, a, only1, only2) = shared_evidence(&fp1, &fp2);
    assert_eq!(s, vec![0, 2]);
    assert_eq!(c, vec![1]);
    assert_eq!(a, vec![1]);
    assert_eq!(only1, vec![1]);
    assert_eq!(only2, vec![1]);
}

#[test]
fn a_changed_pair_carries_its_whole_string_diff() {
    let fp = |vs: &[&str]| FunctionFingerprint { strings: vs.iter().map(|v| sfp(v)).collect(), constants: vec![], api_calls: vec![], size: 1 };
    let long = "x".repeat(120);
    let mut a = data("f", DeclarationKind::Function, 3, 1, 1, vec![]);
    a.fingerprint = Some(fp(&["hello"]));
    let mut b = data("f", DeclarationKind::Function, 3, 1, 1, vec![]);
    b.fingerprint = Some(fp(&["hello", &long]));
    let changes = match_changes(
        &vec![a],
        &vec![b],
        &vec![(0, 0)],
        &vec![],
        &lines("function f() { return 'hello'; }"),
        &lines("function f() { return 'hello' + 'xxx'; }"),
        &vec!["90.0".to_string()],
    );
    assert_eq!(changes.len(), 1);
    assert_eq!(changes[0].description, "function 'f' has text constant changes");
    let d = changes[0].string_diff.as_ref().unwrap();
    assert_eq!((d.added_count, d.removed_count, d.modified_count), (1, 0, 0));
    assert_eq!(d.important_changes.len(), 1);
}
