use unchecked_audit::audit::{
    report_cells, resolve_entry, run_audit, AuditError, MarkedEntry, MarkerCollector, ReportRow,
};

fn files(pairs: &[(&str, &str)]) -> Vec<(String, String)> {
    pairs.iter().map(|(p, c)| (String::from(*p), String::from(*c))).collect()
}

fn audit(pairs: &[(&str, &str)]) -> Vec<ReportRow> {
    run_audit(&files(pairs)).expect("audit should succeed")
}

#[test]
fn counterpart_found_in_same_file() {
    let rows = audit(&[("a.rs", "fn fetch_unchecked() {}\nfn fetch() {}\n")]);
    assert_eq!(rows.len(), 1);
    assert_eq!(rows[0].path, "a.rs");
    assert_eq!(rows[0].name, "fetch_unchecked");
    assert_eq!(rows[0].counterpart.as_deref(), Some("fetch"));
}

#[test]
fn counterpart_absent() {
    let rows = audit(&[("a.rs", "fn fetch_unchecked() {}\n")]);
    assert_eq!(rows.len(), 1);
    assert_eq!(rows[0].name, "fetch_unchecked");
    assert_eq!(rows[0].counterpart, None);
}

#[test]
fn duplicate_declarations_collected_once() {
    let src = "struct S;\nstruct T;\n\
               impl S { fn get_unchecked(&self) {} }\n\
               impl T { fn get_unchecked(&self) {} }\n";
    let rows = audit(&[("a.rs", src)]);
    assert_eq!(rows.len(), 1);
    assert_eq!(rows[0].name, "get_unchecked");
}

#[test]
fn same_name_in_two_files_kept_apart() {
    let rows = audit(&[
        ("a.rs", "fn get_unchecked() {}\n"),
        ("b.rs", "fn get_unchecked() {}\nfn get() {}\n"),
    ]);
    assert_eq!(rows.len(), 2);
    assert_eq!(rows[0].path, "a.rs");
    assert_eq!(rows[0].counterpart, None);
    assert_eq!(rows[1].path, "b.rs");
    assert_eq!(rows[1].counterpart.as_deref(), Some("get"));
}

#[test]
fn reruns_yield_identical_reports() {
    let input = [
        ("x.rs", "fn a_unchecked() {}\nfn a() {}\nfn b_unchecked() {}\n"),
        ("y.rs", "struct S;\nimpl S { fn c_unchecked(&self) {} fn c(&self) {} }\n"),
    ];
    let first = audit(&input);
    let second = audit(&input);
    assert_eq!(first, second);
    let first_cells = report_cells(&first);
    let second_cells = report_cells(&second);
    assert_eq!(first_cells, second_cells);
}

#[test]
fn every_entry_reported_exactly_once() {
    let rows = audit(&[
        ("x.rs", "fn a_unchecked() {}\nfn b_unchecked() {}\nfn b() {}\n"),
        ("y.rs", "fn a_unchecked() {}\n"),
    ]);
    assert_eq!(rows.len(), 3);
    for i in 0..rows.len() {
        for j in 0..rows.len() {
            if i != j {
                assert!(rows[i].path != rows[j].path || rows[i].name != rows[j].name);
            }
        }
    }
}

#[test]
fn counterpart_in_another_file_does_not_count() {
    let rows = audit(&[
        ("a.rs", "fn foo_unchecked() {}\n"),
        ("b.rs", "fn foo() {}\n"),
    ]);
    assert_eq!(rows.len(), 1);
    assert_eq!(rows[0].path, "a.rs");
    assert_eq!(rows[0].name, "foo_unchecked");
    assert_eq!(rows[0].counterpart, None);
}

#[test]
fn method_discovered_like_free_function() {
    let rows = audit(&[
        ("m.rs", "struct S;\nimpl S { fn set_unchecked(&mut self) {} }\n"),
        ("f.rs", "fn set_unchecked() {}\n"),
    ]);
    assert_eq!(rows.len(), 2);
    assert_eq!(rows[0].path, "m.rs");
    assert_eq!(rows[0].name, "set_unchecked");
    assert_eq!(rows[1].path, "f.rs");
    assert_eq!(rows[1].name, "set_unchecked");
}

#[test]
fn two_file_scenario() {
    let rows = audit(&[
        ("a.rs", "fn push_unchecked() {}\n"),
        ("b.rs", "struct S;\nimpl S { fn pop_unchecked(&mut self) {} fn pop(&mut self) {} }\n"),
    ]);
    assert_eq!(rows.len(), 2);
    assert_eq!(rows[0].path, "a.rs");
    assert_eq!(rows[0].name, "push_unchecked");
    assert_eq!(rows[0].counterpart, None);
    assert_eq!(rows[1].path, "b.rs");
    assert_eq!(rows[1].name, "pop_unchecked");
    assert_eq!(rows[1].counterpart.as_deref(), Some("pop"));
}

#[test]
fn declarations_inside_modules_are_found() {
    let rows = audit(&[(
        "m.rs",
        "mod inner {\n    fn go_unchecked() {}\n    fn go() {}\n}\n",
    )]);
    assert_eq!(rows.len(), 1);
    assert_eq!(rows[0].name, "go_unchecked");
    assert_eq!(rows[0].counterpart.as_deref(), Some("go"));
}

#[test]
fn function_declared_inside_a_body_is_discovered() {
    let rows = audit(&[(
        "n.rs",
        "fn outer() {\n    fn helper_unchecked() {}\n    fn helper() {}\n}\n",
    )]);
    assert_eq!(rows.len(), 1);
    assert_eq!(rows[0].name, "helper_unchecked");
    assert_eq!(rows[0].counterpart.as_deref(), Some("helper"));
}

#[test]
fn declaration_inside_a_method_body_is_discovered() {
    let src = "struct S;\nimpl S {\n    fn run(&self) {\n        fn deep_unchecked() {}\n    }\n}\n";
    let rows = audit(&[("m.rs", src)]);
    assert_eq!(rows.len(), 1);
    assert_eq!(rows[0].name, "deep_unchecked");
    assert_eq!(rows[0].counterpart, None);
}

#[test]
fn impl_block_inside_a_body_is_discovered() {
    let src = "fn outer() {\n    struct T;\n    impl T {\n        fn x_unchecked(&self) {}\n        fn x(&self) {}\n    }\n}\n";
    let rows = audit(&[("i.rs", src)]);
    assert_eq!(rows.len(), 1);
    assert_eq!(rows[0].name, "x_unchecked");
    assert_eq!(rows[0].counterpart.as_deref(), Some("x"));
}

#[test]
fn invalid_source_fails_the_run() {
    let result = run_audit(&files(&[
        ("good.rs", "fn ok_unchecked() {}\n"),
        ("bad.rs", "fn (((\n"),
    ]));
    match result {
        Err(AuditError::ParseFailure { path }) => assert_eq!(path, "bad.rs"),
        other => panic!("expected a parse failure, got {:?}", other),
    }
}

#[test]
fn empty_input_yields_empty_report() {
    let rows = audit(&[]);
    assert!(rows.is_empty());
    let rows = audit(&[("a.rs", "")]);
    assert!(rows.is_empty());
}

#[test]
fn resolving_without_the_owning_file_fails() {
    let entry = MarkedEntry {
        path: String::from("gone.rs"),
        name: String::from("x_unchecked"),
    };
    let result = resolve_entry(&entry, &files(&[("other.rs", "fn x() {}\n")]));
    match result {
        Err(AuditError::MissingSource { path }) => assert_eq!(path, "gone.rs"),
        other => panic!("expected a missing source, got {:?}", other),
    }
}

#[test]
fn absent_counterpart_rendered_as_sentinel() {
    let rows = audit(&[("a.rs", "fn fetch_unchecked() {}\nfn fetch() {}\nfn lone_unchecked() {}\n")]);
    let cells = report_cells(&rows);
    assert_eq!(cells.len(), 2);
    assert_eq!(cells[0].0, "a.rs");
    assert_eq!(cells[0].1, "fetch_unchecked");
    assert_eq!(cells[0].2, "fetch");
    assert_eq!(cells[1].1, "lone_unchecked");
    assert_eq!(cells[1].2, "None");
}

#[test]
fn collector_deduplicates_across_calls() {
    let mut collector = MarkerCollector::new();
    let path = String::from("a.rs");
    collector
        .collect_source(&path, "fn dup_unchecked() {}\n")
        .expect("valid source");
    collector
        .collect_source(&path, "fn dup_unchecked() {}\nfn other_unchecked() {}\n")
        .expect("valid source");
    assert_eq!(collector.entries.len(), 2);
    assert_eq!(collector.entries[0].name, "dup_unchecked");
    assert_eq!(collector.entries[1].name, "other_unchecked");
}
