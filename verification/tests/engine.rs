use treepatch::value::TreeValue;
use treepatch::patch::{PathSeg, PatchOp, PatchError, apply, value_at};
use treepatch::diff::{diff, to_patch, generate_patch, ChangeEvent};
use treepatch::merge::merge;
use treepatch::{Config, Command, RunOutcome, run};

fn key(s: &str) -> String {
    String::from(s)
}

fn text(s: &str) -> TreeValue {
    TreeValue::Text(String::from(s))
}

fn seg_key(s: &str) -> PathSeg {
    PathSeg::Key(String::from(s))
}

/// `{"a": 1, "b": [1, 2]}`
fn origin_doc() -> TreeValue {
    TreeValue::Mapping(vec![
        (key("a"), TreeValue::Int(1)),
        (
            key("b"),
            TreeValue::Sequence(vec![TreeValue::Int(1), TreeValue::Int(2)]),
        ),
    ])
}

/// `{"a": 2, "b": [1, 2, 3]}`
fn reference_doc() -> TreeValue {
    TreeValue::Mapping(vec![
        (key("a"), TreeValue::Int(2)),
        (
            key("b"),
            TreeValue::Sequence(vec![
                TreeValue::Int(1),
                TreeValue::Int(2),
                TreeValue::Int(3),
            ]),
        ),
    ])
}

#[test]
fn diff_concrete_scenario() {
    let origin = origin_doc();
    let reference = reference_doc();
    let events = diff(&origin, &reference);
    let changes: Vec<&ChangeEvent> = events
        .iter()
        .filter(|e| !matches!(e, ChangeEvent::Unchanged(_, _)))
        .collect();
    assert_eq!(changes.len(), 2);
    match changes[0] {
        ChangeEvent::Modified(p, old, new) => {
            assert_eq!(p.len(), 1);
            assert!(matches!(&p[0], PathSeg::Key(k) if k == "a"));
            assert!(old.structural_eq(&TreeValue::Int(1)));
            assert!(new.structural_eq(&TreeValue::Int(2)));
        }
        other => panic!("expected a modification first, got {:?}", other),
    }
    match changes[1] {
        ChangeEvent::Added(p, v) => {
            assert_eq!(p.len(), 2);
            assert!(matches!(&p[0], PathSeg::Key(k) if k == "b"));
            assert!(matches!(&p[1], PathSeg::Index(2)));
            assert!(v.structural_eq(&TreeValue::Int(3)));
        }
        other => panic!("expected an addition second, got {:?}", other),
    }
}

#[test]
fn patch_concrete_scenario() {
    let origin = origin_doc();
    let reference = reference_doc();
    let patch = generate_patch(&origin, &reference);
    assert_eq!(patch.len(), 2);
    assert!(matches!(&patch[0], PatchOp::Replace(p, v)
        if p.len() == 1 && matches!(&p[0], PathSeg::Key(k) if k == "a")
            && v.structural_eq(&TreeValue::Int(2))));
    assert!(matches!(&patch[1], PatchOp::Add(p, v)
        if p.len() == 2 && matches!(&p[1], PathSeg::Index(2))
            && v.structural_eq(&TreeValue::Int(3))));
    let result = apply(&origin, &patch).expect("patch applies");
    assert!(result.structural_eq(&reference));
}

#[test]
fn diff_of_identical_documents_is_all_unchanged() {
    let x = reference_doc();
    let y = reference_doc();
    for e in diff(&x, &y) {
        assert!(matches!(e, ChangeEvent::Unchanged(_, _)));
    }
}

#[test]
fn apply_of_generated_patch_equals_merge_equals_reference() {
    let origin = TreeValue::Mapping(vec![
        (key("drop"), text("gone")),
        (key("keep"), TreeValue::Sequence(vec![TreeValue::Int(1), TreeValue::Int(2), TreeValue::Int(3)])),
        (key("swap"), TreeValue::Bool(false)),
    ]);
    let reference = TreeValue::Mapping(vec![
        (key("added"), TreeValue::Null),
        (key("keep"), TreeValue::Sequence(vec![TreeValue::Int(1)])),
        (key("swap"), TreeValue::Bool(true)),
    ]);
    let patch = to_patch(&diff(&origin, &reference));
    let applied = apply(&origin, &patch).expect("generated patch applies");
    let merged = merge(&origin, &reference);
    assert!(applied.structural_eq(&merged));
    assert!(applied.structural_eq(&reference));
    assert!(merged.structural_eq(&reference));
}

#[test]
fn failed_apply_leaves_base_unchanged() {
    let base = origin_doc();
    let snapshot = base.deep_clone();
    let patch = vec![
        PatchOp::Replace(vec![seg_key("a")], TreeValue::Int(9)),
        PatchOp::Remove(vec![seg_key("missing")]),
    ];
    let result = apply(&base, &patch);
    assert!(matches!(result, Err(PatchError::PathNotFound)));
    assert!(base.structural_eq(&snapshot));
}

#[test]
fn test_operation_succeeds_iff_value_matches() {
    let base = origin_doc();
    let good = vec![PatchOp::Test(vec![seg_key("a")], TreeValue::Int(1))];
    let out = apply(&base, &good).expect("matching test succeeds");
    assert!(out.structural_eq(&base));
    let bad = vec![PatchOp::Test(vec![seg_key("a")], TreeValue::Int(2))];
    assert!(matches!(apply(&base, &bad), Err(PatchError::TestFailed)));
    let absent = vec![PatchOp::Test(vec![seg_key("zz")], TreeValue::Int(1))];
    assert!(matches!(apply(&base, &absent), Err(PatchError::TestFailed)));
}

#[test]
fn remove_twice_fails_with_path_not_found() {
    let base = TreeValue::Mapping(vec![(key("a"), TreeValue::Int(1))]);
    let patch = vec![PatchOp::Remove(vec![seg_key("a")])];
    let once = apply(&base, &patch).expect("first removal succeeds");
    assert!(once.structural_eq(&TreeValue::Mapping(vec![])));
    assert!(matches!(apply(&once, &patch), Err(PatchError::PathNotFound)));
}

#[test]
fn move_renames_a_key() {
    let base = TreeValue::Mapping(vec![(key("a"), TreeValue::Int(1))]);
    let patch = vec![PatchOp::Move(vec![seg_key("a")], vec![seg_key("b")])];
    let out = apply(&base, &patch).expect("move applies");
    assert!(out.structural_eq(&TreeValue::Mapping(vec![(key("b"), TreeValue::Int(1))])));
}

#[test]
fn copy_duplicates_a_value() {
    let base = TreeValue::Mapping(vec![(key("a"), TreeValue::Int(1))]);
    let patch = vec![PatchOp::Duplicate(vec![seg_key("a")], vec![seg_key("b")])];
    let out = apply(&base, &patch).expect("copy applies");
    assert!(out.structural_eq(&TreeValue::Mapping(vec![
        (key("a"), TreeValue::Int(1)),
        (key("b"), TreeValue::Int(1)),
    ])));
}

#[test]
fn add_into_sequence_shifts_and_appends() {
    let base = TreeValue::Sequence(vec![TreeValue::Int(1), TreeValue::Int(3)]);
    let insert = vec![PatchOp::Add(vec![PathSeg::Index(1)], TreeValue::Int(2))];
    let out = apply(&base, &insert).expect("insert applies");
    assert!(out.structural_eq(&TreeValue::Sequence(vec![
        TreeValue::Int(1),
        TreeValue::Int(2),
        TreeValue::Int(3),
    ])));
    let append = vec![PatchOp::Add(vec![PathSeg::Index(3)], TreeValue::Int(4))];
    let out2 = apply(&out, &append).expect("append applies");
    assert!(out2.structural_eq(&TreeValue::Sequence(vec![
        TreeValue::Int(1),
        TreeValue::Int(2),
        TreeValue::Int(3),
        TreeValue::Int(4),
    ])));
    let too_far = vec![PatchOp::Add(vec![PathSeg::Index(9)], TreeValue::Int(9))];
    assert!(matches!(apply(&out2, &too_far), Err(PatchError::IndexOutOfRange)));
}

#[test]
fn removing_the_whole_document_is_invalid() {
    let base = TreeValue::Int(1);
    let patch = vec![PatchOp::Remove(vec![])];
    assert!(matches!(apply(&base, &patch), Err(PatchError::InvalidPatch)));
}

#[test]
fn add_overwrites_existing_mapping_key_in_place() {
    let base = TreeValue::Mapping(vec![
        (key("a"), TreeValue::Int(1)),
        (key("b"), TreeValue::Int(2)),
    ]);
    let patch = vec![PatchOp::Add(vec![seg_key("a")], TreeValue::Int(7))];
    let out = apply(&base, &patch).expect("overwrite applies");
    assert!(out.structural_eq(&TreeValue::Mapping(vec![
        (key("a"), TreeValue::Int(7)),
        (key("b"), TreeValue::Int(2)),
    ])));
}

#[test]
fn add_keeps_canonical_key_order() {
    let base = TreeValue::Mapping(vec![
        (key("a"), TreeValue::Int(1)),
        (key("c"), TreeValue::Int(3)),
    ]);
    let patch = vec![PatchOp::Add(vec![seg_key("b")], TreeValue::Int(2))];
    let out = apply(&base, &patch).expect("insert applies");
    assert!(out.is_well_formed());
    assert!(out.structural_eq(&TreeValue::Mapping(vec![
        (key("a"), TreeValue::Int(1)),
        (key("b"), TreeValue::Int(2)),
        (key("c"), TreeValue::Int(3)),
    ])));
}

#[test]
fn value_at_addresses_nested_locations() {
    let base = origin_doc();
    let found = value_at(&base, &vec![seg_key("b"), PathSeg::Index(1)]).expect("path exists");
    assert!(found.structural_eq(&TreeValue::Int(2)));
    assert!(value_at(&base, &vec![seg_key("b"), PathSeg::Index(5)]).is_none());
    assert!(value_at(&base, &vec![seg_key("zz")]).is_none());
    let whole = value_at(&base, &vec![]).expect("empty path is the document");
    assert!(whole.structural_eq(&base));
}

#[test]
fn structural_eq_and_well_formedness() {
    let a = origin_doc();
    let b = origin_doc();
    assert!(a.structural_eq(&b));
    assert!(!a.structural_eq(&reference_doc()));
    assert!(a.is_well_formed());
    let unsorted = TreeValue::Mapping(vec![
        (key("b"), TreeValue::Int(1)),
        (key("a"), TreeValue::Int(2)),
    ]);
    assert!(!unsorted.is_well_formed());
    let duplicate = TreeValue::Mapping(vec![
        (key("a"), TreeValue::Int(1)),
        (key("a"), TreeValue::Int(2)),
    ]);
    assert!(!duplicate.is_well_formed());
}

#[test]
fn deep_clone_is_structurally_equal_and_independent() {
    let a = origin_doc();
    let c = a.deep_clone();
    assert!(a.structural_eq(&c));
    drop(a);
    assert!(c.structural_eq(&origin_doc()));
}

#[test]
fn run_dispatches_generate_patch() {
    let config = Config {
        command: Command::GeneratePatch(origin_doc(), reference_doc()),
    };
    match run(&config).expect("generation succeeds") {
        RunOutcome::GeneratedPatch(p) => assert_eq!(p.len(), 2),
        other => panic!("unexpected outcome {:?}", other),
    }
}

#[test]
fn run_dispatches_apply_patch() {
    let patch = generate_patch(&origin_doc(), &reference_doc());
    let config = Config {
        command: Command::ApplyPatch(patch, origin_doc()),
    };
    match run(&config).expect("application succeeds") {
        RunOutcome::PatchedDocument(d) => assert!(d.structural_eq(&reference_doc())),
        other => panic!("unexpected outcome {:?}", other),
    }
}

#[test]
fn replace_and_move_report_missing_paths() {
    let base = origin_doc();
    let replace_missing = vec![PatchOp::Replace(vec![seg_key("zz")], TreeValue::Int(1))];
    assert!(matches!(apply(&base, &replace_missing), Err(PatchError::PathNotFound)));
    let move_missing_source = vec![PatchOp::Move(vec![seg_key("zz")], vec![seg_key("a")])];
    assert!(matches!(apply(&base, &move_missing_source), Err(PatchError::PathNotFound)));
    let move_missing_target_parent = vec![PatchOp::Move(
        vec![seg_key("a")],
        vec![seg_key("no_such"), seg_key("deep")],
    )];
    assert!(matches!(
        apply(&base, &move_missing_target_parent),
        Err(PatchError::PathNotFound)
    ));
}

#[test]
fn nested_mapping_diff_adds_and_removes_keys() {
    let origin = TreeValue::Mapping(vec![(
        key("outer"),
        TreeValue::Mapping(vec![
            (key("gone"), TreeValue::Int(1)),
            (key("same"), TreeValue::Int(2)),
        ]),
    )]);
    let reference = TreeValue::Mapping(vec![(
        key("outer"),
        TreeValue::Mapping(vec![
            (key("new"), TreeValue::Int(3)),
            (key("same"), TreeValue::Int(2)),
        ]),
    )]);
    let events = diff(&origin, &reference);
    let mut removed = 0;
    let mut added = 0;
    let mut unchanged = 0;
    for e in &events {
        match e {
            ChangeEvent::Removed(p, _) => {
                removed += 1;
                assert!(matches!(&p[1], PathSeg::Key(k) if k == "gone"));
            }
            ChangeEvent::Added(p, _) => {
                added += 1;
                assert!(matches!(&p[1], PathSeg::Key(k) if k == "new"));
            }
            ChangeEvent::Unchanged(_, _) => unchanged += 1,
            other => panic!("unexpected event {:?}", other),
        }
    }
    assert_eq!((removed, added, unchanged), (1, 1, 1));
    let out = apply(&origin, &to_patch(&events)).expect("nested patch applies");
    assert!(out.structural_eq(&reference));
}

#[test]
fn sequence_truncation_removes_from_the_tail() {
    let origin = TreeValue::Sequence(vec![
        TreeValue::Int(1),
        TreeValue::Int(2),
        TreeValue::Int(3),
        TreeValue::Int(4),
    ]);
    let reference = TreeValue::Sequence(vec![TreeValue::Int(1)]);
    let patch = to_patch(&diff(&origin, &reference));
    assert_eq!(patch.len(), 3);
    let out = apply(&origin, &patch).expect("truncating patch applies");
    assert!(out.structural_eq(&reference));
}
