use dy::dyspec::{KeySpec, ValidDYSpec, ValueType};

fn key(id: &str, vt: ValueType, once: bool, required: bool, subkeys: Vec<KeySpec>) -> KeySpec {
    KeySpec { id: id.to_string(), desc: "test".to_string(), subkeys, vt, once, required }
}

fn goal_spec() -> KeySpec {
    key("goal", ValueType::Multiline, true, true, vec![])
}

fn code_spec() -> KeySpec {
    key("code", ValueType::SingleLine, true, true, vec![])
}

fn course_spec() -> KeySpec {
    key("course", ValueType::SingleLine, true, true, vec![code_spec(), goal_spec()])
}

fn testing_course_spec() -> Vec<KeySpec> {
    vec![course_spec()]
}

#[test]
fn test_can_validate_valid_spec() {
    let r = ValidDYSpec::new(testing_course_spec());
    assert!(r.is_ok());
    assert_eq!(r.unwrap().get(), &testing_course_spec());
}

#[test]
fn spec_test_can_validate_valid_spec() {
    let r = ValidDYSpec::new(testing_course_spec());
    assert!(r.is_ok());
    assert_eq!(r.unwrap().get(), &testing_course_spec());
}

#[test]
fn test_empty_spec_is_invalid() {
    assert!(ValidDYSpec::new(vec![]).unwrap_err().contains("empty"));
}

#[test]
fn spec_test_empty_spec_is_invalid() {
    assert!(ValidDYSpec::new(vec![]).unwrap_err().contains("empty"));
}

#[test]
fn test_spec_with_duplicated_key_at_root() {
    assert!(
        ValidDYSpec::new(vec![code_spec(), goal_spec(), code_spec()])
            .unwrap_err()
            .contains("Duplicated key identifier 'code'")
    );
}

#[test]
fn spec_test_spec_with_duplicated_key_at_root() {
    assert!(
        ValidDYSpec::new(vec![code_spec(), goal_spec(), code_spec()])
            .unwrap_err()
            .contains("Duplicated key identifier 'code'")
    );
}

#[test]
fn test_spec_with_duplicated_key_deeply() {
    assert!(
        ValidDYSpec::new(vec![
            goal_spec(),
            key(
                "course",
                ValueType::SingleLine,
                true,
                true,
                vec![code_spec(), goal_spec()],
            ),
        ])
        .unwrap_err()
        .contains("Duplicated key identifier 'goal'")
    );
}

#[test]
fn spec_test_spec_with_duplicated_key_deeply() {
    assert!(
        ValidDYSpec::new(vec![
            goal_spec(),
            key(
                "course",
                ValueType::SingleLine,
                true,
                true,
                vec![code_spec(), goal_spec()],
            ),
        ])
        .unwrap_err()
        .contains("Duplicated key identifier 'goal'")
    );
}

#[test]
fn test_exact_error_messages_of_validation() {
    assert_eq!(
        ValidDYSpec::new(vec![]).unwrap_err(),
        "The spec cannot be empty".to_string()
    );
    assert_eq!(
        ValidDYSpec::new(vec![code_spec(), code_spec()]).unwrap_err(),
        "Duplicated key identifier 'code'".to_string()
    );
}

#[test]
fn test_first_duplicate_is_reported() {
    // both "code" and "goal" repeat; the traversal finds "code" first
    assert_eq!(
        ValidDYSpec::new(vec![code_spec(), goal_spec(), code_spec(), goal_spec()]).unwrap_err(),
        "Duplicated key identifier 'code'".to_string()
    );
}

#[test]
fn test_is_entity_distinguishes_leaves() {
    assert!(course_spec().is_entity());
    assert!(!code_spec().is_entity());
}

#[test]
fn test_all_valid_keys_flattens_the_tree() {
    let all = dy::dyspec::all_valid_keys(&testing_course_spec());
    let ids: Vec<&str> = all.iter().map(|k| k.id.as_str()).collect();
    assert_eq!(ids, vec!["course", "code", "goal"]);
}
