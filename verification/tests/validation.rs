use sunburn::manifest::{
    check_decoded, validate, Field, FieldType, Manifest, ManifestError, SelectOption, ShowWhen, Step,
    WriteRule,
};

fn field(id: &str, field_type: FieldType) -> Field {
    Field {
        id: id.to_string(),
        label: "L".to_string(),
        field_type,
        required: false,
        default: None,
        show_when: None,
        options: None,
    }
}

fn step(id: &str, fields: Vec<Field>, writes: Vec<WriteRule>) -> Step {
    Step { id: id.to_string(), title: "T".to_string(), fields, writes }
}

fn manifest(version: &str, name: &str, steps: Vec<Step>) -> Manifest {
    Manifest { version: version.to_string(), name: name.to_string(), description: None, steps }
}

fn validation_message(m: &Manifest) -> String {
    match validate(m) {
        Err(ManifestError::Validation(msg)) => msg,
        other => panic!("expected a validation error, got {:?}", other),
    }
}

fn solar_monitor() -> Manifest {
    let mut country = field("country", FieldType::CountryPicker);
    country.default = Some("US".to_string());
    let mut ssid = field("ssid", FieldType::WifiPicker);
    ssid.required = true;
    let mut password = field("password", FieldType::Password);
    password.required = true;
    Manifest {
        version: "1".to_string(),
        name: "Solar Monitor".to_string(),
        description: Some("Home solar monitoring stack".to_string()),
        steps: vec![step(
            "network",
            vec![ssid, password, country],
            vec![WriteRule {
                path: "wifi.txt".to_string(),
                template: "ssid={{ssid}}\npassword={{password}}\ncountry={{country}}".to_string(),
            }],
        )],
    }
}

#[test]
fn validate_accepts_the_sample_manifest() {
    assert!(validate(&solar_monitor()).is_ok());
}

#[test]
fn validate_rejects_other_versions_with_message() {
    for v in ["0", "2", "99", "1.0", ""] {
        let m = manifest(v, "T", vec![step("s", vec![], vec![])]);
        assert_eq!(validation_message(&m), format!("unsupported manifest version: {}", v));
    }
}

#[test]
fn validate_rejects_empty_name() {
    let m = manifest("1", "", vec![]);
    assert_eq!(validation_message(&m), "manifest name must not be empty");
}

#[test]
fn validate_version_checked_before_name() {
    let m = manifest("2", "", vec![]);
    assert_eq!(validation_message(&m), "unsupported manifest version: 2");
}

#[test]
fn validate_rejects_empty_step_id() {
    let m = manifest("1", "Test", vec![step("", vec![], vec![])]);
    let err = validate(&m).unwrap_err();
    assert!(err.to_string().contains("step id"));
    assert_eq!(err.to_string(), "validation error: step id must not be empty");
}

#[test]
fn validate_rejects_empty_field_id() {
    let m = manifest("1", "Test", vec![step("s1", vec![field("", FieldType::Text)], vec![])]);
    assert_eq!(validation_message(&m), "field in step 's1' has an empty id");
    assert!(validate(&m).unwrap_err().to_string().contains("empty id"));
}

#[test]
fn validate_rejects_select_without_options() {
    let m = manifest("1", "Test", vec![step("s1", vec![field("f1", FieldType::Select)], vec![])]);
    assert_eq!(validation_message(&m), "field 'f1' has type 'select' but no options");
}

#[test]
fn validate_accepts_select_with_options() {
    let mut f = field("f1", FieldType::Select);
    f.options = Some(vec![SelectOption { value: "x".to_string(), label: "X".to_string() }]);
    let m = manifest("1", "Test", vec![step("s1", vec![f], vec![])]);
    assert!(validate(&m).is_ok());
}

#[test]
fn validate_accepts_select_with_empty_option_list() {
    let mut f = field("f1", FieldType::Select);
    f.options = Some(vec![]);
    let m = manifest("1", "Test", vec![step("s1", vec![f], vec![])]);
    assert!(validate(&m).is_ok());
}

#[test]
fn validate_rejects_show_when_unknown_field() {
    let mut f = field("f1", FieldType::Toggle);
    f.show_when = Some(ShowWhen { field: "nonexistent".to_string(), value: "true".to_string() });
    let m = manifest("1", "Test", vec![step("s1", vec![f], vec![])]);
    assert_eq!(
        validation_message(&m),
        "field 'f1' show_when references unknown field 'nonexistent'"
    );
}

#[test]
fn validate_accepts_show_when_in_same_step() {
    let mut dep = field("dep", FieldType::Text);
    dep.show_when = Some(ShowWhen { field: "toggle1".to_string(), value: "true".to_string() });
    let m = manifest("1", "Test", vec![step("s1", vec![field("toggle1", FieldType::Toggle), dep], vec![])]);
    assert!(validate(&m).is_ok());
}

#[test]
fn validate_accepts_show_when_across_steps_both_ways() {
    let mut dep = field("dep", FieldType::Text);
    dep.show_when = Some(ShowWhen { field: "flag".to_string(), value: "true".to_string() });
    let forward = manifest(
        "1",
        "Multi",
        vec![step("step_a", vec![field("flag", FieldType::Toggle)], vec![]), step("step_b", vec![dep.clone()], vec![])],
    );
    assert!(validate(&forward).is_ok());
    let backward = manifest(
        "1",
        "Multi",
        vec![step("step_b", vec![dep], vec![]), step("step_a", vec![field("flag", FieldType::Toggle)], vec![])],
    );
    assert!(validate(&backward).is_ok());
}

#[test]
fn validate_rejects_write_rule_with_empty_path() {
    let rule = WriteRule { path: String::new(), template: "x".to_string() };
    let m = manifest("1", "Test", vec![step("s1", vec![], vec![rule])]);
    assert_eq!(validation_message(&m), "write rule in step 's1' has an empty path");
}

#[test]
fn validate_reports_fields_before_writes_and_steps_in_order() {
    let rule = WriteRule { path: String::new(), template: "x".to_string() };
    let m = manifest(
        "1",
        "Test",
        vec![
            step("a", vec![field("f", FieldType::Select)], vec![rule]),
            step("", vec![], vec![]),
        ],
    );
    assert_eq!(validation_message(&m), "field 'f' has type 'select' but no options");
}

#[test]
fn validate_accepts_every_field_type() {
    let mut select = field("f_select", FieldType::Select);
    select.options = Some(vec![
        SelectOption { value: "a".to_string(), label: "A".to_string() },
        SelectOption { value: "b".to_string(), label: "B".to_string() },
    ]);
    let fields = vec![
        field("f_text", FieldType::Text),
        field("f_pass", FieldType::Password),
        field("f_wifi", FieldType::WifiPicker),
        field("f_ssh", FieldType::SshKeyPicker),
        field("f_country", FieldType::CountryPicker),
        field("f_tz", FieldType::TimezonePicker),
        field("f_toggle", FieldType::Toggle),
        select,
    ];
    let m = manifest("1", "All Fields", vec![step("step1", fields, vec![])]);
    assert!(validate(&m).is_ok());
}

#[test]
fn check_decoded_passes_parse_errors_through() {
    let r = check_decoded(Err("expected value at line 1 column 1".to_string()));
    match r {
        Err(e) => assert_eq!(e.to_string(), "JSON parse error: expected value at line 1 column 1"),
        Ok(_) => panic!("expected an error"),
    }
}

#[test]
fn check_decoded_returns_valid_manifest() {
    let m = check_decoded(Ok(solar_monitor())).unwrap();
    assert_eq!(m.name, "Solar Monitor");
    assert_eq!(m.steps.len(), 1);
    assert_eq!(m.steps[0].fields.len(), 3);
    assert_eq!(m.steps[0].fields[0].field_type, FieldType::WifiPicker);
}

#[test]
fn check_decoded_validates() {
    let r = check_decoded(Ok(manifest("99", "T", vec![])));
    match r {
        Err(ManifestError::Validation(m)) => assert_eq!(m, "unsupported manifest version: 99"),
        _ => panic!("expected a validation error"),
    }
}

#[test]
fn validate_rejects_duplicate_field_id_in_a_step() {
    let m = manifest("1", "T", vec![step("s1", vec![field("a", FieldType::Text), field("a", FieldType::Text)], vec![])]);
    assert!(validate(&m).is_err());
    assert_eq!(validation_message(&m), "duplicate field id 'a'");
}

#[test]
fn validate_rejects_duplicate_field_id_across_steps() {
    let m = manifest(
        "1",
        "T",
        vec![step("s1", vec![field("a", FieldType::Text)], vec![]), step("s2", vec![field("a", FieldType::Toggle)], vec![])],
    );
    assert_eq!(validation_message(&m), "duplicate field id 'a'");
}

#[test]
fn validate_rejects_duplicate_step_id() {
    let m = manifest("1", "T", vec![step("s1", vec![field("a", FieldType::Text)], vec![]), step("s1", vec![], vec![])]);
    assert_eq!(validation_message(&m), "duplicate step id 's1'");
}

#[test]
fn validate_duplicate_field_reported_before_select_rule() {
    let m = manifest("1", "T", vec![step("s1", vec![field("a", FieldType::Text), field("a", FieldType::Select)], vec![])]);
    assert_eq!(validation_message(&m), "duplicate field id 'a'");
}
