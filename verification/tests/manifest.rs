use std::collections::HashMap;
use sunburn::manifest::substitute;

#[test]
fn template_substitution_all_tokens_replaced() {
    let mut values = HashMap::new();
    values.insert("ssid".into(), "HomeNet".into());
    values.insert("password".into(), "hunter2".into());
    values.insert("country".into(), "DE".into());

    let template = "ssid={{ssid}}\npassword={{password}}\ncountry={{country}}";
    let result = substitute(template, &values);
    assert_eq!(result, "ssid=HomeNet\npassword=hunter2\ncountry=DE");
}

#[test]
fn template_substitution_unknown_tokens_left_intact() {
    let values: HashMap<String, String> = HashMap::new();
    let result = substitute("key={{missing}}", &values);
    assert_eq!(result, "key={{missing}}");
}

#[test]
fn template_substitution_partial_replacement() {
    let mut values = HashMap::new();
    values.insert("known".into(), "VALUE".into());
    let result = substitute("{{known}} and {{unknown}}", &values);
    assert_eq!(result, "VALUE and {{unknown}}");
}

#[test]
fn substitution_is_a_single_pass() {
    let mut values = HashMap::new();
    values.insert("a".to_string(), "{{b}}".to_string());
    values.insert("b".to_string(), "X".to_string());
    assert_eq!(substitute("{{a}}", &values), "{{b}}");
    assert_eq!(substitute("{{b}}{{a}}", &values), "X{{b}}");
}

#[test]
fn substitution_of_nested_braces() {
    let mut values = HashMap::new();
    values.insert("k".to_string(), "v".to_string());
    assert_eq!(substitute("{{{k}}}", &values), "{v}");
    assert_eq!(substitute("{{a {{k}}", &values), "{{a v");
    assert_eq!(substitute("{{k}", &values), "{{k}");
    assert_eq!(substitute("", &values), "");
}
