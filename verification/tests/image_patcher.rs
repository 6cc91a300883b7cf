use std::collections::HashMap;
use sunburn::image_patcher::substitute;

#[test]
fn substitute_replaces_placeholders() {
    let mut values = HashMap::new();
    values.insert("ssid".into(), "MyNetwork".into());
    values.insert("password".into(), "s3cr3t".into());
    let result = substitute("ssid={{ssid}}\npassword={{password}}", &values);
    assert_eq!(result, "ssid=MyNetwork\npassword=s3cr3t");
}

#[test]
fn substitute_leaves_unknown_placeholders() {
    let values = HashMap::new();
    let result = substitute("key={{unknown}}", &values);
    assert_eq!(result, "key={{unknown}}");
}
