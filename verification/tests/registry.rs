//! Registry tests: registration, lookup and removal of styles.

use stylist::parser::Parser;
use stylist::registry::{Style, StyleKey, StyleRegistry};

fn sample_key(prefix: &str) -> StyleKey {
    StyleKey {
        prefix: prefix.to_string(),
        sheet: Parser::parse("color: red;").expect("Failed to Parse Style"),
    }
}

#[test]
fn test_register_and_get() {
    let mut reg = StyleRegistry::new();
    let key = sample_key("stylist");
    let style = Style { key: key.duplicate(), class_name: "stylist-abcd".to_string() };
    reg.register(style);

    let found = reg.get(&key).expect("style was registered");
    assert_eq!(found.get_class_name().as_str(), "stylist-abcd");
    assert!(found.key().same_as(&key));
}

#[test]
fn test_unregister() {
    let mut reg = StyleRegistry::new();
    let key = sample_key("stylist");
    reg.register(Style { key: key.duplicate(), class_name: "stylist-abcd".to_string() });
    assert!(reg.get(&key).is_some());

    reg.unregister(&key);
    assert!(reg.get(&key).is_none());
}

#[test]
fn test_duplicate_style_different_prefix() {
    let mut reg = StyleRegistry::new();
    let key_a = sample_key("element-a");
    let key_b = sample_key("element-b");
    assert!(!key_a.same_as(&key_b));

    reg.register(Style { key: key_a.duplicate(), class_name: "element-a-1".to_string() });
    reg.register(Style { key: key_b.duplicate(), class_name: "element-b-2".to_string() });

    assert_eq!(reg.get(&key_a).unwrap().get_class_name().as_str(), "element-a-1");
    assert_eq!(reg.get(&key_b).unwrap().get_class_name().as_str(), "element-b-2");
}

#[test]
fn test_unregister_unknown_key_is_harmless() {
    let mut reg = StyleRegistry::new();
    let key = sample_key("stylist");
    reg.unregister(&key);
    assert!(reg.get(&key).is_none());
}

#[test]
fn test_keys_compare_structurally() {
    let one = sample_key("stylist");
    let two = StyleKey {
        prefix: "stylist".to_string(),
        sheet: Parser::parse("color: red;").expect("Failed to Parse Style"),
    };
    // Independently parsed but byte-identical text gives an equal key.
    assert!(one.same_as(&two));
}
