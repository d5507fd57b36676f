use quickaccent::config::{
    default_activation_key, default_hold_delay_ms, default_input_time_ms, default_languages,
};
use quickaccent::{ActivationKey, Config};

#[test]
fn defaults() {
    let c = Config::default();
    assert_eq!(c.languages, vec!["French".to_string()]);
    assert_eq!(c.input_time_ms, 200);
    assert_eq!(c.hold_delay_ms, 250);
    assert_eq!(c.activation_key, "Both");
    assert_eq!(c.activation_key_parsed(), ActivationKey::Both);
}

#[test]
fn activation_key_parsing() {
    let mut c = Config::default();
    c.activation_key = "Space".into();
    assert_eq!(c.activation_key_parsed(), ActivationKey::Space);
    c.activation_key = "LeftRightArrow".into();
    assert_eq!(c.activation_key_parsed(), ActivationKey::LeftRightArrow);
    c.activation_key = "Both".into();
    assert_eq!(c.activation_key_parsed(), ActivationKey::Both);
    c.activation_key = "whatever".into();
    assert_eq!(c.activation_key_parsed(), ActivationKey::Both);
}

#[test]
fn default_values_one_by_one() {
    assert_eq!(default_languages(), vec!["French".to_string()]);
    assert_eq!(default_input_time_ms(), 200);
    assert_eq!(default_hold_delay_ms(), 250);
    assert_eq!(default_activation_key(), "Both");
}

#[test]
fn activation_key_names_are_exact() {
    let mut c = Config::default();
    for name in ["space", "Space ", " Space", "LeftRight", "LeftRightArrows", "", "BOTH"] {
        c.activation_key = name.into();
        assert_eq!(c.activation_key_parsed(), ActivationKey::Both, "{name:?}");
    }
}
