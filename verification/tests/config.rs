use koyashi::config::KoyashiConfig;
use koyashi::model::Classification;

#[test]
fn empty_config_suppresses_nothing() {
    let config = KoyashiConfig::default();
    assert!(!config.is_suppressed("Any::field", Classification::Unused));
}

#[test]
fn inserted_suppressions_match_their_field_and_class() {
    let mut config = KoyashiConfig::new();
    config.insert(
        "Telemetry::trace_id".to_string(),
        vec![Classification::DeriveOnly],
    );
    assert!(config.is_suppressed("Telemetry::trace_id", Classification::DeriveOnly));
    // Other classifications and other fields are not suppressed.
    assert!(!config.is_suppressed("Telemetry::trace_id", Classification::Unused));
    assert!(!config.is_suppressed("Other::field", Classification::DeriveOnly));
}

#[test]
fn a_later_entry_replaces_an_earlier_one() {
    let mut config = KoyashiConfig::new();
    config.insert("Cache::stale_entry".to_string(), vec![Classification::Unused]);
    config.insert("Dangling::orphan".to_string(), vec![Classification::Unused]);
    config.insert(
        "Cache::stale_entry".to_string(),
        vec![Classification::WriteOnly, Classification::ReadOnly],
    );
    assert!(config.is_suppressed("Cache::stale_entry", Classification::WriteOnly));
    assert!(config.is_suppressed("Cache::stale_entry", Classification::ReadOnly));
    assert!(!config.is_suppressed("Cache::stale_entry", Classification::Unused));
    assert!(config.is_suppressed("Dangling::orphan", Classification::Unused));
}
