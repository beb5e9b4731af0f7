use cwl::config::{default_max_events, default_output, default_region, Config};

#[test]
fn fresh_configuration_defaults() {
    let c = Config::default();
    assert_eq!(c.defaults.region, "us-east-1");
    assert_eq!(c.defaults.output, "colored");
    assert_eq!(c.defaults.max_events, 1000);
    assert!(c.profiles.is_empty());
    assert!(c.aliases.is_empty());
}

#[test]
fn default_values_stand_alone() {
    assert_eq!(default_region(), "us-east-1");
    assert_eq!(default_output(), "colored");
    assert_eq!(default_max_events(), 1000);
}
