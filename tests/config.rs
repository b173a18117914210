use sima::config::{ConfigError, ServiceConfig, SimaConfig};

fn svc(name: &str, cmdline: &str) -> ServiceConfig {
    ServiceConfig { name: name.to_string(), description: None, cmdline: cmdline.to_string() }
}

#[test]
fn distinct_names_are_accepted_in_order() {
    let c = SimaConfig::from_services(vec![svc("a", "sleep 3600"), svc("b", "sleep 3600")]).unwrap();
    assert_eq!(c.services.len(), 2);
    assert_eq!(c.services[0].name, "a");
    assert_eq!(c.services[1].name, "b");
}

#[test]
fn duplicate_name_is_refused() {
    let r = SimaConfig::from_services(vec![svc("a", "x"), svc("b", "y"), svc("a", "z")]);
    assert!(matches!(r, Err(ConfigError::DuplicateName(2))));
}

#[test]
fn empty_name_is_refused() {
    let r = SimaConfig::from_services(vec![svc("a", "x"), svc("", "y")]);
    assert!(matches!(r, Err(ConfigError::EmptyName(1))));
}

#[test]
fn empty_configuration_is_accepted() {
    let c = SimaConfig::from_services(vec![]).unwrap();
    assert!(c.services.is_empty());
}
