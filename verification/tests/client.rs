use kubious::{AppState, KubeConfig};

#[test]
fn client_config_needs_a_selection() {
    let state = AppState::new();
    assert!(state.client_config().is_none());
}

#[test]
fn client_config_for_needs_the_name() {
    let mut state = AppState::new();
    state.put_compat_config(
        "one",
        KubeConfig::new(
            String::from("http://localhost:8080"),
            String::from("default"),
            String::new(),
            None,
        ),
    );
    assert!(state.client_config_for("other").is_none());
}

#[test]
fn client_config_applies_the_timeout_policy() {
    let mut state = AppState::new();
    state.put_compat_config(
        "one",
        KubeConfig::new(
            String::from("http://localhost:8080"),
            String::from("team"),
            String::new(),
            Some(99),
        ),
    );
    state.set_current_config(Some(String::from("one"))).unwrap();
    let config = state.client_config().unwrap();
    assert_eq!(config.connect_timeout, Some(std::time::Duration::from_secs(10)));
    assert_eq!(config.default_namespace, "team");
}

#[test]
fn unparsable_endpoint_yields_no_client_config() {
    let mut state = AppState::new();
    state.put_compat_config(
        "broken",
        KubeConfig::new(
            String::from("not a uri at all \u{7}"),
            String::from("ns"),
            String::new(),
            None,
        ),
    );
    assert!(state.client_config_for("broken").is_none());
}

#[test]
fn stale_auth_falls_back_to_the_empty_section() {
    let mut state = AppState::new();
    state.put_compat_config(
        "stale",
        KubeConfig::new(
            String::from("https://cluster.example:6443"),
            String::from("ns"),
            String::from("this is not an auth section"),
            None,
        ),
    );
    let config = state.client_config_for("stale").unwrap();
    assert!(config.auth_info.token.is_none());
}

#[test]
fn put_config_reads_the_external_configuration() {
    let mut state = AppState::new();
    let external = kube::Config::new("http://localhost:8080".parse().unwrap());
    let stored = state.put_config("local", external);
    // kube::Config::new fills in the namespace and a connect timeout
    assert_eq!(stored.default_namespace, "default");
    assert!(stored.cluster_url.contains("localhost:8080"));
    assert!(stored.connect_timeout.is_some());
    assert_eq!(state.select_config("local"), Some(stored));
}

#[test]
fn put_config_round_trips_the_auth_section() {
    let mut state = AppState::new();
    let mut external = kube::Config::new("https://cluster.example:6443".parse().unwrap());
    external.auth_info.username = Some(String::from("admin"));
    state.put_config("c", external);
    let prepared = state.client_config_for("c").unwrap();
    assert_eq!(prepared.auth_info.username, Some(String::from("admin")));
}

#[test]
fn kubeconfig_outcome_maps_a_failed_conversion() {
    let mut state = AppState::new();
    let r = state.put_kubeconfig_outcome("k", None);
    assert_eq!(r, Err(kubious::RegistryError::KubeconfigParseError));
    assert!(state.get_configs().is_empty());
}

#[test]
fn kubeconfig_outcome_stores_a_converted_configuration() {
    let mut state = AppState::new();
    let converted = kube::Config::new("https://cluster.example:6443".parse().unwrap());
    let r = state.put_kubeconfig_outcome("k", Some(converted));
    assert!(r.is_ok());
    assert!(state.select_config("k").is_some());
}

#[test]
fn register_default_outcome_uses_the_reserved_name() {
    let mut state = AppState::new();
    assert!(state.register_default_outcome(None).is_none());
    assert!(state.get_configs().is_empty());
    let inferred = kube::Config::new("https://ambient.example".parse().unwrap());
    let stored = state.register_default_outcome(Some(inferred));
    assert!(stored.is_some());
    assert!(state.select_config("default").is_some());
}
