use kubious::{AppState, KubeConfig, RegistryError};

fn profile(url: &str, ns: &str, auth: &str, timeout: Option<u64>) -> KubeConfig {
    KubeConfig::new(
        String::from(url),
        String::from(ns),
        String::from(auth),
        timeout,
    )
}

fn sorted_entries(state: &AppState) -> Vec<(String, KubeConfig)> {
    let mut v = state.get_configs();
    v.sort_by(|a, b| a.0.cmp(&b.0));
    v
}

#[test]
fn empty_registry_round_trips() {
    let state = AppState::new();
    let text = state.to_snapshot().unwrap();
    let back = AppState::from_snapshot(text.as_str()).unwrap();
    assert!(back.get_configs().is_empty());
    assert!(back.get_current_config().is_none());
}

#[test]
fn full_registry_round_trips() {
    let mut state = AppState::new();
    state.put_compat_config("alpha", profile("https://a.example:6443", "team-a", "token-a", None));
    state.put_compat_config("beta", profile("https://b.example", "", "cert: data", Some(25)));
    state.put_compat_config("gamma", profile("", "ns", "", Some(0)));
    state.set_current_config(Some(String::from("beta"))).unwrap();
    let text = state.to_snapshot().unwrap();
    let back = AppState::from_snapshot(text.as_str()).unwrap();
    assert_eq!(sorted_entries(&back), sorted_entries(&state));
    let (name, p) = back.get_current_config().unwrap();
    assert_eq!(name, "beta");
    assert_eq!(p, state.select_config("beta").unwrap());
}

#[test]
fn awkward_names_round_trip() {
    // names and fields that collide with the snapshot's own punctuation
    let mut state = AppState::new();
    state.put_compat_config("3:4;x", profile("http://[::1]:8080", "n;s", "7:", Some(10)));
    state.put_compat_config("", profile("u", "v", "w", None));
    state.put_compat_config("snö", profile("https://ü.example", "ns", "mötley", None));
    let text = state.to_snapshot().unwrap();
    let back = AppState::from_snapshot(text.as_str()).unwrap();
    assert_eq!(sorted_entries(&back), sorted_entries(&state));
    assert!(back.get_current_config().is_none());
}

#[test]
fn snapshot_is_the_expected_text() {
    let mut state = AppState::new();
    state.put_compat_config("a", profile("url", "ns", "tk", Some(9)));
    state.set_current_config(Some(String::from("a"))).unwrap();
    let text = state.to_snapshot().unwrap();
    assert_eq!(text, "s1:a1;1:a3:url2:ns2:tks9;");
}

#[test]
fn snapshot_without_selection_is_the_expected_text() {
    let mut state = AppState::new();
    state.put_compat_config("a", profile("url", "ns", "tk", None));
    let text = state.to_snapshot().unwrap();
    assert_eq!(text, "n1;1:a3:url2:ns2:tkn");
}

#[test]
fn garbage_is_malformed() {
    for bad in [
        "",
        "x",
        "s",
        "n",
        "n1;",
        "n0",
        "n00;",
        "n1;1:a3:url2:ns2:tk",
        "n1;1:a3:url2:ns2:tksn",
        "n0;trailing",
        "n01;",
        "s1:a0;extra",
    ] {
        assert_eq!(
            AppState::from_snapshot(bad),
            Err(RegistryError::MalformedSnapshot),
            "accepted: {bad}"
        );
    }
}

#[test]
fn duplicate_names_are_malformed() {
    // two entries under one name cannot come from a registry
    let text = "n2;1:a1:u1:n1:tn1:a1:v1:m1:sn";
    assert_eq!(
        AppState::from_snapshot(text),
        Err(RegistryError::MalformedSnapshot)
    );
}

#[test]
fn non_canonical_length_is_malformed() {
    // same record as a valid one, but a length written with a leading zero
    assert!(AppState::from_snapshot("n1;01:a3:url2:ns2:tkn").is_err());
}

#[test]
fn dangling_selection_survives_a_snapshot() {
    // a snapshot taken while the selection dangles restores it as written,
    // and the accessor still reports no selection
    let state = AppState {
        configs: Vec::new(),
        current_config: Some(String::from("ghost")),
    };
    let text = state.to_snapshot().unwrap();
    assert_eq!(text, "s5:ghost0;");
    let back = AppState::from_snapshot(text.as_str()).unwrap();
    assert!(back.get_current_config().is_none());
    assert_eq!(back.current_config, Some(String::from("ghost")));
}

#[test]
fn selection_state_round_trips_through_operations() {
    let mut state = AppState::new();
    state.put_compat_config("a", profile("u", "n", "t", None));
    state.set_current_config(Some(String::from("a"))).unwrap();
    let text = state.to_snapshot().unwrap();
    let mut back = AppState::from_snapshot(text.as_str()).unwrap();
    // the restored registry behaves like the original
    assert_eq!(back.get_current_config().unwrap().0, "a");
    back.remove_config("a");
    assert!(back.get_current_config().is_none());
}

#[test]
fn snapshot_restores_in_one_call() {
    let mut state = AppState::new();
    state.put_compat_config("a", profile("https://a.example", "ns-a", "token", Some(4)));
    state.put_compat_config("b", profile("https://b.example", "ns-b", "", None));
    state.set_current_config(Some(String::from("b"))).unwrap();
    let back = state.snapshot_restores();
    assert_eq!(back, state);
}
