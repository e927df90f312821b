use kubious::{AppState, KubeConfig, RegistryError};

fn profile(url: &str, ns: &str, auth: &str, timeout: Option<u64>) -> KubeConfig {
    KubeConfig::new(
        String::from(url),
        String::from(ns),
        String::from(auth),
        timeout,
    )
}

#[test]
fn empty_registry_has_nothing() {
    let state = AppState::new();
    assert!(state.get_configs().is_empty());
    assert!(state.get_current_config().is_none());
    assert!(state.select_config("anything").is_none());
}

#[test]
fn put_stores_and_returns_the_profile() {
    let mut state = AppState::new();
    let p = profile("https://one.example:6443", "team-a", "token-a", None);
    let stored = state.put_compat_config("one", p.clone());
    assert_eq!(stored, p);
    assert_eq!(state.select_config("one"), Some(p));
}

#[test]
fn put_twice_keeps_one_entry_with_last_value() {
    let mut state = AppState::new();
    let first = profile("https://a.example", "ns1", "t1", None);
    let second = profile("https://b.example", "ns2", "t2", Some(3));
    state.put_compat_config("dup", first);
    state.put_compat_config("dup", second.clone());
    let listing = state.get_configs();
    assert_eq!(listing.len(), 1);
    assert_eq!(listing[0].0, "dup");
    assert_eq!(listing[0].1, second);
}

#[test]
fn listing_has_one_entry_per_distinct_name() {
    let mut state = AppState::new();
    let names = ["a", "b", "c", "a", "b", "a"];
    for (i, name) in names.iter().enumerate() {
        state.put_compat_config(name, profile("https://x.example", "ns", "t", Some(i as u64)));
    }
    let mut listed: Vec<String> = state.get_configs().into_iter().map(|e| e.0).collect();
    listed.sort();
    assert_eq!(listed, vec!["a".to_string(), "b".to_string(), "c".to_string()]);
    // the value under "a" is from the most recent put for "a"
    let under_a = state.select_config("a").unwrap();
    assert_eq!(under_a.connect_timeout, Some(5));
}

#[test]
fn mutating_a_returned_profile_leaves_the_stored_copy() {
    let mut state = AppState::new();
    state.put_compat_config("one", profile("https://one.example", "ns", "t", None));
    let mut taken = state.select_config("one").unwrap();
    taken.default_namespace = String::from("changed");
    assert_eq!(
        state.select_config("one").unwrap().default_namespace,
        "ns".to_string()
    );
}

#[test]
fn select_missing_name_fails_and_changes_nothing() {
    let mut state = AppState::new();
    let r = state.set_current_config(Some(String::from("missing")));
    assert_eq!(r, Err(RegistryError::UnknownProfile));
    assert!(state.get_current_config().is_none());
}

#[test]
fn select_existing_name_returns_its_profile() {
    let mut state = AppState::new();
    let p = profile("https://one.example", "ns", "t", Some(7));
    state.put_compat_config("one", p.clone());
    let r = state.set_current_config(Some(String::from("one")));
    assert_eq!(r, Ok(Some(p.clone())));
    let (name, got) = state.get_current_config().unwrap();
    assert_eq!(name, "one");
    assert_eq!(got, p);
}

#[test]
fn select_none_always_clears() {
    let mut state = AppState::new();
    state.put_compat_config("one", profile("https://one.example", "ns", "t", None));
    state.set_current_config(Some(String::from("one"))).unwrap();
    let r = state.set_current_config(None);
    assert_eq!(r, Ok(None));
    assert!(state.get_current_config().is_none());
    // clearing an already clear selection also succeeds
    assert_eq!(state.set_current_config(None), Ok(None));
    assert!(state.get_current_config().is_none());
}

#[test]
fn remove_clears_a_matching_selection() {
    let mut state = AppState::new();
    state.put_compat_config("one", profile("https://one.example", "ns", "t", None));
    state.set_current_config(Some(String::from("one"))).unwrap();
    state.remove_config("one");
    assert!(state.get_current_config().is_none());
    assert!(state.select_config("one").is_none());
}

#[test]
fn remove_twice_changes_nothing_more() {
    let mut state = AppState::new();
    state.put_compat_config("keep", profile("https://keep.example", "ns", "t", None));
    state.put_compat_config("gone", profile("https://gone.example", "ns", "t", None));
    state.remove_config("gone");
    let after_first = state.get_configs();
    let current_first = state.get_current_config();
    state.remove_config("gone");
    assert_eq!(state.get_configs(), after_first);
    assert_eq!(state.get_current_config(), current_first);
}

#[test]
fn remove_of_absent_name_is_quiet() {
    let mut state = AppState::new();
    state.remove_config("never-there");
    assert!(state.get_configs().is_empty());
}

#[test]
fn selection_always_resolves() {
    // whenever the accessor reports a selection, a lookup of that name works
    let mut state = AppState::new();
    state.put_compat_config("a", profile("https://a.example", "ns", "t", None));
    state.put_compat_config("b", profile("https://b.example", "ns", "t", None));
    state.set_current_config(Some(String::from("a"))).unwrap();
    state.remove_config("a");
    if let Some((name, _)) = state.get_current_config() {
        assert!(state.select_config(name.as_str()).is_some());
    }
    assert!(state.get_current_config().is_none());
}

#[test]
fn put_put_select_remove_end_to_end() {
    let mut state = AppState::new();
    let p1 = profile("https://a.example", "ns-a", "token-a", None);
    let p2 = profile("https://b.example", "ns-b", "token-b", Some(30));
    state.put_compat_config("a", p1.clone());
    state.put_compat_config("b", p2.clone());
    assert_eq!(
        state.set_current_config(Some(String::from("a"))),
        Ok(Some(p1))
    );
    state.remove_config("a");
    assert!(state.get_current_config().is_none());
    let listing = state.get_configs();
    assert_eq!(listing.len(), 1);
    assert_eq!(listing[0].0, "b");
    assert_eq!(listing[0].1, p2);
}
