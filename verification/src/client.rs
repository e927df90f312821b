use vstd::prelude::*;
use crate::profile::{KubeConfig, ProfileView};
use crate::registry::{put_t, spec_current, spec_lookup, AppState};
use crate::RegistryError;

verus! {

/// The connect-timeout policy applied to every derived client, in seconds:
/// every client gets a bounded connection phase, whatever the stored
/// profile specifies.
pub const CONNECT_TIMEOUT_SECS: u64 = 10;

/// Declares kube's configuration type so that values of it can be carried
/// through signatures; what is inside stays opaque here.
#[verifier::external_type_specification]
#[verifier::external_body]
pub struct ExConfig(kube::Config);

/// Declares kube's authentication section, carried opaquely between the
/// parse and the configuration it is built into.
#[verifier::external_type_specification]
#[verifier::external_body]
pub struct ExAuthInfo(kube::config::AuthInfo);

/// Relies on kube's public `Config` fields: reads the endpoint, the
/// default namespace and the connect timeout out of an externally built
/// configuration. Nothing is assumed of the values that come back.
#[verifier::external_body]
fn connection_facts_of(c: &kube::Config) -> (r: (String, String, Option<u64>)) {
    let timeout = match c.connect_timeout {
        Some(d) => Some(d.as_secs()),
        None => None,
    };
    (c.cluster_url.to_string(), c.default_namespace.clone(), timeout)
}

/// Relies on `serde_json::to_string` on the configuration's authentication
/// section, which is opaque to this registry; a failed serialization comes
/// back as nothing.
#[verifier::external_body]
fn auth_of_config(c: &kube::Config) -> (r: Option<String>) {
    match serde_json::to_string(&c.auth_info) {
        Ok(a) => Some(a),
        Err(_) => None,
    }
}

/// Relies on `serde_json::from_str`: reads an authentication section back
/// from its stored string; a string that does not parse comes back as
/// nothing.
#[verifier::external_body]
fn parse_auth(s: &str) -> (r: Option<kube::config::AuthInfo>) {
    match serde_json::from_str(s) {
        Ok(a) => Some(a),
        Err(_) => None,
    }
}

/// Relies on `AuthInfo::default`: the empty authentication section.
#[verifier::external_body]
fn default_auth() -> (r: kube::config::AuthInfo) {
    kube::config::AuthInfo::default()
}

// Whether kube's endpoint parser accepts a string as a URI: the outcome of
// `str::parse::<http::Uri>`, which depends on the characters alone.
pub uninterp spec fn uri_parses(s: Seq<char>) -> bool;

/// Relies on `kube::Config::new` and the public `Config` fields: builds a
/// configuration from plain values and the given authentication section.
/// Only the endpoint parse can fail, so the build succeeds exactly when
/// the endpoint parses; `uri_parses` names that outcome.
#[verifier::external_body]
fn build_config(
    url: &str,
    ns: &str,
    timeout: Option<u64>,
    auth: kube::config::AuthInfo,
) -> (r: Option<kube::Config>)
    ensures
        r is Some <==> uri_parses(url@),
{
    let uri = match url.parse() {
        Ok(u) => u,
        Err(_) => return None,
    };
    let mut c = kube::Config::new(uri);
    c.default_namespace = ns.to_string();
    c.auth_info = auth;
    c.connect_timeout = match timeout {
        Some(t) => Some(std::time::Duration::from_secs(t)),
        None => None,
    };
    Some(c)
}

/// A copy of the profile with the fixed connect-timeout policy applied,
/// overriding any stored override.
pub fn with_connect_timeout(p: &KubeConfig) -> (r: KubeConfig)
    ensures
        r@ == (ProfileView {
            cluster_url: p@.cluster_url,
            default_namespace: p@.default_namespace,
            auth: p@.auth,
            connect_timeout: Some(CONNECT_TIMEOUT_SECS),
        }),
{
    let mut q = p.clone();
    q.connect_timeout = Some(CONNECT_TIMEOUT_SECS);
    q
}

/// The configuration a client is built from, for one profile: the profile
/// under the fixed connect-timeout policy. A stored authentication string
/// that no longer parses falls back to the empty section, so a stale
/// credential blob never blocks the derivation; the derivation succeeds
/// exactly when the endpoint parses.
fn prepared_config(p: &KubeConfig) -> (r: Option<kube::Config>)
    ensures
        r is Some <==> uri_parses(p@.cluster_url),
{
    let q = with_connect_timeout(p);
    let auth = match parse_auth(q.auth.as_str()) {
        Some(a) => a,
        None => default_auth(),
    };
    build_config(
        q.cluster_url.as_str(),
        q.default_namespace.as_str(),
        q.connect_timeout,
        auth,
    )
}

impl AppState {
    /// Stores the profile read out of an externally built kube
    /// configuration under `key`, inserting or overwriting unconditionally;
    /// the selection is untouched. Returns the value stored. An
    /// authentication section that cannot be rendered is stored as the
    /// empty string rather than refused: registration never validates.
    pub fn put_config(&mut self, key: &str, config: kube::Config) -> (r: KubeConfig)
        requires
            old(self).wf(),
        ensures
            final(self).wf(),
            final(self)@ == put_t(old(self)@, key@, r@),
    {
        let (cluster_url, default_namespace, connect_timeout) = connection_facts_of(&config);
        let auth = match auth_of_config(&config) {
            Some(a) => a,
            None => String::new(),
        };
        let converted = KubeConfig::new(cluster_url, default_namespace, auth, connect_timeout);
        self.put_compat_config(key, converted)
    }

    /// Completes a kubeconfig registration from the outcome of the external
    /// document conversion: a converted configuration is stored under
    /// `key`; a failed conversion leaves the registry unchanged and is
    /// reported as `KubeconfigParseError`.
    pub fn put_kubeconfig_outcome(&mut self, key: &str, converted: Option<kube::Config>) -> (r:
        Result<KubeConfig, RegistryError>)
        requires
            old(self).wf(),
        ensures
            final(self).wf(),
            match r {
                Ok(p) => converted is Some && final(self)@ == put_t(old(self)@, key@, p@),
                Err(e) => {
                    &&& e == RegistryError::KubeconfigParseError
                    &&& converted is None
                    &&& *final(self) == *old(self)
                },
            },
    {
        match converted {
            Some(c) => Ok(self.put_config(key, c)),
            None => Err(RegistryError::KubeconfigParseError),
        }
    }

    /// Completes ambient inference from the outcome of the external probe:
    /// an inferred configuration is stored under the reserved name
    /// `default` and its stored profile is returned; a failed inference
    /// changes nothing.
    pub fn register_default_outcome(&mut self, inferred: Option<kube::Config>) -> (r: Option<
        KubeConfig,
    >)
        requires
            old(self).wf(),
        ensures
            final(self).wf(),
            match r {
                Some(p) => inferred is Some && final(self)@ == put_t(old(self)@, "default"@, p@),
                None => inferred is None && *final(self) == *old(self),
            },
    {
        match inferred {
            Some(c) => Some(self.put_config("default", c)),
            None => None,
        }
    }

    /// The configuration a client for the named profile is built from: it
    /// is produced exactly when the name is stored and the stored endpoint
    /// parses as a URI; the client itself is constructed by the caller
    /// beside its runtime.
    pub fn client_config_for(&self, key: &str) -> (r: Option<kube::Config>)
        requires
            self.wf(),
        ensures
            r is Some <==> (spec_lookup(self@, key@) matches Some(p) && uri_parses(
                p.cluster_url,
            )),
    {
        match self.select_config(key) {
            None => None,
            Some(p) => prepared_config(&p),
        }
    }

    /// As the named derivation, for the current selection: a configuration
    /// is produced exactly when the selection resolves and the selected
    /// profile's endpoint parses as a URI.
    pub fn client_config(&self) -> (r: Option<kube::Config>)
        requires
            self.wf(),
        ensures
            r is Some <==> (spec_current(self@) matches Some((n, p)) && uri_parses(
                p.cluster_url,
            )),
    {
        match self.get_current_config() {
            None => None,
            Some((_, p)) => prepared_config(&p),
        }
    }
}

} // verus!
