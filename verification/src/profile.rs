use vstd::prelude::*;

verus! {

/// The mathematical value of a stored connection profile: every field as a
/// plain sequence of characters, plus the optional connect-timeout override
/// in whole seconds.
#[verifier::ext_equal]
pub ghost struct ProfileView {
    pub cluster_url: Seq<char>,
    pub default_namespace: Seq<char>,
    pub auth: Seq<char>,
    pub connect_timeout: Option<u64>,
}

/// A description of how to reach and authenticate to one cluster.
///
/// The authentication material is carried as an opaque string; this component
/// never inspects it. The timeout override is in whole seconds.
#[derive(Debug, PartialEq, Eq)]
pub struct KubeConfig {
    pub cluster_url: String,
    pub default_namespace: String,
    pub auth: String,
    pub connect_timeout: Option<u64>,
}

impl View for KubeConfig {
    type V = ProfileView;

    open spec fn view(&self) -> ProfileView {
        ProfileView {
            cluster_url: self.cluster_url@,
            default_namespace: self.default_namespace@,
            auth: self.auth@,
            connect_timeout: self.connect_timeout,
        }
    }
}

impl Clone for KubeConfig {
    /// A profile is a pure value: a clone carries the same fields, so a
    /// caller's copy and a stored copy never alias.
    fn clone(&self) -> (r: Self)
        ensures
            r@ == self@,
    {
        KubeConfig {
            cluster_url: self.cluster_url.clone(),
            default_namespace: self.default_namespace.clone(),
            auth: self.auth.clone(),
            connect_timeout: self.connect_timeout,
        }
    }
}

impl KubeConfig {
    /// Builds a profile from its four plain fields.
    pub fn new(
        cluster_url: String,
        default_namespace: String,
        auth: String,
        connect_timeout: Option<u64>,
    ) -> (r: Self)
        ensures
            r@ == (ProfileView {
                cluster_url: cluster_url@,
                default_namespace: default_namespace@,
                auth: auth@,
                connect_timeout,
            }),
    {
        KubeConfig { cluster_url, default_namespace, auth, connect_timeout }
    }
}

} // verus!
