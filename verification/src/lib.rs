use vstd::prelude::*;

pub mod client;
pub mod profile;
pub mod codec;
pub mod registry;
pub mod snapshot;

pub use profile::KubeConfig;
pub use registry::AppState;

verus! {

/// The ways a registry operation can fail.
#[derive(Clone, Copy, Debug, PartialEq, Eq, Structural)]
pub enum RegistryError {
    /// A selection or lookup named a profile that is not in the registry.
    UnknownProfile,
    /// An external kubeconfig document could not be converted into a profile.
    KubeconfigParseError,
    /// A snapshot string is not a well-formed registry snapshot.
    MalformedSnapshot,
    /// The persistent location could not be resolved or written.
    PersistenceError,
}

} // verus!
