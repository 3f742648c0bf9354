//! A scoped inversion-of-control container: registries of instantiators keyed by type,
//! containers that form a chain of scopes, caches of resolved values and their finalization.
mod any;
mod builder;
mod cache;
mod config;
mod container;
mod context;
mod dependency;
mod errors;
mod inject;
mod registry;
mod resolve;
mod scope;
mod type_map;

pub use any::{RcAny, TypeInfo};
pub use builder::{
    BoxedInstantiator, InstantiatorInnerData, RegistriesBuilder, ScopeInnerData, ScopeRegistry, ScopedInstantiator,
};
pub use cache::{Cache, Resolved, ResolvedSet};
pub use config::Config;
pub use container::{
    ChildContainerBuiler, ChildContainerWithContext, ChildContainerWithScope, ChildContainerWithScopeAndContext, ContainerInner,
    ContainerTree, ResolveStep,
};
pub use context::Context;
pub use dependency::Dependency;
pub use errors::{
    InstantiateErrorKind, InstantiatorErrorKind, ResolveErrorKind, ScopeErrorKind, ScopeWithErrorKind, ValidationErrorKind,
};
pub use inject::{Inject, InjectTransient};
pub use registry::{AutoRegistries, AutoRegistriesWithSync, InstantiatorData, Registry, RegistryWithSync};
pub use resolve::{
    can_start, can_start_at, entries_fit_scopes, falls_back_to_sync, instantiator_outcome, Finalizer, Instantiator,
};
pub use scope::{DefaultScope, Scope, ScopeData, ScopeDataWithChildScopesData};
pub use type_map::TypeMap;
