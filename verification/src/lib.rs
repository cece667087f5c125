//! Verified core of a privilege-separated package-manager front end.
//!
//! The library proves the trust-boundary logic of a setuid installer that
//! mixes a trusted binary repository with an untrusted source repository:
//! the entrypoint ownership gate, the privilege drop/restore state machine,
//! the cross-repository dependency resolver, the build orchestration over
//! untrusted sources, and the final install transaction.  All process,
//! filesystem and network effects live in the surrounding binary, which
//! hands this core plain values and carries out the actions it decides.

pub mod builder;
pub mod gate;
pub mod identity;
pub mod install;
pub mod resolver;
