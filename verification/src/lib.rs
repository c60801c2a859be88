//! Keeps the DNS server's configuration in step with the hostnames that
//! ingresses declare.
//!
//! The library decides and computes; it performs no I/O. A caller watches the
//! platform, carries out the actions that the library asks for, and hands
//! back what came of them.
//!
//! - [`text`]: texts as sequences of lines.
//! - [`entry`]: the managed lines and the anchor line.
//! - [`corefile`]: the configuration document and its patch.
//! - [`guarantees`]: what the patch guarantees.
//! - [`ingress`]: the hostnames that ingresses declare.
//! - [`config`]: the stored resource that holds the document.
//! - [`reconcile`]: one reconciliation, step by step.
//! - [`watcher`]: the watch that starts reconciliations.
//! - [`settings`]: fixed names and the rewrite target.

pub mod config;
pub mod corefile;
pub mod entry;
pub mod error;
pub mod guarantees;
pub mod ingress;
pub mod reconcile;
pub mod search;
pub mod settings;
pub mod text;
pub mod watcher;
