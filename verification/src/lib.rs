//! A declarative UI core for a small finance-viewer client: a keyed virtual
//! component tree, a retained-widget cache with a reconciler that applies
//! minimal attach/detach operations to a native widget graph, and a polled
//! request/event state machine that bridges background work into a
//! single-threaded foreground loop.

pub mod component;
pub mod datamodel;
pub mod events;
pub mod ewidget;
pub mod gui;
pub mod plaid;
pub mod reconcile;
pub mod render;
