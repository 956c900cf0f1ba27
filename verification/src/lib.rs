//! Activation bookkeeping for scopes of an incremental task engine.
//!
//! A task records the scopes it belongs to in a [`list::TaskScopeList`]; every
//! scope keeps its activation counter, the tasks that became dirty while it was
//! inactive and its child scopes in a [`scope::TaskScope`]. No operation ever
//! touches a second scope: what has to happen to other scopes is handed back to
//! the caller as a worklist of scope ids. What holds over several calls is
//! proved in [`list_laws`] and [`scope_laws`].

pub mod id;
pub mod list;
pub mod list_laws;
pub mod scope;
pub mod scope_laws;
