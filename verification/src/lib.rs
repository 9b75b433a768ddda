//! Event dispatchers that deliver events to weakly held listeners and owned
//! closures: unordered, ordered by priority, and data-parallel.
//!
//! Every dispatcher is built on one iteration protocol (see [`protocol`]): a
//! subscriber answers each delivery with an optional request, by which it can
//! have itself removed, stop the delivery, or both.

pub mod request;
pub mod protocol;
pub mod subscriber;
pub mod collection;
pub mod order;
pub mod maps;
pub mod dispatcher;
pub mod priority;
pub mod parallel;

pub use crate::protocol::execute_sync_dispatcher_requests;
pub use crate::request::ExecuteRequestsResult;
pub use crate::request::ParallelDispatcherRequest;
pub use crate::request::SyncDispatcherRequest;
pub use crate::dispatcher::EventDispatcher;
pub use crate::parallel::BuildError;
pub use crate::parallel::ParallelEventDispatcher;
pub use crate::priority::PriorityEventDispatcher;
pub use crate::subscriber::Listener;
pub use crate::subscriber::ParallelListener;
