//! Per-object thread-local storage
//!
//! This library provides the `ThreadLocal` type which allows a separate copy of
//! an object to be used for each thread. This allows for per-object
//! thread-local storage, unlike the standard library's `thread_local!` macro
//! which only allows static thread-local storage.
//!
//! A thread is known by a small integer, its id. A [`ThreadIdManager`] allocates
//! the ids, and each thread keeps its own in a [`CurrentThread`]. All operations
//! that read or write the object of a thread are given the id of that thread.
//!
//! Per-thread objects are not destroyed when a thread exits. Instead, objects
//! are only destroyed when the `ThreadLocal` containing them is destroyed.
//!
//! You can also iterate over the thread-local values of all thread in a
//! `ThreadLocal` object using the `iter_mut` and `into_iter` methods. This can
//! only be done if you have mutable access to the `ThreadLocal` object, which
//! guarantees that you are the only thread currently accessing it.
//!
//! A `CachedThreadLocal` type is also provided which wraps a `ThreadLocal` but
//! also uses a special fast path for the first thread that writes into it.
//!
//! Note that since thread IDs are recycled when a thread exits, it is possible
//! for one thread to retrieve the object of another thread. Since this can only
//! occur after a thread has exited this does not lead to any race conditions.
//!
//! # Examples
//!
//! Basic usage of `ThreadLocal`:
//!
//! ```rust
//! use thread_local::{CurrentThread, ThreadIdManager, ThreadLocal};
//! let mut manager = ThreadIdManager::new();
//! let mut current = CurrentThread::new();
//! let id = current.get(&mut manager).id();
//!
//! let mut tls: ThreadLocal<u32> = ThreadLocal::new();
//! assert_eq!(tls.get(Some(id)), None);
//! assert_eq!(tls.get_or(id, || 5), &5);
//! assert_eq!(tls.get(Some(id)), Some(&5));
//! ```

pub mod cached;
pub mod flag;
mod iter;
mod list;
pub mod local;
pub mod manager;
pub mod maybe_uninit;
pub mod mutex;
pub mod rustc_version;
pub mod thread_id;

pub use crate::cached::{CachedIntoIter, CachedIterMut, CachedThreadLocal};
pub use crate::local::{IntoIter, IterMut, ThreadLocal};
pub use crate::maybe_uninit::MaybeUninit;
pub use crate::mutex::{AnyValue, LockInvariant, Mutex, MutexGuard};
pub use crate::thread_id::{CurrentThread, Thread, ThreadIdManager, ValidManager};
