//! A cooperative multitasking core: a fixed-capacity scheduler of
//! suspendable tasks, driven by a reactor that maps readiness events back to
//! the tasks that wait for them, with a simulated I/O backend and a sample
//! workload.

pub mod arena;
pub mod count;
pub mod events;
pub mod executor;
pub mod fakeio;
pub mod future;
pub mod list;
pub mod progress;
pub mod run;
pub mod server;
pub mod waker;
