//! Client-side runtime of a single-queue-pair asynchronous I/O ring: what
//! the kernel supports (`register`), the restrictions a ring can be locked
//! down to before it starts (`register`), and an echo server that turns
//! completions into new submissions (`server`), with its buffer pool
//! (`pool`), token arena (`table`), completion handoff (`handoff`) and
//! submission backlog (`backlog`). `laws` states what holds across steps.

pub mod backlog;
pub mod handoff;
pub mod laws;
pub mod pool;
pub mod register;
pub mod server;
pub mod table;
