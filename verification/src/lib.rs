//! Virtual-memory bookkeeping for a kernel: page addressing, grants,
//! frame ownership, page tables and their consistency audit.

pub mod debugger;
pub mod flags;
pub mod frame;
pub mod grant;
pub mod ipi;
pub mod paging;
pub mod space;
pub mod start;
pub mod syscall;
pub mod table;
