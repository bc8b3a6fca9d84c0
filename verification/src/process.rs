//! The memory of running processes.

use vstd::prelude::*;

use crate::mem::MemError;

verus! {

/// A running process.
pub struct ProcessHandle {
    pub pid: i32,
}

impl ProcessHandle {
    /// The process with that number.
    pub fn new(pid: i32) -> (r: Self)
        ensures
            r.pid == pid,
    {
        ProcessHandle { pid }
    }
}

/// How a transfer of `total` bytes ended of which the system says that `moved` bytes were moved,
/// or -1 where it failed. A transfer of fewer bytes counts as failed.
pub fn transfer_result(moved: i64, total: usize, address: u64, reason: String) -> (r: Result<
    (),
    MemError,
>)
    ensures
        r == (if moved == -1 {
            Err(MemError::Backend(reason))
        } else if moved as usize != total {
            Err(MemError::Short { read: moved as usize, total, address })
        } else {
            Ok(())
        }),
{
    if moved == -1 {
        Err(MemError::Backend(reason))
    } else if moved as usize != total {
        Err(MemError::Short { read: moved as usize, total, address })
    } else {
        Ok(())
    }
}

/// A transfer succeeds just where all bytes were moved. Where the system failed, its reason is the
/// error; where fewer bytes were moved, the error says how many.
pub proof fn transfers_succeed_where_all_is_moved(
    moved: i64,
    total: usize,
    address: u64,
    reason: String,
    r: Result<(), MemError>,
)
    requires
        call_ensures(transfer_result, (moved, total, address, reason), r),
        -1 <= moved <= usize::MAX,
    ensures
        r is Ok <==> moved == total,
        moved == -1 ==> r == Err::<(), MemError>(MemError::Backend(reason)),
        0 <= moved < total ==> (r matches Err(MemError::Short { read, total: of, address: at })
            && read == moved && of == total && at == address),
{
}

} // verus!
