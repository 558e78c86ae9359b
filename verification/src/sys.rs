//! What there is to compute around system calls: the reading of their answers.

use vstd::prelude::*;

verus! {

pub const SIGTRAP: i32 = 5;

pub const SIGKILL: i32 = 9;

pub const SIGSTOP: i32 = 19;

/// `MEMBARRIER_CMD_REGISTER_PRIVATE_EXPEDITED_RSEQ`
pub const MEMBARRIER_REGISTER_RSEQ: usize = 256;

/// `MEMBARRIER_CMD_PRIVATE_EXPEDITED_RSEQ`
pub const MEMBARRIER_FENCE_RSEQ: usize = 128;

/// The numbers are those of the kernel: signals as x86-64 numbers them, and the
/// two membarrier commands, which are one bit each.
pub proof fn law_numbers_are_the_kernels()
    ensures
        SIGTRAP == 5,
        SIGKILL == 9,
        SIGSTOP == 19,
        MEMBARRIER_FENCE_RSEQ == 0x80,
        MEMBARRIER_REGISTER_RSEQ == 2 * MEMBARRIER_FENCE_RSEQ,
{
}

/// The answer of a system call: negative numbers are errors.
///
/// # Errors
///
/// Returns the negative errno.
pub fn outcome(ret: isize) -> (res: Result<usize, isize>)
    ensures
        res == if ret < 0 {
            Err::<usize, isize>(ret)
        } else {
            Ok(ret as usize)
        },
{
    if ret < 0 {
        Err(ret)
    } else {
        Ok(ret as usize)
    }
}

/// The signal that stopped the tracee, or None if it did not stop. A wait
/// status of a stopped process has 0x7f in its low byte and the signal in the
/// next.
#[must_use]
pub fn stop_signal(status: i32) -> (signal: Option<i32>)
    ensures
        signal == if status as u32 % 0x100 == 0x7f {
            Some((status as u32 / 0x100 % 0x100) as i32)
        } else {
            None
        },
{
    let bits: u32 = status as u32;
    if bits % 0x100 == 0x7f {
        Some((bits / 0x100 % 0x100) as i32)
    } else {
        None
    }
}

/// `struct ptrace_rseq_configuration` from the kernel uapi.
#[derive(Clone, Copy, Debug)]
pub struct RseqConfiguration {
    pub rseq_abi_pointer: u64,
    pub rseq_abi_size: u32,
    pub signature: u32,
    pub flags: u32,
    pub pad: u32,
}

impl Default for RseqConfiguration {
    fn default() -> (c: Self)
        ensures
            c.rseq_abi_pointer == 0,
            c.rseq_abi_size == 0,
            c.signature == 0,
            c.flags == 0,
            c.pad == 0,
    {
        RseqConfiguration {
            rseq_abi_pointer: 0,
            rseq_abi_size: 0,
            signature: 0,
            flags: 0,
            pad: 0,
        }
    }
}

} // verus!
