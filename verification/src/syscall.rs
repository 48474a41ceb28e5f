//! The values of the registers that set up the system call instruction.

use vstd::prelude::*;

verus! {

/// The flags that the processor clears on a system call: trap and interrupt enable.
pub const SYSCALL_FLAG_MASK: u64 = 0x0300;

/// The bit of the extended feature register that enables the system call instruction.
pub const EFER_SYSCALL_ENABLE: u64 = 0x1;

/// The segment selector of a descriptor table index, at privilege level zero.
pub open spec fn selector(index: u16) -> nat {
    (index as nat) * 8
}

/// The value of the segment register: in bits 32 to 47 the selector of the
/// kernel's code segment, in bits 48 to 63 that of the user's 32-bit code
/// segment at privilege level three. The low half is reserved.
pub open spec fn spec_star(kernel_code: u16, user_code32: u16) -> nat {
    (selector(kernel_code) + (selector(user_code32) + 3) * 0x1_0000) * 0x1_0000_0000
}

/// The value of the segment register for the two descriptor table indices.
/// A descriptor table holds at most 8192 descriptors.
pub fn star(kernel_code: u16, user_code32: u16) -> (r: u64)
    requires
        kernel_code < 0x2000,
        user_code32 < 0x2000,
    ensures
        r == spec_star(kernel_code, user_code32),
{
    assert(kernel_code < 0x2000 ==> (kernel_code << 3) == kernel_code * 8) by (bit_vector);
    assert(user_code32 < 0x2000 ==> ((user_code32 << 3) | 3) == user_code32 * 8 + 3)
        by (bit_vector);
    let syscall_cs_ss_base: u16 = kernel_code << 3;
    let sysret_cs_ss_base: u16 = (user_code32 << 3) | 3;
    let low: u32 = syscall_cs_ss_base as u32;
    let high: u32 = sysret_cs_ss_base as u32;
    assert((low | (high << 16)) == low + high * 0x1_0000) by (bit_vector)
        requires
            low < 0x1_0000,
            high < 0x1_0000,
    ;
    let star_high: u32 = low | (high << 16);
    let wide: u64 = star_high as u64;
    assert(wide < 0x1_0000_0000 ==> (wide << 32) == wide * 0x1_0000_0000) by (bit_vector);
    wide << 32
}

/// The extended feature register with the system call instruction enabled.
pub fn efer_with_syscall(efer: u64) -> (r: u64)
    ensures
        r == efer | EFER_SYSCALL_ENABLE,
        r & EFER_SYSCALL_ENABLE == EFER_SYSCALL_ENABLE,
{
    assert((efer | 1) & 1 == 1) by (bit_vector);
    efer | EFER_SYSCALL_ENABLE
}

} // verus!
