//! Permission and attribute bits of a mapping.

use vstd::prelude::*;

verus! {

/// The mapping is present.
pub const FLAG_PRESENT: u64 = 0x1;

/// The mapping may be written through.
pub const FLAG_WRITE: u64 = 0x2;

/// The mapping is accessible from user mode.
pub const FLAG_USER: u64 = 0x4;

/// Writes go through the cache to memory.
pub const FLAG_WRITE_THROUGH: u64 = 0x8;

/// The mapping is not cached.
pub const FLAG_NO_CACHE: u64 = 0x10;

/// Set by the processor when the page is accessed.
pub const FLAG_ACCESSED: u64 = 0x20;

/// Set by the processor when the page is written.
pub const FLAG_DIRTY: u64 = 0x40;

/// Instructions may not be fetched from the page.
pub const FLAG_NO_EXEC: u64 = 0x8000_0000_0000_0000;

/// The bits that change without the software's intent changing: accessed, dirty
/// and writable. Two flag sets are compared for policy outside of them.
pub const FLAG_HW_MANAGED: u64 = 0x62;

/// The flag bits of a mapping.
#[derive(Clone, Copy, Debug, PartialEq, Eq, Structural)]
pub struct PageFlags {
    pub data: u64,
}

impl PageFlags {
    /// Whether every bit of `flag` is set.
    pub open spec fn spec_has_flag(self, flag: u64) -> bool {
        self.data & flag == flag
    }

    /// The flags with the bits of `flag` set if `value`, cleared if not.
    pub open spec fn spec_custom_flag(self, flag: u64, value: bool) -> PageFlags {
        if value {
            PageFlags { data: self.data | flag }
        } else {
            PageFlags { data: self.data & !flag }
        }
    }

    pub open spec fn spec_has_write(self) -> bool {
        self.spec_has_flag(FLAG_WRITE)
    }

    pub open spec fn spec_write(self, value: bool) -> PageFlags {
        self.spec_custom_flag(FLAG_WRITE, value)
    }

    /// Whether the two flag sets agree on every bit that the processor does not manage.
    pub open spec fn policy_eq(self, other: PageFlags) -> bool {
        self.data & !FLAG_HW_MANAGED == other.data & !FLAG_HW_MANAGED
    }

    /// Flags of a present page that can be neither written nor executed, for the kernel only.
    pub fn new() -> (r: PageFlags)
        ensures
            r.data == FLAG_PRESENT | FLAG_NO_EXEC,
    {
        PageFlags { data: FLAG_PRESENT | FLAG_NO_EXEC }
    }

    pub fn data(&self) -> (r: u64)
        ensures
            r == self.data,
    {
        self.data
    }

    /// Sets or clears the bits of `flag`.
    pub fn custom_flag(self, flag: u64, value: bool) -> (r: PageFlags)
        ensures
            r == self.spec_custom_flag(flag, value),
            flag != 0 ==> r.spec_has_flag(flag) == value,
    {
        proof {
            if flag != 0 {
                PageFlags::lemma_custom_flag_reads_back(self, flag, value);
            }
        }
        if value {
            PageFlags { data: self.data | flag }
        } else {
            PageFlags { data: self.data & !flag }
        }
    }

    pub fn has_flag(&self, flag: u64) -> (r: bool)
        ensures
            r == self.spec_has_flag(flag),
    {
        self.data & flag == flag
    }

    pub fn has_present(&self) -> (r: bool)
        ensures
            r == self.spec_has_flag(FLAG_PRESENT),
    {
        self.has_flag(FLAG_PRESENT)
    }

    /// Allows or forbids access from user mode.
    pub fn user(self, value: bool) -> (r: PageFlags)
        ensures
            r == self.spec_custom_flag(FLAG_USER, value),
            r.spec_has_flag(FLAG_USER) == value,
            r.spec_has_write() == self.spec_has_write(),
            r.spec_has_flag(FLAG_NO_EXEC) == self.spec_has_flag(FLAG_NO_EXEC),
    {
        proof {
            PageFlags::lemma_flags_apart();
            PageFlags::lemma_custom_flag_keeps_others(self, FLAG_USER, value, FLAG_WRITE);
            PageFlags::lemma_custom_flag_keeps_others(self, FLAG_USER, value, FLAG_NO_EXEC);
        }
        self.custom_flag(FLAG_USER, value)
    }

    pub fn has_user(&self) -> (r: bool)
        ensures
            r == self.spec_has_flag(FLAG_USER),
    {
        self.has_flag(FLAG_USER)
    }

    /// Allows or forbids writing.
    pub fn write(self, value: bool) -> (r: PageFlags)
        ensures
            r == self.spec_write(value),
            r.spec_has_write() == value,
            r.policy_eq(self),
            r.spec_has_flag(FLAG_USER) == self.spec_has_flag(FLAG_USER),
            r.spec_has_flag(FLAG_NO_EXEC) == self.spec_has_flag(FLAG_NO_EXEC),
    {
        proof {
            PageFlags::lemma_write(self, value);
            PageFlags::lemma_flags_apart();
            PageFlags::lemma_custom_flag_keeps_others(self, FLAG_WRITE, value, FLAG_USER);
            PageFlags::lemma_custom_flag_keeps_others(self, FLAG_WRITE, value, FLAG_NO_EXEC);
        }
        self.custom_flag(FLAG_WRITE, value)
    }

    pub fn has_write(&self) -> (r: bool)
        ensures
            r == self.spec_has_write(),
    {
        self.has_flag(FLAG_WRITE)
    }

    /// Allows or forbids fetching instructions.
    pub fn execute(self, value: bool) -> (r: PageFlags)
        ensures
            r == self.spec_custom_flag(FLAG_NO_EXEC, !value),
            r.spec_has_flag(FLAG_NO_EXEC) == !value,
            r.spec_has_write() == self.spec_has_write(),
            r.spec_has_flag(FLAG_USER) == self.spec_has_flag(FLAG_USER),
    {
        proof {
            PageFlags::lemma_flags_apart();
            PageFlags::lemma_custom_flag_keeps_others(self, FLAG_NO_EXEC, !value, FLAG_WRITE);
            PageFlags::lemma_custom_flag_keeps_others(self, FLAG_NO_EXEC, !value, FLAG_USER);
        }
        self.custom_flag(FLAG_NO_EXEC, !value)
    }

    pub fn has_execute(&self) -> (r: bool)
        ensures
            r == !self.spec_has_flag(FLAG_NO_EXEC),
    {
        !self.has_flag(FLAG_NO_EXEC)
    }

    /// Whether the two flag sets agree outside of the accessed, dirty and writable bits.
    pub fn is_policy_eq(&self, other: &PageFlags) -> (r: bool)
        ensures
            r == self.policy_eq(*other),
    {
        self.data & !FLAG_HW_MANAGED == other.data & !FLAG_HW_MANAGED
    }

    /// The writable, user and no-execute flags share no bit, and each has one.
    pub proof fn lemma_flags_apart()
        ensures
            FLAG_WRITE & FLAG_USER == 0,
            FLAG_USER & FLAG_WRITE == 0,
            FLAG_WRITE & FLAG_NO_EXEC == 0,
            FLAG_NO_EXEC & FLAG_WRITE == 0,
            FLAG_USER & FLAG_NO_EXEC == 0,
            FLAG_NO_EXEC & FLAG_USER == 0,
            FLAG_NO_EXEC != 0,
    {
        assert(0x2u64 & 0x4u64 == 0 && 0x4u64 & 0x2u64 == 0) by (bit_vector);
        assert(0x2u64 & 0x8000_0000_0000_0000u64 == 0 && 0x8000_0000_0000_0000u64 & 0x2u64 == 0)
            by (bit_vector);
        assert(0x4u64 & 0x8000_0000_0000_0000u64 == 0 && 0x8000_0000_0000_0000u64 & 0x4u64 == 0)
            by (bit_vector);
    }

    /// After a flag that has a bit is set or cleared, it reads back as it was written.
    pub proof fn lemma_custom_flag_reads_back(flags: PageFlags, flag: u64, value: bool)
        requires
            flag != 0,
        ensures
            flags.spec_custom_flag(flag, value).spec_has_flag(flag) == value,
    {
        let d = flags.data;
        assert((d | flag) & flag == flag) by (bit_vector);
        assert(flag != 0 ==> (d & !flag) & flag != flag) by (bit_vector);
    }

    /// Setting or clearing one flag leaves a flag that shares no bit with it as it was.
    pub proof fn lemma_custom_flag_keeps_others(
        flags: PageFlags,
        flag: u64,
        value: bool,
        other: u64,
    )
        requires
            flag & other == 0,
        ensures
            flags.spec_custom_flag(flag, value).spec_has_flag(other) == flags.spec_has_flag(other),
    {
        let d = flags.data;
        assert(flag & other == 0 ==> (d | flag) & other == d & other) by (bit_vector);
        assert(flag & other == 0 ==> (d & !flag) & other == d & other) by (bit_vector);
    }

    /// Changing the writable bit gives flags that read back as written and that
    /// are equal in policy to the flags before.
    pub proof fn lemma_write(flags: PageFlags, value: bool)
        ensures
            flags.spec_write(value).spec_has_write() == value,
            flags.spec_write(value).policy_eq(flags),
            value == flags.spec_has_write() ==> flags.spec_write(value) == flags,
    {
        let d = flags.data;
        assert((d | 0x2) & 0x2 == 0x2) by (bit_vector);
        assert((d & !0x2u64) & 0x2 != 0x2) by (bit_vector);
        assert((d | 0x2) & !0x62u64 == d & !0x62u64) by (bit_vector);
        assert((d & !0x2u64) & !0x62u64 == d & !0x62u64) by (bit_vector);
        assert(d & 0x2 == 0x2 ==> d | 0x2 == d) by (bit_vector);
        assert(d & 0x2 != 0x2 ==> d & !0x2u64 == d) by (bit_vector);
    }
}

} // verus!
