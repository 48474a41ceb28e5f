//! Inter-processor interrupts: which one, to whom, and the command word that asks for it.

use vstd::prelude::*;

verus! {

/// What an inter-processor interrupt is for.
#[derive(Clone, Copy, Debug, PartialEq, Eq, Structural)]
pub enum IpiKind {
    Wakeup,
    Tlb,
    Switch,
    Pit,
    Profile,
}

/// Which processors an inter-processor interrupt goes to.
#[derive(Clone, Copy, Debug, PartialEq, Eq, Structural)]
pub enum IpiTarget {
    Current,
    All,
    Other,
}

impl IpiKind {
    /// The interrupt vector of the kind.
    pub open spec fn spec_vector(self) -> u8 {
        match self {
            IpiKind::Wakeup => 0x40,
            IpiKind::Tlb => 0x41,
            IpiKind::Switch => 0x42,
            IpiKind::Pit => 0x43,
            IpiKind::Profile => 0x44,
        }
    }

    /// The interrupt vector of the kind.
    pub fn vector(self) -> (r: u8)
        ensures
            r == self.spec_vector(),
    {
        match self {
            IpiKind::Wakeup => 0x40,
            IpiKind::Tlb => 0x41,
            IpiKind::Switch => 0x42,
            IpiKind::Pit => 0x43,
            IpiKind::Profile => 0x44,
        }
    }
}

impl IpiTarget {
    /// The destination shorthand of the target.
    pub open spec fn spec_shorthand(self) -> u8 {
        match self {
            IpiTarget::Current => 1,
            IpiTarget::All => 2,
            IpiTarget::Other => 3,
        }
    }

    /// The destination shorthand of the target.
    pub fn shorthand(self) -> (r: u8)
        ensures
            r == self.spec_shorthand(),
    {
        match self {
            IpiTarget::Current => 1,
            IpiTarget::All => 2,
            IpiTarget::Other => 3,
        }
    }
}

/// The command word of an interrupt: the shorthand of the target from bit 18
/// on, the level bit 14, and in the low bits the vector of the kind, or, for
/// profiling, the delivery mode of a non-maskable interrupt in bits 8 to 10.
pub open spec fn spec_ipi(kind: IpiKind, target: IpiTarget) -> nat {
    (target.spec_shorthand() as nat) * 0x4_0000 + 0x4000 + if kind is Profile {
        0x400nat
    } else {
        kind.spec_vector() as nat
    }
}

/// The command word that asks the interrupt controller for the interrupt.
pub fn ipi(kind: IpiKind, target: IpiTarget) -> (icr: u64)
    ensures
        icr == spec_ipi(kind, target),
{
    let to: u64 = target.shorthand() as u64;
    match kind {
        IpiKind::Profile => {
            assert(to < 4 ==> (to << 18 | 1u64 << 14 | 0b100u64 << 8) == to * 0x4_0000 + 0x4000
                + 0x400) by (bit_vector);
            to << 18 | 1u64 << 14 | 0b100u64 << 8
        },
        _ => {
            let vector: u64 = kind.vector() as u64;
            assert(to < 4 && vector < 0x100 ==> (to << 18 | 1u64 << 14 | vector) == to * 0x4_0000
                + 0x4000 + vector) by (bit_vector);
            to << 18 | 1u64 << 14 | vector
        },
    }
}

} // verus!
