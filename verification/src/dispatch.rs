//! Which rescaling kernel each step runs on, from the CPU features dispatch may
//! use. The choice is a ladder: each rung the CPU reaches replaces the kernels
//! it covers, so a later rung wins where both apply.

use vstd::prelude::*;
use crate::cpu::{has, CpuFlags, SSE2, AVX2, NEON};

verus! {

/// A rescaling kernel.
#[derive(Clone, Copy, PartialEq, Eq, Debug, Structural)]
pub enum Kernel {
    Scalar,
    Sse2,
    Avx2,
    Neon,
}

impl Default for Kernel {
    fn default() -> (k: Self)
        ensures
            k == Kernel::Scalar,
    {
        Kernel::Scalar
    }
}

/// The kernel picked for each of the four rescaling steps.
#[derive(Clone, Copy, PartialEq, Eq, Debug, Structural)]
pub struct Selection {
    pub import_row_expand: Kernel,
    pub import_row_shrink: Kernel,
    pub export_row_expand: Kernel,
    pub export_row_shrink: Kernel,
}

impl Default for Selection {
    fn default() -> (s: Self)
        ensures
            s.import_row_expand == Kernel::Scalar,
            s.import_row_shrink == Kernel::Scalar,
            s.export_row_expand == Kernel::Scalar,
            s.export_row_shrink == Kernel::Scalar,
    {
        Selection {
            import_row_expand: Kernel::Scalar,
            import_row_shrink: Kernel::Scalar,
            export_row_expand: Kernel::Scalar,
            export_row_shrink: Kernel::Scalar,
        }
    }
}

/// The kernel ladders a build has: x86-64's SSE2 and AVX2 rungs, aarch64's
/// NEON rung, or none.
#[derive(Clone, Copy, PartialEq, Eq, Debug, Structural)]
pub enum Ladder {
    X86_64,
    Aarch64,
    Scalar,
}

/// The kernel the ladder picks for an import step.
pub open spec fn import_kernel(ladder: Ladder, flags: CpuFlags) -> Kernel {
    match ladder {
        Ladder::X86_64 => if has(flags, SSE2) { Kernel::Sse2 } else { Kernel::Scalar },
        Ladder::Aarch64 => if has(flags, NEON) { Kernel::Neon } else { Kernel::Scalar },
        Ladder::Scalar => Kernel::Scalar,
    }
}

/// The kernel the ladder picks for an export step: on x86-64 the AVX2 rung
/// replaces the SSE2 one.
pub open spec fn export_kernel(ladder: Ladder, flags: CpuFlags) -> Kernel {
    match ladder {
        Ladder::X86_64 => if has(flags, AVX2) {
            Kernel::Avx2
        } else if has(flags, SSE2) {
            Kernel::Sse2
        } else {
            Kernel::Scalar
        },
        Ladder::Aarch64 => if has(flags, NEON) { Kernel::Neon } else { Kernel::Scalar },
        Ladder::Scalar => Kernel::Scalar,
    }
}

/// Which kernel each rescaling step runs on.
pub fn selection(ladder: Ladder, flags: CpuFlags) -> (s: Selection)
    ensures
        s.import_row_expand == import_kernel(ladder, flags),
        s.import_row_shrink == import_kernel(ladder, flags),
        s.export_row_expand == export_kernel(ladder, flags),
        s.export_row_shrink == export_kernel(ladder, flags),
{
    let mut s = Selection::default();
    match ladder {
        Ladder::X86_64 => {
            if flags.contains(CpuFlags(SSE2)) {
                s.import_row_expand = Kernel::Sse2;
                s.import_row_shrink = Kernel::Sse2;
                s.export_row_expand = Kernel::Sse2;
                s.export_row_shrink = Kernel::Sse2;
            }
            if flags.contains(CpuFlags(AVX2)) {
                s.export_row_expand = Kernel::Avx2;
                s.export_row_shrink = Kernel::Avx2;
            }
        },
        Ladder::Aarch64 => {
            if flags.contains(CpuFlags(NEON)) {
                s.import_row_expand = Kernel::Neon;
                s.import_row_shrink = Kernel::Neon;
                s.export_row_expand = Kernel::Neon;
                s.export_row_shrink = Kernel::Neon;
            }
        },
        Ladder::Scalar => {},
    }
    s
}

} // verus!
