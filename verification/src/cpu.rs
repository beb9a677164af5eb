//! The instruction-set feature mask the DSP dispatch is restricted by.
//!
//! The bit values follow the C flag enums bit for bit, because the command
//! line tools name them. Asking the running CPU, the build configuration and
//! the kernel's auxiliary vector what they offer is the host's business and
//! happens outside the library; what is here is the set algebra, the rules
//! that turn those answers into flags, and the detected/mask state that
//! dispatch reads, held in a value the host keeps.

use vstd::prelude::*;

verus! {

pub const SSE: u32 = 1;
pub const SSE2: u32 = 2;
pub const SSSE3: u32 = 4;
pub const SSE41: u32 = 8;
pub const AVX2: u32 = 16;

pub const ARMV6: u32 = 1;
pub const NEON: u32 = 2;
pub const DOTPROD: u32 = 4;
pub const I8MM: u32 = 8;

/// Feature bits.
#[derive(Clone, Copy, PartialEq, Eq, Debug, Default, Structural)]
pub struct CpuFlags(pub u32);

impl CpuFlags {
    /// No feature at all.
    pub fn none() -> (r: Self)
        ensures
            r.0 == 0,
    {
        CpuFlags(0)
    }

    pub fn bits(self) -> (r: u32)
        ensures
            r == self.0,
    {
        self.0
    }

    pub fn from_bits(bits: u32) -> (r: Self)
        ensures
            r.0 == bits,
    {
        CpuFlags(bits)
    }

    pub fn union(self, other: Self) -> (r: Self)
        ensures
            r.0 == self.0 | other.0,
    {
        CpuFlags(self.0 | other.0)
    }

    pub fn intersection(self, other: Self) -> (r: Self)
        ensures
            r.0 == self.0 & other.0,
    {
        CpuFlags(self.0 & other.0)
    }

    /// Whether every bit of `other` is set.
    pub fn contains(self, other: Self) -> (r: bool)
        ensures
            r == (self.0 & other.0 == other.0),
    {
        self.0 & other.0 == other.0
    }
}

/// A union contains both its halves, and an intersection is contained in both.
pub proof fn lemma_union_intersection(a: CpuFlags, b: CpuFlags)
    ensures
        (a.0 | b.0) & a.0 == a.0,
        (a.0 | b.0) & b.0 == b.0,
        a.0 & (a.0 & b.0) == a.0 & b.0,
        b.0 & (a.0 & b.0) == a.0 & b.0,
{
    let (x, y) = (a.0, b.0);
    assert((x | y) & x == x && (x | y) & y == y && x & (x & y) == x & y && y & (x & y) == x
        & y) by (bit_vector);
}


/// The architecture a build targets.
#[derive(Clone, Copy, PartialEq, Eq, Debug, Structural)]
pub enum Arch {
    X86,
    Arm,
    Aarch64,
    Other,
}

/// The target features a build was configured with.
#[derive(Clone, Copy, PartialEq, Eq, Debug, Structural)]
pub struct TargetFeatures {
    pub arch: Arch,
    pub sse: bool,
    pub sse2: bool,
    pub ssse3: bool,
    pub sse41: bool,
    pub avx2: bool,
    pub neon: bool,
    pub dotprod: bool,
    pub i8mm: bool,
    /// Whether the ARMv6 assembly was built in.
    pub armv6: bool,
}

/// The x86 levels a build configuration names, each one above implying the
/// ones below, as compilers set them.
pub open spec fn levels_consistent(t: TargetFeatures) -> bool {
    &&& t.avx2 ==> t.sse41
    &&& t.sse41 ==> t.ssse3
    &&& t.ssse3 ==> t.sse2
    &&& t.sse2 ==> t.sse
}

/// Whether `f` has every bit of `bit`.
pub open spec fn has(f: CpuFlags, bit: u32) -> bool {
    f.0 & bit == bit
}

impl CpuFlags {
    /// The feature set the build was told to target: on x86 each level also
    /// brings the one below it, on arm NEON comes with aarch64.
    pub fn compile_time(t: TargetFeatures) -> (r: Self)
        ensures
            t.arch == Arch::X86 ==> r.0 == (if t.avx2 { AVX2 } else { 0 }) | (if t.sse41 || t.avx2 { SSE41 } else { 0 })
                | (if t.ssse3 || t.sse41 { SSSE3 } else { 0 }) | (if t.sse2 || t.ssse3 { SSE2 } else { 0 }) | (if t.sse
                || t.sse2 { SSE } else { 0 }),
            t.arch == Arch::Arm || t.arch == Arch::Aarch64 ==> r.0 == (if t.arch == Arch::Aarch64 || t.neon {
                NEON
            } else {
                0
            }) | (if t.dotprod { DOTPROD } else { 0 }) | (if t.i8mm { I8MM } else { 0 }) | (if t.armv6 {
                ARMV6
            } else {
                0
            }),
            t.arch == Arch::Other ==> r.0 == 0,
    {
        let mut f: u32 = 0;
        match t.arch {
            Arch::X86 => {
                let a: u32 = if t.avx2 { AVX2 } else { 0 };
                let b: u32 = if t.sse41 || t.avx2 { SSE41 } else { 0 };
                let c: u32 = if t.ssse3 || t.sse41 { SSSE3 } else { 0 };
                let d: u32 = if t.sse2 || t.ssse3 { SSE2 } else { 0 };
                let e: u32 = if t.sse || t.sse2 { SSE } else { 0 };
                f = a | b | c | d | e;
            },
            Arch::Arm | Arch::Aarch64 => {
                let a: u32 = if t.arch == Arch::Aarch64 || t.neon { NEON } else { 0 };
                let b: u32 = if t.dotprod { DOTPROD } else { 0 };
                let c: u32 = if t.i8mm { I8MM } else { 0 };
                let d: u32 = if t.armv6 { ARMV6 } else { 0 };
                f = a | b | c | d;
            },
            Arch::Other => {},
        }
        CpuFlags(f)
    }
}

/// What the running CPU reported, feature by feature, as the host's detection
/// found it; `arm` is what the auxiliary vector gave on 32-bit arm.
#[derive(Clone, Copy, PartialEq, Eq, Debug, Structural)]
pub struct Detected {
    pub sse: bool,
    pub sse2: bool,
    pub ssse3: bool,
    pub sse41: bool,
    pub avx2: bool,
    pub bmi1: bool,
    pub bmi2: bool,
    pub neon: bool,
    pub dotprod: bool,
    pub i8mm: bool,
    pub arm: u32,
}

/// The bits the running CPU adds to the build's own: on x86 each level it
/// reports (AVX2 only together with BMI1 and BMI2, which the assembly assumes
/// alongside it), on aarch64 NEON, dot product and i8mm, on 32-bit arm what
/// the auxiliary vector gave.
pub open spec fn runtime_bits(arch: Arch, d: Detected) -> u32 {
    match arch {
        Arch::X86 => (if d.sse { SSE } else { 0 }) | (if d.sse2 { SSE2 } else { 0 }) | (if d.ssse3 { SSSE3 } else { 0 })
            | (if d.sse41 { SSE41 } else { 0 }) | (if d.avx2 && d.bmi1 && d.bmi2 { AVX2 } else { 0 }),
        Arch::Aarch64 => (if d.neon { NEON } else { 0 }) | (if d.dotprod { DOTPROD } else { 0 }) | (if d.i8mm {
            I8MM
        } else {
            0
        }),
        Arch::Arm => d.arm,
        Arch::Other => 0,
    }
}

impl CpuFlags {
    /// Detection: without the assembly nothing, otherwise the build's own
    /// feature set and whatever the running CPU adds to it.
    pub fn detect(t: TargetFeatures, with_assembly: bool, d: Detected) -> (r: Self)
        ensures
            !with_assembly ==> r.0 == 0,
            with_assembly ==> r.0 == Self::compile_time_bits(t) | runtime_bits(t.arch, d),
    {
        if !with_assembly {
            return CpuFlags(0);
        }
        let f = CpuFlags::compile_time(t);
        let mut extra: u32 = 0;
        match t.arch {
            Arch::X86 => {
                let a: u32 = if d.sse { SSE } else { 0 };
                let b: u32 = if d.sse2 { SSE2 } else { 0 };
                let c: u32 = if d.ssse3 { SSSE3 } else { 0 };
                let e: u32 = if d.sse41 { SSE41 } else { 0 };
                let g: u32 = if d.avx2 && d.bmi1 && d.bmi2 { AVX2 } else { 0 };
                extra = a | b | c | e | g;
            },
            Arch::Aarch64 => {
                let a: u32 = if d.neon { NEON } else { 0 };
                let b: u32 = if d.dotprod { DOTPROD } else { 0 };
                let c: u32 = if d.i8mm { I8MM } else { 0 };
                extra = a | b | c;
            },
            Arch::Arm => {
                extra = d.arm;
            },
            Arch::Other => {},
        }
        f.union(CpuFlags(extra))
    }

    /// The bits [`CpuFlags::compile_time`] gives for a build configuration.
    pub open spec fn compile_time_bits(t: TargetFeatures) -> u32 {
        match t.arch {
            Arch::X86 => (if t.avx2 { AVX2 } else { 0 }) | (if t.sse41 || t.avx2 { SSE41 } else { 0 }) | (if t.ssse3
                || t.sse41 { SSSE3 } else { 0 }) | (if t.sse2 || t.ssse3 { SSE2 } else { 0 }) | (if t.sse || t.sse2 {
                SSE
            } else {
                0
            }),
            Arch::Arm | Arch::Aarch64 => (if t.arch == Arch::Aarch64 || t.neon { NEON } else { 0 }) | (if t.dotprod {
                DOTPROD
            } else {
                0
            }) | (if t.i8mm { I8MM } else { 0 }) | (if t.armv6 { ARMV6 } else { 0 }),
            Arch::Other => 0,
        }
    }
}

/// With the assembly built in, detection never reports less than the build
/// itself targets: the binary is running, so every feature it was built for
/// exists.
pub proof fn law_detection_contains_the_compile_time_baseline(t: TargetFeatures, d: Detected)
    ensures
        (CpuFlags::compile_time_bits(t) | runtime_bits(t.arch, d)) & CpuFlags::compile_time_bits(t)
            == CpuFlags::compile_time_bits(t),
{
    let a = CpuFlags::compile_time_bits(t);
    let b = runtime_bits(t.arch, d);
    assert((a | b) & a == a) by (bit_vector);
}

/// On x86, a build configured the way compilers configure one gets a
/// compile-time feature set in which every level implies the ones below it.
pub proof fn lemma_compile_time_levels(t: TargetFeatures, r: CpuFlags)
    requires
        t.arch == Arch::X86,
        levels_consistent(t),
        r.0 == (if t.avx2 { AVX2 } else { 0 }) | (if t.sse41 || t.avx2 { SSE41 } else { 0 }) | (if t.ssse3
            || t.sse41 { SSSE3 } else { 0 }) | (if t.sse2 || t.ssse3 { SSE2 } else { 0 }) | (if t.sse || t.sse2 {
            SSE
        } else {
            0
        }),
    ensures
        has(r, AVX2) ==> has(r, SSE41),
        has(r, SSE41) ==> has(r, SSSE3),
        has(r, SSSE3) ==> has(r, SSE2),
        has(r, SSE2) ==> has(r, SSE),
{
    let a: u32 = if t.avx2 { AVX2 } else { 0 };
    let b: u32 = if t.sse41 || t.avx2 { SSE41 } else { 0 };
    let c: u32 = if t.ssse3 || t.sse41 { SSSE3 } else { 0 };
    let d: u32 = if t.sse2 || t.ssse3 { SSE2 } else { 0 };
    let e: u32 = if t.sse || t.sse2 { SSE } else { 0 };
    assert((a == 0 || a == 16) && (b == 0 || b == 8) && (c == 0 || c == 4) && (d == 0 || d == 2) && (e == 0
        || e == 1) ==> {
        let v = a | b | c | d | e;
        &&& (v & 16 == 16 <==> a == 16)
        &&& (v & 8 == 8 <==> b == 8)
        &&& (v & 4 == 4 <==> c == 4)
        &&& (v & 2 == 2 <==> d == 2)
        &&& (v & 1 == 1 <==> e == 1)
    }) by (bit_vector);
}

/// The auxiliary vector's key for the end of the table.
pub const AT_NULL: u32 = 0;
/// Its key for the hardware capability word.
pub const AT_HWCAP: u32 = 16;
/// Its key for the second hardware capability word.
pub const AT_HWCAP2: u32 = 26;
pub const HWCAP_NEON: u32 = 0x1000;
pub const HWCAP_ASIMDDP: u32 = 0x100_0000;
pub const HWCAP_I8MM: u32 = 0x800_0000;

/// The little-endian word at `at`.
pub open spec fn word_at(raw: Seq<u8>, at: int) -> u32 {
    (raw[at] as int + 256 * raw[at + 1] as int + 65536 * raw[at + 2] as int + 16777216 * raw[at + 3] as int) as u32
}

/// The last value given for `key` among the first `n` entries of an
/// auxiliary vector of 32-bit key/value pairs, stopping at the first
/// `AT_NULL`; 0 when there is none.
pub open spec fn aux_value(raw: Seq<u8>, n: int, key: u32) -> u32
    decreases n,
{
    if n <= 0 {
        0
    } else {
        let prev = aux_value(raw, n - 1, key);
        if aux_ended(raw, n - 1) {
            prev
        } else if word_at(raw, 8 * (n - 1)) == key {
            word_at(raw, 8 * (n - 1) + 4)
        } else {
            prev
        }
    }
}

/// Whether one of the first `n` entries is the `AT_NULL` that ends the table.
pub open spec fn aux_ended(raw: Seq<u8>, n: int) -> bool
    decreases n,
{
    if n <= 0 {
        false
    } else {
        aux_ended(raw, n - 1) || word_at(raw, 8 * (n - 1)) == AT_NULL
    }
}

fn read_word(raw: &[u8], at: usize) -> (r: u32)
    requires
        at + 4 <= raw.len(),
    ensures
        r == word_at(raw@, at as int),
{
    raw[at] as u32 + 256 * raw[at + 1] as u32 + 65536 * raw[at + 2] as u32 + 16777216 * raw[at + 3] as u32
}

/// The hardware capability word of an auxiliary vector.
pub fn hwcap_of(raw: &[u8]) -> (r: u32)
    ensures
        r == aux_value(raw@, (raw@.len() / 8) as int, AT_HWCAP),
{
    let n = raw.len() / 8;
    let mut i: usize = 0;
    let mut hwcap: u32 = 0;
    let mut ended = false;
    while i < n
        invariant
            n == raw@.len() / 8,
            8 * n <= raw.len(),
            raw.len() <= usize::MAX,
            i <= n,
            ended == aux_ended(raw@, i as int),
            hwcap == aux_value(raw@, i as int, AT_HWCAP),
        decreases n - i,
    {
        if !ended {
            let key = read_word(raw, 8 * i);
            if key == AT_NULL {
                ended = true;
            } else if key == AT_HWCAP {
                hwcap = read_word(raw, 8 * i + 4);
            }
        }
        i = i + 1;
    }
    hwcap
}

/// The features the hardware capability word reports on 32-bit arm.
pub open spec fn arm_flags_of(hwcap: u32) -> u32 {
    (if hwcap & HWCAP_NEON != 0 { NEON } else { 0 }) | (if hwcap & HWCAP_ASIMDDP != 0 { DOTPROD } else { 0 }) | (
    if hwcap & HWCAP_I8MM != 0 { I8MM } else { 0 })
}

/// Detection on 32-bit arm, from the process's auxiliary vector as read from
/// `/proc/self/auxv`, or nothing when it could not be read.
pub fn arm_flags(auxv: Option<&[u8]>) -> (r: CpuFlags)
    ensures
        r.0 == match auxv {
            Some(raw) => arm_flags_of(aux_value(raw@, (raw@.len() / 8) as int, AT_HWCAP)),
            None => 0,
        },
{
    match auxv {
        None => CpuFlags(0),
        Some(raw) => {
            let hwcap = hwcap_of(raw);
            let a: u32 = if hwcap & HWCAP_NEON != 0 { NEON } else { 0 };
            let b: u32 = if hwcap & HWCAP_ASIMDDP != 0 { DOTPROD } else { 0 };
            let c: u32 = if hwcap & HWCAP_I8MM != 0 { I8MM } else { 0 };
            CpuFlags(a | b | c)
        },
    }
}

/// What detection found and the mask dispatch is restricted to. The host
/// keeps one for the process.
#[derive(Clone, Copy, PartialEq, Eq, Debug, Structural)]
pub struct CpuState {
    pub detected: u32,
    pub mask: u32,
}

impl CpuState {
    /// Nothing detected yet, and nothing masked.
    pub fn new() -> (r: Self)
        ensures
            r.detected == 0,
            r.mask == u32::MAX,
    {
        CpuState { detected: 0, mask: 0xffff_ffff }
    }
}

/// Records what detection found.
pub fn init(state: &mut CpuState, detected: CpuFlags)
    ensures
        final(state).detected == detected.0,
        final(state).mask == old(state).mask,
{
    state.detected = detected.0;
}

/// Restricts dispatch to `mask`.
pub fn set_mask(state: &mut CpuState, mask: u32)
    ensures
        final(state).mask == mask,
        final(state).detected == old(state).detected,
{
    state.mask = mask;
}

/// What detection found, less anything [`set_mask`] removed.
pub fn detected_and_masked(state: &CpuState) -> (r: CpuFlags)
    ensures
        r.0 == state.detected & state.mask,
{
    CpuFlags::from_bits(state.detected).intersection(CpuFlags::from_bits(state.mask))
}

/// The features dispatch may use: with `trim` the compile-time set is
/// unioned in, since a binary cannot run below its own target.
pub fn flags(state: &CpuState, trim: bool, compile_time: CpuFlags) -> (r: CpuFlags)
    ensures
        r.0 == if trim { (state.detected & state.mask) | compile_time.0 } else { state.detected & state.mask },
{
    let f = detected_and_masked(state);
    if trim {
        f.union(compile_time)
    } else {
        f
    }
}

/// A mask of nothing leaves dispatch only what the build itself targets, and
/// without `trim` nothing at all.
pub proof fn lemma_empty_mask_removes_everything(detected: u32, compile_time: u32)
    ensures
        detected & 0 == 0,
        (detected & 0) | compile_time == compile_time,
{
    assert(detected & 0 == 0 && (detected & 0) | compile_time == compile_time) by (bit_vector);
}

} // verus!
