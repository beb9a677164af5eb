use wpd::cpu::{
    arm_flags, detected_and_masked, flags, hwcap_of, init, set_mask, Arch, CpuFlags, CpuState, TargetFeatures, AVX2, DOTPROD, I8MM, NEON, SSE, SSE2, SSE41, SSSE3, Detected,
};

fn x86(sse: bool, sse2: bool, ssse3: bool, sse41: bool, avx2: bool) -> TargetFeatures {
    TargetFeatures {
        arch: Arch::X86,
        sse,
        sse2,
        ssse3,
        sse41,
        avx2,
        neon: false,
        dotprod: false,
        i8mm: false,
        armv6: false,
    }
}

#[test]
fn cpu_compile_time_levels_imply_lower_ones() {
    for t in [
        x86(false, false, false, false, false),
        x86(true, false, false, false, false),
        x86(true, true, false, false, false),
        x86(true, true, true, false, false),
        x86(true, true, true, true, false),
        x86(true, true, true, true, true),
    ] {
        let f = CpuFlags::compile_time(t);
        if f.contains(CpuFlags::from_bits(AVX2)) {
            assert!(f.contains(CpuFlags::from_bits(SSE41)));
        }
        if f.contains(CpuFlags::from_bits(SSE41)) {
            assert!(f.contains(CpuFlags::from_bits(SSSE3)));
        }
        if f.contains(CpuFlags::from_bits(SSSE3)) {
            assert!(f.contains(CpuFlags::from_bits(SSE2)));
        }
        if f.contains(CpuFlags::from_bits(SSE2)) {
            assert!(f.contains(CpuFlags::from_bits(SSE)));
        }
    }
}

#[test]
fn cpu_detection_is_a_superset_of_the_compile_time_baseline() {
    // The binary is running, so every feature it was built for exists.
    let t = x86(true, true, true, false, false);
    let running = Detected {
        sse: true,
        sse2: true,
        ssse3: false,
        sse41: true,
        avx2: true,
        bmi1: true,
        bmi2: false,
        neon: false,
        dotprod: false,
        i8mm: false,
        arm: 0,
    };
    let baseline = CpuFlags::compile_time(t);
    let detected = CpuFlags::detect(t, true, running);
    let mut state = CpuState::new();

    init(&mut state, detected);
    assert!(detected_and_masked(&state).contains(baseline));
    assert!(detected.contains(CpuFlags::from_bits(SSE41)));
    /* AVX2 counts only together with BMI1 and BMI2. */
    assert!(!detected.contains(CpuFlags::from_bits(AVX2)));
}

#[test]
fn cpu_mask_removes_features() {
    let mut state = CpuState::new();
    let ct = CpuFlags::compile_time(x86(true, true, false, false, false));

    init(&mut state, CpuFlags::from_bits(SSE | SSE2 | AVX2));
    set_mask(&mut state, 0);
    assert_eq!(flags(&state, false, ct), CpuFlags::none());
    assert_eq!(flags(&state, true, ct), ct);
    set_mask(&mut state, u32::MAX);
    assert_eq!(flags(&state, false, ct).bits(), SSE | SSE2 | AVX2);
}

#[test]
fn a_partial_mask_keeps_only_what_it_names() {
    let mut state = CpuState::new();

    init(&mut state, CpuFlags::from_bits(SSE | SSE2 | SSSE3));
    set_mask(&mut state, SSE2 | AVX2);
    assert_eq!(detected_and_masked(&state).bits(), SSE2);
}

#[test]
fn the_auxiliary_vector_is_read_up_to_its_end_marker() {
    let mut aux = Vec::new();
    for (k, v) in [(6u32, 4096u32), (16, 0x1000 | 0x100_0000), (0, 0), (16, 0x800_0000)] {
        aux.extend_from_slice(&k.to_le_bytes());
        aux.extend_from_slice(&v.to_le_bytes());
    }
    assert_eq!(hwcap_of(&aux), 0x1000 | 0x100_0000);
    assert_eq!(arm_flags(Some(&aux)).bits(), NEON | DOTPROD);
    assert_eq!(arm_flags(None).bits(), 0);
    assert_eq!(arm_flags(Some(&aux[..0])).bits(), 0);
    let _ = I8MM;
}

#[test]
fn arm_builds_always_have_neon_on_aarch64() {
    let t = TargetFeatures {
        arch: Arch::Aarch64,
        sse: false,
        sse2: false,
        ssse3: false,
        sse41: false,
        avx2: false,
        neon: false,
        dotprod: true,
        i8mm: false,
        armv6: false,
    };
    assert_eq!(CpuFlags::compile_time(t).bits(), NEON | DOTPROD);
}

#[test]
fn without_the_kernels_nothing_is_detected() {
    let t = x86(true, true, false, false, false);
    let running = Detected {
        sse: true,
        sse2: true,
        ssse3: true,
        sse41: true,
        avx2: true,
        bmi1: true,
        bmi2: true,
        neon: false,
        dotprod: false,
        i8mm: false,
        arm: 0,
    };
    assert_eq!(CpuFlags::detect(t, false, running).bits(), 0);
}
