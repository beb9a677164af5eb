use wpd::cpu::{
    arm_flags, detected_and_masked, flags, hwcap_of, init, set_mask, Arch, CpuFlags, CpuState, TargetFeatures, AVX2, DOTPROD, I8MM, NEON, SSE, SSE2, SSE41, SSSE3, Detected,
};

fn x86(sse: bool, sse2: bool, ssse3: bool, sse41: bool, avx2: bool) -> TargetFeatures {
    TargetFeatures {
        arch: Arch::X86,
        sse,
        sse2,
        ssse3,
        sse41,
        avx2,
        neon: false,
        dotprod: false,
        i8mm: false,
        armv6: false,
    }
}

#[test]
fn compile_time_levels_imply_lower_ones() {
    for t in [
        x86(false, false, false, false, false),
        x86(true, false, false, false, false),
        x86(true, true, false, false, false),
        x86(true, true, true, false, false),
        x86(true, true, true, true, false),
        x86(true, true, true, true, true),
    ] {
        let f = CpuFlags::compile_time(t);
        if f.contains(CpuFlags::from_bits(AVX2)) {
            assert!(f.contains(CpuFlags::from_bits(SSE41)));
        }
        if f.contains(CpuFlags::from_bits(SSE41)) {
            assert!(f.contains(CpuFlags::from_bits(SSSE3)));
        }
        if f.contains(CpuFlags::from_bits(SSSE3)) {
            assert!(f.contains(CpuFlags::from_bits(SSE2)));
        }
        if f.contains(CpuFlags::from_bits(SSE2)) {
            assert!(f.contains(CpuFlags::from_bits(SSE)));
        }
    }
}

#[test]
fn detection_is_a_superset_of_the_compile_time_baseline() {
    // The binary is running, so every feature it was built for exists.
    let t = x86(true, true, true, false, false);
    let running = Detected {
        sse: true,
        sse2: true,
        ssse3: false,
        sse41: true,
        avx2: true,
        bmi1: true,
        bmi2: false,
        neon: false,
        dotprod: false,
        i8mm: false,
        arm: 0,
    };
    let baseline = CpuFlags::compile_time(t);
    let detected = CpuFlags::detect(t, true, running);
    let mut state = CpuState::new();

    init(&mut state, detected);
    assert!(detected_and_masked(&state).contains(baseline));
    assert!(detected.contains(CpuFlags::from_bits(SSE41)));
    /* AVX2 counts only together with BMI1 and BMI2. */
    assert!(!detected.contains(CpuFlags::from_bits(AVX2)));
}

#[test]
fn mask_removes_features() {
    let mut state = CpuState::new();
    let ct = CpuFlags::compile_time(x86(true, true, false, false, false));

    init(&mut state, CpuFlags::from_bits(SSE | SSE2 | AVX2));
    set_mask(&mut state, 0);
    assert_eq!(flags(&state, false, ct), CpuFlags::none());
    assert_eq!(flags(&state, true, ct), ct);
    set_mask(&mut state, u32::MAX);
    assert_eq!(flags(&state, false, ct).bits(), SSE | SSE2 | AVX2);
}
