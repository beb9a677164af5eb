use wpd::cpu::{CpuFlags, AVX2, NEON, SSE2};
use wpd::dispatch::{selection, Kernel, Ladder};

#[test]
fn sse2_picks_the_sse2_kernels_everywhere() {
    let s = selection(Ladder::X86_64, CpuFlags::from_bits(SSE2));
    assert_eq!(s.import_row_expand, Kernel::Sse2);
    assert_eq!(s.import_row_shrink, Kernel::Sse2);
    assert_eq!(s.export_row_expand, Kernel::Sse2);
    assert_eq!(s.export_row_shrink, Kernel::Sse2);
}

#[test]
fn avx2_replaces_only_the_exporters() {
    let s = selection(Ladder::X86_64, CpuFlags::from_bits(SSE2 | AVX2));
    assert_eq!(s.import_row_expand, Kernel::Sse2);
    assert_eq!(s.import_row_shrink, Kernel::Sse2);
    assert_eq!(s.export_row_expand, Kernel::Avx2);
    assert_eq!(s.export_row_shrink, Kernel::Avx2);
}

#[test]
fn no_features_keeps_the_scalar_kernels() {
    let s = selection(Ladder::X86_64, CpuFlags::from_bits(0));
    assert_eq!(s.import_row_expand, Kernel::Scalar);
    assert_eq!(s.export_row_shrink, Kernel::Scalar);
    let s = selection(Ladder::Scalar, CpuFlags::from_bits(u32::MAX));
    assert_eq!(s.export_row_expand, Kernel::Scalar);
}

#[test]
fn neon_picks_the_neon_kernels() {
    let s = selection(Ladder::Aarch64, CpuFlags::from_bits(NEON));
    assert_eq!(s.import_row_expand, Kernel::Neon);
    assert_eq!(s.export_row_shrink, Kernel::Neon);
}
