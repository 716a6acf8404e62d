//! CPU identification: decoding of CPUID leaves into feature flags and the check of the
//! features the system requires.
use vstd::prelude::*;

verus! {

/// Registers returned by one CPUID query.
#[derive(Copy, Clone, PartialEq, Eq, Structural, Debug)]
pub struct Cpuid {
    pub eax: u32,
    pub ebx: u32,
    pub ecx: u32,
    pub edx: u32,
}

#[derive(Copy, Clone, PartialEq, Eq, Structural, Debug)]
pub struct CpuFeatures {
    pub fpu: bool,
    pub vme: bool,
    pub de: bool,
    pub pse: bool,
    pub tsc: bool,
    pub mmx: bool,
    pub fxsr: bool,
    pub sse: bool,
    pub sse2: bool,
    pub htt: bool,
    pub sse3: bool,
    pub ssse3: bool,
    pub sse4_1: bool,
    pub sse4_2: bool,
    pub x2apic: bool,
    pub aesni: bool,
    pub xsave: bool,
    pub avx: bool,
    pub avx2: bool,
    pub fma: bool,
    pub apic: bool,
    pub vmx: bool,
    pub svm: bool,
    pub lahf: bool,
    pub lzcnt: bool,
    pub prefetchw: bool,
    pub syscall: bool,
    pub xd: bool,
    pub rdtscp: bool,
    pub bits64: bool,
    pub avx512f: bool,
    pub page2m: bool,
    pub page1g: bool,
}

/// Bit `n` of `x`.
pub open spec fn bit(x: u32, n: u32) -> bool {
    (x >> n) & 1 == 1
}

fn get_bit(x: u32, n: u32) -> (r: bool)
    requires
        n < 32,
    ensures
        r == bit(x, n),
{
    (x >> n) & 1 == 1
}

/// The features reported by the standard leaves 0, 1 and 7 and the extended leaves
/// 0x8000_0000 and 0x8000_0001. A leaf is only consulted when leaf 0 (or 0x8000_0000 for the
/// extended ones) reports it to exist; features of a missing leaf are absent.
pub open spec fn spec_features(leaf_0: Cpuid, leaf_1: Cpuid, leaf_7: Cpuid, ext_0: Cpuid, ext_1: Cpuid) -> CpuFeatures {
    let s1 = leaf_0.eax >= 1;
    let s7 = leaf_0.eax >= 7;
    let e1 = ext_0.eax >= 0x8000_0001;
    CpuFeatures {
        fpu: s1 && bit(leaf_1.edx, 0),
        vme: s1 && bit(leaf_1.edx, 1),
        de: s1 && bit(leaf_1.edx, 2),
        pse: s1 && bit(leaf_1.edx, 3),
        page2m: s1 && bit(leaf_1.edx, 3),
        tsc: s1 && bit(leaf_1.edx, 4),
        apic: s1 && bit(leaf_1.edx, 9),
        mmx: s1 && bit(leaf_1.edx, 23),
        fxsr: s1 && bit(leaf_1.edx, 24),
        sse: s1 && bit(leaf_1.edx, 25),
        sse2: s1 && bit(leaf_1.edx, 26),
        htt: s1 && bit(leaf_1.edx, 28),
        sse3: s1 && bit(leaf_1.ecx, 0),
        vmx: s1 && bit(leaf_1.ecx, 5),
        ssse3: s1 && bit(leaf_1.ecx, 9),
        fma: s1 && bit(leaf_1.ecx, 12),
        sse4_1: s1 && bit(leaf_1.ecx, 19),
        sse4_2: s1 && bit(leaf_1.ecx, 20),
        x2apic: s1 && bit(leaf_1.ecx, 21),
        aesni: s1 && bit(leaf_1.ecx, 25),
        xsave: s1 && bit(leaf_1.ecx, 26),
        avx: s1 && bit(leaf_1.ecx, 28),
        avx2: s7 && bit(leaf_7.ebx, 5),
        avx512f: s7 && bit(leaf_7.ebx, 16),
        lahf: e1 && bit(ext_1.ecx, 0),
        svm: e1 && bit(ext_1.ecx, 2),
        lzcnt: e1 && bit(ext_1.ecx, 5),
        prefetchw: e1 && bit(ext_1.ecx, 8),
        syscall: e1 && bit(ext_1.edx, 11),
        xd: e1 && bit(ext_1.edx, 20),
        page1g: e1 && bit(ext_1.edx, 26),
        rdtscp: e1 && bit(ext_1.edx, 27),
        bits64: e1 && bit(ext_1.edx, 29),
    }
}

/// Decode the CPU features from the CPUID leaves 0, 1, 7, 0x8000_0000 and 0x8000_0001.
pub fn get_features(leaf_0: Cpuid, leaf_1: Cpuid, leaf_7: Cpuid, ext_0: Cpuid, ext_1: Cpuid) -> (f: CpuFeatures)
    ensures
        f == spec_features(leaf_0, leaf_1, leaf_7, ext_0, ext_1),
{
    let max_cpuid = leaf_0.eax;
    let max_extended_cpuid = ext_0.eax;

    let s1 = max_cpuid >= 1;
    let s7 = max_cpuid >= 7;
    let e1 = max_extended_cpuid >= 0x80000001;

    CpuFeatures {
        fpu: s1 && get_bit(leaf_1.edx, 0),
        vme: s1 && get_bit(leaf_1.edx, 1),
        de: s1 && get_bit(leaf_1.edx, 2),
        pse: s1 && get_bit(leaf_1.edx, 3),
        page2m: s1 && get_bit(leaf_1.edx, 3),
        tsc: s1 && get_bit(leaf_1.edx, 4),
        apic: s1 && get_bit(leaf_1.edx, 9),
        mmx: s1 && get_bit(leaf_1.edx, 23),
        fxsr: s1 && get_bit(leaf_1.edx, 24),
        sse: s1 && get_bit(leaf_1.edx, 25),
        sse2: s1 && get_bit(leaf_1.edx, 26),
        htt: s1 && get_bit(leaf_1.edx, 28),
        sse3: s1 && get_bit(leaf_1.ecx, 0),
        vmx: s1 && get_bit(leaf_1.ecx, 5),
        ssse3: s1 && get_bit(leaf_1.ecx, 9),
        fma: s1 && get_bit(leaf_1.ecx, 12),
        sse4_1: s1 && get_bit(leaf_1.ecx, 19),
        sse4_2: s1 && get_bit(leaf_1.ecx, 20),
        x2apic: s1 && get_bit(leaf_1.ecx, 21),
        aesni: s1 && get_bit(leaf_1.ecx, 25),
        xsave: s1 && get_bit(leaf_1.ecx, 26),
        avx: s1 && get_bit(leaf_1.ecx, 28),
        avx2: s7 && get_bit(leaf_7.ebx, 5),
        avx512f: s7 && get_bit(leaf_7.ebx, 16),
        lahf: e1 && get_bit(ext_1.ecx, 0),
        svm: e1 && get_bit(ext_1.ecx, 2),
        lzcnt: e1 && get_bit(ext_1.ecx, 5),
        prefetchw: e1 && get_bit(ext_1.ecx, 8),
        syscall: e1 && get_bit(ext_1.edx, 11),
        xd: e1 && get_bit(ext_1.edx, 20),
        page1g: e1 && get_bit(ext_1.edx, 26),
        rdtscp: e1 && get_bit(ext_1.edx, 27),
        bits64: e1 && get_bit(ext_1.edx, 29),
    }
}

/// The features the system requires, by name, in the order they are checked.
pub open spec fn required_features(f: CpuFeatures) -> Seq<(bool, &'static str)> {
    seq![
        (f.fpu, "fpu"),
        (f.tsc, "tsc"),
        (f.mmx, "mmx"),
        (f.sse, "sse"),
        (f.sse2, "sse2"),
        (f.sse3, "sse3"),
        (f.ssse3, "ssse3"),
        (f.sse4_1, "sse4_1"),
        (f.sse4_2, "sse4_2"),
        (f.xsave, "xsave"),
        (f.avx, "avx"),
        (f.avx2, "avx2"),
        (f.fma, "fma"),
        (f.apic, "apic"),
        (f.xd, "xd"),
        (f.bits64, "bits64"),
        (f.page2m, "page2m"),
    ]
}

/// Check that the CPU supports every feature the system requires. Reports the name of the
/// first required feature that is missing.
pub fn verify_cpu(features: &CpuFeatures) -> (r: Result<(), &'static str>)
    ensures
        r is Ok <==> forall|i: int| 0 <= i < required_features(*features).len() ==> (#[trigger] required_features(*features)[i]).0,
        r matches Err(name) ==> exists|i: int| {
            &&& 0 <= i < required_features(*features).len()
            &&& !required_features(*features)[i].0
            &&& required_features(*features)[i].1 == name
            &&& forall|j: int| 0 <= j < i ==> (#[trigger] required_features(*features)[j]).0
        },
{
    let required: [(bool, &'static str); 17] = [
        (features.fpu, "fpu"),
        (features.tsc, "tsc"),
        (features.mmx, "mmx"),
        (features.sse, "sse"),
        (features.sse2, "sse2"),
        (features.sse3, "sse3"),
        (features.ssse3, "ssse3"),
        (features.sse4_1, "sse4_1"),
        (features.sse4_2, "sse4_2"),
        (features.xsave, "xsave"),
        (features.avx, "avx"),
        (features.avx2, "avx2"),
        (features.fma, "fma"),
        (features.apic, "apic"),
        (features.xd, "xd"),
        (features.bits64, "bits64"),
        (features.page2m, "page2m"),
    ];
    proof {
        assert(required@ =~= required_features(*features));
    }
    let mut i: usize = 0;
    while i < 17
        invariant
            i <= 17,
            required@ == required_features(*features),
            forall|j: int| 0 <= j < i ==> (#[trigger] required_features(*features)[j]).0,
        decreases 17 - i,
    {
        let (present, name) = required[i];
        if !present {
            return Err(name);
        }
        i += 1;
    }
    Ok(())
}

} // verus!
