//! SVM feature detection, the decision whether SVM can be enabled, and address space
//! identifier allocation.
use vstd::prelude::*;
use crate::cpu::Cpuid;
use super::VmError;

verus! {

/// What the processor says about SVM: whether this core already enabled it (its host save
/// area exists), the CPUID vendor string, whether CPUID reports SVM, and the VM_CR MSR.
#[derive(Copy, Clone, Debug)]
pub struct SvmSupport {
    pub already_enabled: bool,
    pub vendor: [u8; 12],
    pub svm: bool,
    pub vm_cr: u64,
}

/// The vendor string `AuthenticAMD`.
pub open spec fn amd_vendor() -> Seq<u8> {
    seq![0x41u8, 0x75, 0x74, 0x68, 0x65, 0x6e, 0x74, 0x69, 0x63, 0x41, 0x4d, 0x44]
}

/// Whether SVM can be enabled: yes when already enabled; else the CPU must be an AMD one,
/// report SVM, and not have it disabled in VM_CR (bit 4).
pub open spec fn svm_decision(s: SvmSupport) -> Result<(), VmError> {
    if s.already_enabled {
        Ok(())
    } else if s.vendor@ != amd_vendor() {
        Err(VmError::NonAmdCpu)
    } else if !s.svm {
        Err(VmError::SvmNotSupported)
    } else if s.vm_cr & 0x10 != 0 {
        Err(VmError::SvmDisabled)
    } else {
        Ok(())
    }
}

/// Decide whether SVM can be enabled on this core.
pub fn check_svm(support: &SvmSupport) -> (r: Result<(), VmError>)
    ensures
        r == svm_decision(*support),
{
    if support.already_enabled {
        return Ok(());
    }
    let amd: [u8; 12] = [0x41, 0x75, 0x74, 0x68, 0x65, 0x6e, 0x74, 0x69, 0x63, 0x41, 0x4d, 0x44];
    assert(amd@ =~= amd_vendor());
    let mut i: usize = 0;
    while i < 12
        invariant
            i <= 12,
            !support.already_enabled,
            amd@ == amd_vendor(),
            forall|j: int| 0 <= j < i ==> support.vendor@[j] == amd@[j],
        decreases 12 - i,
    {
        if support.vendor[i] != amd[i] {
            assert(support.vendor@[i as int] != amd_vendor()[i as int]);
            proof {
                if support.vendor@ == amd_vendor() {
                    assert(support.vendor@[i as int] == amd_vendor()[i as int]);
                }
            }
            return Err(VmError::NonAmdCpu);
        }
        i += 1;
    }
    assert(support.vendor@ =~= amd_vendor());
    if !support.svm {
        return Err(VmError::SvmNotSupported);
    }
    if support.vm_cr & 0x10 != 0 {
        return Err(VmError::SvmDisabled);
    }
    Ok(())
}

#[derive(Copy, Clone, PartialEq, Eq, Structural, Debug)]
pub struct SvmFeatures {
    pub nr_asids: u32,
    pub decode_assists: bool,
    pub nrip_save: bool,
    pub nested_paging: bool,
    pub vmcb_clean: bool,
    pub flush_by_asid: bool,
}

impl SvmFeatures {
    /// Decode the SVM features from whether the CPU supports SVM at all and from CPUID leaf
    /// 0x8000_000a. Without SVM every feature is absent.
    pub fn get(svm_supported: bool, leaf: Cpuid) -> (f: Self)
        ensures
            !svm_supported ==> f == (SvmFeatures {
                nr_asids: 0,
                decode_assists: false,
                nrip_save: false,
                nested_paging: false,
                vmcb_clean: false,
                flush_by_asid: false,
            }),
            svm_supported ==> f == (SvmFeatures {
                nr_asids: leaf.ebx,
                decode_assists: leaf.edx & (1u32 << 7u32) != 0,
                nrip_save: leaf.edx & (1u32 << 3u32) != 0,
                nested_paging: leaf.edx & 1 != 0,
                vmcb_clean: leaf.edx & (1u32 << 5u32) != 0,
                flush_by_asid: leaf.edx & (1u32 << 6u32) != 0,
            }),
    {
        let mut features = SvmFeatures {
            nr_asids: 0,
            decode_assists: false,
            nrip_save: false,
            nested_paging: false,
            vmcb_clean: false,
            flush_by_asid: false,
        };

        if !svm_supported {
            return features;
        }

        features.nr_asids = leaf.ebx;
        features.decode_assists = (leaf.edx & (1 << 7)) != 0;
        features.vmcb_clean = (leaf.edx & (1 << 5)) != 0;
        features.flush_by_asid = (leaf.edx & (1 << 6)) != 0;
        features.nrip_save = (leaf.edx & (1 << 3)) != 0;
        features.nested_paging = (leaf.edx & 1) != 0;

        features
    }
}

/// Maximum number of virtual machines that can exist at the same time.
pub const MAX_CONCURRENT_VMS: usize = 2048;

/// Number of 64 bit words in the ASID bitmap.
pub const ASID_WORDS: usize = 32;

/// Bit `bit` of `word`.
pub open spec fn bit_set(word: u64, bit: u64) -> bool {
    (word >> bit) & 1 == 1
}

/// ASID `a` (1 based) is in use according to `bitmap`: ASID `a` owns bit `(a - 1) % 64` of
/// word `(a - 1) / 64`.
pub open spec fn asid_used(bitmap: Seq<u64>, a: int) -> bool {
    1 <= a <= MAX_CONCURRENT_VMS && bit_set(bitmap[(a - 1) / 64], ((a - 1) % 64) as u64)
}

/// Bit `b` of an empty word is clear and bit `b` of a full word is set.
proof fn lemma_word_bits(b: u64)
    by (bit_vector)
    requires
        b < 64,
    ensures
        (0u64 >> b) & 1 == 0,
        (0xffff_ffff_ffff_ffffu64 >> b) & 1 == 1,
{
}

/// Bitmap of the ASIDs in use. ASID 0 belongs to the host and is never handed out.
pub struct AsidBitmap {
    entries: Vec<u64>,
}

impl View for AsidBitmap {
    type V = Seq<u64>;

    closed spec fn view(&self) -> Seq<u64> {
        self.entries@
    }
}

impl AsidBitmap {
    pub open spec fn wf(&self) -> bool {
        self@.len() == ASID_WORDS
    }

    /// A bitmap with no ASID in use.
    pub fn new() -> (r: Self)
        ensures
            r.wf(),
            forall|a: int| !asid_used(r@, a),
    {
        let mut entries: Vec<u64> = Vec::new();
        let mut i: usize = 0;
        while i < ASID_WORDS
            invariant
                i <= ASID_WORDS,
                entries@.len() == i,
                forall|j: int| 0 <= j < i ==> entries@[j] == 0,
            decreases ASID_WORDS - i,
        {
            entries.push(0);
            i += 1;
        }
        let r = Self { entries };
        assert forall|a: int| !asid_used(r@, a) by {
            if 1 <= a <= MAX_CONCURRENT_VMS {
                let b = ((a - 1) % 64) as u64;
                lemma_word_bits(b);
            }
        }
        r
    }
}

/// An address space identifier for a guest.
/// What taking an ASID below `nr_asids` does to the bitmap: the lowest free one, `r`, is
/// taken, or, when every one below the limit is in use, nothing changes and `r` is `None`.
pub open spec fn asid_take_outcome(before: Seq<u64>, after: Seq<u64>, nr_asids: u32, r: Option<u32>) -> bool {
    match r {
        Some(a) => {
            &&& 1 <= a < nr_asids
            &&& !asid_used(before, a as int)
            &&& forall|b: int| 1 <= b < a ==> asid_used(before, b)
            &&& forall|b: int| asid_used(after, b) <==> (asid_used(before, b) || b == a)
        },
        None => {
            &&& after == before
            &&& forall|b: int| 1 <= b < nr_asids && b <= MAX_CONCURRENT_VMS ==> asid_used(before, b)
        },
    }
}

/// What releasing the ASID `a` does to the bitmap.
pub open spec fn asid_release_outcome(before: Seq<u64>, after: Seq<u64>, a: int) -> bool {
    forall|b: int| asid_used(after, b) <==> (asid_used(before, b) && b != a)
}

/// ASIDs are handed out lowest first and never 0, none is handed out past the limit, and a
/// released ASID is the next one handed out.
pub proof fn lemma_asid_reuse(
    m0: Seq<u64>,
    m1: Seq<u64>,
    m2: Seq<u64>,
    m3: Seq<u64>,
    m4: Seq<u64>,
    nr_asids: u32,
    a: u32,
    b: u32,
    c: u32,
    m2b: Seq<u64>,
    r: Option<u32>,
)
    requires
        forall|x: int| !asid_used(m0, x),
        asid_take_outcome(m0, m1, nr_asids, Some(a)),
        asid_take_outcome(m1, m2, nr_asids, Some(b)),
        asid_take_outcome(m2, m2b, 2, r),
        asid_release_outcome(m2, m3, a as int),
        asid_take_outcome(m3, m4, nr_asids, Some(c)),
    ensures
        a == 1,
        b == 2,
        r is None,
        c == 1,
{
    if a > 1 {
        assert(asid_used(m0, 1));
    }
    assert(asid_used(m1, 1));
    if b > 2 {
        assert(asid_used(m1, 2));
    }
    assert(b != 1);
    if r is Some {
        assert(asid_used(m2, 1));
    }
    assert(!asid_used(m3, 1));
    if c > 1 {
        assert(asid_used(m3, 1));
    }
}

pub struct Asid(u32);

impl Asid {
    pub closed spec fn value(&self) -> u32 {
        self.0
    }

    /// Take the lowest free ASID, provided that it is below `nr_asids`.
    pub fn new(bitmap: &mut AsidBitmap, nr_asids: u32) -> (r: Option<Self>)
        requires
            old(bitmap).wf(),
        ensures
            final(bitmap).wf(),
            match r {
                Some(asid) => {
                    let a = asid.value() as int;
                    &&& 1 <= a < nr_asids
                    &&& !asid_used(old(bitmap)@, a)
                    &&& forall|b: int| 1 <= b < a ==> asid_used(old(bitmap)@, b)
                    &&& forall|b: int| asid_used(final(bitmap)@, b) <==> (asid_used(old(bitmap)@, b) || b == a)
                },
                None => {
                    &&& final(bitmap)@ == old(bitmap)@
                    &&& forall|b: int| 1 <= b < nr_asids && b <= MAX_CONCURRENT_VMS ==> asid_used(old(bitmap)@, b)
                },
            },
            asid_take_outcome(old(bitmap)@, final(bitmap)@, nr_asids, match r {
                Some(asid) => Some(asid.value()),
                None => None,
            }),
    {
        let ghost old_map = bitmap@;
        let mut index: usize = 0;
        while index < ASID_WORDS
            invariant
                index <= ASID_WORDS,
                bitmap@ == old_map,
                old(bitmap)@ == old_map,
                bitmap.wf(),
                forall|b: int| 1 <= b <= index * 64 ==> asid_used(old_map, b),
            decreases ASID_WORDS - index,
        {
            let entry = bitmap.entries[index];

            // Skip full entries.
            if entry != 0xffff_ffff_ffff_ffff {
                let mut bit: u64 = 0;
                proof {
                    crate::hpet::lemma_no_shift(entry);
                }
                while bit < 64
                    invariant
                        bit <= 64,
                        index < ASID_WORDS,
                        entry == old_map[index as int],
                        entry != 0xffff_ffff_ffff_ffff,
                        bitmap@ == old_map,
                        old(bitmap)@ == old_map,
                        bitmap.wf(),
                        forall|b: int| 1 <= b <= index * 64 ==> asid_used(old_map, b),
                        forall|j: u64| j < bit ==> bit_set(entry, j),
                        bit < 64 ==> entry & (((1u64 << bit) - 1) as u64) == (((1u64 << bit) - 1) as u64),
                        bit == 64 ==> entry == 0xffff_ffff_ffff_ffff,
                    decreases 64 - bit,
                {
                    if (entry >> bit) & 1 == 0 {
                        // Take this ASID if it is usable.
                        let asid = (index as u64 * 64 + bit + 1) as u32;
                        proof {
                            assert forall|b: int| 1 <= b < asid implies asid_used(old_map, b) by {
                                if b > index * 64 {
                                    assert((b - 1) / 64 == index);
                                    assert((((b - 1) % 64) as u64) < bit);
                                }
                            }
                            assert((asid - 1) / 64 == index);
                            assert((asid - 1) % 64 == bit);
                        }
                        if asid < nr_asids {
                            let new_entry = entry | (1u64 << bit);
                            bitmap.entries.set(index, new_entry);
                            proof {
                                assert forall|j: u64| j < 64 implies bit_set(new_entry, j) == (bit_set(entry, j) || j == bit) by {
                                    assert(bit_set(entry | (1u64 << bit), j) == (bit_set(entry, j) || j == bit)) by (bit_vector)
                                        requires
                                            j < 64,
                                            bit < 64,
                                    ;
                                }
                                assert forall|b: int| asid_used(bitmap@, b) <==> (asid_used(old_map, b) || b == asid) by {
                                    if 1 <= b <= MAX_CONCURRENT_VMS {
                                        let w = (b - 1) / 64;
                                        let k = ((b - 1) % 64) as u64;
                                        if w == index {
                                            assert(bit_set(new_entry, k) == (bit_set(entry, k) || k == bit));
                                        } else {
                                            assert(bitmap@[w] == old_map[w]);
                                        }
                                    }
                                }
                            }
                            return Some(Self(asid));
                        } else {
                            proof {
                                assert forall|b: int| 1 <= b < nr_asids && b <= MAX_CONCURRENT_VMS implies asid_used(old_map, b) by {}
                            }
                            return None;
                        }
                    }
                    proof {
                        assert((entry >> bit) & 1 != 0 ==> (entry >> bit) & 1 == 1 && ((entry & (((1u64 << bit) - 1) as u64)) == (((1u64 << bit) - 1) as u64)
                            && bit < 64 ==> (if bit < 63 {
                            (entry & (((1u64 << ((bit + 1) as u64)) - 1) as u64)) == (((1u64 << ((bit
                                + 1) as u64)) - 1) as u64)
                        } else {
                            entry == 0xffff_ffff_ffff_ffffu64
                        }))) by (bit_vector);
                    }
                    bit += 1;
                }
            }
            proof {
                assert forall|b: int| 1 <= b <= (index + 1) * 64 implies asid_used(old_map, b) by {
                    if b > index * 64 {
                        assert((b - 1) / 64 == index);
                        let k = ((b - 1) % 64) as u64;
                        lemma_word_bits(k);
                    }
                }
            }
            index += 1;
        }

        None
    }

    pub fn get(&self) -> (r: u32)
        ensures
            r == self.value(),
    {
        self.0
    }

    /// Return the ASID to the bitmap.
    pub fn release(self, bitmap: &mut AsidBitmap)
        requires
            old(bitmap).wf(),
            1 <= self.value() <= MAX_CONCURRENT_VMS,
            asid_used(old(bitmap)@, self.value() as int),
        ensures
            final(bitmap).wf(),
            forall|b: int| asid_used(final(bitmap)@, b) <==> (asid_used(old(bitmap)@, b) && b != self.value()),
            asid_release_outcome(old(bitmap)@, final(bitmap)@, self.value() as int),
    {
        let asid = self.0;
        let value = (asid - 1) as usize;
        let index = value / 64;
        let bit = (value % 64) as u64;

        let entry = bitmap.entries[index];
        let new_entry = entry & !(1u64 << bit);
        bitmap.entries.set(index, new_entry);
        proof {
            let ghost old_map = old(bitmap)@;
            assert forall|j: u64| j < 64 implies bit_set(new_entry, j) == (bit_set(entry, j) && j != bit) by {
                assert(bit_set(entry & !(1u64 << bit), j) == (bit_set(entry, j) && j != bit)) by (bit_vector)
                    requires
                        j < 64,
                        bit < 64,
                ;
            }
            assert forall|b: int| asid_used(bitmap@, b) <==> (asid_used(old_map, b) && b != asid) by {
                if 1 <= b <= MAX_CONCURRENT_VMS {
                    let w = (b - 1) / 64;
                    let k = ((b - 1) % 64) as u64;
                    if w == index {
                        assert(bit_set(new_entry, k) == (bit_set(entry, k) && k != bit));
                    } else {
                        assert(bitmap@[w] == old_map[w]);
                    }
                }
            }
        }
    }
}

} // verus!
