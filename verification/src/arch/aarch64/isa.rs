//! What the processor says of itself, and whether the kernel can run on it.
use vstd::prelude::*;

verus! {

/// The page sizes the processor can translate.
#[derive(Debug, Clone, Copy, PartialEq, Eq, Structural)]
pub struct Granules {
    pub k4: bool,
    pub k16: bool,
    pub k64: bool,
}

/// What the processor says of itself.
#[derive(Debug, Clone, Copy, PartialEq, Eq, Structural)]
pub struct Isa {
    pub implementer: u8,
    pub part: u16,
    pub variant: u8,
    pub revision: u8,
    pub pa_range: u8,
    pub va_bits: u8,
    /// The width of an address-space number; `None` if the processor gives no known answer.
    pub asid_bits: Option<u8>,
    pub granules: Granules,
}

/// What the kernel needs and the processor lacks.
#[derive(Debug, Clone, Copy, PartialEq, Eq, Structural)]
pub struct Missing {
    pub granule_4k: bool,
    pub asid_bits: bool,
}

/// What the kernel needs and `cpu` lacks.
pub fn missing_requirements(cpu: &Isa) -> (m: Missing)
    ensures
        m.granule_4k == !cpu.granules.k4,
        m.asid_bits == (cpu.asid_bits is None),
{
    Missing { granule_4k: !cpu.granules.k4, asid_bits: cpu.asid_bits.is_none() }
}

/// **Keep what the processor said, or refuse to run on it.**
pub fn init(record: &mut Option<Isa>, cpu: Isa) -> (r: Result<(), Missing>)
    ensures
        if cpu.granules.k4 && cpu.asid_bits is Some {
            r is Ok && *final(record) == Some(cpu)
        } else {
            &&& r matches Err(m) && m.granule_4k == !cpu.granules.k4 && m.asid_bits == (
            cpu.asid_bits is None)
            &&& *final(record) == *old(record)
        },
{
    let missing = missing_requirements(&cpu);
    if missing.granule_4k || missing.asid_bits {
        return Err(missing);
    }
    *record = Some(cpu);
    Ok(())
}

/// What the processor said. [`init`] has to have kept it.
pub fn get(record: &Option<Isa>) -> (cpu: Isa)
    requires
        *record is Some,
    ensures
        Some(cpu) == *record,
{
    match record {
        Some(cpu) => *cpu,
        None => {
            assert(false);
            Isa {
                implementer: 0,
                part: 0,
                variant: 0,
                revision: 0,
                pa_range: 0,
                va_bits: 0,
                asid_bits: None,
                granules: Granules { k4: false, k16: false, k64: false },
            }
        },
    }
}

} // verus!
