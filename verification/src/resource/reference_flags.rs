//! The flag bytes that ride with each reference from one resource to another,
//! in both encodings, and the packed words of the offset and reference tables.
//!
//! Every packed field is a plain integer here; the accessors divide and take
//! remainders, so no layout is left to the compiler.

use vstd::prelude::*;

verus! {

/// How strongly a resource depends on what it refers to.
#[allow(non_camel_case_types)]
#[derive(Debug, PartialEq, Eq, Structural, Clone, Copy)]
pub enum ReferenceType {
    INSTALL,
    NORMAL,
    WEAK,
}

impl ReferenceType {
    /// The two bits that store the type.
    pub open spec fn bits(self) -> u8 {
        match self {
            ReferenceType::INSTALL => 0,
            ReferenceType::NORMAL => 1,
            ReferenceType::WEAK => 2,
        }
    }

    /// The type that two bits stand for; the unused pattern reads as `NORMAL`.
    pub open spec fn of_bits(value: u8) -> ReferenceType {
        if value == 0 {
            ReferenceType::INSTALL
        } else if value == 2 {
            ReferenceType::WEAK
        } else {
            ReferenceType::NORMAL
        }
    }

    #[verifier::when_used_as_spec(bits)]
    pub fn into_bits(self) -> (r: u8)
        ensures
            r == self.bits(),
    {
        match self {
            ReferenceType::INSTALL => 0,
            ReferenceType::NORMAL => 1,
            ReferenceType::WEAK => 2,
        }
    }

    #[verifier::when_used_as_spec(of_bits)]
    pub fn from_bits(value: u8) -> (r: ReferenceType)
        ensures
            r == ReferenceType::of_bits(value),
    {
        if value == 0 {
            ReferenceType::INSTALL
        } else if value == 2 {
            ReferenceType::WEAK
        } else {
            ReferenceType::NORMAL
        }
    }
}

/// The legacy flag byte. Bit 1 is `runtime_acquired`, bit 2 `weak_reference`,
/// bit 4 `type_of_streaming_entity`, bit 5 `state_streamed`, bit 6
/// `media_streamed`, bit 7 `install_dependency`; bits 0 and 3 carry nothing.
#[derive(Debug, PartialEq, Eq, Structural, Clone, Copy)]
pub struct ResourceReferenceFlagsV1 {
    pub bits: u8,
}

impl ResourceReferenceFlagsV1 {
    pub open spec fn acquired_bit(&self) -> bool {
        self.bits / 2 % 2 == 1
    }

    pub open spec fn weak_bit(&self) -> bool {
        self.bits / 4 % 2 == 1
    }

    pub open spec fn streaming_entity_bit(&self) -> bool {
        self.bits / 16 % 2 == 1
    }

    pub open spec fn state_streamed_bit(&self) -> bool {
        self.bits / 32 % 2 == 1
    }

    pub open spec fn media_streamed_bit(&self) -> bool {
        self.bits / 64 % 2 == 1
    }

    pub open spec fn install_bit(&self) -> bool {
        self.bits >= 128
    }

    /// The byte with every flag clear.
    pub fn new() -> (r: Self)
        ensures
            r.bits == 0,
    {
        Self { bits: 0 }
    }

    pub fn from_bits(bits: u8) -> (r: Self)
        ensures
            r.bits == bits,
    {
        Self { bits }
    }

    pub fn into_bits(self) -> (r: u8)
        ensures
            r == self.bits,
    {
        self.bits
    }

    #[verifier::when_used_as_spec(acquired_bit)]
    pub fn runtime_acquired(&self) -> (r: bool)
        ensures
            r == self.acquired_bit(),
    {
        self.bits / 2 % 2 == 1
    }

    #[verifier::when_used_as_spec(weak_bit)]
    pub fn weak_reference(&self) -> (r: bool)
        ensures
            r == self.weak_bit(),
    {
        self.bits / 4 % 2 == 1
    }

    #[verifier::when_used_as_spec(streaming_entity_bit)]
    pub fn type_of_streaming_entity(&self) -> (r: bool)
        ensures
            r == self.streaming_entity_bit(),
    {
        self.bits / 16 % 2 == 1
    }

    #[verifier::when_used_as_spec(state_streamed_bit)]
    pub fn state_streamed(&self) -> (r: bool)
        ensures
            r == self.state_streamed_bit(),
    {
        self.bits / 32 % 2 == 1
    }

    #[verifier::when_used_as_spec(media_streamed_bit)]
    pub fn media_streamed(&self) -> (r: bool)
        ensures
            r == self.media_streamed_bit(),
    {
        self.bits / 64 % 2 == 1
    }

    #[verifier::when_used_as_spec(install_bit)]
    pub fn install_dependency(&self) -> (r: bool)
        ensures
            r == self.install_bit(),
    {
        self.bits >= 128
    }

    /// The same byte with `runtime_acquired` set to `value`.
    pub fn with_runtime_acquired(self, value: bool) -> (r: Self)
        ensures
            r.bits == self.bits - (if self.acquired_bit() { 2int } else { 0 }) + (if value { 2int } else { 0 }),
            r.acquired_bit() == value,
            r.weak_bit() == self.weak_bit(),
            r.install_bit() == self.install_bit(),
    {
        let cleared: u8 = if self.runtime_acquired() {
            self.bits - 2
        } else {
            self.bits
        };
        Self { bits: if value { cleared + 2 } else { cleared } }
    }

    /// The same byte with `weak_reference` set to `value`.
    pub fn with_weak_reference(self, value: bool) -> (r: Self)
        ensures
            r.bits == self.bits - (if self.weak_bit() { 4int } else { 0 }) + (if value { 4int } else { 0 }),
            r.weak_bit() == value,
            r.acquired_bit() == self.acquired_bit(),
            r.install_bit() == self.install_bit(),
    {
        let cleared: u8 = if self.weak_reference() {
            self.bits - 4
        } else {
            self.bits
        };
        Self { bits: if value { cleared + 4 } else { cleared } }
    }

    /// The same byte with `install_dependency` set to `value`.
    pub fn with_install_dependency(self, value: bool) -> (r: Self)
        ensures
            r.bits == self.bits - (if self.install_bit() { 128int } else { 0 }) + (if value { 128int } else { 0 }),
            r.install_bit() == value,
            r.acquired_bit() == self.acquired_bit(),
            r.weak_bit() == self.weak_bit(),
    {
        let cleared: u8 = if self.install_dependency() {
            self.bits - 128
        } else {
            self.bits
        };
        Self { bits: if value { cleared + 128 } else { cleared } }
    }
}

/// The new flag byte: the language code in bits 0 to 4, `runtime_acquired` in
/// bit 5, the reference type in bits 6 and 7.
#[derive(Debug, PartialEq, Eq, Structural, Clone, Copy)]
pub struct ResourceReferenceFlagsV2 {
    pub bits: u8,
}

impl ResourceReferenceFlagsV2 {
    pub open spec fn language_bits(&self) -> u8 {
        (self.bits % 32) as u8
    }

    pub open spec fn acquired_bit(&self) -> bool {
        self.bits / 32 % 2 == 1
    }

    pub open spec fn type_bits(&self) -> ReferenceType {
        ReferenceType::of_bits((self.bits / 64) as u8)
    }

    /// The byte of a reference in no language, not acquired, of type `INSTALL`.
    pub fn new() -> (r: Self)
        ensures
            r.bits == 0x1F,
    {
        Self { bits: 0x1F }
    }

    pub fn from_bits(bits: u8) -> (r: Self)
        ensures
            r.bits == bits,
    {
        Self { bits }
    }

    pub fn into_bits(self) -> (r: u8)
        ensures
            r == self.bits,
    {
        self.bits
    }

    #[verifier::when_used_as_spec(language_bits)]
    pub fn language_code(&self) -> (r: u8)
        ensures
            r == self.language_bits(),
    {
        self.bits % 32
    }

    #[verifier::when_used_as_spec(acquired_bit)]
    pub fn runtime_acquired(&self) -> (r: bool)
        ensures
            r == self.acquired_bit(),
    {
        self.bits / 32 % 2 == 1
    }

    #[verifier::when_used_as_spec(type_bits)]
    pub fn reference_type(&self) -> (r: ReferenceType)
        ensures
            r == self.type_bits(),
    {
        ReferenceType::from_bits(self.bits / 64)
    }

    /// The same byte with the language code set to `value`.
    pub fn with_language_code(self, value: u8) -> (r: Self)
        requires
            value < 32,
        ensures
            r.bits == self.bits - self.bits % 32 + value,
            r.language_bits() == value,
            r.acquired_bit() == self.acquired_bit(),
            r.bits / 64 == self.bits / 64,
    {
        Self { bits: self.bits - self.bits % 32 + value }
    }

    /// The same byte with `runtime_acquired` set to `value`.
    pub fn with_runtime_acquired(self, value: bool) -> (r: Self)
        ensures
            r.bits == self.bits - (if self.acquired_bit() { 32int } else { 0 }) + (if value { 32int } else { 0 }),
            r.acquired_bit() == value,
            r.language_bits() == self.language_bits(),
            r.bits / 64 == self.bits / 64,
    {
        let cleared: u8 = if self.runtime_acquired() {
            self.bits - 32
        } else {
            self.bits
        };
        Self { bits: if value { cleared + 32 } else { cleared } }
    }

    /// The same byte with the reference type set to `value`.
    pub fn with_reference_type(self, value: ReferenceType) -> (r: Self)
        ensures
            r.bits == self.bits % 64 + 64 * value.bits(),
            r.type_bits() == value,
            r.language_bits() == self.language_bits(),
            r.acquired_bit() == self.acquired_bit(),
    {
        Self { bits: self.bits % 64 + 64 * value.into_bits() }
    }
}

/// Reference flags for a given resource, in the encoding they were read in.
#[derive(Debug, PartialEq, Eq, Structural, Clone, Copy)]
pub enum ResourceReferenceFlags {
    V1(ResourceReferenceFlagsV1),
    V2(ResourceReferenceFlagsV2),
}

impl ResourceReferenceFlags {
    /// The language code: the one stored, or `0x1F` for a legacy byte, which has none.
    pub open spec fn language(&self) -> u8 {
        match self {
            ResourceReferenceFlags::V1(_) => 0x1F,
            ResourceReferenceFlags::V2(b) => b.language_bits(),
        }
    }

    /// Whether the reference is acquired at run time.
    pub open spec fn acquired(&self) -> bool {
        match self {
            ResourceReferenceFlags::V1(b) => b.acquired_bit(),
            ResourceReferenceFlags::V2(b) => b.acquired_bit(),
        }
    }

    /// The reference type: the one stored, or, for a legacy byte, `INSTALL`
    /// where it sets `install_dependency`, else `WEAK` where it sets
    /// `weak_reference`, else `NORMAL`.
    pub open spec fn kind(&self) -> ReferenceType {
        match self {
            ResourceReferenceFlags::V1(b) => if b.install_bit() {
                ReferenceType::INSTALL
            } else if b.weak_bit() {
                ReferenceType::WEAK
            } else {
                ReferenceType::NORMAL
            },
            ResourceReferenceFlags::V2(b) => b.type_bits(),
        }
    }

    /// The legacy byte that says the same: a legacy byte as it is; for a new
    /// byte, `runtime_acquired` kept, `weak_reference` and
    /// `install_dependency` set from the type, every other bit clear.
    pub open spec fn as_v1(&self) -> ResourceReferenceFlagsV1 {
        match self {
            ResourceReferenceFlags::V1(b) => *b,
            ResourceReferenceFlags::V2(b) => ResourceReferenceFlagsV1 {
                bits: ((if b.acquired_bit() { 2int } else { 0 }) + (if b.type_bits()
                    == ReferenceType::WEAK { 4int } else { 0 }) + (if b.type_bits()
                    == ReferenceType::INSTALL { 128int } else { 0 })) as u8,
            },
        }
    }

    /// The new byte that says the same: a new byte as it is; for a legacy
    /// byte, language code `0x1F`, `runtime_acquired` kept, and the type that
    /// `kind` reads from it.
    pub open spec fn as_v2(&self) -> ResourceReferenceFlagsV2 {
        match self {
            ResourceReferenceFlags::V2(b) => *b,
            ResourceReferenceFlags::V1(b) => ResourceReferenceFlagsV2 {
                bits: (0x1F + (if b.acquired_bit() { 32int } else { 0 }) + 64 * self.kind().bits()) as u8,
            },
        }
    }

    #[verifier::when_used_as_spec(as_v1)]
    pub fn to_v1(&self) -> (r: ResourceReferenceFlagsV1)
        ensures
            r == self.as_v1(),
    {
        match *self {
            ResourceReferenceFlags::V1(b) => b,
            ResourceReferenceFlags::V2(b) => ResourceReferenceFlagsV1::new().with_runtime_acquired(
                b.runtime_acquired(),
            ).with_weak_reference(
                matches!(b.reference_type(), ReferenceType::WEAK),
            ).with_install_dependency(matches!(b.reference_type(), ReferenceType::INSTALL)),
        }
    }

    #[verifier::when_used_as_spec(as_v2)]
    pub fn to_v2(&self) -> (r: ResourceReferenceFlagsV2)
        ensures
            r == self.as_v2(),
    {
        match *self {
            ResourceReferenceFlags::V2(b) => b,
            ResourceReferenceFlags::V1(b) => ResourceReferenceFlagsV2::new().with_language_code(
                0x1F,
            ).with_runtime_acquired(b.runtime_acquired()).with_reference_type(
                self.reference_type(),
            ),
        }
    }

    #[verifier::when_used_as_spec(language)]
    pub fn language_code(&self) -> (r: u8)
        ensures
            r == self.language(),
    {
        match self {
            ResourceReferenceFlags::V1(_) => 0x1F,
            ResourceReferenceFlags::V2(b) => b.language_code(),
        }
    }

    #[verifier::when_used_as_spec(acquired)]
    pub fn is_acquired(&self) -> (r: bool)
        ensures
            r == self.acquired(),
    {
        match self {
            ResourceReferenceFlags::V1(b) => b.runtime_acquired(),
            ResourceReferenceFlags::V2(b) => b.runtime_acquired(),
        }
    }

    #[verifier::when_used_as_spec(kind)]
    pub fn reference_type(&self) -> (r: ReferenceType)
        ensures
            r == self.kind(),
    {
        match self {
            ResourceReferenceFlags::V1(b) => if b.install_dependency() {
                ReferenceType::INSTALL
            } else if b.weak_reference() {
                ReferenceType::WEAK
            } else {
                ReferenceType::NORMAL
            },
            ResourceReferenceFlags::V2(b) => b.reference_type(),
        }
    }
}

/// From the new encoding to the legacy one, for every flag byte:
/// `install_dependency` is set exactly for type `INSTALL`, `weak_reference`
/// exactly for type `WEAK`, `runtime_acquired` is kept, and every other bit
/// is zero.
pub proof fn law_new_to_legacy(bits: u8)
    ensures
        ({
            let new = ResourceReferenceFlagsV2 { bits };
            let legacy = ResourceReferenceFlags::V2(new).as_v1();
            &&& legacy.install_bit() == (new.type_bits() == ReferenceType::INSTALL)
            &&& legacy.weak_bit() == (new.type_bits() == ReferenceType::WEAK)
            &&& legacy.acquired_bit() == new.acquired_bit()
            &&& !legacy.streaming_entity_bit()
            &&& !legacy.state_streamed_bit()
            &&& !legacy.media_streamed_bit()
            &&& legacy.bits % 2 == 0
            &&& legacy.bits / 8 % 2 == 0
        }),
{
}

/// From the legacy encoding to the new one, for every flag byte: the
/// language code is `0x1F`, `runtime_acquired` is kept, and the type is
/// `INSTALL` exactly where the legacy byte sets `install_dependency`, else
/// `WEAK` exactly where it sets `weak_reference`, else `NORMAL`.
pub proof fn law_legacy_to_new(bits: u8)
    ensures
        ({
            let legacy = ResourceReferenceFlagsV1 { bits };
            let new = ResourceReferenceFlags::V1(legacy).as_v2();
            &&& new.language_bits() == 0x1F
            &&& new.acquired_bit() == legacy.acquired_bit()
            &&& (new.type_bits() == ReferenceType::INSTALL) == legacy.install_bit()
            &&& (new.type_bits() == ReferenceType::WEAK) == (!legacy.install_bit()
                && legacy.weak_bit())
            &&& (new.type_bits() == ReferenceType::NORMAL) == (!legacy.install_bit()
                && !legacy.weak_bit())
        }),
{
}

/// Whichever encoding a flag byte was read in, and whichever it is turned
/// into, the accessors report the same acquisition and the same type.
pub proof fn law_conversion_keeps_meaning(flags: ResourceReferenceFlags)
    ensures
        ResourceReferenceFlags::V2(flags.as_v2()).acquired() == flags.acquired(),
        ResourceReferenceFlags::V2(flags.as_v2()).kind() == flags.kind(),
        ResourceReferenceFlags::V1(flags.as_v1()).acquired() == flags.acquired(),
        ResourceReferenceFlags::V1(flags.as_v1()).kind() == flags.kind(),
{
    match flags {
        ResourceReferenceFlags::V1(b) => {
            law_legacy_to_new(b.bits);
        },
        ResourceReferenceFlags::V2(b) => {
            law_new_to_legacy(b.bits);
        },
    }
}

/// The packed word of an offset-table entry: the compressed size in the low
/// 31 bits (zero for a resource stored as it is) and `is_scrambled` on top.
#[derive(Debug, PartialEq, Eq, Structural, Clone, Copy)]
pub struct PackageOffsetFlags {
    pub bits: u32,
}

impl PackageOffsetFlags {
    pub open spec fn size_bits(&self) -> u32 {
        (self.bits % 0x8000_0000) as u32
    }

    pub open spec fn scrambled_bit(&self) -> bool {
        self.bits >= 0x8000_0000
    }

    /// The word of a resource that is neither compressed nor scrambled.
    pub fn new() -> (r: Self)
        ensures
            r.bits == 0,
    {
        Self { bits: 0 }
    }

    pub fn from_bits(bits: u32) -> (r: Self)
        ensures
            r.bits == bits,
    {
        Self { bits }
    }

    pub fn into_bits(self) -> (r: u32)
        ensures
            r == self.bits,
    {
        self.bits
    }

    #[verifier::when_used_as_spec(size_bits)]
    pub fn compressed_size(&self) -> (r: u32)
        ensures
            r == self.size_bits(),
    {
        self.bits % 0x8000_0000
    }

    #[verifier::when_used_as_spec(scrambled_bit)]
    pub fn is_scrambled(&self) -> (r: bool)
        ensures
            r == self.scrambled_bit(),
    {
        self.bits >= 0x8000_0000
    }

    /// The same word with the compressed size set to `value`.
    pub fn with_compressed_size(self, value: u32) -> (r: Self)
        requires
            value < 0x8000_0000,
        ensures
            r.size_bits() == value,
            r.scrambled_bit() == self.scrambled_bit(),
    {
        Self { bits: self.bits - self.bits % 0x8000_0000 + value }
    }

    /// The same word with `is_scrambled` set to `value`.
    pub fn with_is_scrambled(self, value: bool) -> (r: Self)
        ensures
            r.size_bits() == self.size_bits(),
            r.scrambled_bit() == value,
    {
        let low: u32 = self.bits % 0x8000_0000;
        Self { bits: if value { low + 0x8000_0000 } else { low } }
    }
}

/// The word that leads a reference chunk: the number of references in the low
/// 30 bits, `is_new_format` in bit 30, and a bit on top that shipping files
/// always set.
#[derive(Debug, PartialEq, Eq, Structural, Clone, Copy)]
pub struct ResourceReferenceCountAndFlags {
    pub bits: u32,
}

impl ResourceReferenceCountAndFlags {
    pub open spec fn count_bits(&self) -> u32 {
        (self.bits % 0x4000_0000) as u32
    }

    pub open spec fn new_format_bit(&self) -> bool {
        self.bits / 0x4000_0000 % 2 == 1
    }

    pub open spec fn top_bit(&self) -> bool {
        self.bits >= 0x8000_0000
    }

    /// The word of an empty legacy chunk, with the top bit clear.
    pub fn new() -> (r: Self)
        ensures
            r.bits == 0,
    {
        Self { bits: 0 }
    }

    pub fn from_bits(bits: u32) -> (r: Self)
        ensures
            r.bits == bits,
    {
        Self { bits }
    }

    pub fn into_bits(self) -> (r: u32)
        ensures
            r == self.bits,
    {
        self.bits
    }

    #[verifier::when_used_as_spec(count_bits)]
    pub fn reference_count(&self) -> (r: u32)
        ensures
            r == self.count_bits(),
    {
        self.bits % 0x4000_0000
    }

    #[verifier::when_used_as_spec(new_format_bit)]
    pub fn is_new_format(&self) -> (r: bool)
        ensures
            r == self.new_format_bit(),
    {
        self.bits / 0x4000_0000 % 2 == 1
    }

    #[verifier::when_used_as_spec(top_bit)]
    pub fn always_true(&self) -> (r: bool)
        ensures
            r == self.top_bit(),
    {
        self.bits >= 0x8000_0000
    }

    /// The word for `count` references in the given layout, with the top bit as given.
    pub open spec fn packed(count: u32, new_format: bool, top: bool) -> u32 {
        (count + (if new_format { 0x4000_0000int } else { 0 }) + (if top { 0x8000_0000int } else { 0 })) as u32
    }

    /// Packs the three fields into one word.
    pub fn pack(count: u32, new_format: bool, top: bool) -> (r: Self)
        requires
            count < 0x4000_0000,
        ensures
            r.bits == Self::packed(count, new_format, top),
            r.count_bits() == count,
            r.new_format_bit() == new_format,
            r.top_bit() == top,
    {
        let a: u32 = if new_format { 0x4000_0000 } else { 0 };
        let b: u32 = if top { 0x8000_0000 } else { 0 };
        Self { bits: count + a + b }
    }
}

} // verus!
