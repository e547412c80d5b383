use vstd::prelude::*;

verus! {

/// The tag bit of an encoded page pointer: clear for memory, set for storage.
pub const MEM_DISK_MASK: u64 = 0x8000_0000_0000_0000;

/// The largest offset that fits beside the tag bit.
pub const MAX_OFFSET: u64 = 0x7fff_ffff_ffff_ffff;

/// Where a page lives: in memory or on stable storage, with an offset
/// meaningful within that domain.
#[derive(Copy, Clone, Debug, PartialEq, Eq, Structural)]
pub enum PagePtr {
    Mem(u64),
    Disk(u64),
}

impl PagePtr {
    /// A pointer is valid when its offset fits in the low 63 bits and a
    /// memory pointer is not the reserved null word.
    pub open spec fn valid(self) -> bool {
        match self {
            PagePtr::Mem(a) => 0 < a && a <= MAX_OFFSET,
            PagePtr::Disk(a) => a <= MAX_OFFSET,
        }
    }

    /// The one-word encoding of a pointer.
    pub open spec fn encode_spec(self) -> u64 {
        match self {
            PagePtr::Mem(a) => a,
            PagePtr::Disk(a) => a | MEM_DISK_MASK,
        }
    }

    /// The pointer that a non-zero word stands for.
    pub open spec fn decode_spec(raw: u64) -> PagePtr {
        if raw & MEM_DISK_MASK == 0 {
            PagePtr::Mem(raw)
        } else {
            PagePtr::Disk(raw & MAX_OFFSET)
        }
    }

    pub fn decode(raw: u64) -> (p: PagePtr)
        requires
            raw != 0,
        ensures
            p == PagePtr::decode_spec(raw),
            p.valid(),
    {
        proof {
            lemma_decode_valid(raw);
        }
        if raw & MEM_DISK_MASK == 0 {
            PagePtr::Mem(raw)
        } else {
            PagePtr::Disk(raw & MAX_OFFSET)
        }
    }

    pub fn encode(self) -> (r: u64)
        ensures
            r == self.encode_spec(),
    {
        match self {
            PagePtr::Mem(a) => a,
            PagePtr::Disk(a) => a | MEM_DISK_MASK,
        }
    }

    pub fn is_mem(&self) -> (r: bool)
        ensures
            r == (self is Mem),
    {
        match self {
            PagePtr::Mem(_) => true,
            PagePtr::Disk(_) => false,
        }
    }
}

proof fn lemma_decode_valid(raw: u64)
    requires
        raw != 0,
    ensures
        PagePtr::decode_spec(raw).valid(),
{
    assert(raw & 0x8000_0000_0000_0000u64 == 0 ==> raw <= 0x7fff_ffff_ffff_ffffu64) by (bit_vector);
    assert(raw & 0x7fff_ffff_ffff_ffffu64 <= 0x7fff_ffff_ffff_ffffu64) by (bit_vector);
}

/// Decoding a valid pointer's word gives the pointer back.
pub proof fn lemma_decode_encode(p: PagePtr)
    requires
        p.valid(),
    ensures
        p.encode_spec() != 0,
        PagePtr::decode_spec(p.encode_spec()) == p,
{
    match p {
        PagePtr::Mem(a) => {
            assert(a <= 0x7fff_ffff_ffff_ffffu64 ==> a & 0x8000_0000_0000_0000u64 == 0) by (bit_vector);
        },
        PagePtr::Disk(a) => {
            assert(a <= 0x7fff_ffff_ffff_ffffu64 ==> (a | 0x8000_0000_0000_0000u64) & 0x8000_0000_0000_0000u64 != 0
                && (a | 0x8000_0000_0000_0000u64) & 0x7fff_ffff_ffff_ffffu64 == a
                && (a | 0x8000_0000_0000_0000u64) != 0) by (bit_vector);
        },
    }
}

/// Encoding the pointer that a non-zero word decodes to gives the word back.
pub proof fn lemma_encode_decode(raw: u64)
    requires
        raw != 0,
    ensures
        PagePtr::decode_spec(raw).encode_spec() == raw,
{
    assert(raw & 0x8000_0000_0000_0000u64 != 0 ==> (raw & 0x7fff_ffff_ffff_ffffu64) | 0x8000_0000_0000_0000u64 == raw) by (bit_vector);
}

} // verus!
