//! The guest memory bridge: 32-bit little-endian words in an emulated linear
//! address space. Guest addresses are plain integers, never host pointers.
use vstd::prelude::*;

use crate::error::Fatal;

verus! {

/// The value of the little-endian word at `addr`.
pub open spec fn word_at(bytes: Seq<u8>, addr: int) -> int {
    bytes[addr] + 256 * bytes[addr + 1] + 65536 * bytes[addr + 2] + 16777216 * bytes[addr + 3]
}

/// Whether a word can be read or written at `addr`: it is 4-aligned and
/// lies wholly inside memory.
pub open spec fn word_ok(len: nat, addr: int) -> bool {
    0 <= addr && addr % 4 == 0 && addr + 4 <= len
}

/// An emulated guest address space.
pub struct GuestMemory {
    bytes: Vec<u8>,
}

impl View for GuestMemory {
    type V = Seq<u8>;

    closed spec fn view(&self) -> Seq<u8> {
        self.bytes@
    }
}

impl GuestMemory {
    /// A zero-filled address space of `size` bytes.
    pub fn new(size: u32) -> (m: Self)
        ensures
            m@.len() == size,
            forall|i: int| 0 <= i < size ==> m@[i] == 0,
    {
        let mut bytes: Vec<u8> = Vec::new();
        let mut i: u32 = 0;
        while i < size
            invariant
                i <= size,
                bytes@.len() == i,
                forall|j: int| 0 <= j < i ==> bytes@[j] == 0,
            decreases size - i,
        {
            bytes.push(0);
            i = i + 1;
        }
        GuestMemory { bytes }
    }

    /// The address space holding exactly `bytes`.
    pub fn from_bytes(bytes: Vec<u8>) -> (m: Self)
        ensures
            m@ == bytes@,
    {
        GuestMemory { bytes }
    }

    /// The size of the address space in bytes.
    pub fn len(&self) -> (n: usize)
        ensures
            n == self@.len(),
    {
        self.bytes.len()
    }

    /// Reads the word at `addr`.
    pub fn read_u32(&self, addr: u32) -> (res: Result<u32, Fatal>)
        ensures
            !word_ok(self@.len(), addr as int) ==> res == Err::<u32, Fatal>(Fatal::BadAddress),
            word_ok(self@.len(), addr as int) ==> res == Ok::<u32, Fatal>(
                word_at(self@, addr as int) as u32,
            ) && word_at(self@, addr as int) <= u32::MAX,
    {
        if addr % 4 != 0 || self.bytes.len() < 4 || addr as usize > self.bytes.len() - 4 {
            return Err(Fatal::BadAddress);
        }
        let a = addr as usize;
        let b0 = self.bytes[a] as u32;
        let b1 = self.bytes[a + 1] as u32;
        let b2 = self.bytes[a + 2] as u32;
        let b3 = self.bytes[a + 3] as u32;
        Ok(b0 + 256 * b1 + 65536 * b2 + 16777216 * b3)
    }

    /// Writes `v` as the word at `addr`; every other byte is left as it was.
    pub fn write_u32(&mut self, addr: u32, v: u32) -> (res: Result<(), Fatal>)
        ensures
            final(self)@.len() == old(self)@.len(),
            !word_ok(old(self)@.len(), addr as int) ==> res == Err::<(), Fatal>(Fatal::BadAddress)
                && final(self)@ == old(self)@,
            word_ok(old(self)@.len(), addr as int) ==> {
                &&& res is Ok
                &&& word_at(final(self)@, addr as int) == v
                &&& forall|i: int|
                    0 <= i < old(self)@.len() && !(addr <= i < addr + 4) ==> #[trigger] final(self)@[i]
                        == old(self)@[i]
            },
    {
        if addr % 4 != 0 || self.bytes.len() < 4 || addr as usize > self.bytes.len() - 4 {
            return Err(Fatal::BadAddress);
        }
        let a = addr as usize;
        let b0 = (v % 256) as u8;
        let b1 = ((v / 256) % 256) as u8;
        let b2 = ((v / 65536) % 256) as u8;
        let b3 = (v / 16777216) as u8;
        assert(v == b0 + 256 * b1 + 65536 * b2 + 16777216 * b3) by (nonlinear_arith)
            requires
                b0 == v % 256,
                b1 == (v / 256) % 256,
                b2 == (v / 65536) % 256,
                b3 == v / 16777216,
                v <= u32::MAX,
        ;
        self.bytes.set(a, b0);
        self.bytes.set(a + 1, b1);
        self.bytes.set(a + 2, b2);
        self.bytes.set(a + 3, b3);
        Ok(())
    }
}

} // verus!
