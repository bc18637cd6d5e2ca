use vstd::prelude::*;

verus! {

/// A flat byte-addressable RAM.
pub struct Memory {
    bytes: Vec<u8>,
}

impl View for Memory {
    type V = Seq<u8>;

    closed spec fn view(&self) -> Seq<u8> {
        self.bytes@
    }
}

/// The little-endian word stored in `mem` at `addr..addr + 4`.
pub open spec fn word_at(mem: Seq<u8>, addr: int) -> int {
    mem[addr] + 256 * mem[addr + 1] + 65536 * mem[addr + 2] + 16777216 * mem[addr + 3]
}

/// Byte `k` (0 is least significant) of `value`.
pub open spec fn word_byte(value: u32, k: int) -> u8 {
    if k == 0 {
        (value % 256) as u8
    } else if k == 1 {
        ((value / 256) % 256) as u8
    } else if k == 2 {
        ((value / 65536) % 256) as u8
    } else {
        (value / 16777216) as u8
    }
}

/// True when a word at `addr` lies inside a memory of `size` bytes.
pub open spec fn word_fits(size: nat, addr: usize) -> bool {
    addr + 4 <= size
}

/// The memory after storing `value` little-endian at `addr`.
pub open spec fn mem_after_word(mem: Seq<u8>, addr: usize, value: u32) -> Seq<u8> {
    mem.update(addr as int, word_byte(value, 0)).update(addr + 1, word_byte(value, 1)).update(
        addr + 2,
        word_byte(value, 2),
    ).update(addr + 3, word_byte(value, 3))
}

impl Memory {
    pub fn new(size: usize) -> (m: Memory)
        ensures
            m@ == Seq::new(size as nat, |i: int| 0u8),
    {
        let m = Memory { bytes: vec![0u8; size] };
        assert(m@ =~= Seq::new(size as nat, |i: int| 0u8));
        m
    }

    pub fn size(&self) -> (n: usize)
        ensures
            n == self@.len(),
    {
        self.bytes.len()
    }

    pub fn read(&self, addr: usize) -> (r: Option<u8>)
        ensures
            r == (if addr < self@.len() { Some(self@[addr as int]) } else { None }),
    {
        if addr < self.bytes.len() {
            Some(self.bytes[addr])
        } else {
            None
        }
    }

    /// Store a byte. Returns `false` (and changes nothing) when out of bounds.
    pub fn write(&mut self, addr: usize, value: u8) -> (ok: bool)
        ensures
            ok == (addr < old(self)@.len()),
            final(self)@ == (if ok { old(self)@.update(addr as int, value) } else { old(self)@ }),
    {
        if addr < self.bytes.len() {
            self.bytes[addr] = value;
            true
        } else {
            false
        }
    }

    /// Read a little-endian word. `None` when any of its four bytes is out of bounds.
    pub fn read_word(&self, addr: usize) -> (r: Option<u32>)
        ensures
            r == (if word_fits(self@.len(), addr) {
                Some(word_at(self@, addr as int) as u32)
            } else {
                None
            }),
            r matches Some(w) ==> w == word_at(self@, addr as int),
    {
        let len = self.bytes.len();
        if addr > len || len - addr < 4 {
            return None;
        }
        let b0 = self.bytes[addr] as u32;
        let b1 = self.bytes[addr + 1] as u32;
        let b2 = self.bytes[addr + 2] as u32;
        let b3 = self.bytes[addr + 3] as u32;
        Some(b0 + b1 * 256 + b2 * 65536 + b3 * 16777216)
    }

    /// Store a little-endian word. Returns `false` (and changes nothing) when any of
    /// its four bytes would be out of bounds.
    pub fn write_word(&mut self, addr: usize, value: u32) -> (ok: bool)
        ensures
            ok == word_fits(old(self)@.len(), addr),
            final(self)@ == (if ok { mem_after_word(old(self)@, addr, value) } else { old(self)@ }),
    {
        let len = self.bytes.len();
        if addr > len || len - addr < 4 {
            return false;
        }
        let v0 = (value % 256) as u8;
        let v1 = ((value / 256) % 256) as u8;
        let v2 = ((value / 65536) % 256) as u8;
        let v3 = (value / 16777216) as u8;
        self.bytes[addr] = v0;
        self.bytes[addr + 1] = v1;
        self.bytes[addr + 2] = v2;
        self.bytes[addr + 3] = v3;
        true
    }
}

/// The four bytes of a word reassemble to the word.
pub proof fn lemma_word_bytes(value: u32)
    ensures
        word_byte(value, 0) + 256 * word_byte(value, 1) + 65536 * word_byte(value, 2)
            + 16777216 * word_byte(value, 3) == value,
{
    assert((value % 256) + 256 * ((value / 256) % 256) + 65536 * ((value / 65536) % 256)
        + 16777216 * (value / 16777216) == value) by (bit_vector);
    assert(value / 16777216 < 256) by (bit_vector);
}

/// Reading a word back after writing it gives the written value.
pub proof fn law_word_round_trip(mem: Seq<u8>, addr: usize, value: u32)
    requires
        word_fits(mem.len(), addr),
    ensures
        word_at(mem_after_word(mem, addr, value), addr as int) == value,
        mem_after_word(mem, addr, value).len() == mem.len(),
{
    lemma_word_bytes(value);
}

/// A word write touches only its own four bytes.
pub proof fn law_word_write_is_local(mem: Seq<u8>, addr: usize, value: u32, other: int)
    requires
        word_fits(mem.len(), addr),
        0 <= other < mem.len(),
        other < addr || other >= addr + 4,
    ensures
        mem_after_word(mem, addr, value)[other] == mem[other],
{
}

/// Reading a byte back after writing it gives the written byte.
pub proof fn law_byte_round_trip(mem: Seq<u8>, addr: usize, value: u8)
    requires
        addr < mem.len(),
    ensures
        mem.update(addr as int, value)[addr as int] == value,
{
}

} // verus!
