//! A byte-addressable linear arena with unaligned, little-endian typed access.

use vstd::prelude::*;

verus! {

/// `256` to the power `n`.
pub open spec fn pow256(n: nat) -> nat
    decreases n,
{
    if n == 0 {
        1
    } else {
        256 * pow256((n - 1) as nat)
    }
}

/// The number that `bytes` spell in little-endian order.
pub open spec fn le_value(bytes: Seq<u8>) -> nat
    decreases bytes.len(),
{
    if bytes.len() == 0 {
        0
    } else {
        bytes[0] as nat + 256 * le_value(bytes.skip(1))
    }
}

/// The `width` low-order bytes of `value`, least significant first.
pub open spec fn le_bytes(value: nat, width: nat) -> Seq<u8>
    decreases width,
{
    if width == 0 {
        Seq::empty()
    } else {
        seq![(value % 256) as u8] + le_bytes(value / 256, (width - 1) as nat)
    }
}

/// `s` with the bytes from `at` on replaced by `bytes`.
pub open spec fn spliced(s: Seq<u8>, at: int, bytes: Seq<u8>) -> Seq<u8> {
    s.subrange(0, at) + bytes + s.subrange(at + bytes.len(), s.len() as int)
}

/// `n` zero bytes.
pub open spec fn zeros(n: nat) -> Seq<u8> {
    Seq::new(n, |i: int| 0u8)
}

pub proof fn lemma_pow256_values()
    ensures
        pow256(0) == 1,
        pow256(1) == 0x100,
        pow256(2) == 0x1_0000,
        pow256(3) == 0x100_0000,
        pow256(4) == 0x1_0000_0000,
        pow256(5) == 0x100_0000_0000,
        pow256(6) == 0x1_0000_0000_0000,
        pow256(7) == 0x100_0000_0000_0000,
        pow256(8) == 0x1_0000_0000_0000_0000,
{
    reveal_with_fuel(pow256, 9);
}

pub proof fn lemma_le_bytes_len(value: nat, width: nat)
    ensures
        le_bytes(value, width).len() == width,
    decreases width,
{
    if width > 0 {
        lemma_le_bytes_len(value / 256, (width - 1) as nat);
    }
}

/// A value below `256^width` is what its `width` little-endian bytes spell.
pub proof fn lemma_le_value_of_bytes(value: nat, width: nat)
    requires
        value < pow256(width),
    ensures
        le_value(le_bytes(value, width)) == value,
    decreases width,
{
    if width > 0 {
        let rest = le_bytes(value / 256, (width - 1) as nat);
        let all = le_bytes(value, width);
        lemma_le_value_of_bytes(value / 256, (width - 1) as nat);
        assert(all.skip(1) =~= rest);
        assert(all[0] == (value % 256) as u8);
    }
}

/// Bytes are the little-endian bytes of the number they spell.
pub proof fn lemma_le_bytes_of_value(bytes: Seq<u8>)
    ensures
        le_value(bytes) < pow256(bytes.len()),
        le_bytes(le_value(bytes), bytes.len()) == bytes,
    decreases bytes.len(),
{
    if bytes.len() > 0 {
        let tail = bytes.skip(1);
        lemma_le_bytes_of_value(tail);
        let v = le_value(bytes);
        assert(v == bytes[0] as nat + 256 * le_value(tail));
        assert(v % 256 == bytes[0] as nat);
        assert(v / 256 == le_value(tail));
        assert(le_bytes(v, bytes.len()) =~= bytes);
    } else {
        assert(le_bytes(0, 0) =~= bytes);
    }
}

/// Byte `j` of the little-endian bytes is digit `j` in base 256.
pub proof fn lemma_le_bytes_index(value: nat, width: nat, j: nat)
    requires
        j < width,
    ensures
        le_bytes(value, width).len() == width,
        le_bytes(value, width)[j as int] == ((value / pow256(j)) % 256) as u8,
    decreases width,
{
    lemma_le_bytes_len(value, width);
    let rest = le_bytes(value / 256, (width - 1) as nat);
    if j > 0 {
        lemma_le_bytes_index(value / 256, (width - 1) as nat, (j - 1) as nat);
        let p = pow256((j - 1) as nat);
        assert(pow256(j) == 256 * p);
        lemma_pow256_positive((j - 1) as nat);
        vstd::arithmetic::div_mod::lemma_div_denominator(value as int, 256, p as int);
        assert(le_bytes(value, width)[j as int] == rest[j - 1]);
        assert(value / pow256(j) == (value / 256) / p);
        assert(le_bytes(value, width)[j as int] == ((value / pow256(j)) % 256) as u8);
    } else {
        assert(pow256(0) == 1);
        assert(le_bytes(value, width)[0] == (value % 256) as u8);
        assert(value / pow256(0) == value);
    }
}

pub proof fn lemma_pow256_positive(n: nat)
    ensures
        pow256(n) > 0,
    decreases n,
{
    if n > 0 {
        lemma_pow256_positive((n - 1) as nat);
    }
}

/// Reads `width` bytes at `index` as one little-endian number.
pub fn load_le(buf: &Vec<u8>, index: usize, width: usize) -> (w: u64)
    requires
        1 <= width <= 8,
        index + width <= buf.len(),
    ensures
        w == le_value(buf@.subrange(index as int, index + width)),
        w < pow256(width as nat),
{
    let mut acc: u64 = 0;
    let mut i: usize = width;
    proof {
        lemma_pow256_values();
        assert(buf@.subrange(index + width, index + width).len() == 0);
    }
    while i > 0
        invariant
            1 <= width <= 8,
            index + width <= buf.len(),
            i <= width,
            acc == le_value(buf@.subrange(index + i, index + width)),
            acc < pow256((width - i) as nat),
        decreases i,
    {
        i -= 1;
        let b = buf[index + i];
        proof {
            lemma_pow256_values();
            let s = buf@.subrange(index + i, index + width);
            assert(s.skip(1) =~= buf@.subrange(index + i + 1, index + width));
            assert(s[0] == b);
            assert(pow256((width - i) as nat) == 256 * pow256((width - i - 1) as nat));
        }
        acc = acc * 256 + b as u64;
    }
    acc
}

/// Writes the `width` low-order bytes of `value` at `index`, least significant first.
pub fn store_le(buf: &mut Vec<u8>, index: usize, width: usize, value: u64)
    requires
        1 <= width <= 8,
        index + width <= old(buf).len(),
    ensures
        final(buf)@ == spliced(old(buf)@, index as int, le_bytes(value as nat, width as nat)),
        final(buf)@.len() == old(buf)@.len(),
{
    let mut v: u64 = value;
    let mut i: usize = 0;
    proof {
        lemma_pow256_values();
    }
    while i < width
        invariant
            1 <= width <= 8,
            index + width <= buf.len(),
            buf@.len() == old(buf)@.len(),
            i <= width,
            v as nat == (value as nat) / pow256(i as nat),
            forall|j: int| 0 <= j < index ==> buf@[j] == old(buf)@[j],
            forall|j: int| index + i <= j < buf@.len() ==> buf@[j] == old(buf)@[j],
            forall|j: int|
                0 <= j < i ==> buf@[index + j] == #[trigger] le_bytes(
                    value as nat,
                    width as nat,
                )[j],
        decreases width - i,
    {
        let b: u8 = (v % 256) as u8;
        proof {
            lemma_le_bytes_index(value as nat, width as nat, i as nat);
            lemma_pow256_positive(i as nat);
            let p = pow256(i as nat);
            assert(pow256((i + 1) as nat) == 256 * p);
            vstd::arithmetic::div_mod::lemma_div_denominator(value as int, p as int, 256);
            assert(p * 256 == 256 * p);
        }
        buf.set(index + i, b);
        v = v / 256;
        i += 1;
    }
    proof {
        lemma_le_bytes_len(value as nat, width as nat);
        assert(buf@ =~= spliced(old(buf)@, index as int, le_bytes(value as nat, width as nat)));
    }
}

/// Integer types that the arena can hold.
///
/// A value occupies `width()` bytes; `to_word` is the unsigned number that
/// those bytes spell in little-endian order.
pub trait MemoryAllowed: Copy + Sized {
    /// The number of bytes of a value.
    spec fn width() -> nat;

    /// The unsigned number that stands for `self` in memory.
    spec fn to_word(self) -> nat;

    /// The value that the unsigned number `word` stands for.
    spec fn from_word(word: nat) -> Self;

    /// Words fit the width, and a value is recovered from its word.
    proof fn lemma_word(self)
        ensures
            1 <= Self::width() <= 8,
            self.to_word() < pow256(Self::width()),
            Self::from_word(self.to_word()) == self,
    ;

    /// The number of bytes of a value.
    fn size() -> (n: usize)
        ensures
            n == Self::width(),
            1 <= n <= 8,
    ;

    /// The word of `self`.
    fn encode(self) -> (word: u64)
        ensures
            word == self.to_word(),
            word < pow256(Self::width()),
    ;

    /// The value of `word`.
    fn decode(word: u64) -> (value: Self)
        requires
            word < pow256(Self::width()),
        ensures
            value == Self::from_word(word as nat),
    ;
}

impl MemoryAllowed for u8 {
    open spec fn width() -> nat {
        1
    }

    open spec fn to_word(self) -> nat {
        self as nat
    }

    open spec fn from_word(word: nat) -> Self {
        word as u8
    }

    proof fn lemma_word(self) {
        lemma_pow256_values();
    }

    fn size() -> (n: usize) {
        1
    }

    fn encode(self) -> (word: u64) {
        proof {
            lemma_pow256_values();
        }
        self as u64
    }

    fn decode(word: u64) -> (value: Self) {
        proof {
            lemma_pow256_values();
        }
        word as u8
    }
}

impl MemoryAllowed for u16 {
    open spec fn width() -> nat {
        2
    }

    open spec fn to_word(self) -> nat {
        self as nat
    }

    open spec fn from_word(word: nat) -> Self {
        word as u16
    }

    proof fn lemma_word(self) {
        lemma_pow256_values();
    }

    fn size() -> (n: usize) {
        2
    }

    fn encode(self) -> (word: u64) {
        proof {
            lemma_pow256_values();
        }
        self as u64
    }

    fn decode(word: u64) -> (value: Self) {
        proof {
            lemma_pow256_values();
        }
        word as u16
    }
}

impl MemoryAllowed for u32 {
    open spec fn width() -> nat {
        4
    }

    open spec fn to_word(self) -> nat {
        self as nat
    }

    open spec fn from_word(word: nat) -> Self {
        word as u32
    }

    proof fn lemma_word(self) {
        lemma_pow256_values();
    }

    fn size() -> (n: usize) {
        4
    }

    fn encode(self) -> (word: u64) {
        proof {
            lemma_pow256_values();
        }
        self as u64
    }

    fn decode(word: u64) -> (value: Self) {
        proof {
            lemma_pow256_values();
        }
        word as u32
    }
}

impl MemoryAllowed for u64 {
    open spec fn width() -> nat {
        8
    }

    open spec fn to_word(self) -> nat {
        self as nat
    }

    open spec fn from_word(word: nat) -> Self {
        word as u64
    }

    proof fn lemma_word(self) {
        lemma_pow256_values();
    }

    fn size() -> (n: usize) {
        8
    }

    fn encode(self) -> (word: u64) {
        proof {
            lemma_pow256_values();
        }
        self
    }

    fn decode(word: u64) -> (value: Self) {
        word
    }
}

impl MemoryAllowed for i8 {
    open spec fn width() -> nat {
        1
    }

    open spec fn to_word(self) -> nat {
        if self >= 0 {
            self as nat
        } else {
            (self + 0x100) as nat
        }
    }

    open spec fn from_word(word: nat) -> Self {
        if word < 0x80 {
            word as i8
        } else {
            (word - 0x100) as i8
        }
    }

    proof fn lemma_word(self) {
        lemma_pow256_values();
    }

    fn size() -> (n: usize) {
        1
    }

    fn encode(self) -> (word: u64) {
        proof {
            lemma_pow256_values();
        }
        if self >= 0 {
            self as u64
        } else {
            (self as i64 + 0x100) as u64
        }
    }

    fn decode(word: u64) -> (value: Self) {
        proof {
            lemma_pow256_values();
        }
        if word < 0x80 {
            word as i8
        } else {
            (word as i64 - 0x100) as i8
        }
    }
}

impl MemoryAllowed for i16 {
    open spec fn width() -> nat {
        2
    }

    open spec fn to_word(self) -> nat {
        if self >= 0 {
            self as nat
        } else {
            (self + 0x1_0000) as nat
        }
    }

    open spec fn from_word(word: nat) -> Self {
        if word < 0x8000 {
            word as i16
        } else {
            (word - 0x1_0000) as i16
        }
    }

    proof fn lemma_word(self) {
        lemma_pow256_values();
    }

    fn size() -> (n: usize) {
        2
    }

    fn encode(self) -> (word: u64) {
        proof {
            lemma_pow256_values();
        }
        if self >= 0 {
            self as u64
        } else {
            (self as i64 + 0x1_0000) as u64
        }
    }

    fn decode(word: u64) -> (value: Self) {
        proof {
            lemma_pow256_values();
        }
        if word < 0x8000 {
            word as i16
        } else {
            (word as i64 - 0x1_0000) as i16
        }
    }
}

impl MemoryAllowed for i32 {
    open spec fn width() -> nat {
        4
    }

    open spec fn to_word(self) -> nat {
        if self >= 0 {
            self as nat
        } else {
            (self + 0x1_0000_0000) as nat
        }
    }

    open spec fn from_word(word: nat) -> Self {
        if word < 0x8000_0000 {
            word as i32
        } else {
            (word - 0x1_0000_0000) as i32
        }
    }

    proof fn lemma_word(self) {
        lemma_pow256_values();
    }

    fn size() -> (n: usize) {
        4
    }

    fn encode(self) -> (word: u64) {
        proof {
            lemma_pow256_values();
        }
        if self >= 0 {
            self as u64
        } else {
            (self as i64 + 0x1_0000_0000) as u64
        }
    }

    fn decode(word: u64) -> (value: Self) {
        proof {
            lemma_pow256_values();
        }
        if word < 0x8000_0000 {
            word as i32
        } else {
            (word as i64 - 0x1_0000_0000) as i32
        }
    }
}

impl MemoryAllowed for i64 {
    open spec fn width() -> nat {
        8
    }

    open spec fn to_word(self) -> nat {
        if self >= 0 {
            self as nat
        } else {
            (self + 0x1_0000_0000_0000_0000) as nat
        }
    }

    open spec fn from_word(word: nat) -> Self {
        if word < 0x8000_0000_0000_0000 {
            word as i64
        } else {
            (word - 0x1_0000_0000_0000_0000) as i64
        }
    }

    proof fn lemma_word(self) {
        lemma_pow256_values();
    }

    fn size() -> (n: usize) {
        8
    }

    fn encode(self) -> (word: u64) {
        proof {
            lemma_pow256_values();
        }
        if self >= 0 {
            self as u64
        } else {
            (self as i128 + 0x1_0000_0000_0000_0000) as u64
        }
    }

    fn decode(word: u64) -> (value: Self) {
        proof {
            lemma_pow256_values();
        }
        if word < 0x8000_0000_0000_0000 {
            word as i64
        } else {
            (word as i128 - 0x1_0000_0000_0000_0000) as i64
        }
    }
}

/// A contiguous byte buffer with a cursor for push-style access.
#[derive(Debug)]
pub struct Memory {
    inner: Vec<u8>,
    write_pos: usize,
}

impl View for Memory {
    type V = Seq<u8>;

    /// The bytes of the arena.
    closed spec fn view(&self) -> Seq<u8> {
        self.inner@
    }
}

impl Default for Memory {
    /// The empty arena.
    fn default() -> (m: Self)
        ensures
            m@ == zeros(0),
            m.cursor() == 0,
    {
        Self::new(0)
    }
}

impl Memory {
    /// The position of the cursor.
    pub closed spec fn cursor(&self) -> nat {
        self.write_pos as nat
    }

    /// The value of type `T` that the bytes at `index` hold.
    pub open spec fn value_at<T: MemoryAllowed>(bytes: Seq<u8>, index: int) -> T {
        T::from_word(le_value(bytes.subrange(index, index + T::width())))
    }

    /// The bytes with the value `value` stored at `index`.
    pub open spec fn stored<T: MemoryAllowed>(bytes: Seq<u8>, index: int, value: T) -> Seq<u8> {
        spliced(bytes, index, le_bytes(value.to_word(), T::width()))
    }

    /// A zeroed arena of `size` bytes.
    pub fn new(size: usize) -> (m: Self)
        ensures
            m@ == zeros(size as nat),
            m.cursor() == 0,
    {
        let mut inner: Vec<u8> = Vec::new();
        let mut i: usize = 0;
        while i < size
            invariant
                i <= size,
                inner@ == zeros(i as nat),
            decreases size - i,
        {
            inner.push(0u8);
            i += 1;
            assert(inner@ =~= zeros(i as nat));
        }
        Self { inner, write_pos: 0 }
    }

    /// Grows the arena to `new_size` bytes; the new bytes are zero.
    pub fn realloc(&mut self, new_size: usize)
        requires
            new_size > old(self)@.len(),
        ensures
            final(self)@ == old(self)@ + zeros((new_size - old(self)@.len()) as nat),
            final(self).cursor() == old(self).cursor(),
    {
        let ghost before = self.inner@;
        while self.inner.len() < new_size
            invariant
                before.len() <= self.inner@.len() <= new_size,
                self.inner@ == before + zeros((self.inner@.len() - before.len()) as nat),
                self.write_pos == old(self).write_pos,
            decreases new_size - self.inner@.len(),
        {
            self.inner.push(0u8);
            assert(self.inner@ =~= before + zeros((self.inner@.len() - before.len()) as nat));
        }
    }

    /// Stores `value` at the cursor and moves the cursor past it, growing the
    /// arena first where the value would not fit.
    pub fn write_push<T: MemoryAllowed>(&mut self, value: T)
        requires
            old(self).cursor() <= old(self)@.len(),
            old(self).cursor() + T::width() > old(self)@.len() ==> old(self)@.len() + T::width()
                <= usize::MAX,
        ensures
            final(self).cursor() == old(self).cursor() + T::width(),
            old(self).cursor() + T::width() <= old(self)@.len() ==> final(self)@ == Self::stored(
                old(self)@,
                old(self).cursor() as int,
                value,
            ),
            old(self).cursor() + T::width() > old(self)@.len() ==> final(self)@ == Self::stored(
                old(self)@ + zeros(T::width()),
                old(self).cursor() as int,
                value,
            ),
    {
        let size_of = T::size();
        if size_of > self.inner.len() - self.write_pos {
            let grown = self.inner.len() + size_of;
            self.realloc(grown);
        }
        self.write(self.write_pos, value);
        self.write_pos += size_of;
    }

    /// Reads the value at the cursor and moves the cursor past it.
    pub fn read_push<T: MemoryAllowed>(&mut self) -> (value: T)
        requires
            old(self).cursor() + T::width() <= old(self)@.len(),
        ensures
            value == Self::value_at::<T>(old(self)@, old(self).cursor() as int),
            final(self)@ == old(self)@,
            final(self).cursor() == old(self).cursor() + T::width(),
    {
        let size_of = T::size();
        let res = self.read::<T>(self.write_pos);
        assert(self.inner@.len() == self.inner.len());
        self.write_pos += size_of;
        res
    }

    /// Reads the value whose first byte is at `index`.
    pub fn read<T: MemoryAllowed>(&self, index: usize) -> (value: T)
        requires
            index + T::width() <= self@.len(),
        ensures
            value == Self::value_at::<T>(self@, index as int),
    {
        let size_of = T::size();
        T::decode(load_le(&self.inner, index, size_of))
    }

    /// Stores `value` with its first byte at `index`.
    pub fn write<T: MemoryAllowed>(&mut self, index: usize, value: T)
        requires
            index + T::width() <= old(self)@.len(),
        ensures
            final(self)@ == Self::stored(old(self)@, index as int, value),
            final(self)@.len() == old(self)@.len(),
            final(self).cursor() == old(self).cursor(),
    {
        let size_of = T::size();
        store_le(&mut self.inner, index, size_of, value.encode());
    }

    /// The bytes of the arena.
    pub fn into_bytes(self) -> (bytes: Vec<u8>)
        ensures
            bytes@ == self@,
    {
        self.inner
    }

    pub fn set_write_pos(&mut self, pos: usize)
        ensures
            final(self).cursor() == pos,
            final(self)@ == old(self)@,
    {
        self.write_pos = pos;
    }

    pub fn get_write_pos(&self) -> (pos: usize)
        ensures
            pos == self.cursor(),
    {
        self.write_pos
    }

    /// The number of bytes of the arena.
    pub fn size(&self) -> (n: usize)
        ensures
            n == self@.len(),
    {
        self.inner.len()
    }
}

/// What is stored at an index is what is read there.
pub proof fn lemma_read_after_write<T: MemoryAllowed>(bytes: Seq<u8>, index: int, value: T)
    requires
        0 <= index,
        index + T::width() <= bytes.len(),
    ensures
        Memory::stored(bytes, index, value).len() == bytes.len(),
        Memory::value_at::<T>(Memory::stored(bytes, index, value), index) == value,
{
    value.lemma_word();
    let w = T::width();
    let enc = le_bytes(value.to_word(), w);
    lemma_le_bytes_len(value.to_word(), w);
    lemma_le_value_of_bytes(value.to_word(), w);
    assert(Memory::stored(bytes, index, value).subrange(index, index + w) =~= enc);
}

/// A store leaves the bytes outside its range as they were.
pub proof fn lemma_write_frame<T: MemoryAllowed>(bytes: Seq<u8>, index: int, value: T, lo: int, hi: int)
    requires
        0 <= index,
        index + T::width() <= bytes.len(),
        0 <= lo <= hi <= bytes.len(),
        hi <= index || index + T::width() <= lo,
    ensures
        Memory::stored(bytes, index, value).subrange(lo, hi) == bytes.subrange(lo, hi),
{
    lemma_le_bytes_len(value.to_word(), T::width());
    assert(Memory::stored(bytes, index, value).subrange(lo, hi) =~= bytes.subrange(lo, hi));
}

} // verus!
