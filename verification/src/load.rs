//! Width-tagged key files.
//!
//! A file starts with the number of its records in eight bytes, the least
//! significant first. The records follow, each of the width of its kind,
//! the least significant byte first; a record's position is its index.
use vstd::prelude::*;
use vstd::slice::slice_subrange;
use vstd::string::StringSliceAdditionalSpecFns;
use byteorder::{LittleEndian, ReadBytesExt};
use crate::data::{KeyType, RMITrainingData};
use crate::fit::{bit_length, bit_length_exec};

verus! {

/// The width-tagged kinds of key that a data file can hold.
#[derive(Clone, Copy, Debug, PartialEq, Eq, Structural)]
pub enum DataType {
    UINT64,
    UINT128,
    UINT32,
    UINT512,
    FLOAT64,
}

/// Why a file could not be read as data.
#[derive(Clone, Copy, Debug, PartialEq, Eq, Structural)]
pub enum LoadError {
    /// The file is shorter than its header says, or than the header
    /// itself.
    Truncated,
}

/// An unsigned number of 512 bits: eight limbs, the least significant
/// first.
#[derive(Clone, Copy, Debug, PartialEq, Eq)]
pub struct U512(pub [u64; 8]);

impl U512 {
    /// The limbs, the least significant first.
    pub open spec fn limbs(self) -> Seq<u64> {
        self.0@
    }
}

/// The number that the bytes write, the least significant byte first.
pub open spec fn le_value(bytes: Seq<u8>) -> nat
    decreases bytes.len(),
{
    if bytes.len() == 0 {
        0
    } else {
        bytes[0] as nat + 256 * le_value(bytes.drop_first())
    }
}

/// `256` to the power of `k`.
pub open spec fn pow256(k: nat) -> nat
    decreases k,
{
    if k == 0 {
        1
    } else {
        256 * pow256((k - 1) as nat)
    }
}

/// `k` bytes write a number below `256^k`.
pub proof fn lemma_le_value_bound(bytes: Seq<u8>)
    ensures
        le_value(bytes) < pow256(bytes.len()),
    decreases bytes.len(),
{
    if bytes.len() > 0 {
        lemma_le_value_bound(bytes.drop_first());
    }
}

proof fn lemma_pow256_values()
    ensures
        pow256(4) == 0x1_0000_0000,
        pow256(8) == 0x1_0000_0000_0000_0000,
        pow256(16) == 0x1_0000_0000_0000_0000_0000_0000_0000_0000,
{
    reveal_with_fuel(pow256, 17);
}

proof fn lemma_pow256_grows(a: nat, b: nat)
    requires
        a <= b,
    ensures
        pow256(a) <= pow256(b),
    decreases b,
{
    if a < b {
        lemma_pow256_grows(a, (b - 1) as nat);
    }
}

/// The width in bytes of a record of each kind.
pub open spec fn width_of(dt: DataType) -> nat {
    match dt {
        DataType::UINT32 => 4,
        DataType::UINT64 => 8,
        DataType::UINT128 => 16,
        DataType::UINT512 => 64,
        DataType::FLOAT64 => 8,
    }
}

pub fn record_width(dt: DataType) -> (w: usize)
    ensures
        w == width_of(dt),
{
    match dt {
        DataType::UINT32 => 4,
        DataType::UINT64 => 8,
        DataType::UINT128 => 16,
        DataType::UINT512 => 64,
        DataType::FLOAT64 => 8,
    }
}

/// The kind of key that each kind of file holds.
pub open spec fn key_type_of(dt: DataType) -> KeyType {
    match dt {
        DataType::UINT32 => KeyType::U32,
        DataType::UINT64 => KeyType::U64,
        DataType::UINT128 => KeyType::U128,
        DataType::UINT512 => KeyType::U512,
        DataType::FLOAT64 => KeyType::F64,
    }
}

/// The bytes of the record at index `idx`.
pub open spec fn record(bytes: Seq<u8>, width: nat, idx: int) -> Seq<u8> {
    bytes.subrange(8 + idx * width, 8 + (idx + 1) * width)
}

/// The number of records that the header announces.
pub open spec fn record_count(bytes: Seq<u8>) -> nat {
    le_value(bytes.subrange(0, 8))
}

/// The file holds its header and every record that the header announces.
pub open spec fn complete(bytes: Seq<u8>, width: nat) -> bool {
    bytes.len() >= 8 && 8 + record_count(bytes) * width <= bytes.len()
}

/// Reads the number that up to sixteen bytes write, the least significant
/// first.
pub fn decode_le(bytes: &[u8], from: usize, to: usize) -> (v: u128)
    requires
        from <= to <= bytes@.len(),
        to - from <= 16,
    ensures
        v == le_value(bytes@.subrange(from as int, to as int)),
{
    let mut v: u128 = 0;
    let mut i: usize = to;
    proof {
        assert(bytes@.subrange(to as int, to as int) =~= Seq::empty());
    }
    while i > from
        invariant
            from <= i <= to <= bytes@.len(),
            to - from <= 16,
            v == le_value(bytes@.subrange(i as int, to as int)),
        decreases i,
    {
        proof {
            let tail = bytes@.subrange(i as int, to as int);
            let more = bytes@.subrange(i - 1, to as int);
            assert(more.drop_first() =~= tail);
            assert(more[0] == bytes@[i - 1]);
            lemma_le_value_bound(tail);
            lemma_pow256_grows(tail.len(), 15);
            lemma_pow256_values();
            reveal_with_fuel(pow256, 17);
        }
        v = v * 256 + bytes[i - 1] as u128;
        i -= 1;
    }
    v
}

/// `byteorder::ReadBytesExt::read_u32` with `LittleEndian`, on a slice: the
/// number that the first four bytes write, the least significant first;
/// nothing where there are fewer than four.
#[verifier::external_body]
fn read_u32_le(bytes: &[u8]) -> (r: Option<u32>)
    ensures
        bytes@.len() >= 4 ==> r == Some(le_value(bytes@.subrange(0, 4)) as u32),
        bytes@.len() < 4 ==> r is None,
{
    let mut rest = bytes;
    match rest.read_u32::<LittleEndian>() {
        Ok(value) => Some(value),
        Err(_) => None,
    }
}

/// `byteorder::ReadBytesExt::read_u64` with `LittleEndian`, on a slice: the
/// number that the first eight bytes write, the least significant first;
/// nothing where there are fewer than eight.
#[verifier::external_body]
fn read_u64_le(bytes: &[u8]) -> (r: Option<u64>)
    ensures
        bytes@.len() >= 8 ==> r == Some(le_value(bytes@.subrange(0, 8)) as u64),
        bytes@.len() < 8 ==> r is None,
{
    let mut rest = bytes;
    match rest.read_u64::<LittleEndian>() {
        Ok(value) => Some(value),
        Err(_) => None,
    }
}

/// The bytes of a file, known to hold every record that its header
/// announces.
#[derive(Clone, Copy)]
pub struct Records<'a> {
    data: &'a [u8],
    length: usize,
    width: usize,
}

impl<'a> Records<'a> {
    #[verifier::type_invariant]
    closed spec fn fits(&self) -> bool {
        &&& 1 <= self.width <= 64
        &&& self.data@.len() >= 8
        &&& self.length == record_count(self.data@)
        &&& 8 + self.length * self.width <= self.data@.len()
    }

    pub closed spec fn bytes(&self) -> Seq<u8> {
        self.data@
    }

    pub closed spec fn width(&self) -> nat {
        self.width as nat
    }

    pub closed spec fn count(&self) -> nat {
        self.length as nat
    }

    /// Takes the bytes of a file of the given kind, if the file is
    /// complete.
    pub fn new(data: &'a [u8], dt: DataType) -> (r: Result<Records<'a>, LoadError>)
        ensures
            r is Ok <==> complete(data@, width_of(dt)),
            r matches Ok(records) ==> records.bytes() == data@ && records.width() == width_of(dt)
                && records.count() == record_count(data@),
    {
        let width: usize = record_width(dt);
        if data.len() < 8 {
            return Err(LoadError::Truncated);
        }
        let announced: u128 = decode_le(data, 0, 8);
        let room: u128 = ((data.len() - 8) / width) as u128;
        proof {
            let n = record_count(data@);
            let space = (data@.len() - 8) as int;
            assert(n * width <= space <==> n <= space / (width as int)) by (nonlinear_arith)
                requires
                    width >= 1,
                    n >= 0,
                    space >= 0,
            ;
        }
        if announced > room {
            return Err(LoadError::Truncated);
        }
        Ok(Records { data, length: announced as usize, width })
    }

    pub fn len(&self) -> (n: usize)
        ensures
            n == self.count(),
            n == record_count(self.bytes()),
    {
        proof {
            use_type_invariant(self);
        }
        self.length
    }

    /// The bytes of the record at index `idx`.
    pub fn record_at(&self, idx: usize) -> (r: &'a [u8])
        requires
            idx < self.count(),
        ensures
            r@ == record(self.bytes(), self.width(), idx as int),
            r@.len() == self.width(),
            1 <= self.width() <= 64,
    {
        let total: usize = self.data.len();
        proof {
            use_type_invariant(self);
            assert(idx * self.width + self.width <= self.length * self.width) by (nonlinear_arith)
                requires
                    idx + 1 <= self.length,
                    self.width >= 0,
            ;
            assert(idx * self.width >= 0) by (nonlinear_arith)
                requires
                    idx >= 0,
                    self.width >= 0,
            ;
            assert((idx + 1) * self.width == idx * self.width + self.width) by (nonlinear_arith);
        }
        let from: usize = 8 + idx * self.width;
        slice_subrange(self.data, from, from + self.width)
    }
}

/// The limbs of 64 bits that a record writes, the least significant first.
pub open spec fn limbs_of(rec: Seq<u8>) -> Seq<u64> {
    Seq::new(rec.len() / 8, |k: int| le_value(rec.subrange(8 * k, 8 * k + 8)) as u64)
}

/// The number of binary digits of the number that the first `count` limbs
/// write.
pub open spec fn significant_bits(limbs: Seq<u64>, count: nat) -> nat
    decreases count,
{
    if count == 0 {
        0
    } else if limbs[count - 1] != 0 {
        64 * (count - 1) as nat + bit_length(limbs[count - 1] as nat)
    } else {
        significant_bits(limbs, (count - 1) as nat)
    }
}

/// The number of low bits that are left out so that 64 bits remain of a
/// number with these limbs.
pub open spec fn shift_for(limbs: Seq<u64>) -> nat {
    if significant_bits(limbs, limbs.len()) > 64 {
        (significant_bits(limbs, limbs.len()) - 64) as nat
    } else {
        0
    }
}

/// The 64 bits of the number from bit `shift` on.
pub open spec fn window(limbs: Seq<u64>, shift: nat) -> u64 {
    let q = (shift / 64) as int;
    let r = (shift % 64) as u64;
    if q >= limbs.len() {
        0
    } else if r > 0 && q + 1 < limbs.len() {
        (limbs[q] >> r) | (limbs[q + 1] << ((64 - r) as u64))
    } else {
        limbs[q] >> r
    }
}

/// The bits of a 64-bit floating-point number, turned so that the numbers'
/// order is the order of the results: a number below zero has all its bits
/// flipped, any other has its sign bit set.
pub open spec fn ordered_bits(bits: u64) -> u64 {
    if (bits >> 63) == 1 {
        !bits
    } else {
        bits | 0x8000_0000_0000_0000
    }
}

/// The number of low bits that are left out so that 64 bits remain of a
/// 128-bit key.
pub open spec fn shift_for_u128(key: u128) -> u32 {
    if bit_length(key as nat) > 64 {
        (bit_length(key as nat) - 64) as u32
    } else {
        0
    }
}

/// The 64 bits of a 128-bit key from bit `shift` on.
pub open spec fn wide_input(key: u128, shift: u32) -> u64 {
    ((key >> shift) & 0xffff_ffff_ffff_ffff) as u64
}

/// The 64-bit input that the models take for the key that a record writes:
/// a key of up to 64 bits itself, a wider key its 64 bits from bit `shift`
/// on, and a floating-point key its bits in order.
pub open spec fn model_input(dt: DataType, rec: Seq<u8>, shift: u32) -> u64 {
    match dt {
        DataType::UINT32 | DataType::UINT64 => le_value(rec) as u64,
        DataType::FLOAT64 => ordered_bits(le_value(rec) as u64),
        DataType::UINT128 => wide_input(le_value(rec) as u128, shift),
        DataType::UINT512 => window(limbs_of(rec), shift as nat),
    }
}

/// The shift for the keys of a file: that of its last record, which holds
/// the largest key, where the keys are wider than 64 bits, and zero for
/// every other file.
pub open spec fn shift_of(bytes: Seq<u8>, dt: DataType) -> u32 {
    if record_count(bytes) == 0 {
        0
    } else {
        match dt {
            DataType::UINT128 => shift_for_u128(
                le_value(record(bytes, 16, record_count(bytes) - 1)) as u128,
            ),
            DataType::UINT512 => shift_for(
                limbs_of(record(bytes, 64, record_count(bytes) - 1)),
            ) as u32,
            _ => 0,
        }
    }
}

/// Reads the limbs of a record.
pub fn read_limbs(rec: &[u8]) -> (limbs: Vec<u64>)
    requires
        rec@.len() <= 64,
    ensures
        limbs@ == limbs_of(rec@),
{
    let count: usize = rec.len() / 8;
    let mut limbs: Vec<u64> = Vec::new();
    let mut k: usize = 0;
    while k < count
        invariant
            k <= count,
            count == rec@.len() / 8,
            rec@.len() <= 64,
            limbs@.len() == k,
            forall|j: int| 0 <= j < k ==> limbs@[j] == limbs_of(rec@)[j],
        decreases count - k,
    {
        let part = slice_subrange(rec, 8 * k, 8 * k + 8);
        let limb = match read_u64_le(part) {
            Some(limb) => limb,
            None => 0,
        };
        proof {
            assert(part@.subrange(0, 8) =~= rec@.subrange(8 * k, 8 * k + 8));
        }
        limbs.push(limb);
        k += 1;
    }
    assert(limbs@ =~= limbs_of(rec@));
    limbs
}

fn significant_bits_exec(limbs: &[u64]) -> (bits: u32)
    requires
        limbs@.len() <= 8,
    ensures
        bits == significant_bits(limbs@, limbs@.len()),
        bits <= 512,
{
    let mut count: usize = limbs.len();
    while count > 0
        invariant
            count <= limbs@.len() <= 8,
            significant_bits(limbs@, limbs@.len()) == significant_bits(limbs@, count as nat),
        decreases count,
    {
        if limbs[count - 1] != 0 {
            let digits: u32 = bit_length_exec(limbs[count - 1]);
            return 64 * (count as u32 - 1) + digits;
        }
        count -= 1;
    }
    0
}

/// The number of low bits that are left out so that 64 bits remain of the
/// number with these limbs.
pub fn shift_for_exec(limbs: &[u64]) -> (shift: u32)
    requires
        limbs@.len() <= 8,
    ensures
        shift == shift_for(limbs@),
        shift <= 448,
{
    let bits: u32 = significant_bits_exec(limbs);
    if bits > 64 {
        bits - 64
    } else {
        0
    }
}

/// The 64 bits of the number with these limbs from bit `shift` on.
pub fn window_exec(limbs: &[u64], shift: u32) -> (w: u64)
    ensures
        w == window(limbs@, shift as nat),
{
    let q: usize = (shift / 64) as usize;
    let r: u32 = shift % 64;
    if q >= limbs.len() {
        0
    } else if r > 0 && q < limbs.len() - 1 {
        (limbs[q] >> r) | (limbs[q + 1] << (64 - r))
    } else {
        limbs[q] >> r
    }
}

/// The bits of a floating-point key, turned so that the keys' order is the
/// order of the results.
pub fn ordered_bits_exec(bits: u64) -> (r: u64)
    ensures
        r == ordered_bits(bits),
{
    if (bits >> 63) == 1 {
        !bits
    } else {
        bits | 0x8000_0000_0000_0000
    }
}

fn bit_length_wide(x: u128) -> (r: u32)
    ensures
        r == bit_length(x as nat),
        r <= 128,
{
    proof {
        vstd::arithmetic::power2::lemma2_to64_rest();
        vstd::arithmetic::power2::lemma_pow2_adds(64, 64);
        assert(vstd::arithmetic::power2::pow2(128) == 0x1_0000_0000_0000_0000int
            * 0x1_0000_0000_0000_0000int);
        crate::fit::lemma_bit_length_bound(x as nat, 128);
    }
    let mut v: u128 = x;
    let mut c: u32 = 0;
    while v > 0
        invariant
            bit_length(x as nat) == c + bit_length(v as nat),
            bit_length(x as nat) <= 128,
        decreases v,
    {
        v = v / 2;
        c += 1;
    }
    c
}

/// The number of low bits that are left out so that 64 bits remain of a
/// 128-bit key.
pub fn shift_for_u128_exec(key: u128) -> (shift: u32)
    ensures
        shift == shift_for_u128(key),
        shift <= 64,
{
    let bits: u32 = bit_length_wide(key);
    if bits > 64 {
        bits - 64
    } else {
        0
    }
}

/// The 64 bits of a 128-bit key from bit `shift` on.
pub fn wide_input_exec(key: u128, shift: u32) -> (input: u64)
    requires
        shift < 128,
    ensures
        input == wide_input(key, shift),
{
    let cut: u128 = (key >> shift) & 0xffff_ffff_ffff_ffff;
    assert(cut <= 0xffff_ffff_ffff_ffff) by (bit_vector)
        requires
            cut == (key >> shift) & 0xffff_ffff_ffff_ffff,
    ;
    cut as u64
}

impl U512 {
    /// The number of low bits that are left out so that 64 bits remain of
    /// the key.
    pub fn shift(&self) -> (shift: u32)
        ensures
            shift == shift_for(self.limbs()),
            shift <= 448,
    {
        shift_for_exec(vstd::array::array_as_slice(&self.0))
    }

    /// The 64 bits of the key from bit `shift` on, which the models take as
    /// their input.
    pub fn model_input(&self, shift: u32) -> (input: u64)
        ensures
            input == window(self.limbs(), shift as nat),
    {
        window_exec(vstd::array::array_as_slice(&self.0), shift)
    }
}

/// The records of a file of 64-bit keys.
#[derive(Clone, Copy)]
pub struct SliceAdapterU64<'a> {
    records: Records<'a>,
}

/// The records of a file of 32-bit keys.
#[derive(Clone, Copy)]
pub struct SliceAdapterU32<'a> {
    records: Records<'a>,
}

/// The records of a file of 512-bit keys.
#[derive(Clone, Copy)]
pub struct SliceAdapterU512<'a> {
    records: Records<'a>,
}

/// The records of a file of 64-bit floating-point keys, each taken as its
/// 64 bits.
#[derive(Clone, Copy)]
pub struct SliceAdapterF64<'a> {
    records: Records<'a>,
}

/// The records of a file of 128-bit keys.
#[derive(Clone, Copy)]
pub struct SliceAdapterU128<'a> {
    records: Records<'a>,
}

impl<'a> SliceAdapterU64<'a> {
    #[verifier::type_invariant]
    closed spec fn right_width(&self) -> bool {
        self.records.width() == 8
    }

    pub closed spec fn records(&self) -> Records<'a> {
        self.records
    }

    pub fn new(records: Records<'a>) -> (r: Self)
        requires
            records.width() == 8,
        ensures
            r.records() == records,
    {
        SliceAdapterU64 { records }
    }

    pub fn get(&self, idx: usize) -> (r: Option<(u64, usize)>)
        ensures
            idx >= self.records().count() ==> r is None,
            idx < self.records().count() ==> r == Some(
                (le_value(record(self.records().bytes(), 8, idx as int)) as u64, idx),
            ),
    {
        proof {
            use_type_invariant(self);
        }
        if idx >= self.records.len() {
            return None;
        }
        let rec = self.records.record_at(idx);
        let mi: u128 = decode_le(rec, 0, 8);
        proof {
            assert(rec@.subrange(0, 8) =~= rec@);
            lemma_le_value_bound(rec@);
            lemma_pow256_values();
        }
        Some((mi as u64, idx))
    }

    pub fn key_type(&self) -> (k: KeyType)
        ensures
            k == KeyType::U64,
    {
        KeyType::U64
    }

    pub fn len(&self) -> (n: usize)
        ensures
            n == self.records().count(),
    {
        self.records.len()
    }
}

impl<'a> SliceAdapterU32<'a> {
    #[verifier::type_invariant]
    closed spec fn right_width(&self) -> bool {
        self.records.width() == 4
    }

    pub closed spec fn records(&self) -> Records<'a> {
        self.records
    }

    pub fn new(records: Records<'a>) -> (r: Self)
        requires
            records.width() == 4,
        ensures
            r.records() == records,
    {
        SliceAdapterU32 { records }
    }

    pub fn get(&self, idx: usize) -> (r: Option<(u32, usize)>)
        ensures
            idx >= self.records().count() ==> r is None,
            idx < self.records().count() ==> r == Some(
                (le_value(record(self.records().bytes(), 4, idx as int)) as u32, idx),
            ),
    {
        proof {
            use_type_invariant(self);
        }
        if idx >= self.records.len() {
            return None;
        }
        let rec = self.records.record_at(idx);
        proof {
            assert(rec@.subrange(0, 4) =~= rec@);
        }
        match read_u32_le(rec) {
            Some(mi) => Some((mi, idx)),
            None => None,
        }
    }

    pub fn key_type(&self) -> (k: KeyType)
        ensures
            k == KeyType::U32,
    {
        KeyType::U32
    }

    pub fn len(&self) -> (n: usize)
        ensures
            n == self.records().count(),
    {
        self.records.len()
    }
}

impl<'a> SliceAdapterU512<'a> {
    #[verifier::type_invariant]
    closed spec fn right_width(&self) -> bool {
        self.records.width() == 64
    }

    pub closed spec fn records(&self) -> Records<'a> {
        self.records
    }

    pub fn new(records: Records<'a>) -> (r: Self)
        requires
            records.width() == 64,
        ensures
            r.records() == records,
    {
        SliceAdapterU512 { records }
    }

    pub fn get(&self, idx: usize) -> (r: Option<(U512, usize)>)
        ensures
            idx >= self.records().count() ==> r is None,
            idx < self.records().count() ==> (r matches Some(pair) && pair.1 == idx
                && pair.0.limbs() == limbs_of(record(self.records().bytes(), 64, idx as int))),
    {
        proof {
            use_type_invariant(self);
        }
        if idx >= self.records.len() {
            return None;
        }
        let rec = self.records.record_at(idx);
        let limbs = read_limbs(rec);
        let source: [u64; 8] = [
            limbs[0],
            limbs[1],
            limbs[2],
            limbs[3],
            limbs[4],
            limbs[5],
            limbs[6],
            limbs[7],
        ];
        assert(source@ =~= limbs@);
        Some((U512(source), idx))
    }

    pub fn key_type(&self) -> (k: KeyType)
        ensures
            k == KeyType::U512,
    {
        KeyType::U512
    }

    pub fn len(&self) -> (n: usize)
        ensures
            n == self.records().count(),
    {
        self.records.len()
    }
}

impl<'a> SliceAdapterF64<'a> {
    #[verifier::type_invariant]
    closed spec fn right_width(&self) -> bool {
        self.records.width() == 8
    }

    pub closed spec fn records(&self) -> Records<'a> {
        self.records
    }

    pub fn new(records: Records<'a>) -> (r: Self)
        requires
            records.width() == 8,
        ensures
            r.records() == records,
    {
        SliceAdapterF64 { records }
    }

    /// The bits of the key at index `idx`, with the index.
    pub fn get(&self, idx: usize) -> (r: Option<(u64, usize)>)
        ensures
            idx >= self.records().count() ==> r is None,
            idx < self.records().count() ==> r == Some(
                (le_value(record(self.records().bytes(), 8, idx as int)) as u64, idx),
            ),
    {
        proof {
            use_type_invariant(self);
        }
        if idx >= self.records.len() {
            return None;
        }
        let rec = self.records.record_at(idx);
        proof {
            assert(rec@.subrange(0, 8) =~= rec@);
        }
        match read_u64_le(rec) {
            Some(mi) => Some((mi, idx)),
            None => None,
        }
    }

    pub fn key_type(&self) -> (k: KeyType)
        ensures
            k == KeyType::F64,
    {
        KeyType::F64
    }

    pub fn len(&self) -> (n: usize)
        ensures
            n == self.records().count(),
    {
        self.records.len()
    }
}

impl<'a> SliceAdapterU128<'a> {
    #[verifier::type_invariant]
    closed spec fn right_width(&self) -> bool {
        self.records.width() == 16
    }

    pub closed spec fn records(&self) -> Records<'a> {
        self.records
    }

    pub fn new(records: Records<'a>) -> (r: Self)
        requires
            records.width() == 16,
        ensures
            r.records() == records,
    {
        SliceAdapterU128 { records }
    }

    pub fn get(&self, idx: usize) -> (r: Option<(u128, usize)>)
        ensures
            idx >= self.records().count() ==> r is None,
            idx < self.records().count() ==> r == Some(
                (le_value(record(self.records().bytes(), 16, idx as int)) as u128, idx),
            ),
    {
        proof {
            use_type_invariant(self);
        }
        if idx >= self.records.len() {
            return None;
        }
        let rec = self.records.record_at(idx);
        let mi: u128 = decode_le(rec, 0, 16);
        proof {
            assert(rec@.subrange(0, 16) =~= rec@);
        }
        Some((mi, idx))
    }

    pub fn key_type(&self) -> (k: KeyType)
        ensures
            k == KeyType::U128,
    {
        KeyType::U128
    }

    pub fn len(&self) -> (n: usize)
        ensures
            n == self.records().count(),
    {
        self.records.len()
    }
}

/// The records of a file, tagged with the kind of key that they hold. The
/// adapter under each tag yields the keys as the file writes them.
#[derive(Clone, Copy)]
pub enum RMIMMap<'a> {
    UINT64(SliceAdapterU64<'a>),
    UINT32(SliceAdapterU32<'a>),
    UINT512(SliceAdapterU512<'a>),
    UINT128(SliceAdapterU128<'a>),
    FLOAT64(SliceAdapterF64<'a>),
}

/// The pairs that the models are trained on: for each record its input to
/// the models, with its index.
pub open spec fn inputs_of(bytes: Seq<u8>, dt: DataType, shift: u32) -> Seq<(u64, usize)> {
    Seq::new(
        record_count(bytes),
        |i: int| (model_input(dt, record(bytes, width_of(dt), i), shift), i as usize),
    )
}

impl<'a> RMIMMap<'a> {
    /// The records under the tag.
    pub open spec fn records(&self) -> Records<'a> {
        match self {
            RMIMMap::UINT64(x) => x.records(),
            RMIMMap::UINT32(x) => x.records(),
            RMIMMap::UINT128(x) => x.records(),
            RMIMMap::UINT512(x) => x.records(),
            RMIMMap::FLOAT64(x) => x.records(),
        }
    }

    /// The kind of file that the tag names.
    pub open spec fn data_type(&self) -> DataType {
        match self {
            RMIMMap::UINT64(_) => DataType::UINT64,
            RMIMMap::UINT32(_) => DataType::UINT32,
            RMIMMap::UINT128(_) => DataType::UINT128,
            RMIMMap::UINT512(_) => DataType::UINT512,
            RMIMMap::FLOAT64(_) => DataType::FLOAT64,
        }
    }

    /// The records are those of a file of the tag's kind, as they are
    /// under every tag.
    pub open spec fn wf(&self) -> bool {
        self.records().width() == width_of(self.data_type())
    }

    fn records_exec(&self) -> (r: Records<'a>)
        ensures
            r == self.records(),
            self.wf(),
    {
        match self {
            RMIMMap::UINT64(x) => {
                proof {
                    use_type_invariant(x);
                }
                x.records
            },
            RMIMMap::UINT32(x) => {
                proof {
                    use_type_invariant(x);
                }
                x.records
            },
            RMIMMap::UINT128(x) => {
                proof {
                    use_type_invariant(x);
                }
                x.records
            },
            RMIMMap::UINT512(x) => {
                proof {
                    use_type_invariant(x);
                }
                x.records
            },
            RMIMMap::FLOAT64(x) => {
                proof {
                    use_type_invariant(x);
                }
                x.records
            },
        }
    }

    fn data_type_exec(&self) -> (dt: DataType)
        ensures
            dt == self.data_type(),
    {
        match self {
            RMIMMap::UINT64(_) => DataType::UINT64,
            RMIMMap::UINT32(_) => DataType::UINT32,
            RMIMMap::UINT128(_) => DataType::UINT128,
            RMIMMap::UINT512(_) => DataType::UINT512,
            RMIMMap::FLOAT64(_) => DataType::FLOAT64,
        }
    }

    /// The number of records.
    pub fn len(&self) -> (n: usize)
        ensures
            n == self.records().count(),
    {
        self.records_exec().len()
    }

    /// A second handle on the same records, under the same tag. No byte is
    /// copied.
    pub fn soft_copy(&self) -> (copy: RMIMMap<'a>)
        ensures
            copy == *self,
    {
        *self
    }

    /// The number of low bits that are left out of every key of the file
    /// on its way to the models: zero for keys of up to 64 bits, and for
    /// wider keys as many as leave 64 bits of the last key, which is the
    /// largest.
    pub fn shift(&self) -> (shift: u32)
        ensures
            shift == shift_of(self.records().bytes(), self.data_type()),
            shift <= 448,
            self.data_type() == DataType::UINT128 ==> shift <= 64,
    {
        let records = self.records_exec();
        let n: usize = records.len();
        if n == 0 {
            return 0;
        }
        match self {
            RMIMMap::UINT128(_) => {
                let last = records.record_at(n - 1);
                proof {
                    assert(last@.subrange(0, 16) =~= last@);
                }
                shift_for_u128_exec(decode_le(last, 0, 16))
            },
            RMIMMap::UINT512(_) => {
                let last = records.record_at(n - 1);
                let limbs = read_limbs(last);
                shift_for_exec(limbs.as_slice())
            },
            _ => 0,
        }
    }

    /// The data that the models are trained on: every key of the file
    /// brought to its 64-bit input with the file's shift, with its
    /// position.
    pub fn training_data(&self) -> (data: RMITrainingData)
        ensures
            data@ == inputs_of(
                self.records().bytes(),
                self.data_type(),
                shift_of(self.records().bytes(), self.data_type()),
            ),
            data.kind() == key_type_of(self.data_type()),
    {
        let records = self.records_exec();
        let dt = self.data_type_exec();
        let shift: u32 = self.shift();
        let num_items: usize = records.len();
        let mut inputs: Vec<u64> = Vec::new();
        let mut idx: usize = 0;
        while idx < num_items
            invariant
                idx <= num_items,
                num_items == records.count(),
                records.width() == width_of(dt),
                shift <= 448,
                dt == DataType::UINT128 ==> shift <= 64,
                inputs@.len() == idx,
                forall|i: int|
                    0 <= i < idx ==> inputs@[i] == model_input(
                        dt,
                        record(records.bytes(), width_of(dt), i),
                        shift,
                    ),
            decreases num_items - idx,
        {
            inputs.push(input_at(&records, dt, shift, idx));
            idx += 1;
        }
        let kind = match dt {
            DataType::UINT64 => KeyType::U64,
            DataType::UINT32 => KeyType::U32,
            DataType::UINT128 => KeyType::U128,
            DataType::UINT512 => KeyType::U512,
            DataType::FLOAT64 => KeyType::F64,
        };
        let data = RMITrainingData::with_key_type(inputs, kind);
        proof {
            assert(data@ =~= inputs_of(records.bytes(), dt, shift));
        }
        data
    }

    /// The data, if its keys are 64-bit integers: every key as the file
    /// writes it, with its position.
    pub fn into_u64(self) -> (d: Option<RMITrainingData>)
        ensures
            d is Some <==> self.data_type() == DataType::UINT64,
            d matches Some(x) ==> x@ == inputs_of(self.records().bytes(), DataType::UINT64, 0)
                && x.kind() == KeyType::U64,
    {
        match self {
            RMIMMap::UINT64(_) => Some(self.training_data()),
            _ => None,
        }
    }
}

/// The input that the models take for the record at index `idx`.
fn input_at(records: &Records, dt: DataType, shift: u32, idx: usize) -> (input: u64)
    requires
        idx < records.count(),
        records.width() == width_of(dt),
        dt == DataType::UINT128 ==> shift < 128,
    ensures
        input == model_input(dt, record(records.bytes(), width_of(dt), idx as int), shift),
{
    let rec = records.record_at(idx);
    match dt {
        DataType::UINT32 => {
            proof {
                assert(rec@.subrange(0, 4) =~= rec@);
                lemma_le_value_bound(rec@);
                lemma_pow256_values();
            }
            match read_u32_le(rec) {
                Some(mi) => mi as u64,
                None => 0,
            }
        },
        DataType::UINT64 => {
            let mi: u128 = decode_le(rec, 0, 8);
            proof {
                assert(rec@.subrange(0, 8) =~= rec@);
                lemma_le_value_bound(rec@);
                lemma_pow256_values();
            }
            mi as u64
        },
        DataType::FLOAT64 => {
            proof {
                assert(rec@.subrange(0, 8) =~= rec@);
            }
            match read_u64_le(rec) {
                Some(bits) => ordered_bits_exec(bits),
                None => 0,
            }
        },
        DataType::UINT128 => {
            proof {
                assert(rec@.subrange(0, 16) =~= rec@);
            }
            wide_input_exec(decode_le(rec, 0, 16), shift)
        },
        DataType::UINT512 => {
            let limbs = read_limbs(rec);
            window_exec(limbs.as_slice(), shift)
        },
    }
}

/// Reads a file of the given kind from its bytes: the number of its
/// records, and the records under the tag of their kind, from which each
/// key is had as the file writes it. The bytes themselves are kept, not
/// copied.
pub fn load_data<'a>(bytes: &'a [u8], dt: DataType) -> (r: Result<(usize, RMIMMap<'a>), LoadError>)
    ensures
        r is Ok <==> complete(bytes@, width_of(dt)),
        r is Err ==> r == Err::<(usize, RMIMMap<'a>), LoadError>(LoadError::Truncated),
        r matches Ok(loaded) ==> {
            &&& loaded.0 == record_count(bytes@)
            &&& loaded.1.data_type() == dt
            &&& loaded.1.wf()
            &&& loaded.1.records().bytes() == bytes@
            &&& loaded.1.records().count() == record_count(bytes@)
        },
{
    let records = match Records::new(bytes, dt) {
        Ok(records) => records,
        Err(e) => {
            return Err(e);
        },
    };
    let num_items: usize = records.len();
    let rtd = match dt {
        DataType::UINT64 => RMIMMap::UINT64(SliceAdapterU64::new(records)),
        DataType::UINT32 => RMIMMap::UINT32(SliceAdapterU32::new(records)),
        DataType::UINT128 => RMIMMap::UINT128(SliceAdapterU128::new(records)),
        DataType::UINT512 => RMIMMap::UINT512(SliceAdapterU512::new(records)),
        DataType::FLOAT64 => RMIMMap::FLOAT64(SliceAdapterF64::new(records)),
    };
    Ok((num_items, rtd))
}

/// `part` stands in `text` from index `k` on.
pub open spec fn occurs_at(text: Seq<u8>, part: Seq<u8>, k: int) -> bool {
    0 <= k && k + part.len() <= text.len() && text.subrange(k, k + part.len()) == part
}

/// `part` stands somewhere in `text`.
pub open spec fn has_part(text: Seq<u8>, part: Seq<u8>) -> bool {
    exists|k: int| occurs_at(text, part, k)
}

/// Whether the bytes of `part` stand somewhere among those of `text`.
pub fn contains_text(text: &str, part: &str) -> (r: bool)
    ensures
        r == has_part(text.spec_bytes(), part.spec_bytes()),
{
    let hay = text.as_bytes();
    let needle = part.as_bytes();
    if needle.len() > hay.len() {
        return false;
    }
    let total: usize = hay.len();
    let last: usize = total - needle.len();
    let mut k: usize = 0;
    while k <= last
        invariant
            k <= last + 1,
            total == hay@.len(),
            last == hay@.len() - needle@.len(),
            hay@ == text.spec_bytes(),
            needle@ == part.spec_bytes(),
            forall|j: int| 0 <= j < k ==> !occurs_at(hay@, needle@, j),
        decreases last + 1 - k,
    {
        let mut i: usize = 0;
        while i < needle.len() && hay[k + i] == needle[i]
            invariant
                k <= last,
                total == hay@.len(),
                last == hay@.len() - needle@.len(),
                i <= needle@.len(),
                forall|j: int| 0 <= j < i ==> hay@[k + j] == needle@[j],
            decreases needle@.len() - i,
        {
            i += 1;
        }
        if i == needle.len() {
            assert(hay@.subrange(k as int, k + needle@.len()) =~= needle@);
            assert(occurs_at(hay@, needle@, k as int));
            return true;
        }
        proof {
            assert(hay@.subrange(k as int, k + needle@.len())[i as int] == hay@[k + i]);
        }
        k += 1;
    }
    false
}

/// The kind of file that a file name tells of: the first of the marks
/// `uint64`, `uint32`, `uint128`, `uint512` and `f64` that stands in it.
pub open spec fn named_data_type(name: Seq<u8>) -> Option<DataType> {
    if has_part(name, "uint64".spec_bytes()) {
        Some(DataType::UINT64)
    } else if has_part(name, "uint32".spec_bytes()) {
        Some(DataType::UINT32)
    } else if has_part(name, "uint128".spec_bytes()) {
        Some(DataType::UINT128)
    } else if has_part(name, "uint512".spec_bytes()) {
        Some(DataType::UINT512)
    } else if has_part(name, "f64".spec_bytes()) {
        Some(DataType::FLOAT64)
    } else {
        None
    }
}

/// Reads the kind of a file off its name.
pub fn data_type_of(file_name: &str) -> (dt: Option<DataType>)
    ensures
        dt == named_data_type(file_name.spec_bytes()),
{
    if contains_text(file_name, "uint64") {
        Some(DataType::UINT64)
    } else if contains_text(file_name, "uint32") {
        Some(DataType::UINT32)
    } else if contains_text(file_name, "uint128") {
        Some(DataType::UINT128)
    } else if contains_text(file_name, "uint512") {
        Some(DataType::UINT512)
    } else if contains_text(file_name, "f64") {
        Some(DataType::FLOAT64)
    } else {
        None
    }
}

} // verus!
