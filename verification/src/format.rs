//! Binary format of the dataset artifacts.
//!
//! The references artifact is a 16-byte header (`RINHA26\x01`, then the vector count as eight
//! little-endian bytes) followed by one 16-byte quantized vector per entry: 14 dimensions and two
//! bytes of padding. The labels artifact is a bitset with one bit per vector, lowest bit first;
//! a set bit marks fraud.

use vstd::arithmetic::power2::{lemma2_to64, lemma_pow2_adds, lemma_pow2_pos, lemma_pow2_unfold, pow2};
use vstd::prelude::*;
use vstd::string::StringExecFns;

use crate::text::{bracketed, bytes_text};
use crate::PAD;

verus! {

/// The bytes of `RINHA26`, then the format version.
pub const MAGIC: [u8; 8] = [0x52, 0x49, 0x4E, 0x48, 0x41, 0x32, 0x36, 0x01];

/// Bytes of the references header.
pub const REFS_HEADER_LEN: usize = 16;

/// Bits per entry of the labels artifact.
pub const LABELS_BIT_PER_ENTRY: usize = 1;

/// The number that `b` holds, lowest byte first.
pub open spec fn le_value(b: Seq<u8>) -> nat
    decreases b.len(),
{
    if b.len() == 0 {
        0
    } else {
        b[0] as nat + 256 * le_value(b.drop_first())
    }
}

/// The lowest `len` bytes of `n`, lowest first.
pub open spec fn le_bytes(n: nat, len: nat) -> Seq<u8>
    decreases len,
{
    if len == 0 {
        Seq::empty()
    } else {
        seq![(n % 256) as u8] + le_bytes(n / 256, (len - 1) as nat)
    }
}

/// The header of a references artifact with `n` vectors.
pub open spec fn header_bytes(n: nat) -> Seq<u8> {
    MAGIC@ + le_bytes(n, 8)
}

/// Size of a references artifact with `n` vectors.
pub open spec fn dataset_len(n: int) -> int {
    REFS_HEADER_LEN + n * PAD
}

/// Size of a labels artifact with `n` labels.
pub open spec fn labels_len(n: int) -> int {
    (n + 7) / 8
}

/// Size of a references artifact with `n` vectors.
#[must_use]
pub fn dataset_byte_len(n: usize) -> (len: usize)
    requires
        dataset_len(n as int) <= usize::MAX,
    ensures
        len == dataset_len(n as int),
{
    REFS_HEADER_LEN + n * PAD
}

/// Size of a labels artifact with `n` labels.
#[must_use]
pub fn labels_byte_len(n: usize) -> (len: usize)
    ensures
        len == labels_len(n as int),
{
    if n % 8 == 0 {
        n / 8
    } else {
        n / 8 + 1
    }
}

/// Append the 16-byte header of a references artifact with `n` vectors.
pub fn write_references_header(w: &mut Vec<u8>, n: u64)
    ensures
        final(w)@ == old(w)@ + header_bytes(n as nat),
{
    let ghost start = w@;
    let mut i: usize = 0;
    while i < 8
        invariant
            i <= 8,
            w@ == start + MAGIC@.take(i as int),
        decreases 8 - i,
    {
        w.push(MAGIC[i]);
        assert(MAGIC@.take(i as int).push(MAGIC@[i as int]) =~= MAGIC@.take(i + 1));
        i = i + 1;
    }
    assert(MAGIC@.take(8) =~= MAGIC@);
    let mut rest: u64 = n;
    let ghost done = Seq::<u8>::empty();
    let mut k: usize = 0;
    while k < 8
        invariant
            k <= 8,
            le_bytes(n as nat, 8) =~= done + le_bytes(rest as nat, (8 - k) as nat),
            w@ =~= start + MAGIC@ + done,
        decreases 8 - k,
    {
        let byte: u8 = (rest % 256) as u8;
        w.push(byte);
        proof {
            done = done.push(byte);
        }
        rest = rest / 256;
        k = k + 1;
    }
    assert(w@ =~= start + header_bytes(n as nat));
}

/// Why a references header was refused.
#[derive(Debug, Clone, Copy, PartialEq, Eq, Structural)]
pub enum ErrorKind {
    /// The input ends inside the header.
    UnexpectedEof,
    /// The magic bytes are not those of this format.
    InvalidData,
}

/// A references header that cannot be read.
#[derive(Debug, Clone, Copy)]
pub enum HeaderError {
    /// The input ends inside the header.
    Truncated,
    /// The first eight bytes are not the magic bytes.
    BadMagic([u8; 8]),
}

impl HeaderError {
    /// The text of the error.
    pub open spec fn text(self) -> Seq<char> {
        match self {
            HeaderError::Truncated => "failed to fill whole buffer"@,
            HeaderError::BadMagic(magic) => "bad references magic: "@ + bracketed(magic@),
        }
    }

    /// The text of the error.
    #[must_use]
    pub fn message(&self) -> (text: String)
        ensures
            text@ == self.text(),
    {
        match self {
            HeaderError::Truncated => "failed to fill whole buffer".to_owned(),
            HeaderError::BadMagic(magic) => {
                let mut text: String = "bad references magic: ".to_owned();
                text.append(bytes_text(magic.as_slice()).as_str());
                text
            },
        }
    }

    /// The class of the error.
    pub fn kind(&self) -> (kind: ErrorKind)
        ensures
            kind == (match *self {
                HeaderError::Truncated => ErrorKind::UnexpectedEof,
                HeaderError::BadMagic(_) => ErrorKind::InvalidData,
            }),
    {
        match self {
            HeaderError::Truncated => ErrorKind::UnexpectedEof,
            HeaderError::BadMagic(_) => ErrorKind::InvalidData,
        }
    }
}

/// The bytes start with a complete header.
pub open spec fn has_header(r: Seq<u8>) -> bool {
    r.len() >= REFS_HEADER_LEN && r.take(8) == MAGIC@
}

/// The vector count in the header of `r`.
pub open spec fn header_count(r: Seq<u8>) -> nat {
    le_value(r.subrange(8, 16))
}

/// What reading the header of `r` yields.
pub open spec fn header_of(r: Seq<u8>, result: Result<u64, HeaderError>) -> bool {
    match result {
        Ok(n) => has_header(r) && n == header_count(r),
        Err(HeaderError::Truncated) => r.len() < 8 || (r.take(8) == MAGIC@ && r.len() < 16),
        Err(HeaderError::BadMagic(magic)) => r.len() >= 8 && r.take(8) != MAGIC@ && magic@ == r.take(
            8,
        ),
    }
}

/// The text of the error for bytes that do not start with a complete header.
pub open spec fn header_refusal(r: Seq<u8>) -> Seq<char> {
    if r.len() >= 8 && r.take(8) != MAGIC@ {
        "bad references magic: "@ + bracketed(r.take(8))
    } else {
        "failed to fill whole buffer"@
    }
}

/// Read and validate the 16-byte header at the start of `r`; the vector count.
pub fn read_references_header(r: &[u8]) -> (result: Result<u64, HeaderError>)
    ensures
        header_of(r@, result),
        result matches Err(e) ==> e.text() == header_refusal(r@),
{
    if r.len() < 8 {
        return Err(HeaderError::Truncated);
    }
    let mut magic: [u8; 8] = [0; 8];
    let mut same: bool = true;
    let mut i: usize = 0;
    while i < 8
        invariant
            i <= 8,
            r@.len() >= 8,
            forall|j: int| 0 <= j < i ==> #[trigger] magic@[j] == r@[j],
            same <==> forall|j: int| 0 <= j < i ==> #[trigger] r@[j] == MAGIC@[j],
        decreases 8 - i,
    {
        magic[i] = r[i];
        same = same && r[i] == MAGIC[i];
        i = i + 1;
    }
    assert(magic@ =~= r@.take(8));
    if !same {
        proof {
            if r@.take(8) == MAGIC@ {
                assert forall|j: int| 0 <= j < 8 implies #[trigger] r@[j] == MAGIC@[j] by {
                    assert(r@.take(8)[j] == r@[j]);
                }
            }
        }
        return Err(HeaderError::BadMagic(magic));
    }
    assert(r@.take(8) =~= MAGIC@);
    if r.len() < 16 {
        return Err(HeaderError::Truncated);
    }
    let ghost count = r@.subrange(8, 16);
    let mut n: u64 = 0;
    let mut k: usize = 8;
    assert(count.skip(8) =~= Seq::empty());
    proof {
        lemma2_to64();
    }
    while k > 0
        invariant
            k <= 8,
            r@.len() >= 16,
            count == r@.subrange(8, 16),
            n == le_value(count.skip(k as int)),
            n < pow2((8 * (8 - k)) as nat),
        decreases k,
    {
        k = k - 1;
        let ghost part = count.skip(k as int);
        proof {
            assert(part.drop_first() =~= count.skip(k + 1));
            lemma_pow2_adds(8, (8 * (7 - k)) as nat);
            lemma2_to64();
            vstd::arithmetic::power2::lemma2_to64_rest();
            lemma_byte_room(8 * (8 - k));
        }
        n = r[8 + k] as u64 + 256 * n;
    }
    assert(count.skip(0) =~= count);
    Ok(n)
}

proof fn lemma_byte_room(e: int)
    requires
        0 <= e <= 64,
    ensures
        pow2(e as nat) <= 0x1_0000_0000_0000_0000,
{
    lemma2_to64();
    if e < 64 {
        vstd::arithmetic::power2::lemma_pow2_strictly_increases(e as nat, 64);
    }
}

/// Reading little-endian bytes gives back the number that was written.
proof fn lemma_le_roundtrip(n: nat, len: nat)
    requires
        n < pow2(8 * len),
    ensures
        le_bytes(n, len).len() == len,
        le_value(le_bytes(n, len)) == n,
    decreases len,
{
    lemma2_to64();
    if len > 0 {
        lemma_pow2_adds(8, (8 * len - 8) as nat);
        assert(n / 256 < pow2((8 * len - 8) as nat)) by (nonlinear_arith)
            requires
                n < 256 * pow2((8 * len - 8) as nat),
        ;
        assert(8 * len - 8 == 8 * (len - 1));
        lemma_le_roundtrip(n / 256, (len - 1) as nat);
        assert(le_bytes(n, len).drop_first() =~= le_bytes(n / 256, (len - 1) as nat));
    }
}

/// A header has sixteen bytes.
pub proof fn law_header_len(n: nat)
    ensures
        header_bytes(n).len() == REFS_HEADER_LEN,
{
    reveal_with_fuel(le_bytes, 9);
}

/// Bytes that start with the header of `n` vectors hold that count, whatever follows.
pub proof fn law_header_read(n: u64, rest: Seq<u8>)
    ensures
        has_header(header_bytes(n as nat) + rest),
        header_count(header_bytes(n as nat) + rest) == n,
{
    lemma2_to64();
    lemma_le_roundtrip(n as nat, 8);
    let r = header_bytes(n as nat) + rest;
    assert(r.take(8) =~= MAGIC@);
    assert(r.subrange(8, 16) =~= le_bytes(n as nat, 8));
}

/// Reading a header that was written gives back its count, whatever follows it.
pub proof fn law_header_roundtrip(n: u64, rest: Seq<u8>, result: Result<u64, HeaderError>)
    requires
        header_of(header_bytes(n as nat) + rest, result),
    ensures
        result == Ok::<u64, HeaderError>(n),
{
    law_header_read(n, rest);
}

/// A stored byte read as a signed lane.
pub open spec fn lane_of(b: u8) -> i8 {
    if b < 128 {
        b as i8
    } else {
        (b - 256) as i8
    }
}

/// The bytes read as signed lanes.
pub open spec fn lanes(b: Seq<u8>) -> Seq<i8> {
    Seq::new(b.len(), |i: int| lane_of(b[i]))
}

/// The byte that stores a signed lane.
pub open spec fn byte_of(q: i8) -> u8 {
    if q >= 0 {
        q as u8
    } else {
        (q + 256) as u8
    }
}

/// A stored byte read as a signed lane.
pub fn byte_to_lane(b: u8) -> (lane: i8)
    ensures
        lane == lane_of(b),
{
    if b < 128 {
        b as i8
    } else {
        (b as i16 - 256) as i8
    }
}

/// The byte that stores a signed lane.
pub fn lane_to_byte(q: i8) -> (b: u8)
    ensures
        b == byte_of(q),
{
    if q >= 0 {
        q as u8
    } else {
        (q as i16 + 256) as u8
    }
}

/// A lane that was stored is read back unchanged.
pub proof fn law_lane_roundtrip(q: i8)
    ensures
        lane_of(byte_of(q)) == q,
{
}

/// Bit `k` of a byte, counted from the lowest.
pub open spec fn bit_of(b: u8, k: int) -> bool {
    (b as int / pow2(k as nat) as int) % 2 == 1
}

/// Label bits as a number: label `k` has weight `2^k`.
pub open spec fn pack_bits(labels: Seq<bool>) -> int
    decreases labels.len(),
{
    if labels.len() == 0 {
        0
    } else if labels.last() {
        pack_bits(labels.drop_last()) + pow2((labels.len() - 1) as nat)
    } else {
        pack_bits(labels.drop_last())
    }
}

/// The labels that byte `j` of a bitset holds: eight, or what is left.
pub open spec fn byte_labels(labels: Seq<bool>, j: int) -> Seq<bool> {
    labels.subrange(
        8 * j,
        if 8 * j + 8 <= labels.len() {
            8 * j + 8
        } else {
            labels.len() as int
        },
    )
}

/// The bitset of `labels`: eight per byte, lowest bit first, the last byte filled with zeros.
pub open spec fn packed(labels: Seq<bool>) -> Seq<u8> {
    Seq::new(
        labels_len(labels.len() as int) as nat,
        |j: int| pack_bits(byte_labels(labels, j)) as u8,
    )
}

/// Bitset writer for the labels artifact. It gathers eight labels at a time and emits a byte
/// once it is full; [`Self::finish`] emits the last, partial byte.
pub struct LabelBitsetWriter {
    inner: Vec<u8>,
    cursor: u8,
    bit: u8,
    start: Ghost<Seq<u8>>,
    labels: Ghost<Seq<bool>>,
}

impl LabelBitsetWriter {
    /// The bytes that were in the buffer before the first label.
    pub closed spec fn start(&self) -> Seq<u8> {
        self.start@
    }

    /// The labels pushed so far.
    pub closed spec fn labels(&self) -> Seq<bool> {
        self.labels@
    }

    /// The bytes in the buffer: those before the first label, then those emitted so far.
    pub closed spec fn written(&self) -> Seq<u8> {
        self.inner@
    }

    /// The buffer holds the full bytes, and the cursor the labels after them.
    pub closed spec fn wf(&self) -> bool {
        let n = self.labels@.len() as int;
        let full = n / 8;
        &&& self.bit == n % 8
        &&& self.cursor == pack_bits(self.labels@.skip(8 * full))
        &&& self.inner@ == self.start@ + packed(self.labels@.take(8 * full))
    }

    /// A writer that appends to `inner`.
    #[must_use]
    pub fn new(inner: Vec<u8>) -> (writer: Self)
        ensures
            writer.wf(),
            writer.start() == inner@,
            writer.written() == inner@,
            writer.labels() == Seq::<bool>::empty(),
    {
        let ghost start = inner@;
        let writer = Self {
            inner,
            cursor: 0,
            bit: 0,
            start: Ghost(start),
            labels: Ghost(Seq::empty()),
        };
        proof {
            assert(packed(Seq::empty()) =~= Seq::empty());
            assert(Seq::<bool>::empty().skip(0) =~= Seq::empty());
            assert(Seq::<bool>::empty().take(0) =~= Seq::empty());
            assert(start + packed(Seq::empty()) =~= start);
        }
        writer
    }

    /// Push the next label: `true` marks fraud. Every eighth label emits one byte, which holds the
    /// last eight labels, the oldest in the lowest bit; any other label emits nothing. The buffer is
    /// in memory, so emitting cannot fail.
    pub fn push(&mut self, fraud: bool)
        requires
            old(self).wf(),
        ensures
            final(self).wf(),
            final(self).start() == old(self).start(),
            final(self).labels() == old(self).labels().push(fraud),
            ({
                let n = old(self).labels().len() as int + 1;
                if n % 8 == 0 {
                    &&& final(self).written() == old(self).written().push(
                        pack_bits(final(self).labels().subrange(n - 8, n)) as u8,
                    )
                    &&& forall|j: int|
                        0 <= j < 8 ==> (bit_of(final(self).written().last(), j)
                            <==> #[trigger] final(self).labels()[n - 8 + j])
                } else {
                    final(self).written() == old(self).written()
                }
            }),
    {
        let ghost l = self.labels@;
        let ghost n = l.len() as int;
        let ghost full = n / 8;
        let ghost pending = l.skip(8 * full);
        let ghost more = l.push(fraud);
        proof {
            assert(pending.len() == self.bit);
            lemma_pack_bound(pending);
            assert(more.skip(8 * full) =~= pending.push(fraud));
            assert(pending.push(fraud).drop_last() =~= pending);
            assert(more.take(8 * full) =~= l.take(8 * full));
            lemma_pack_bound(pending.push(fraud));
            lemma2_to64();
        }
        if fraud {
            proof {
                lemma_set_bit(self.cursor, self.bit);
            }
            self.cursor = self.cursor | (1u8 << self.bit);
        }
        self.bit = self.bit + 1;
        self.labels = Ghost(more);
        assert(self.cursor == pack_bits(pending.push(fraud)));
        if self.bit == 8 {
            self.inner.push(self.cursor);
            self.cursor = 0;
            self.bit = 0;
            proof {
                assert((n + 1) / 8 == full + 1);
                let whole = more.take(8 * (full + 1));
                assert(whole =~= more);
                assert(more.skip(8 * (full + 1)) =~= Seq::empty());
                lemma_packed_extend(l.take(8 * full), pending.push(fraud));
                assert(l.take(8 * full) + pending.push(fraud) =~= more);
                assert(self.inner@ =~= self.start@ + packed(more));
                let eight = more.subrange(n + 1 - 8, n + 1);
                assert(pending.push(fraud) =~= eight);
                assert forall|j: int| 0 <= j < 8 implies (bit_of(self.inner@.last(), j)
                    <==> #[trigger] more[n + 1 - 8 + j]) by {
                    lemma_bit_of_pack(eight, j);
                    assert(eight[j] == more[n + 1 - 8 + j]);
                }
            }
        } else {
            assert((n + 1) / 8 == full);
        }
    }

    /// At every point the buffer holds the bytes before the first label and the bitset of all full
    /// groups of eight labels, and nothing of the labels after those.
    pub proof fn law_full_bytes_written(self)
        requires
            self.wf(),
        ensures
            self.written() == self.start() + packed(
                self.labels().take(8 * (self.labels().len() as int / 8)),
            ),
    {
    }

    /// Emit the last, partial byte, if any, and return the buffer.
    pub fn finish(self) -> (bytes: Vec<u8>)
        requires
            self.wf(),
        ensures
            bytes@ == self.start() + packed(self.labels()),
            ({
                let n = self.labels().len() as int;
                if n % 8 == 0 {
                    bytes@ == self.written()
                } else {
                    bytes@ == self.written().push(
                        pack_bits(self.labels().skip(n - n % 8)) as u8,
                    )
                }
            }),
    {
        let ghost l = self.labels@;
        let ghost full = l.len() as int / 8;
        let mut inner = self.inner;
        proof {
            assert(l.take(8 * full) + l.skip(8 * full) =~= l);
            lemma_pack_bound(l.skip(8 * full));
        }
        if self.bit != 0 {
            inner.push(self.cursor);
            proof {
                lemma_packed_extend(l.take(8 * full), l.skip(8 * full));
                assert(inner@ =~= self.start@ + packed(l));
                assert(8 * full == l.len() - l.len() % 8);
            }
        } else {
            assert(l.take(8 * full) =~= l);
        }
        inner
    }
}

/// Read label `i` from the bytes of a labels artifact.
#[must_use]
pub fn label_bit(bits: &[u8], i: usize) -> (set: bool)
    requires
        i / 8 < bits@.len(),
    ensures
        set == bit_of(bits@[i as int / 8], i as int % 8),
{
    let byte: u8 = bits[i / 8];
    let shift: u8 = (i % 8) as u8;
    proof {
        vstd::bits::lemma_u8_shr_is_div(byte, shift);
        let shifted = byte >> shift;
        assert(shifted & 1 == shifted % 2) by (bit_vector);
    }
    (byte >> shift) & 1 == 1
}

/// Setting a bit above all set bits adds its weight.
proof fn lemma_set_bit(cursor: u8, bit: u8)
    requires
        bit < 8,
        cursor < pow2(bit as nat),
    ensures
        cursor | (1u8 << bit) == cursor + pow2(bit as nat),
{
    lemma2_to64();
    assert(1u8 << 0u8 == 1 && 1u8 << 1u8 == 2 && 1u8 << 2u8 == 4 && 1u8 << 3u8 == 8 && 1u8 << 4u8
        == 16 && 1u8 << 5u8 == 32 && 1u8 << 6u8 == 64 && 1u8 << 7u8 == 128) by (bit_vector);
    assert(1u8 << bit == pow2(bit as nat));
    assert(cursor | (1u8 << bit) == cursor + (1u8 << bit)) by (bit_vector)
        requires
            cursor < (1u8 << bit),
            bit < 8,
    ;
}

proof fn lemma_pack_bound(labels: Seq<bool>)
    ensures
        0 <= pack_bits(labels) < pow2(labels.len()),
    decreases labels.len(),
{
    lemma2_to64();
    if labels.len() > 0 {
        lemma_pack_bound(labels.drop_last());
        lemma_pow2_unfold(labels.len());
    }
}

/// Up to eight more labels after whole bytes make one more byte.
proof fn lemma_packed_extend(whole: Seq<bool>, tail: Seq<bool>)
    requires
        whole.len() % 8 == 0,
        0 < tail.len() <= 8,
    ensures
        packed(whole + tail) == packed(whole).push(pack_bits(tail) as u8),
{
    let all = whole + tail;
    let b = whole.len() as int / 8;
    assert(labels_len(all.len() as int) == b + 1);
    assert(byte_labels(all, b) =~= tail);
    assert forall|j: int| 0 <= j < b implies byte_labels(all, j) == byte_labels(whole, j) by {
        assert(byte_labels(all, j) =~= byte_labels(whole, j));
    }
    assert(packed(all) =~= packed(whole).push(pack_bits(tail) as u8));
}

/// Bit `k` of packed labels is label `k`.
proof fn lemma_bit_of_pack(labels: Seq<bool>, k: int)
    requires
        0 <= k < labels.len(),
    ensures
        (pack_bits(labels) / pow2(k as nat) as int) % 2 == (if labels[k] { 1int } else { 0 }),
    decreases labels.len(),
{
    let low = pack_bits(labels.drop_last());
    let top = labels.len() - 1;
    lemma_pack_bound(labels.drop_last());
    lemma_pow2_pos(k as nat);
    let p = pow2(k as nat) as int;
    if k == top {
        if labels.last() {
            assert((low + p) / p == 1) by (nonlinear_arith)
                requires
                    0 <= low < p,
            ;
        } else {
            assert(low / p == 0) by (nonlinear_arith)
                requires
                    0 <= low < p,
            ;
        }
    } else {
        lemma_bit_of_pack(labels.drop_last(), k);
        if labels.last() {
            lemma_pow2_adds(k as nat, (top - k) as nat);
            lemma_pow2_unfold((top - k) as nat);
            let h = pow2((top - k - 1) as nat) as int;
            assert(pow2(top as nat) == p * (2 * h));
            assert((low + p * (2 * h)) / p == low / p + 2 * h) by {
                vstd::arithmetic::div_mod::lemma_hoist_over_denominator(low, 2 * h, p as nat);
                assert(2 * h * p == p * (2 * h)) by (nonlinear_arith);
            }
        }
    }
}

/// Labels read from a bitset are the labels that were pushed.
pub proof fn law_labels_roundtrip(labels: Seq<bool>, i: int)
    requires
        0 <= i < labels.len(),
    ensures
        packed(labels).len() == labels_len(labels.len() as int),
        i / 8 < packed(labels).len(),
        bit_of(packed(labels)[i / 8], i % 8) == labels[i],
{
    let j = i / 8;
    let part = byte_labels(labels, j);
    lemma_pack_bound(part);
    lemma2_to64();
    if part.len() < 8 {
        vstd::arithmetic::power2::lemma_pow2_strictly_increases(part.len(), 8);
    }
    lemma_bit_of_pack(part, i % 8);
    assert(part[i % 8] == labels[i]);
}

/// The bits after the last label are zero.
pub proof fn law_spare_bits_zero(labels: Seq<bool>, i: int)
    requires
        labels.len() <= i < 8 * labels_len(labels.len() as int),
    ensures
        !bit_of(packed(labels)[i / 8], i % 8),
{
    let j = i / 8;
    let part = byte_labels(labels, j);
    lemma_pack_bound(part);
    lemma2_to64();
    assert(part.len() <= i % 8);
    if part.len() < i % 8 {
        vstd::arithmetic::power2::lemma_pow2_strictly_increases(part.len(), (i % 8) as nat);
    }
    vstd::arithmetic::power2::lemma_pow2_strictly_increases(part.len(), 8);
    let p = pow2((i % 8) as nat) as int;
    assert(pack_bits(part) / p == 0) by (nonlinear_arith)
        requires
            0 <= pack_bits(part) < p,
    ;
}

} // verus!
