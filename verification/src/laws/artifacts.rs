//! Laws of the artifacts: what stands where in them, which ones are accepted, and what a built
//! dataset holds of its entries.

use vstd::arithmetic::power2::{lemma2_to64, pow2};
use vstd::prelude::*;
use vstd::utf8::encode_utf8;

use crate::dataset::{
    build, cleaned, cleaned_vector, count_true, first_fault, holds, law_built_labels,
    law_built_size, marks, stored, trimmed, Artifacts, EntryError, InputCompression, Reference,
};
use crate::format::{
    byte_to_lane, dataset_byte_len, header_bytes, header_count, label_bit, labels_byte_len,
    lane_to_byte, law_header_len, law_header_read, law_labels_roundtrip, le_value, packed,
    read_references_header, HeaderError, LabelBitsetWriter, MAGIC,
};
use crate::laws::numbers::law_number_line;
use crate::laws::payloads::law_quantize_lanes;
use crate::quantize::{law_quantized_vector, quantize};
use crate::single::Single;
use crate::state::{
    load_state, page_count, page_heads, validate_artifacts, warmup, AppState, ArtifactError,
    RefBytes,
};
use crate::vectorize::{MccRisk, Normalization};
use crate::{DIMS, PAD};

verus! {

/// The first eight bytes are `RINHA26` and a one.
pub open spec fn starts_with_magic(r: Seq<u8>) -> bool {
    r[0] == 82 && r[1] == 73 && r[2] == 78 && r[3] == 72 && r[4] == 65 && r[5] == 50 && r[6] == 54
        && r[7] == 1
}

/// The number in bytes 8 to 15, lowest byte first.
pub open spec fn stored_count(r: Seq<u8>) -> int {
    r[8] + 0x100 * r[9] + 0x1_0000 * r[10] + 0x100_0000 * r[11] + 0x1_0000_0000 * r[12]
        + 0x100_0000_0000 * r[13] + 0x1_0000_0000_0000 * r[14] + 0x100_0000_0000_0000 * r[15]
}

proof fn lemma_magic(r: Seq<u8>)
    requires
        r.len() >= 8,
    ensures
        r.take(8) == MAGIC@ <==> starts_with_magic(r),
{
    let t = r.take(8);
    if r.take(8) == MAGIC@ {
        assert(t[0] == r[0] && t[1] == r[1] && t[2] == r[2] && t[3] == r[3]);
        assert(t[4] == r[4] && t[5] == r[5] && t[6] == r[6] && t[7] == r[7]);
    }
    if starts_with_magic(r) {
        assert(t =~= MAGIC@);
    }
}

proof fn lemma_count(r: Seq<u8>)
    requires
        r.len() >= 16,
    ensures
        header_count(r) == stored_count(r),
{
    let b = r.subrange(8, 16);
    let b1 = b.drop_first();
    let b2 = b1.drop_first();
    let b3 = b2.drop_first();
    let b4 = b3.drop_first();
    let b5 = b4.drop_first();
    let b6 = b5.drop_first();
    let b7 = b6.drop_first();
    assert(le_value(b7.drop_first()) == 0);
    assert(le_value(b7) == b7[0]);
    assert(le_value(b6) == b6[0] + 256 * le_value(b7));
    assert(le_value(b5) == b5[0] + 256 * le_value(b6));
    assert(le_value(b4) == b4[0] + 256 * le_value(b5));
    assert(le_value(b3) == b3[0] + 256 * le_value(b4));
    assert(le_value(b2) == b2[0] + 256 * le_value(b3));
    assert(le_value(b1) == b1[0] + 256 * le_value(b2));
    assert(le_value(b) == b[0] + 256 * le_value(b1));
}

/// A header is the magic and the count in sixteen bytes.
pub proof fn law_header_bytes(n: u64)
    ensures
        header_bytes(n as nat).len() == 16,
        starts_with_magic(header_bytes(n as nat)),
        stored_count(header_bytes(n as nat)) == n,
{
    let h = header_bytes(n as nat);
    law_header_len(n as nat);
    law_header_read(n, Seq::empty());
    assert(h + Seq::<u8>::empty() =~= h);
    lemma_magic(h);
    lemma_count(h);
}

/// Reading a header gives its count, if all of it is there, and otherwise says what is wrong.
pub proof fn law_read_header(r: &[u8], result: Result<u64, HeaderError>)
    requires
        call_ensures(read_references_header, (r,), result),
    ensures
        result is Ok <==> r@.len() >= 16 && starts_with_magic(r@),
        result matches Ok(n) ==> n == stored_count(r@),
        result matches Err(HeaderError::BadMagic(m)) ==> r@.len() >= 8 && !starts_with_magic(r@)
            && m@ == r@.take(8),
        result matches Err(HeaderError::Truncated) ==> r@.len() < 8 || (r@.len() < 16
            && starts_with_magic(r@)),
{
    if r@.len() >= 8 {
        lemma_magic(r@);
    }
    if r@.len() >= 16 {
        lemma_count(r@);
    }
}

/// Sizes: sixteen bytes of header and sixteen per vector; one byte per eight labels, rounded up.
pub proof fn law_sizes(n: usize, refs: usize, labels: usize)
    requires
        call_ensures(dataset_byte_len, (n,), refs),
        call_ensures(labels_byte_len, (n,), labels),
    ensures
        refs == 16 + 16 * n,
        n <= 8 * labels <= n + 7,
{
}

/// A signed lane and its byte are the same modulo 256.
pub proof fn law_lanes(q: i8, b: u8, c: u8, r: i8)
    requires
        call_ensures(lane_to_byte, (q,), b),
        call_ensures(byte_to_lane, (c,), r),
    ensures
        (q - b) % 256 == 0,
        (r - c) % 256 == 0,
        b == c ==> q == r,
{
}

/// The eight labels of a byte make it up: label `8 j + k` has weight `2^k`.
pub proof fn law_label_bits(bits: &[u8], j: int, sets: Seq<bool>)
    requires
        0 <= j < bits@.len(),
        sets.len() == 8,
        8 * j + 7 <= usize::MAX,
        forall|k: int|
            0 <= k < 8 ==> call_ensures(label_bit, (bits, (8 * j + k) as usize), #[trigger] sets[k]),
    ensures
        bits@[j] == (if sets[0] { 1int } else { 0 }) + (if sets[1] { 2int } else { 0 }) + (if sets[2] {
            4int
        } else {
            0
        }) + (if sets[3] { 8int } else { 0 }) + (if sets[4] { 16int } else { 0 }) + (if sets[5] {
            32int
        } else {
            0
        }) + (if sets[6] { 64int } else { 0 }) + (if sets[7] { 128int } else { 0 }),
{
    let b = bits@[j] as int;
    assert forall|k: int| 0 <= k < 8 implies #[trigger] sets[k] == ((b / pow2(k as nat) as int) % 2
        == 1) by {
        assert(call_ensures(label_bit, (bits, (8 * j + k) as usize), sets[k]));
        assert((8 * j + k) / 8 == j && (8 * j + k) % 8 == k);
    }
    lemma2_to64();
    assert(pow2(0) == 1 && pow2(1) == 2 && pow2(2) == 4 && pow2(3) == 8);
    assert(pow2(4) == 16 && pow2(5) == 32 && pow2(6) == 64 && pow2(7) == 128);
    assert(b / 1 == b);
    assert(sets[0] == (b / (pow2(0) as int) % 2 == 1));
    assert(sets[0] == (b % 2 == 1) && sets[1] == (b / 2 % 2 == 1));
    assert(sets[2] == (b / 4 % 2 == 1) && sets[3] == (b / 8 % 2 == 1));
    assert(sets[4] == (b / 16 % 2 == 1) && sets[5] == (b / 32 % 2 == 1));
    assert(sets[6] == (b / 64 % 2 == 1) && sets[7] == (b / 128 % 2 == 1));
    lemma_halves(b);
}

/// A number below 256 is the sum of its bits.
proof fn lemma_halves(b: int)
    requires
        0 <= b < 256,
    ensures
        b == b % 2 + 2 * (b / 2 % 2) + 4 * (b / 4 % 2) + 8 * (b / 8 % 2) + 16 * (b / 16 % 2) + 32
            * (b / 32 % 2) + 64 * (b / 64 % 2) + 128 * (b / 128 % 2),
{
    assert(b / 4 == b / 2 / 2 && b / 8 == b / 4 / 2 && b / 16 == b / 8 / 2);
    assert(b / 32 == b / 16 / 2 && b / 64 == b / 32 / 2 && b / 128 == b / 64 / 2);
}

/// What a finished writer emitted reads back as the labels that were pushed, and its length is
/// that of their bitset. `rest` is what follows the bytes before the first label.
pub proof fn law_labels_read_back(
    writer: LabelBitsetWriter,
    bytes: Vec<u8>,
    rest: &[u8],
    i: usize,
    set: bool,
)
    requires
        writer.wf(),
        call_ensures(LabelBitsetWriter::finish, (writer,), bytes),
        rest@ == bytes@.skip(writer.start().len() as int),
        i < writer.labels().len(),
        call_ensures(label_bit, (rest, i), set),
    ensures
        set == writer.labels()[i as int],
        bytes@.take(writer.start().len() as int) == writer.start(),
        writer.labels().len() <= 8 * rest@.len() <= writer.labels().len() + 7,
{
    law_labels_roundtrip(writer.labels(), i as int);
    assert(rest@ =~= packed(writer.labels()));
    assert(bytes@.take(writer.start().len() as int) =~= writer.start());
}

/// Artifacts are accepted with the count of their header, if both have the size for it and it
/// fits 32 bits. Otherwise the first check that fails names the error.
pub proof fn law_validate(refs: &[u8], labels: &[u8], result: Result<u32, ArtifactError>)
    requires
        call_ensures(validate_artifacts, (refs, labels), result),
    ensures
        ({
            let header = refs@.len() >= 16 && starts_with_magic(refs@);
            let n = stored_count(refs@);
            let sized = refs@.len() == 16 + 16 * n;
            let labelled = n <= 8 * labels@.len() <= n + 7;
            &&& result is Ok <==> header && sized && labelled && n <= 0xFFFF_FFFF
            &&& result matches Ok(count) ==> count == n
            &&& (result is Err && result->Err_0 is Header) <==> !header
            &&& (result is Err && result->Err_0 is RefsSize) <==> header && !sized && n
                <= usize::MAX
            &&& (result is Err && result->Err_0 is LabelsSize) <==> header && sized
                && !labelled
            &&& (result is Err && result->Err_0 is CountOutOfUsize) <==> header && n > usize::MAX
            &&& result matches Err(ArtifactError::RefsSize { expected, n: count, got })
                ==> expected == 16 + 16 * n && count == n && got == refs@.len()
            &&& result matches Err(ArtifactError::LabelsSize { expected, n: count, got })
                ==> n <= 8 * expected <= n + 7 && count == n && got == labels@.len()
        }),
{
    if refs@.len() >= 8 {
        lemma_magic(refs@);
    }
    if refs@.len() >= 16 {
        lemma_count(refs@);
    }
    assert(refs@.len() == refs.len());
}

/// A loaded state holds what it was loaded from, is not ready, and its rows are the bytes after
/// the header, read as signed lanes.
pub proof fn law_load(
    refs: RefBytes<'_>,
    labels: RefBytes<'_>,
    norm: Normalization,
    mcc: MccRisk,
    result: Result<AppState<'_>, ArtifactError>,
    checked: Result<u32, ArtifactError>,
    slices: (&[u8], &[u8]),
)
    requires
        call_ensures(load_state, (refs, labels, norm, mcc), result),
        slices.0@ == refs@,
        slices.1@ == labels@,
        call_ensures(validate_artifacts, slices, checked),
    ensures
        result is Ok <==> checked is Ok,
        result matches Ok(state) ==> {
            &&& state.n == checked->Ok_0
            &&& !state.ready
            &&& state.refs@ == slices.0@
            &&& state.labels@ == slices.1@
            &&& state.norm == norm
            &&& state.mcc == mcc
            &&& state.rows@.len() == 16 * state.n
            &&& forall|k: int|
                0 <= k < 16 * state.n ==> (#[trigger] state.rows@[k] - slices.0@[16 + k]) % 256 == 0
        },
        result matches Err(e) ==> e.text() == checked->Err_0.text(),
{
}

/// The bytes of an artifact are those of its mapping or its buffer, whichever it is.
pub proof fn law_ref_bytes(m: &[u8], v: Vec<u8>, bytes: (&[u8], &[u8]), sizes: (usize, usize))
    requires
        call_ensures(RefBytes::as_slice, (&RefBytes::Mapped(m),), bytes.0),
        call_ensures(RefBytes::as_slice, (&RefBytes::Owned(v),), bytes.1),
        call_ensures(RefBytes::len, (&RefBytes::Mapped(m),), sizes.0),
        call_ensures(RefBytes::len, (&RefBytes::Owned(v),), sizes.1),
    ensures
        bytes.0@ == m@,
        bytes.1@ == v@,
        sizes.0 == m@.len(),
        sizes.1 == v@.len(),
{
}

/// Warmup reads the first byte of every page and the last byte.
pub proof fn law_warmup(b: Seq<u8>, k: int, state: &AppState<'_>, sum: u64)
    requires
        call_ensures(warmup, (state,), sum),
        b == state.refs@,
        0 <= k,
    ensures
        b.len() == 0 ==> sum == 0,
        b.len() > 0 ==> sum == page_heads(b, page_count(b.len() as int)) + b[b.len() - 1],
        page_heads(b, 0) == 0,
        page_heads(b, k + 1) == page_heads(b, k) + b[4096 * k],
        k < page_count(b.len() as int) <==> 4096 * k < b.len(),
{
}

/// The path ends in neither a slash nor a `.` component.
pub open spec fn ends_in_a_name(path: Seq<u8>) -> bool {
    &&& path.len() > 0
    &&& path[path.len() - 1] != 47
    &&& !(path.len() > 1 && path[path.len() - 1] == 46 && path[path.len() - 2] == 47)
}

/// A path counts as compressed by the extension of its last component: that ends in `.gz` after at
/// least one other byte. Slashes and `.` components after it change nothing.
pub proof fn law_detect(a: &str, b: &str, kind_a: InputCompression, kind_b: InputCompression)
    requires
        call_ensures(InputCompression::detect, (a,), kind_a),
        call_ensures(InputCompression::detect, (b,), kind_b),
    ensures
        encode_utf8(a@).len() == 0 ==> kind_a == InputCompression::Plain,
        encode_utf8(b@) == encode_utf8(a@) + seq![47u8] || encode_utf8(b@) == encode_utf8(a@)
            + seq![47u8, 46u8] ==> kind_b == kind_a,
        ends_in_a_name(encode_utf8(a@)) ==> {
            let path = encode_utf8(a@);
            let n = path.len() as int;
            kind_a == InputCompression::Gzip <==> n >= 4 && path[n - 4] != 47 && path[n - 3] == 46
                && path[n - 2] == 103 && path[n - 1] == 122
        },
{
    let (x, y) = (encode_utf8(a@), encode_utf8(b@));
    if y == x + seq![47u8] {
        assert(y.take(y.len() - 1) =~= x);
        assert(trimmed(y) == trimmed(x));
    }
    if y == x + seq![47u8, 46u8] {
        assert(y.take(y.len() - 2) =~= x);
        assert(trimmed(y) == trimmed(x));
    }
}

/// The source value marks a missing dimension: -1.0, or no number.
pub open spec fn missing(x: Single) -> bool {
    x.bits == 0xBF80_0000 || x.bits % 0x8000_0000 > 0x7F80_0000
}

/// A stored row holds each dimension of its vector by itself: 255 for a missing one, and otherwise
/// the lane that quantizing that very value gives, in whatever position. Two zeros follow.
pub proof fn law_stored_row(v: Seq<Single>, d: int, w: &[Single; DIMS], lanes: [i8; PAD], k: int)
    requires
        v.len() == 14,
        0 <= d < 14,
        0 <= k < 14,
        w@[k] == v[d],
        call_ensures(quantize, (w,), lanes),
    ensures
        stored(v).len() == 16,
        missing(v[d]) ==> stored(v)[d] == 255,
        !missing(v[d]) ==> stored(v)[d] == lanes@[k] && 0 <= lanes@[k] <= 100,
        !missing(v[d]) && v[d].value() >= pow2(149) ==> stored(v)[d] == 100,
        !missing(v[d]) && v[d].value() <= 0 ==> stored(v)[d] == 0,
        stored(v)[14] == 0 && stored(v)[15] == 0,
{
    let c = cleaned_vector(v);
    law_quantized_vector(c);
    law_quantized_vector(w@);
    law_number_line(v[d], v[d]);
    law_quantize_lanes(w, lanes, k);
    assert(c[d] == cleaned(v[d]));
    crate::quantize::law_quantized_range(c[d]);
    crate::quantize::law_quantized_range(w@[k]);
}

/// The entry has fourteen dimensions and one of the two labels.
pub open spec fn sound(e: Reference) -> bool {
    e.vector@.len() == 14 && (e.label@ == "fraud"@ || e.label@ == "legit"@)
}

proof fn lemma_first_fault(entries: Seq<Reference>, from: int)
    requires
        0 <= from <= entries.len(),
    ensures
        from <= first_fault(entries, from) <= entries.len(),
        forall|j: int| from <= j < first_fault(entries, from) ==> sound(#[trigger] entries[j]),
        first_fault(entries, from) < entries.len() ==> !sound(
            entries[first_fault(entries, from)],
        ),
    decreases entries.len() - from,
{
    if from < entries.len() && sound(entries[from]) {
        lemma_first_fault(entries, from + 1);
    }
}

/// A dataset is built exactly when all its entries are sound; otherwise the first one that is not
/// is named, its dimensions before its label.
pub proof fn law_build_refusals(entries: &[Reference], result: Result<Artifacts, EntryError>)
    requires
        call_ensures(build, (entries,), result),
    ensures
        result is Ok <==> (forall|j: int| 0 <= j < entries@.len() ==> sound(#[trigger] entries@[j])),
        result matches Err(EntryError::WrongDims { index, got }) ==> {
            &&& index < entries@.len()
            &&& forall|j: int| 0 <= j < index ==> sound(#[trigger] entries@[j])
            &&& entries@[index as int].vector@.len() == got
            &&& got != 14
        },
        result matches Err(EntryError::UnknownLabel { index, label }) ==> {
            &&& index < entries@.len()
            &&& forall|j: int| 0 <= j < index ==> sound(#[trigger] entries@[j])
            &&& entries@[index as int].vector@.len() == 14
            &&& entries@[index as int].label@ == label@
            &&& label@ != "fraud"@ && label@ != "legit"@
        },
{
    lemma_first_fault(entries@, 0);
    let fault = first_fault(entries@, 0);
    if result is Err {
        assert(!sound(entries@[fault]));
    }
}

/// Every dimension of every entry of a built dataset stands in its own byte: 255 for a missing
/// one, and otherwise the lane that quantizing that very value gives. Two zeros end each row.
pub proof fn law_build_rows(
    entries: &[Reference],
    built: Artifacts,
    i: int,
    d: int,
    w: &[Single; DIMS],
    lanes: [i8; PAD],
    k: int,
)
    requires
        call_ensures(build, (entries,), Ok::<Artifacts, EntryError>(built)),
        0 <= i < entries@.len(),
        0 <= d < 14,
        0 <= k < 14,
        w@[k] == entries@[i].vector@[d],
        call_ensures(quantize, (w,), lanes),
    ensures
        built.refs@.len() == 16 + 16 * entries@.len(),
        ({
            let x = entries@[i].vector@[d];
            let byte = built.refs@[16 + 16 * i + d];
            &&& missing(x) ==> byte == 255
            &&& !missing(x) ==> byte == lanes@[k]
            &&& !missing(x) && x.value() >= pow2(149) ==> byte == 100
            &&& !missing(x) && x.value() <= 0 ==> byte == 0
        }),
        built.refs@[16 + 16 * i + 14] == 0 && built.refs@[16 + 16 * i + 15] == 0,
{
    lemma_first_fault(entries@, 0);
    assert(sound(entries@[i]));
    let v = entries@[i].vector@;
    law_built_size(built, entries@);
    law_stored_row(v, d, w, lanes, k);
    law_header_len(entries@.len());
    crate::dataset::lemma_body(entries@, i);
    let body = crate::dataset::body(entries@);
    let part = body.subrange(i * PAD, i * PAD + PAD);
    assert(i * PAD == 16 * i);
    assert(part[d] == body[16 * i + d] && part[14] == body[16 * i + 14] && part[15] == body[16 * i
        + 15]);
    assert(built.refs@[16 + 16 * i + d] == body[16 * i + d]);
    assert(built.refs@[16 + 16 * i + 14] == body[16 * i + 14]);
    assert(built.refs@[16 + 16 * i + 15] == body[16 * i + 15]);
}

/// Each label bit of a built dataset is the label of its entry: set for fraud, clear for legit.
pub proof fn law_build_labels(
    entries: &[Reference],
    built: Artifacts,
    labels: &[u8],
    i: usize,
    set: bool,
)
    requires
        call_ensures(build, (entries,), Ok::<Artifacts, EntryError>(built)),
        labels@ == built.labels@,
        i < entries@.len(),
        call_ensures(label_bit, (labels, i), set),
    ensures
        set <==> entries@[i as int].label@ == "fraud"@,
        !set <==> entries@[i as int].label@ == "legit"@,
{
    lemma_first_fault(entries@, 0);
    assert(sound(entries@[i as int]));
    law_built_labels(built, entries@, i as int);
    crate::dataset::lemma_labels_differ();
}

/// The header of a built dataset counts its entries, and the statistics count what is there.
pub proof fn law_build_counts(entries: &[Reference], built: Artifacts)
    requires
        call_ensures(build, (entries,), Ok::<Artifacts, EntryError>(built)),
    ensures
        starts_with_magic(built.refs@),
        stored_count(built.refs@) == entries@.len(),
        built.stats.vectors == entries@.len(),
        built.stats.fraud_count == entries@.filter(|e: Reference| e.label@ == "fraud"@).len(),
        built.stats.refs_bytes == built.refs@.len() == 16 + 16 * entries@.len(),
        built.stats.labels_bytes == built.labels@.len(),
        entries@.len() <= 8 * built.labels@.len() <= entries@.len() + 7,
{
    law_built_size(built, entries@);
    let n = entries@.len() as u64;
    assert(n == entries@.len());
    law_header_bytes(n);
    let h = header_bytes(n as nat);
    assert forall|k: int| 0 <= k < 16 implies #[trigger] built.refs@[k] == h[k] by {}
    lemma_fraud_filter(entries@);
}

proof fn lemma_fraud_filter(entries: Seq<Reference>)
    ensures
        count_true(marks(entries)) == entries.filter(
            |e: Reference| e.label@ == "fraud"@,
        ).len(),
    decreases entries.len(),
{
    reveal(Seq::filter);
    if entries.len() > 0 {
        lemma_fraud_filter(entries.drop_last());
        assert(marks(entries).drop_last() =~= marks(entries.drop_last()));
    }
}

} // verus!
