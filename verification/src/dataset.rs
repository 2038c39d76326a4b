//! Offline construction of the dataset artifacts from labelled reference vectors.

use vstd::prelude::*;
use vstd::string::StringExecFns;
use vstd::utf8::encode_utf8;

use crate::format::{
    bit_of, byte_of, dataset_len, header_bytes, labels_len, lane_of, lane_to_byte, lanes, packed,
    write_references_header, LabelBitsetWriter, REFS_HEADER_LEN,
};
use crate::quantize::{quantize, quantized_vector};
use crate::search::{all_quantized, marked, row};
use crate::single::{Single, NAN_BITS};
use crate::state::{validated, ArtifactError};
use crate::text::{number_text, numeral, quoted, quoted_form};
use crate::{DIMS, PAD, SENTINEL_I8};

verus! {

/// Pattern of -1.0, which marks a missing dimension in the source data.
pub const MINUS_ONE_BITS: u32 = 0xBF80_0000;

/// A labelled vector of the source data.
#[derive(Debug)]
pub struct Reference {
    pub vector: Vec<Single>,
    pub label: String,
}

/// Sizes of a finished dataset.
#[derive(Debug, Clone, Copy, PartialEq, Eq, Structural)]
pub struct BuildStats {
    pub vectors: u64,
    pub fraud_count: u64,
    pub refs_bytes: u64,
    pub labels_bytes: u64,
}

/// How the source data is stored.
#[derive(Debug, Clone, Copy, PartialEq, Eq, Structural)]
pub enum InputCompression {
    Gzip,
    Plain,
}

/// A path without trailing slashes and trailing `.` components.
pub open spec fn trimmed(path: Seq<u8>) -> Seq<u8>
    decreases path.len(),
{
    let n = path.len() as int;
    if n > 0 && path[n - 1] == 0x2F {
        trimmed(path.take(n - 1))
    } else if n > 1 && path[n - 1] == 0x2E && path[n - 2] == 0x2F {
        trimmed(path.take(n - 2))
    } else {
        path
    }
}

/// The last component of the path has the extension `gz`: it ends in `.gz`, and something stands
/// before that.
pub open spec fn gzip_extension(path: Seq<u8>) -> bool {
    let name = trimmed(path);
    let n = name.len() as int;
    &&& n >= 4
    &&& name[n - 4] != 0x2F
    &&& name[n - 3] == 0x2E
    &&& name[n - 2] == 0x67
    &&& name[n - 1] == 0x7A
}

impl InputCompression {
    /// Compression of a source file, by the extension of its path.
    #[must_use]
    pub fn detect(path: &str) -> (compression: Self)
        ensures
            compression == (if gzip_extension(encode_utf8(path@)) {
                InputCompression::Gzip
            } else {
                InputCompression::Plain
            }),
    {
        let bytes = path.as_bytes();
        let mut n: usize = bytes.len();
        assert(bytes@.take(n as int) =~= bytes@);
        while n > 0 && (bytes[n - 1] == 0x2F || (n > 1 && bytes[n - 1] == 0x2E && bytes[n - 2]
            == 0x2F))
            invariant
                n <= bytes@.len(),
                trimmed(bytes@.take(n as int)) == trimmed(bytes@),
            decreases n,
        {
            let ghost here = bytes@.take(n as int);
            if bytes[n - 1] == 0x2F {
                n = n - 1;
            } else {
                n = n - 2;
            }
            assert(here.take(n as int) =~= bytes@.take(n as int));
        }
        let ghost name = bytes@.take(n as int);
        assert(trimmed(name) == name);
        if n >= 4 && bytes[n - 4] != 0x2F && bytes[n - 3] == 0x2E && bytes[n - 2] == 0x67
            && bytes[n - 1] == 0x7A {
            InputCompression::Gzip
        } else {
            InputCompression::Plain
        }
    }
}

/// Directory of the artifacts when none is named.
#[must_use]
pub fn default_output_dir() -> (path: String)
    ensures
        path@ == "target/dataset"@,
{
    "target/dataset".to_owned()
}

/// Source file when none is named.
#[must_use]
pub fn default_input_path() -> (path: String)
    ensures
        path@ == "resources/references.json.gz"@,
{
    "resources/references.json.gz".to_owned()
}

/// Whether the number is exactly -1.0.
fn is_sentinel_minus_one(x: Single) -> (missing: bool)
    ensures
        missing == (x.bits == MINUS_ONE_BITS),
{
    x.bits == MINUS_ONE_BITS
}

/// A dimension of the source data, with NaN for a missing one.
pub open spec fn cleaned(x: Single) -> Single {
    if x.bits == MINUS_ONE_BITS {
        Single { bits: NAN_BITS }
    } else {
        x
    }
}

/// A vector of the source data, with NaN for missing dimensions.
pub open spec fn cleaned_vector(v: Seq<Single>) -> Seq<Single> {
    Seq::new(v.len(), |i: int| cleaned(v[i]))
}

/// The row that stores a vector of the source data.
pub open spec fn stored(v: Seq<Single>) -> Seq<u8> {
    Seq::new(PAD as nat, |i: int| byte_of(quantized_vector(cleaned_vector(v))[i]))
}

/// What is written of an entry before its label is looked at: its row, if it has one.
pub open spec fn row_bytes(entry: Reference) -> Seq<u8> {
    if entry.vector@.len() == DIMS {
        stored(entry.vector@)
    } else {
        Seq::empty()
    }
}

/// The two labels of the source data.
pub open spec fn known_label(label: Seq<char>) -> bool {
    label == "fraud"@ || label == "legit"@
}

/// Why an entry of the source data was refused.
#[derive(Debug, Clone)]
pub enum EntryError {
    /// The vector does not have fourteen dimensions.
    WrongDims { index: u64, got: usize },
    /// The label is neither `fraud` nor `legit`.
    UnknownLabel { index: u64, label: String },
}

/// The text for a vector of `got` dimensions in entry `index`.
pub open spec fn wrong_dims_text(index: nat, got: nat) -> Seq<char> {
    "entry "@ + numeral(index) + ": expected "@ + numeral(DIMS as nat) + "-dim vector, got "@
        + numeral(got) + " dims"@
}

/// The text for an unknown label in entry `index`; `quoted` is the label in quotes.
pub open spec fn unknown_label_text(index: nat, quoted: Seq<char>) -> Seq<char> {
    "entry "@ + numeral(index) + ": unknown label "@ + quoted
}

/// The message for an unknown label in entry `index`; `quoted` is the label in quotes.
#[must_use]
pub fn unknown_label_message(index: u64, quoted: &str) -> (text: String)
    ensures
        text@ == unknown_label_text(index as nat, quoted@),
{
    let mut text: String = "entry ".to_owned();
    text.append(number_text(index as u128).as_str());
    text.append(": unknown label ");
    text.append(quoted);
    text
}

impl EntryError {
    /// The text of the error.
    pub open spec fn text(self) -> Seq<char> {
        match self {
            EntryError::WrongDims { index, got } => wrong_dims_text(index as nat, got as nat),
            EntryError::UnknownLabel { index, label } => unknown_label_text(
                index as nat,
                quoted_form(label@),
            ),
        }
    }

    /// The text of the error.
    #[must_use]
    pub fn message(&self) -> (text: String)
        ensures
            text@ == self.text(),
    {
        match self {
            EntryError::WrongDims { index, got } => {
                let mut text: String = "entry ".to_owned();
                text.append(number_text(*index as u128).as_str());
                text.append(": expected ");
                text.append(number_text(DIMS as u128).as_str());
                text.append("-dim vector, got ");
                text.append(number_text(*got as u128).as_str());
                text.append(" dims");
                text
            },
            EntryError::UnknownLabel { index, label } => {
                unknown_label_message(*index, quoted(label.as_str()).as_str())
            },
        }
    }
}

/// The text of the error for entry `i`, which is not acceptable.
pub open spec fn entry_refusal(i: nat, entry: Reference) -> Seq<char> {
    if entry.vector@.len() != DIMS {
        wrong_dims_text(i, entry.vector@.len())
    } else {
        unknown_label_text(i, quoted_form(entry.label@))
    }
}

/// The entry can be stored.
pub open spec fn acceptable(entry: Reference) -> bool {
    entry.vector@.len() == DIMS && known_label(entry.label@)
}

/// `e` is the error for entry `i`, which is not acceptable.
pub open spec fn entry_error(i: int, entry: Reference, e: EntryError) -> bool {
    match e {
        EntryError::WrongDims { index, got } => {
            &&& entry.vector@.len() != DIMS
            &&& index == i
            &&& got == entry.vector@.len()
        },
        EntryError::UnknownLabel { index, label } => {
            &&& entry.vector@.len() == DIMS
            &&& !known_label(entry.label@)
            &&& index == i
            &&& label@ == entry.label@
        },
    }
}

/// Streaming sink for the entries of the source data: it quantizes each vector to a row, packs
/// the labels and counts. Rows that were taken out with [`Self::take_refs`] are not held any more.
pub struct ArraySink {
    refs: Vec<u8>,
    labels: LabelBitsetWriter,
    count: u64,
    fraud_count: u64,
    taken: Ghost<Seq<u8>>,
}

impl ArraySink {
    /// The references artifact written so far, taken out or not.
    pub closed spec fn written(&self) -> Seq<u8> {
        self.taken@ + self.refs@
    }

    /// The part of it that is still held.
    pub closed spec fn held(&self) -> Seq<u8> {
        self.refs@
    }

    /// The labels so far.
    pub closed spec fn labels(&self) -> Seq<bool> {
        self.labels.labels()
    }

    /// Number of entries stored.
    pub closed spec fn count(&self) -> u64 {
        self.count
    }

    /// Number of entries labelled as fraud.
    pub closed spec fn fraud_count(&self) -> u64 {
        self.fraud_count
    }

    /// The label writer is in order.
    pub closed spec fn wf(&self) -> bool {
        self.labels.wf() && self.labels.start() == Seq::<u8>::empty()
    }

    /// A sink that holds the header of an empty dataset; the count in it is patched at the end.
    #[must_use]
    pub fn new() -> (sink: Self)
        ensures
            sink.wf(),
            sink.written() == header_bytes(0),
            sink.held() == header_bytes(0),
            sink.labels() == Seq::<bool>::empty(),
            sink.count() == 0,
            sink.fraud_count() == 0,
    {
        let mut refs: Vec<u8> = Vec::new();
        write_references_header(&mut refs, 0);
        let sink = ArraySink {
            refs,
            labels: LabelBitsetWriter::new(Vec::new()),
            count: 0,
            fraud_count: 0,
            taken: Ghost(Seq::empty()),
        };
        assert(sink.written() =~= header_bytes(0));
        assert(sink.held() =~= header_bytes(0));
        sink
    }

    /// Take out the rows that are held.
    pub fn take_refs(&mut self) -> (refs: Vec<u8>)
        ensures
            refs@ == old(self).held(),
            final(self).held() == Seq::<u8>::empty(),
            final(self).written() == old(self).written(),
            final(self).labels() == old(self).labels(),
            final(self).count() == old(self).count(),
            final(self).fraud_count() == old(self).fraud_count(),
            old(self).wf() ==> final(self).wf(),
    {
        let mut refs: Vec<u8> = Vec::new();
        let ghost all = self.written();
        std::mem::swap(&mut refs, &mut self.refs);
        self.taken = Ghost(all);
        assert(self.written() =~= all);
        refs
    }

    /// The held rows, the label writer, the number of entries and the number labelled as fraud.
    #[must_use]
    pub fn into_parts(self) -> (parts: (Vec<u8>, LabelBitsetWriter, u64, u64))
        requires
            self.wf(),
        ensures
            parts.0@ == self.held(),
            parts.1.wf(),
            parts.1.start() == Seq::<u8>::empty(),
            parts.1.labels() == self.labels(),
            parts.2 == self.count(),
            parts.3 == self.fraud_count(),
    {
        (self.refs, self.labels, self.count, self.fraud_count)
    }

    /// Store entry `i`: its row, then its label. The row of an entry with an unknown label is
    /// written before the label is refused.
    pub fn process_entry(&mut self, i: u64, entry: &Reference) -> (result: Result<(), EntryError>)
        requires
            old(self).wf(),
            old(self).fraud_count() < u64::MAX,
        ensures
            final(self).wf(),
            final(self).count() == old(self).count(),
            final(self).written() == old(self).written() + row_bytes(*entry),
            final(self).held() == old(self).held() + row_bytes(*entry),
            match result {
                Ok(_) => {
                    let fraud = entry.label@ == "fraud"@;
                    &&& acceptable(*entry)
                    &&& final(self).labels() == old(self).labels().push(fraud)
                    &&& final(self).fraud_count() == old(self).fraud_count() + (if fraud {
                        1int
                    } else {
                        0
                    })
                },
                Err(e) => {
                    &&& entry_error(i as int, *entry, e)
                    &&& e.text() == entry_refusal(i as nat, *entry)
                    &&& final(self).labels() == old(self).labels()
                    &&& final(self).fraud_count() == old(self).fraud_count()
                },
            },
    {
        let ghost before = *self;
        if entry.vector.len() != DIMS {
            assert(self.written() + Seq::<u8>::empty() =~= self.written());
            assert(self.held() + Seq::<u8>::empty() =~= self.held());
            return Err(EntryError::WrongDims { index: i, got: entry.vector.len() });
        }
        let mut buf: [Single; DIMS] = [Single { bits: 0 }; DIMS];
        let mut d: usize = 0;
        while d < DIMS
            invariant
                d <= DIMS,
                entry.vector@.len() == DIMS,
                forall|k: int| 0 <= k < d ==> #[trigger] buf@[k] == cleaned(entry.vector@[k]),
            decreases DIMS - d,
        {
            let raw = entry.vector[d];
            buf[d] = if is_sentinel_minus_one(raw) {
                Single { bits: NAN_BITS }
            } else {
                raw
            };
            d = d + 1;
        }
        assert(buf@ =~= cleaned_vector(entry.vector@));
        let q = quantize(&buf);
        let ghost row = stored(entry.vector@);
        let mut b: usize = 0;
        while b < PAD
            invariant
                b <= PAD,
                q@ == quantized_vector(cleaned_vector(entry.vector@)),
                row == stored(entry.vector@),
                self.refs@ =~= before.refs@ + row.take(b as int),
                self.labels == before.labels,
                self.count == before.count,
                self.fraud_count == before.fraud_count,
                self.taken == before.taken,
            decreases PAD - b,
        {
            self.refs.push(lane_to_byte(q[b]));
            assert(row.take(b + 1) =~= row.take(b as int).push(row[b as int]));
            b = b + 1;
        }
        assert(row.take(PAD as int) =~= row);
        assert(self.held() =~= before.held() + row);
        assert(self.written() =~= before.written() + row);
        let fraud: bool = if entry.label == "fraud".to_owned() {
            true
        } else if entry.label == "legit".to_owned() {
            proof {
                lemma_labels_differ();
            }
            false
        } else {
            return Err(EntryError::UnknownLabel { index: i, label: entry.label.clone() });
        };
        if fraud {
            self.fraud_count = self.fraud_count + 1;
        }
        self.labels.push(fraud);
        Ok(())
    }

    /// Store the next entry.
    pub fn visit_entry(&mut self, entry: &Reference) -> (result: Result<(), EntryError>)
        requires
            old(self).wf(),
            old(self).fraud_count() <= old(self).count() < u64::MAX,
        ensures
            final(self).wf(),
            final(self).fraud_count() <= final(self).count(),
            final(self).written() == old(self).written() + row_bytes(*entry),
            final(self).held() == old(self).held() + row_bytes(*entry),
            match result {
                Ok(_) => {
                    let fraud = entry.label@ == "fraud"@;
                    &&& acceptable(*entry)
                    &&& final(self).count() == old(self).count() + 1
                    &&& final(self).labels() == old(self).labels().push(fraud)
                    &&& final(self).fraud_count() == old(self).fraud_count() + (if fraud {
                        1int
                    } else {
                        0
                    })
                },
                Err(e) => {
                    &&& entry_error(old(self).count() as int, *entry, e)
                    &&& e.text() == entry_refusal(old(self).count() as nat, *entry)
                    &&& final(self).count() == old(self).count()
                    &&& final(self).labels() == old(self).labels()
                    &&& final(self).fraud_count() == old(self).fraud_count()
                },
            },
    {
        let i: u64 = self.count;
        match self.process_entry(i, entry) {
            Ok(()) => {},
            Err(e) => return Err(e),
        }
        self.count = self.count + 1;
        Ok(())
    }
}

/// The two labels are different.
pub(crate) proof fn lemma_labels_differ()
    ensures
        "legit"@ != "fraud"@,
{
    reveal_strlit("legit");
    reveal_strlit("fraud");
    assert("legit"@[0] != "fraud"@[0]);
}

/// The first entry, from `from` on, that is not acceptable; the number of entries if all are.
pub open spec fn first_fault(entries: Seq<Reference>, from: int) -> int
    decreases entries.len() - from,
{
    if from >= entries.len() || !acceptable(entries[from]) {
        from
    } else {
        first_fault(entries, from + 1)
    }
}

/// The rows of the entries.
pub open spec fn body(entries: Seq<Reference>) -> Seq<u8>
    decreases entries.len(),
{
    if entries.len() == 0 {
        Seq::empty()
    } else {
        body(entries.drop_last()) + stored(entries.last().vector@)
    }
}

/// The labels of the entries: true for fraud.
pub open spec fn marks(entries: Seq<Reference>) -> Seq<bool> {
    Seq::new(entries.len(), |i: int| entries[i].label@ == "fraud"@)
}

/// Number of true labels.
pub open spec fn count_true(labels: Seq<bool>) -> int
    decreases labels.len(),
{
    if labels.len() == 0 {
        0
    } else {
        count_true(labels.drop_last()) + (if labels.last() {
            1int
        } else {
            0
        })
    }
}

/// A finished dataset.
pub struct Artifacts {
    pub refs: Vec<u8>,
    pub labels: Vec<u8>,
    pub stats: BuildStats,
}

/// The artifacts hold the entries.
pub open spec fn holds(built: Artifacts, entries: Seq<Reference>) -> bool {
    &&& built.refs@ == header_bytes(entries.len()) + body(entries)
    &&& built.labels@ == packed(marks(entries))
    &&& built.stats.vectors == entries.len()
    &&& built.stats.fraud_count == count_true(marks(entries))
    &&& built.stats.refs_bytes == built.refs@.len()
    &&& built.stats.labels_bytes == built.labels@.len()
}

/// Put the vector count into the header of a references artifact.
pub fn patch_header(refs: &mut Vec<u8>, n: u64)
    requires
        old(refs)@.len() >= REFS_HEADER_LEN,
    ensures
        final(refs)@ == header_bytes(n as nat) + old(refs)@.skip(REFS_HEADER_LEN as int),
{
    let ghost start = refs@;
    let mut header: Vec<u8> = Vec::new();
    write_references_header(&mut header, n);
    proof {
        crate::format::law_header_len(n as nat);
    }
    let mut k: usize = 0;
    while k < REFS_HEADER_LEN
        invariant
            k <= REFS_HEADER_LEN,
            header@ =~= header_bytes(n as nat),
            header@.len() == REFS_HEADER_LEN,
            refs@.len() == start.len(),
            start.len() >= REFS_HEADER_LEN,
            forall|j: int| 0 <= j < k ==> #[trigger] refs@[j] == header@[j],
            forall|j: int| k <= j < start.len() ==> #[trigger] refs@[j] == start[j],
        decreases REFS_HEADER_LEN - k,
    {
        refs.set(k, header[k]);
        k = k + 1;
    }
    assert(refs@ =~= header_bytes(n as nat) + start.skip(REFS_HEADER_LEN as int));
}

/// Build the artifacts of a dataset. The first entry that is not acceptable is an error.
pub fn build(entries: &[Reference]) -> (result: Result<Artifacts, EntryError>)
    ensures
        ({
            let fault = first_fault(entries@, 0);
            match result {
                Ok(built) => fault == entries@.len() && holds(built, entries@),
                Err(e) => {
                    &&& 0 <= fault < entries@.len()
                    &&& entry_error(fault, entries@[fault], e)
                    &&& e.text() == entry_refusal(fault as nat, entries@[fault])
                },
            }
        }),
{
    let mut sink = ArraySink::new();
    let mut i: usize = 0;
    assert(marks(entries@.take(0)) =~= Seq::<bool>::empty());
    assert(header_bytes(0) + body(entries@.take(0)) =~= header_bytes(0));
    while i < entries.len()
        invariant
            i <= entries@.len(),
            sink.wf(),
            sink.count() == i,
            sink.held() == header_bytes(0) + body(entries@.take(i as int)),
            sink.labels() == marks(entries@.take(i as int)),
            sink.fraud_count() == count_true(marks(entries@.take(i as int))),
            sink.fraud_count() <= sink.count(),
            first_fault(entries@, 0) == first_fault(entries@, i as int),
        decreases entries@.len() - i,
    {
        let ghost done = entries@.take(i as int);
        let ghost more = entries@.take(i + 1);
        match sink.visit_entry(&entries[i]) {
            Ok(()) => {},
            Err(e) => return Err(e),
        }
        proof {
            assert(more.drop_last() =~= done);
            assert(marks(more) =~= marks(done).push(entries@[i as int].label@ == "fraud"@));
            assert(marks(more).drop_last() =~= marks(done));
            assert(header_bytes(0) + body(more) =~= header_bytes(0) + body(done) + stored(
                entries@[i as int].vector@,
            ));
        }
        i = i + 1;
    }
    assert(entries@.take(i as int) =~= entries@);
    let (mut refs, writer, n, fraud_count) = sink.into_parts();
    let labels = writer.finish();
    proof {
        crate::format::law_header_len(0);
        assert(refs@.skip(REFS_HEADER_LEN as int) =~= body(entries@));
        assert(Seq::<u8>::empty() + packed(marks(entries@)) =~= packed(marks(entries@)));
    }
    patch_header(&mut refs, n);
    let stats = BuildStats {
        vectors: n,
        fraud_count,
        refs_bytes: refs.len() as u64,
        labels_bytes: labels.len() as u64,
    };
    Ok(Artifacts { refs, labels, stats })
}

/// Row `i` of the body stores entry `i`.
pub(crate) proof fn lemma_body(entries: Seq<Reference>, i: int)
    requires
        0 <= i < entries.len(),
    ensures
        body(entries).len() == entries.len() * PAD,
        body(entries).subrange(i * PAD, i * PAD + PAD) == stored(entries[i].vector@),
    decreases entries.len(),
{
    let n = entries.len() as int;
    let init = entries.drop_last();
    let last = stored(entries.last().vector@);
    if n > 1 {
        lemma_body(init, 0);
    }
    assert(body(init).len() == (n - 1) * PAD);
    if i == n - 1 {
        assert(body(entries).subrange(i * PAD, i * PAD + PAD) =~= last);
    } else {
        lemma_body(init, i);
        assert(body(entries).subrange(i * PAD, i * PAD + PAD) =~= body(init).subrange(
            i * PAD,
            i * PAD + PAD,
        ));
    }
}

proof fn lemma_body_len(entries: Seq<Reference>)
    ensures
        body(entries).len() == entries.len() * PAD,
{
    if entries.len() > 0 {
        lemma_body(entries, 0);
    }
}

/// A dataset that was built has one row per entry.
pub proof fn law_built_size(built: Artifacts, entries: Seq<Reference>)
    requires
        holds(built, entries),
    ensures
        built.refs@.len() == dataset_len(entries.len() as int),
        built.labels@.len() == labels_len(entries.len() as int),
        lanes(built.refs@.skip(REFS_HEADER_LEN as int)).len() == entries.len() * PAD,
{
    lemma_body_len(entries);
    crate::format::law_header_len(entries.len());
}

/// A dataset that was built passes validation, with the number of its entries.
pub proof fn law_built_validates(
    built: Artifacts,
    entries: Seq<Reference>,
    result: Result<u32, ArtifactError>,
)
    requires
        holds(built, entries),
        entries.len() <= u32::MAX,
        validated(built.refs@, built.labels@, result),
    ensures
        result matches Ok(n) && n == entries.len(),
{
    let n = entries.len() as u64;
    law_built_size(built, entries);
    crate::format::law_header_read(n, body(entries));
}

/// The rows of a dataset that was built are the quantized vectors of its entries.
pub proof fn law_built_rows(built: Artifacts, entries: Seq<Reference>, i: int)
    requires
        holds(built, entries),
        0 <= i < entries.len(),
    ensures
        row(lanes(built.refs@.skip(REFS_HEADER_LEN as int)), i) == quantized_vector(
            cleaned_vector(entries[i].vector@),
        ),
{
    let rows = lanes(built.refs@.skip(REFS_HEADER_LEN as int));
    crate::format::law_header_len(entries.len());
    lemma_body(entries, i);
    assert(built.refs@.skip(REFS_HEADER_LEN as int) =~= body(entries));
    let q = quantized_vector(cleaned_vector(entries[i].vector@));
    let part = body(entries).subrange(i * PAD, i * PAD + PAD);
    assert(i * PAD + PAD <= entries.len() * PAD) by (nonlinear_arith)
        requires
            0 <= i < entries.len(),
            PAD == 16,
    ;
    assert forall|k: int| 0 <= k < PAD implies #[trigger] row(rows, i)[k] == q[k] by {
        assert(row(rows, i)[k] == lane_of(part[k]));
        crate::format::law_lane_roundtrip(q[k]);
    }
    assert(row(rows, i) =~= q);
}

/// A stored dimension is the sentinel exactly where the source data has -1.0 or NaN.
pub proof fn law_missing_dimensions(v: Seq<Single>, d: int)
    requires
        v.len() == DIMS,
        0 <= d < DIMS,
    ensures
        quantized_vector(cleaned_vector(v))[d] == SENTINEL_I8 <==> v[d].bits == MINUS_ONE_BITS
            || v[d].nan(),
{
    crate::quantize::law_quantized_vector(cleaned_vector(v));
    assert(cleaned_vector(v)[d] == cleaned(v[d]));
}

/// Every lane of a dataset that was built is quantized, so that both kernels agree on it.
pub proof fn law_built_quantized(built: Artifacts, entries: Seq<Reference>)
    requires
        holds(built, entries),
    ensures
        all_quantized(lanes(built.refs@.skip(REFS_HEADER_LEN as int))),
{
    let rows = lanes(built.refs@.skip(REFS_HEADER_LEN as int));
    crate::format::law_header_len(entries.len());
    lemma_body_len(entries);
    assert forall|j: int| 0 <= j < rows.len() implies -1 <= #[trigger] rows[j] <= 100 by {
        let i = j / PAD as int;
        let k = j % PAD as int;
        law_built_rows(built, entries, i);
        crate::quantize::law_quantized_vector(cleaned_vector(entries[i].vector@));
        assert(row(rows, i)[k] == rows[j]);
    }
}

/// The label bits of a dataset that was built are the labels of its entries.
pub proof fn law_built_labels(built: Artifacts, entries: Seq<Reference>, i: int)
    requires
        holds(built, entries),
        0 <= i < entries.len(),
    ensures
        i / 8 < built.labels@.len(),
        bit_of(built.labels@[i / 8], i % 8) <==> entries[i].label@ == "fraud"@,
{
    crate::format::law_labels_roundtrip(marks(entries), i);
}

/// The labels of the entries with the given indices.
pub open spec fn labels_at(entries: Seq<Reference>, idx: Seq<u32>) -> Seq<bool> {
    Seq::new(idx.len(), |k: int| entries[idx[k] as int].label@ == "fraud"@)
}

/// Counting marked neighbours in a dataset that was built counts the entries labelled as fraud.
pub proof fn law_built_marked(built: Artifacts, entries: Seq<Reference>, idx: Seq<u32>)
    requires
        holds(built, entries),
        forall|k: int| 0 <= k < idx.len() ==> (#[trigger] idx[k]) < entries.len(),
    ensures
        marked(idx, built.labels@) == count_true(labels_at(entries, idx)),
    decreases idx.len(),
{
    if idx.len() > 0 {
        law_built_marked(built, entries, idx.drop_last());
        law_built_labels(built, entries, idx.last() as int);
        assert(labels_at(entries, idx).drop_last() =~= labels_at(entries, idx.drop_last()));
        assert(idx[idx.len() - 1] < entries.len());
    }
}

} // verus!
