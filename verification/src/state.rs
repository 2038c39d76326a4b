//! The loaded dataset and the checks it passes before it serves requests.

use vstd::prelude::*;
use vstd::string::StringExecFns;

use crate::format::{
    byte_to_lane, dataset_len, has_header, header_count, header_of, header_refusal, labels_byte_len,
    labels_len, lanes, read_references_header, HeaderError, REFS_HEADER_LEN,
};
use crate::text::{number_text, numeral};
use crate::vectorize::{MccRisk, Normalization};
use crate::PAD;

verus! {

/// Bytes between two touched positions of the warmup.
pub const PAGE_LEN: usize = 4096;

/// The bytes of an artifact: a mapping that someone else owns, or a buffer.
pub enum RefBytes<'a> {
    /// Bytes of a mapped file.
    Mapped(&'a [u8]),
    /// Bytes in memory.
    Owned(Vec<u8>),
}

impl<'a> View for RefBytes<'a> {
    type V = Seq<u8>;

    open spec fn view(&self) -> Seq<u8> {
        match self {
            RefBytes::Mapped(m) => m@,
            RefBytes::Owned(v) => v@,
        }
    }
}

impl<'a> RefBytes<'a> {
    /// The bytes.
    #[must_use]
    pub fn as_slice(&self) -> (bytes: &[u8])
        ensures
            bytes@ == self@,
    {
        match self {
            RefBytes::Mapped(m) => m,
            RefBytes::Owned(v) => v.as_slice(),
        }
    }

    /// Number of bytes.
    #[must_use]
    pub fn len(&self) -> (n: usize)
        ensures
            n == self@.len(),
    {
        self.as_slice().len()
    }

    /// Whether there are no bytes.
    #[must_use]
    pub fn is_empty(&self) -> (empty: bool)
        ensures
            empty == (self@.len() == 0),
    {
        self.as_slice().len() == 0
    }
}

/// Why a pair of artifacts was refused.
#[derive(Debug, Clone, Copy)]
pub enum ArtifactError {
    /// The references header cannot be read.
    Header(HeaderError),
    /// The vector count exceeds the address range.
    CountOutOfUsize,
    /// The references artifact has another size than its vector count asks for.
    RefsSize { expected: u128, n: u64, got: usize },
    /// The labels artifact has another size than the vector count asks for.
    LabelsSize { expected: u128, n: u64, got: usize },
    /// The vector count does not fit a 32-bit index.
    CountOutOfU32,
}

/// The text of a size mismatch: the artifact, the size for `n` vectors, and the size it has.
pub open spec fn size_text(artifact: Seq<char>, expected: nat, n: nat, got: nat) -> Seq<char> {
    artifact + " file size mismatch: expected "@ + numeral(expected) + " bytes for n="@ + numeral(n)
        + ", got "@ + numeral(got)
}

fn size_message(artifact: &str, expected: u128, n: u64, got: usize) -> (text: String)
    ensures
        text@ == size_text(artifact@, expected as nat, n as nat, got as nat),
{
    let mut text: String = artifact.to_owned();
    text.append(" file size mismatch: expected ");
    text.append(number_text(expected).as_str());
    text.append(" bytes for n=");
    text.append(number_text(n as u128).as_str());
    text.append(", got ");
    text.append(number_text(got as u128).as_str());
    text
}

impl ArtifactError {
    /// The text of the error.
    pub open spec fn text(self) -> Seq<char> {
        match self {
            ArtifactError::Header(e) => e.text(),
            ArtifactError::CountOutOfUsize => "references header N out of usize range"@,
            ArtifactError::RefsSize { expected, n, got } => size_text(
                "references"@,
                expected as nat,
                n as nat,
                got as nat,
            ),
            ArtifactError::LabelsSize { expected, n, got } => size_text(
                "labels"@,
                expected as nat,
                n as nat,
                got as nat,
            ),
            ArtifactError::CountOutOfU32 => "references header N out of u32 range"@,
        }
    }

    /// The text of the error.
    #[must_use]
    pub fn message(&self) -> (text: String)
        ensures
            text@ == self.text(),
    {
        match self {
            ArtifactError::Header(e) => e.message(),
            ArtifactError::CountOutOfUsize => "references header N out of usize range".to_owned(),
            ArtifactError::RefsSize { expected, n, got } => {
                size_message("references", *expected, *n, *got)
            },
            ArtifactError::LabelsSize { expected, n, got } => {
                size_message("labels", *expected, *n, *got)
            },
            ArtifactError::CountOutOfU32 => "references header N out of u32 range".to_owned(),
        }
    }
}

/// What validating the artifacts yields; the first check that fails decides the error.
pub open spec fn validated(
    refs: Seq<u8>,
    labels: Seq<u8>,
    result: Result<u32, ArtifactError>,
) -> bool {
    let n = header_count(refs);
    if !has_header(refs) {
        result matches Err(ArtifactError::Header(e)) && header_of(refs, Err(e))
    } else if n > usize::MAX {
        result matches Err(ArtifactError::CountOutOfUsize)
    } else if refs.len() != dataset_len(n as int) {
        &&& result matches Err(ArtifactError::RefsSize { expected, n: count, got })
        &&& expected == dataset_len(n as int)
        &&& count == n
        &&& got == refs.len()
    } else if labels.len() != labels_len(n as int) {
        &&& result matches Err(ArtifactError::LabelsSize { expected, n: count, got })
        &&& expected == labels_len(n as int)
        &&& count == n
        &&& got == labels.len()
    } else if n > u32::MAX {
        result matches Err(ArtifactError::CountOutOfU32)
    } else {
        result matches Ok(count) && count == n
    }
}

/// The text of the error for artifacts that do not validate.
pub open spec fn artifact_refusal(refs: Seq<u8>, labels: Seq<u8>) -> Seq<char> {
    let n = header_count(refs);
    if !has_header(refs) {
        header_refusal(refs)
    } else if n > usize::MAX {
        "references header N out of usize range"@
    } else if refs.len() != dataset_len(n as int) {
        size_text("references"@, dataset_len(n as int) as nat, n, refs.len())
    } else if labels.len() != labels_len(n as int) {
        size_text("labels"@, labels_len(n as int) as nat, n, labels.len())
    } else {
        "references header N out of u32 range"@
    }
}

/// Hold the artifacts against the vector count in the references header.
pub fn validate_artifacts(refs: &[u8], labels: &[u8]) -> (result: Result<u32, ArtifactError>)
    ensures
        validated(refs@, labels@, result),
        result matches Err(e) ==> e.text() == artifact_refusal(refs@, labels@),
{
    let n: u64 = match read_references_header(refs) {
        Ok(n) => n,
        Err(e) => return Err(ArtifactError::Header(e)),
    };
    if n > usize::MAX as u64 {
        return Err(ArtifactError::CountOutOfUsize);
    }
    let expected_refs: u128 = REFS_HEADER_LEN as u128 + n as u128 * PAD as u128;
    if refs.len() as u128 != expected_refs {
        return Err(ArtifactError::RefsSize { expected: expected_refs, n, got: refs.len() });
    }
    let expected_labels: usize = labels_byte_len(n as usize);
    if labels.len() != expected_labels {
        return Err(
            ArtifactError::LabelsSize { expected: expected_labels as u128, n, got: labels.len() },
        );
    }
    if n > u32::MAX as u64 {
        return Err(ArtifactError::CountOutOfU32);
    }
    Ok(n as u32)
}

/// The bytes after the references header, read as signed lanes.
fn signed_rows(refs: &[u8]) -> (rows: Vec<i8>)
    requires
        refs@.len() >= REFS_HEADER_LEN,
    ensures
        rows@ == lanes(refs@.skip(REFS_HEADER_LEN as int)),
{
    let mut rows: Vec<i8> = Vec::new();
    let mut i: usize = REFS_HEADER_LEN;
    while i < refs.len()
        invariant
            REFS_HEADER_LEN <= i <= refs@.len(),
            rows@ == lanes(refs@.subrange(REFS_HEADER_LEN as int, i as int)),
        decreases refs@.len() - i,
    {
        let b: u8 = refs[i];
        rows.push(byte_to_lane(b));
        i = i + 1;
        assert(rows@ =~= lanes(refs@.subrange(REFS_HEADER_LEN as int, i as int)));
    }
    assert(refs@.subrange(REFS_HEADER_LEN as int, i as int) =~= refs@.skip(REFS_HEADER_LEN as int));
    rows
}

/// Everything a request needs: the dataset, the scales and the risk table. `rows` holds the
/// reference vectors as signed lanes.
pub struct AppState<'a> {
    pub ready: bool,
    pub refs: RefBytes<'a>,
    pub labels: RefBytes<'a>,
    pub n: u32,
    pub norm: Normalization,
    pub mcc: MccRisk,
    pub rows: Vec<i8>,
}

impl<'a> AppState<'a> {
    /// The artifacts are valid for `n` vectors, and the rows are those of the artifact.
    pub open spec fn wf(&self) -> bool {
        &&& validated(self.refs@, self.labels@, Ok(self.n))
        &&& self.rows@ == lanes(self.refs@.skip(REFS_HEADER_LEN as int))
    }

    /// The reference vectors as signed lanes, without the header: `n` times sixteen bytes.
    #[must_use]
    pub fn refs_i8(&self) -> (rows: &[i8])
        ensures
            rows@ == self.rows@,
            self.wf() ==> rows@.len() == self.n * PAD,
    {
        self.rows.as_slice()
    }

    /// The label bitset.
    #[must_use]
    pub fn labels_bits(&self) -> (bits: &[u8])
        ensures
            bits@ == self.labels@,
    {
        self.labels.as_slice()
    }

    /// Whether the state serves requests.
    #[must_use]
    pub fn is_ready(&self) -> (ready: bool)
        ensures
            ready == self.ready,
    {
        self.ready
    }

    /// Let the state serve requests.
    pub fn mark_ready(&mut self)
        ensures
            final(self).ready,
            final(self).refs == old(self).refs,
            final(self).labels == old(self).labels,
            final(self).n == old(self).n,
            final(self).norm == old(self).norm,
            final(self).mcc == old(self).mcc,
            final(self).rows == old(self).rows,
            old(self).wf() ==> final(self).wf(),
    {
        self.ready = true;
    }
}

/// Validate the artifacts and put the state together. It is not ready yet: run [`warmup`], then
/// [`AppState::mark_ready`].
pub fn load_state<'a>(
    refs: RefBytes<'a>,
    labels: RefBytes<'a>,
    norm: Normalization,
    mcc: MccRisk,
) -> (result: Result<AppState<'a>, ArtifactError>)
    ensures
        match result {
            Ok(state) => {
                &&& state.wf()
                &&& !state.ready
                &&& state.refs == refs
                &&& state.labels == labels
                &&& state.norm == norm
                &&& state.mcc == mcc
            },
            Err(e) => {
                &&& validated(refs@, labels@, Err(e))
                &&& e.text() == artifact_refusal(refs@, labels@)
            },
        },
{
    let n: u32 = match validate_artifacts(refs.as_slice(), labels.as_slice()) {
        Ok(n) => n,
        Err(e) => return Err(e),
    };
    let rows = signed_rows(refs.as_slice());
    Ok(AppState { ready: false, refs, labels, n, norm, mcc, rows })
}

/// Sum of the first bytes of the first `pages` pages.
pub open spec fn page_heads(b: Seq<u8>, pages: int) -> int
    decreases pages,
{
    if pages <= 0 {
        0
    } else {
        page_heads(b, pages - 1) + b[(pages - 1) * PAGE_LEN]
    }
}

/// Pages that `len` bytes begin.
pub open spec fn page_count(len: int) -> int {
    (len + PAGE_LEN - 1) / PAGE_LEN as int
}

/// Read one byte of every page of the references, and the last byte, so that no request waits for
/// a page. The sum of those bytes is returned for the caller to use up.
pub fn warmup(state: &AppState<'_>) -> (checksum: u64)
    ensures
        state.refs@.len() == 0 ==> checksum == 0,
        state.refs@.len() > 0 ==> checksum == page_heads(
            state.refs@,
            page_count(state.refs@.len() as int),
        ) + state.refs@.last(),
{
    let bytes = state.refs.as_slice();
    if bytes.len() == 0 {
        return 0;
    }
    let pages: usize = (bytes.len() - 1) / PAGE_LEN + 1;
    let mut acc: u64 = 0;
    let mut p: usize = 0;
    while p < pages
        invariant
            p <= pages,
            bytes@ == state.refs@,
            bytes@.len() == bytes.len(),
            pages == (bytes.len() - 1) / PAGE_LEN as int + 1,
            bytes.len() > 0,
            acc == page_heads(bytes@, p as int),
            acc <= 255 * p,
        decreases pages - p,
    {
        acc = acc.wrapping_add(bytes[p * PAGE_LEN] as u64);
        p = p + 1;
    }
    acc.wrapping_add(bytes[bytes.len() - 1] as u64)
}

} // verus!
