//! Laws of error messages: numbers are written in decimal, and each message names what is wrong.

use vstd::prelude::*;

use crate::dataset::EntryError;
use crate::datetime::ParseError;
use crate::format::HeaderError;
use crate::state::ArtifactError;
use crate::text::{bytes_text, number_text, numeral};
use crate::vectorize::VectorizeError;

verus! {

/// The value of decimal digits, the first one the highest.
pub open spec fn digits_value(s: Seq<char>) -> int
    decreases s.len(),
{
    if s.len() == 0 {
        0
    } else {
        10 * digits_value(s.drop_last()) + (s.last() as int - 48)
    }
}

proof fn lemma_numeral(n: nat)
    ensures
        numeral(n).len() > 0,
        digits_value(numeral(n)) == n,
        n > 0 ==> numeral(n)[0] != '0',
        forall|k: int| 0 <= k < numeral(n).len() ==> '0' <= #[trigger] numeral(n)[k] <= '9',
        n < 10 ==> numeral(n).len() == 1,
    decreases n,
{
    reveal_with_fuel(digits_value, 2);
    if n < 10 {
        assert(numeral(n).drop_last() =~= Seq::empty());
    } else {
        lemma_numeral(n / 10);
        assert(numeral(n).drop_last() =~= numeral(n / 10));
    }
}

/// A number is written in decimal digits, without leading zeros.
pub proof fn law_number_text(n: u128, text: String)
    requires
        call_ensures(number_text, (n,), text),
    ensures
        digits_value(text@) == n,
        text@.len() > 0,
        n > 0 ==> text@[0] != '0',
        n == 0 ==> text@.len() == 1,
        forall|k: int| 0 <= k < text@.len() ==> '0' <= #[trigger] text@[k] <= '9',
{
    lemma_numeral(n as nat);
}

/// A list of bytes grows by a comma, a space and the number of the last byte.
pub proof fn law_bytes_text(
    bytes: &[u8],
    shorter: &[u8],
    text: String,
    shorter_text: String,
    last: String,
)
    requires
        call_ensures(bytes_text, (bytes,), text),
        call_ensures(bytes_text, (shorter,), shorter_text),
        bytes@.len() > 0,
        shorter@ == bytes@.drop_last(),
        call_ensures(number_text, (bytes@.last() as u128,), last),
    ensures
        bytes@.len() == 1 ==> text@ == "["@ + last@ + "]"@,
        bytes@.len() > 1 ==> text@ == shorter_text@.drop_last() + ", "@ + last@ + "]"@,
{
    reveal_strlit("]");
    let listed = crate::text::listed(shorter@);
    assert(shorter_text@.drop_last() =~= "["@ + listed);
    if bytes@.len() == 1 {
        assert(bytes@[0] == bytes@.last());
    } else {
        assert(text@ =~= shorter_text@.drop_last() + ", "@ + last@ + "]"@);
    }
}

/// The messages of refused timestamps name the shape or the component.
pub proof fn law_timestamp_messages(e: ParseError, f: VectorizeError, text: String, outer: String)
    requires
        call_ensures(ParseError::message, (&e,), text),
        f == VectorizeError::Timestamp(e),
        call_ensures(VectorizeError::message, (&f,), outer),
    ensures
        e is Shape ==> text@ == "expected 20-byte ISO 8601 timestamp YYYY-MM-DDTHH:MM:SSZ"@,
        e matches ParseError::Numeric(c) ==> text@ == "non-numeric value in "@ + c@,
        outer@ == "invalid timestamp: "@ + text@,
{
}

/// The message of a refused entry names its index and its dimensions.
pub proof fn law_entry_message(
    index: u64,
    got: usize,
    text: String,
    numbers: (String, String, String),
)
    requires
        call_ensures(EntryError::message, (&EntryError::WrongDims { index, got },), text),
        call_ensures(number_text, (index as u128,), numbers.0),
        call_ensures(number_text, (14u128,), numbers.1),
        call_ensures(number_text, (got as u128,), numbers.2),
    ensures
        text@ == "entry "@ + numbers.0@ + ": expected "@ + numbers.1@ + "-dim vector, got "@
            + numbers.2@ + " dims"@,
{
}

/// The messages of refused artifacts name the artifact and the sizes, or the count, or the magic.
pub proof fn law_artifact_messages(
    e: ArtifactError,
    text: String,
    magic: &[u8],
    listed: String,
    expected: u128,
    n: u64,
    got: usize,
    numbers: (String, String, String),
)
    requires
        call_ensures(ArtifactError::message, (&e,), text),
        call_ensures(bytes_text, (magic,), listed),
        call_ensures(number_text, (expected,), numbers.0),
        call_ensures(number_text, (n as u128,), numbers.1),
        call_ensures(number_text, (got as u128,), numbers.2),
    ensures
        e == (ArtifactError::RefsSize { expected, n, got }) ==> text@ == "references"@
            + " file size mismatch: expected "@ + numbers.0@ + " bytes for n="@ + numbers.1@
            + ", got "@ + numbers.2@,
        e == (ArtifactError::LabelsSize { expected, n, got }) ==> text@ == "labels"@
            + " file size mismatch: expected "@ + numbers.0@ + " bytes for n="@ + numbers.1@
            + ", got "@ + numbers.2@,
        e is CountOutOfUsize ==> text@ == "references header N out of usize range"@,
        e is CountOutOfU32 ==> text@ == "references header N out of u32 range"@,
        e matches ArtifactError::Header(HeaderError::BadMagic(m)) ==> (m@ == magic@ ==> text@
            == "bad references magic: "@ + listed@),
        e matches ArtifactError::Header(HeaderError::Truncated) ==> text@
            == "failed to fill whole buffer"@,
{
}

} // verus!
