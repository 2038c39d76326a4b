//! Building the artifacts of a dataset.

use fraud_knn::dataset::{unknown_label_message, ArraySink, Artifacts, EntryError, Reference};
use fraud_knn::state::{validate_artifacts, ArtifactError};
use fraud_knn::text::{bytes_text, number_text};
use fraud_knn::{
    build, dataset_byte_len, default_input_path, default_output_dir, label_bit, labels_byte_len,
    quantize, read_references_header, write_references_header, InputCompression, Single, DIMS,
    LABELS_BIT_PER_ENTRY, MAGIC, PAD, REFS_HEADER_LEN, SENTINEL_I8,
};

const N: usize = 10_000;

fn of(x: f32) -> Single {
    Single { bits: x.to_bits() }
}

fn pseudo_random(seed: u64) -> f32 {
    let mut x = seed;
    x ^= x << 13;
    x ^= x >> 7;
    x ^= x << 17;
    (x as f64 / u64::MAX as f64) as f32
}

fn synthetic_entries(n: usize) -> (Vec<Reference>, usize) {
    let mut entries = Vec::with_capacity(n);
    let mut fraud_count = 0;
    for i in 0..n {
        let mut vector = Vec::with_capacity(DIMS);
        for d in 0..DIMS {
            // Every seventh entry has no last transaction.
            if (d == 5 || d == 6) && i % 7 == 0 {
                vector.push(of(-1.0));
            } else {
                vector.push(of(pseudo_random(
                    ((i * 13 + d) as u64).wrapping_mul(0x9E37_79B9_7F4A_7C15),
                )));
            }
        }
        let fraud = i % 3 == 0;
        if fraud {
            fraud_count += 1;
        }
        entries.push(Reference {
            vector,
            label: if fraud { "fraud" } else { "legit" }.to_string(),
        });
    }
    (entries, fraud_count)
}

fn plain_entry(dims: usize, label: &str) -> Reference {
    Reference { vector: vec![of(0.0); dims], label: label.to_string() }
}

fn expect_artifacts(entries: &[Reference]) -> Artifacts {
    match build(entries) {
        Ok(built) => built,
        Err(e) => panic!("{e:?}"),
    }
}

fn expect_error(entries: &[Reference]) -> EntryError {
    match build(entries) {
        Ok(_) => panic!("must be refused"),
        Err(e) => e,
    }
}

#[test]
fn build_emits_correct_artifacts_for_10k_subset() {
    let (entries, expected_fraud) = synthetic_entries(N);
    let built = expect_artifacts(&entries);
    let stats = built.stats;

    assert_eq!(stats.vectors as usize, N);
    assert_eq!(stats.fraud_count as usize, expected_fraud);
    assert_eq!(stats.refs_bytes as usize, dataset_byte_len(N));
    assert_eq!(stats.labels_bytes as usize, labels_byte_len(N));
    assert_eq!(LABELS_BIT_PER_ENTRY, 1);
    assert_eq!(built.refs.len(), REFS_HEADER_LEN + N * PAD);
    assert_eq!(built.labels.len(), N.div_ceil(8));

    let n = read_references_header(&built.refs).unwrap();
    assert_eq!(n as usize, N);
    assert_eq!(&built.refs[..8], &MAGIC);

    let payload = &built.refs[REFS_HEADER_LEN..];
    for i in 0..N {
        let row = &payload[i * PAD..(i + 1) * PAD];
        assert_eq!(row[14], 0, "padding byte 14 non-zero at row {i}");
        assert_eq!(row[15], 0, "padding byte 15 non-zero at row {i}");
        if i % 7 == 0 {
            assert_eq!(row[5] as i8, SENTINEL_I8, "row {i}: dim 5 sentinel");
            assert_eq!(row[6] as i8, SENTINEL_I8, "row {i}: dim 6 sentinel");
        }
    }

    let mut popcount = 0;
    for i in 0..N {
        let bit = label_bit(&built.labels, i);
        assert_eq!(bit, i % 3 == 0, "bit at idx {i}");
        if bit {
            popcount += 1;
        }
    }
    assert_eq!(popcount, expected_fraud);
}

#[test]
fn build_rejects_unknown_label() {
    let err = expect_error(&[plain_entry(14, "maybe-fraud")]);
    assert!(err.message().contains("maybe-fraud"), "message: {}", err.message());
    match err {
        EntryError::UnknownLabel { index, label } => {
            assert_eq!(index, 0);
            assert_eq!(label, "maybe-fraud");
        }
        other => panic!("{other:?}"),
    }
}

#[test]
fn build_rejects_wrong_dim_vector() {
    let err = expect_error(&[plain_entry(13, "legit")]);
    assert!(err.message().contains("13 dims"), "message: {}", err.message());
    match err {
        EntryError::WrongDims { index, got } => {
            assert_eq!(index, 0);
            assert_eq!(got, 13);
        }
        other => panic!("{other:?}"),
    }
}

#[test]
fn first_fault_decides_the_error() {
    let entries = [
        plain_entry(14, "legit"),
        plain_entry(14, "fraud"),
        // Both wrong: the dimensions are looked at first.
        plain_entry(15, "Fraud"),
        plain_entry(14, ""),
    ];
    assert!(matches!(expect_error(&entries), EntryError::WrongDims { index: 2, got: 15 }));
    match expect_error(&entries[3..]) {
        EntryError::UnknownLabel { index, label } => {
            assert_eq!((index, label.as_str()), (0, ""));
        }
        other => panic!("{other:?}"),
    }
}

#[test]
fn empty_dataset_is_a_header() {
    let built = expect_artifacts(&[]);
    let mut header = Vec::new();
    write_references_header(&mut header, 0);
    assert_eq!(built.refs, header);
    assert!(built.labels.is_empty());
    assert_eq!(built.stats.vectors, 0);
}

#[test]
fn rows_hold_quantized_vectors() {
    let (entries, _) = synthetic_entries(50);
    let built = expect_artifacts(&entries);
    for (i, entry) in entries.iter().enumerate() {
        let mut v = [of(0.0); DIMS];
        for (slot, x) in v.iter_mut().zip(&entry.vector) {
            *slot = if *x == of(-1.0) { of(f32::NAN) } else { *x };
        }
        let stored: Vec<i8> = built.refs[REFS_HEADER_LEN + i * PAD..][..PAD]
            .iter()
            .map(|b| *b as i8)
            .collect();
        assert_eq!(stored, quantize(&v));
    }
}

#[test]
fn only_minus_one_is_missing() {
    let mut entry = plain_entry(14, "legit");
    entry.vector[0] = of(-1.0);
    entry.vector[1] = of(-0.999_999_94);
    entry.vector[2] = of(-2.0);
    let built = expect_artifacts(&[entry]);
    assert_eq!(&built.refs[REFS_HEADER_LEN..REFS_HEADER_LEN + 4], &[0xFF, 0, 0, 0]);
}

#[test]
fn sink_streams_rows_out() {
    let (entries, fraud) = synthetic_entries(20);
    let mut sink = ArraySink::new();
    let mut streamed = Vec::new();
    for entry in &entries {
        assert!(sink.visit_entry(entry).is_ok());
        streamed.extend(sink.take_refs());
    }
    let (rest, writer, n, fraud_count) = sink.into_parts();
    assert!(rest.is_empty());
    let built = expect_artifacts(&entries);
    // The streamed header still counts nothing.
    assert_eq!(read_references_header(&streamed).unwrap(), 0);
    assert_eq!(&streamed[REFS_HEADER_LEN..], &built.refs[REFS_HEADER_LEN..]);
    assert_eq!(writer.finish(), built.labels);
    assert_eq!((n, fraud_count as usize), (20, fraud));
}

#[test]
fn refused_label_leaves_its_row() {
    let mut sink = ArraySink::new();
    assert!(sink.process_entry(0, &plain_entry(14, "unsure")).is_err());
    assert!(sink.process_entry(0, &plain_entry(3, "legit")).is_err());
    let (refs, writer, n, fraud_count) = sink.into_parts();
    assert_eq!(refs.len(), REFS_HEADER_LEN + PAD);
    assert!(writer.finish().is_empty());
    assert_eq!((n, fraud_count), (0, 0));
}

#[test]
fn built_artifacts_validate() {
    for n in [0_usize, 1, 7, 8, 9, 100] {
        let built = expect_artifacts(&synthetic_entries(n).0);
        assert_eq!(validate_artifacts(&built.refs, &built.labels).unwrap() as usize, n);
    }
}

#[test]
fn damaged_artifacts_are_refused() {
    let built = expect_artifacts(&synthetic_entries(9).0);
    let (refs, labels) = (built.refs, built.labels);

    assert!(matches!(
        validate_artifacts(&refs[..10], &labels),
        Err(ArtifactError::Header(_))
    ));
    assert!(matches!(
        validate_artifacts(&refs[..refs.len() - 1], &labels),
        Err(ArtifactError::RefsSize { expected: 160, n: 9, got: 159 })
    ));
    assert!(matches!(
        validate_artifacts(&refs, &labels[..1]),
        Err(ArtifactError::LabelsSize { expected: 2, n: 9, got: 1 })
    ));
    // The references are looked at before the labels.
    assert!(matches!(
        validate_artifacts(&refs[..refs.len() - 1], &[]),
        Err(ArtifactError::RefsSize { .. })
    ));
    // A count whose size exceeds every file.
    let mut huge = Vec::new();
    write_references_header(&mut huge, u64::MAX);
    assert!(matches!(
        validate_artifacts(&huge, &labels),
        Err(ArtifactError::RefsSize { expected: 0x10_0000_0000_0000_0000, n: u64::MAX, got: 16 })
            | Err(ArtifactError::CountOutOfUsize)
    ));
}

#[test]
fn compression_goes_by_the_extension() {
    let cases = [
        ("references.json.gz", true),
        ("resources/references.json.gz", true),
        ("a.gz/", true),
        ("a.gz/./", true),
        ("dir/..gz", true),
        ("references.json", false),
        ("references.GZ", false),
        (".gz", false),
        ("dir/.gz", false),
        ("archive.gz/references.json", false),
        ("a.gz/..", false),
        ("gz", false),
        ("a.gz.", false),
        ("/", false),
        (".", false),
        ("", false),
    ];
    for (path, gzip) in cases {
        let detected = InputCompression::detect(path);
        assert_eq!(detected == InputCompression::Gzip, gzip, "{path}");
        let extension = std::path::Path::new(path).extension();
        assert_eq!(extension.is_some_and(|e| e == "gz"), gzip, "{path}");
    }
}

#[test]
fn default_paths() {
    assert_eq!(default_output_dir(), "target/dataset");
    assert_eq!(default_input_path(), "resources/references.json.gz");
}

#[test]
fn entry_messages_are_exact() {
    let mut entries = Vec::new();
    for _ in 0..12 {
        entries.push(plain_entry(14, "legit"));
    }
    entries.push(plain_entry(0, "legit"));
    assert_eq!(
        expect_error(&entries).message(),
        "entry 12: expected 14-dim vector, got 0 dims"
    );
    // Quotes and control characters are escaped.
    let label = "a\"b\\c\n\u{7f}é";
    let err = expect_error(&[plain_entry(14, label)]);
    assert_eq!(err.message(), format!("entry 0: unknown label {label:?}"));
    assert_eq!(
        EntryError::WrongDims { index: u64::MAX, got: 105 }.message(),
        "entry 18446744073709551615: expected 14-dim vector, got 105 dims"
    );
    assert_eq!(unknown_label_message(30, "<x>"), "entry 30: unknown label <x>");
}

#[test]
fn artifact_messages_are_exact() {
    let built = expect_artifacts(&synthetic_entries(9).0);
    let (refs, labels) = (built.refs, built.labels);
    let message = |refs: &[u8], labels: &[u8]| validate_artifacts(refs, labels).unwrap_err().message();
    assert_eq!(message(&refs[..10], &labels), "failed to fill whole buffer");
    assert_eq!(
        message(b"RINHA26\x02", &labels),
        "bad references magic: [82, 73, 78, 72, 65, 50, 54, 2]"
    );
    assert_eq!(
        message(&[0, 10, 255, 7, 0, 0, 0, 100, 9], &labels),
        format!("bad references magic: {:?}", [0_u8, 10, 255, 7, 0, 0, 0, 100])
    );
    assert_eq!(
        message(&refs[..159], &labels),
        "references file size mismatch: expected 160 bytes for n=9, got 159"
    );
    assert_eq!(
        message(&refs, &labels[..1]),
        "labels file size mismatch: expected 2 bytes for n=9, got 1"
    );
    assert_eq!(
        ArtifactError::CountOutOfUsize.message(),
        "references header N out of usize range"
    );
    assert_eq!(
        ArtifactError::CountOutOfU32.message(),
        "references header N out of u32 range"
    );
}

#[test]
fn numbers_are_written_in_decimal() {
    for n in [0_u128, 7, 9, 10, 11, 99, 100, 101, 1_000_000, u128::from(u64::MAX), u128::MAX] {
        assert_eq!(number_text(n), n.to_string());
    }
    for bytes in [&[][..], &[0], &[1, 2], &[255, 0, 10]] {
        assert_eq!(bytes_text(bytes), format!("{bytes:?}"));
    }
}
