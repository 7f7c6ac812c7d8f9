use xml_checksum_service::hash_calculator::{to_hex, HashCalculator, HashProgress, ReadOutcome};

#[test]
fn test_hash_calculation() {
    let calculator = HashCalculator::new();

    let content = "<test>Hello, World!</test>";

    let result = calculator.calculate_hash(content.as_bytes());
    assert!(result.is_some());

    let hash = result.unwrap().as_str().to_string();
    assert!(!hash.is_empty());
    assert_eq!(hash.len(), 64);
}

#[test]
fn hash_of_empty_content_is_the_known_digest() {
    let calculator = HashCalculator::new();
    let hash = calculator.calculate_hash(b"").unwrap();
    assert_eq!(
        hash.as_str(),
        "e3b0c44298fc1c149afbf4c8996fb92427ae41e4649b934ca495991b7852b855"
    );
}

#[test]
fn hash_of_hello_world_is_the_known_digest() {
    let calculator = HashCalculator::new();
    let hash = calculator.calculate_hash(b"hello world").unwrap();
    assert_eq!(
        hash.as_str(),
        "b94d27b9934d3e08a52e52d7da7dabfac484efe37a5380ee9088f7ace2efcde9"
    );
}

#[test]
fn hex_rendering_is_lowercase_and_two_digits_per_byte() {
    assert_eq!(to_hex(&[]), "");
    assert_eq!(to_hex(&[0x00, 0x0f, 0xa0, 0xff, 0x7b]), "000fa0ff7b");
}

#[test]
fn streamed_chunks_give_the_hash_of_the_whole() {
    let calculator = HashCalculator::new();
    let whole = calculator.calculate_hash(b"hello world").unwrap();
    let mut session = calculator.begin();
    for chunk in [&b"hel"[..], &b"lo w"[..], &b"orld"[..]] {
        session = match session.feed(ReadOutcome::Data(chunk)) {
            HashProgress::Reading(next) => next,
            _ => panic!("a chunk with data keeps the computation going"),
        };
    }
    match session.feed(ReadOutcome::Data(&[])) {
        HashProgress::Done(hash) => assert_eq!(hash.as_str(), whole.as_str()),
        _ => panic!("an empty read ends the computation"),
    }
}

#[test]
fn failed_read_gives_no_hash() {
    let calculator = HashCalculator::new();
    let session = calculator.begin();
    let session = match session.feed(ReadOutcome::Data(b"partial")) {
        HashProgress::Reading(next) => next,
        _ => panic!("a chunk with data keeps the computation going"),
    };
    assert!(matches!(session.feed(ReadOutcome::Failed), HashProgress::Failed));
}

#[test]
fn identical_bytes_give_identical_hashes_and_a_changed_byte_another() {
    let calculator = HashCalculator::new();
    let first = calculator.calculate_hash(b"<invoice>495.00</invoice>").unwrap();
    let second = calculator.calculate_hash(b"<invoice>495.00</invoice>").unwrap();
    let changed = calculator.calculate_hash(b"<invoice>495.01</invoice>").unwrap();
    assert_eq!(first.as_str(), second.as_str());
    assert_ne!(first.as_str(), changed.as_str());
    assert_eq!(first.duplicate().as_str(), first.as_str());
}

#[test]
fn chunk_boundaries_do_not_change_the_hash() {
    let calculator = HashCalculator::new();
    let content: Vec<u8> = (0..3000u32).map(|i| (i % 251) as u8).collect();
    let whole = calculator.calculate_hash(&content).unwrap();
    let mut session = calculator.begin();
    for chunk in content.chunks(xml_checksum_service::hash_calculator::CHUNK_SIZE) {
        session = match session.feed(ReadOutcome::Data(chunk)) {
            HashProgress::Reading(next) => next,
            _ => panic!("a chunk with data keeps the computation going"),
        };
    }
    match session.feed(ReadOutcome::Data(&[])) {
        HashProgress::Done(hash) => assert_eq!(hash.as_str(), whole.as_str()),
        _ => panic!("an empty read ends the computation"),
    }
}
