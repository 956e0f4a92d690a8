use bitty::descriptor::BitDescriptor;
use bitty::packer::BitPacker;
use bitty::unpacker::UnpackItr;

fn classify(pattern: &str) -> Option<u32> {
    match pattern {
        "101" => Some(0),
        "00001000" => Some(1),
        "1111111111" => Some(2),
        "111" => Some(3),
        _ => None,
    }
}

/// No pattern here completes while another is still growing, so decoding
/// recovers each field in order.
fn classify_prefix_free(pattern: &str) -> Option<u32> {
    match pattern {
        "101" => Some(0),
        "00001000" => Some(1),
        "1111111111" => Some(2),
        _ => None,
    }
}

fn example_buffer() -> Vec<u32> {
    BitPacker::pack(vec![
        BitDescriptor::from_bits(vec![1, 0, 1]),
        BitDescriptor::from_bits(vec![0, 0, 0, 0, 1, 0, 0, 0]),
        BitDescriptor::from_bits(vec![1, 1, 1, 1, 1, 1, 1, 1, 1, 1]),
        BitDescriptor::from_bits(vec![0]),
        BitDescriptor::from_bits(vec![1, 1, 1]),
    ])
}

#[test]
fn decode_recovers_fields_in_order() {
    let buffer = BitPacker::pack(vec![
        BitDescriptor::from_bits(vec![1, 0, 1]),
        BitDescriptor::from_bits(vec![0, 0, 0, 0, 1, 0, 0, 0]),
        BitDescriptor::from_bits(vec![1, 1, 1, 1, 1, 1, 1, 1, 1, 1]),
    ]);
    let mut unpacker = UnpackItr::new(buffer, classify_prefix_free);
    let mut decoded = Vec::new();
    while let Some(value) = unpacker.next() {
        decoded.push(value);
    }
    assert_eq!(decoded, vec![0, 1, 2]);
}

#[test]
fn decode_probes_after_every_bit() {
    // The classifier is asked after every single bit, so the "111" arm fires
    // three bits into the ten-ones field, and the lone "0" field is absorbed
    // into a later "101" match.
    let mut unpacker = UnpackItr::new(example_buffer(), classify);
    let mut decoded = Vec::new();
    while let Some(value) = unpacker.next() {
        decoded.push(value);
    }
    assert_eq!(decoded, vec![0, 1, 3, 3, 3, 0]);
}

#[test]
fn decode_exhausts_at_buffer_end() {
    let buffer = BitPacker::pack(vec![
        BitDescriptor::from_bits(vec![1, 0, 1]),
        BitDescriptor::from_bits(vec![0, 0, 0, 0, 1, 0, 0, 0]),
        BitDescriptor::from_bits(vec![1, 1, 1, 1, 1, 1, 1, 1, 1, 1]),
    ]);
    let mut unpacker = UnpackItr::new(buffer, classify_prefix_free);
    for _ in 0..3 {
        assert!(unpacker.next().is_some());
    }
    assert_eq!(unpacker.next(), None);
    assert_eq!(unpacker.next(), None);
}

#[test]
fn decode_empty_buffer_yields_nothing() {
    let mut unpacker = UnpackItr::<u32, _>::new(Vec::new(), classify);
    assert_eq!(unpacker.next(), None);
}

#[test]
fn decode_with_closure_classifier() {
    let buffer = BitPacker::pack(vec![
        BitDescriptor::from_bits(vec![1, 0, 1]),
        BitDescriptor::from_bits(vec![1, 0, 1]),
    ]);
    let mut unpacker = UnpackItr::new(buffer, |pattern: &str| {
        if pattern == "101" {
            Some("field")
        } else {
            None
        }
    });
    assert_eq!(unpacker.next(), Some("field"));
    assert_eq!(unpacker.next(), Some("field"));
    // Only the two padding bits remain; they match nothing.
    assert_eq!(unpacker.next(), None);
}

#[test]
fn decode_drops_unmatched_trailing_bits() {
    // One recognized field, then bits that never match by the buffer's end.
    let buffer = BitPacker::pack(vec![
        BitDescriptor::from_bits(vec![1, 1, 1]),
        BitDescriptor::from_bits(vec![0, 1]),
    ]);
    let mut unpacker = UnpackItr::new(buffer, classify);
    assert_eq!(unpacker.next(), Some(3));
    assert_eq!(unpacker.next(), None);
}
