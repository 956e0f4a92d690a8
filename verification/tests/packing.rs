use bitty::descriptor::BitDescriptor;
use bitty::descriptor::BittyError;
use bitty::descriptor::convert_to_u32;
use bitty::packer::BitPacker;
use bitty::packer::buffer_text;
use bitty::packer::unit_text;

fn descriptors_from_texts(texts: &[&str]) -> Vec<BitDescriptor> {
    texts
        .iter()
        .map(|t| BitDescriptor::from_text(t).expect("binary text"))
        .collect()
}

/// Concatenates the texts and regroups them into 8-character chunks,
/// zero-padding the final chunk on the right.
fn regrouped(texts: &[&str]) -> Vec<String> {
    let mut all = String::new();
    for t in texts {
        all.push_str(t);
    }
    while all.len() % 8 != 0 {
        all.push('0');
    }
    all.as_bytes().chunks(8).map(|c| String::from_utf8(c.to_vec()).unwrap()).collect()
}

#[test]
fn size_formula_examples() {
    assert_eq!(BitPacker::compute_buffer_size(&Vec::new()), 0);
    let three = descriptors_from_texts(&["101"]);
    assert_eq!(BitPacker::compute_buffer_size(&three), 1);
    let sixteen = descriptors_from_texts(&["00001000", "00001000"]);
    assert_eq!(BitPacker::compute_buffer_size(&sixteen), 2);
    let example = descriptors_from_texts(&["101", "00001000", "1111111111", "0", "111"]);
    assert_eq!(BitPacker::compute_buffer_size(&example), 4);
}

#[test]
fn pack_cross_boundary() {
    let buffer = BitPacker::pack(descriptors_from_texts(&[
        "101",
        "00001000",
        "1111111111",
        "0",
        "111",
    ]));
    assert_eq!(buffer, vec![0b10100001, 0b00011111, 0b11111011, 0b10000000]);
}

#[test]
fn pack_round_trip_text() {
    let texts = ["101", "00001000", "1111111111", "0", "111"];
    let buffer = BitPacker::pack(descriptors_from_texts(&texts));
    assert_eq!(buffer_text(&buffer), regrouped(&texts));
    assert_eq!(buffer_text(&buffer), vec!["10100001", "00011111", "11111011", "10000000"]);
}

#[test]
fn pack_empty() {
    let buffer = BitPacker::pack(Vec::new());
    assert_eq!(buffer.len(), 0);
}

#[test]
fn pack_exact_multiple_of_eight() {
    let buffer = BitPacker::pack(descriptors_from_texts(&["10100001", "00011111"]));
    assert_eq!(buffer, vec![0b10100001, 0b00011111]);
}

#[test]
fn from_bits_accumulates_big_endian() {
    let d = BitDescriptor::from_bits(vec![1, 0, 1]);
    assert_eq!(d.bits_len, 3);
    assert_eq!(d.value, 5);
    let d = BitDescriptor::from_bits(vec![0, 0, 0, 0, 1, 0, 0, 0]);
    assert_eq!(d.bits_len, 8);
    assert_eq!(d.value, 8);
    let d = BitDescriptor::from_bits(Vec::new());
    assert_eq!(d.bits_len, 0);
    assert_eq!(d.value, 0);
}

#[test]
fn convert_to_u32_examples() {
    assert_eq!(convert_to_u32(&vec![1, 0, 1]), 5);
    assert_eq!(convert_to_u32(&vec![1, 1, 1, 1, 1, 1, 1, 1, 1, 1]), 1023);
    assert_eq!(convert_to_u32(&Vec::new()), 0);
    let max = vec![1u8; 32];
    assert_eq!(convert_to_u32(&max), u32::MAX);
}

#[test]
fn from_text_parses_binary() {
    let d = BitDescriptor::from_text("1111111111").expect("binary text");
    assert_eq!(d.bits_len, 10);
    assert_eq!(d.value, 1023);
    let d = BitDescriptor::from_text("").expect("binary text");
    assert_eq!(d.bits_len, 0);
    assert_eq!(d.value, 0);
}

#[test]
fn from_text_rejects_malformed() {
    let r = BitDescriptor::from_text("10x1");
    assert!(matches!(r, Err(BittyError::InvalidInput)));
    let r = BitDescriptor::from_text("2");
    assert!(matches!(r, Err(BittyError::InvalidInput)));
}

#[test]
fn error_message_text() {
    assert_eq!(BittyError::InvalidInput.message(), "invalid bit input given");
}

#[test]
fn unit_text_prints_eight_bits() {
    assert_eq!(unit_text(0b00000101), "00000101");
    assert_eq!(unit_text(0), "00000000");
    assert_eq!(unit_text(0b11111111), "11111111");
}

#[test]
fn pack_descriptor_spanning_three_units() {
    // A 20-bit field crosses two unit boundaries.
    let texts = ["1111", "10000000000000000001"];
    let buffer = BitPacker::pack(descriptors_from_texts(&texts));
    assert_eq!(buffer_text(&buffer), regrouped(&texts));
    assert_eq!(buffer, vec![0b11111000, 0b00000000, 0b00000001]);
}
