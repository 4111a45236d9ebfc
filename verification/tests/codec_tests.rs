use zero_width::decode;
use zero_width::decode_byte;
use zero_width::encode;
use zero_width::encode_byte;

const I_0: &str = "\u{200C}";
const I_1: &str = "\u{200D}";
const EXP_SIZE: usize = 3;

#[test]
fn assert_correct_size() {
    assert_eq!(I_0.len(), EXP_SIZE);
    assert_eq!(I_1.len(), EXP_SIZE);
}

#[test]
fn test_encode_decode_byte() {
    println!("Testing encode_decode_byte");
    let c = 'a';
    let result = encode_byte(c as u8);

    assert_eq!(result.len(), 8 * EXP_SIZE);

    let decoded_char = decode_byte(&result).expect("Decoding failed");
    assert_eq!(decoded_char, c as u8);
}

#[test]
fn test_encode_decode_ascii() {
    println!("Testing encode_decode_ascii");
    let data = "Hello, World!";
    let encoded = encode(data);
    let decoded = decode(&encoded).expect("Decoding failed");
    assert_eq!(data, decoded);
}

#[test]
fn test_encode_decode_other() {
    println!("Testing encode_decode_other");
    // Cyrillic characters to test multi-byte UTF-8 handling
    let data = "ДАРОВА БРАТВА!";
    let encoded = encode(data);
    let decoded = decode(&encoded).expect("Decoding failed");
    assert_eq!(data, decoded);
}

#[test]
fn encoded_length_is_eight_markers_per_byte() {
    // "abc" is three payload bytes: 24 markers of three bytes each.
    let encoded = encode("abc");
    assert_eq!(encoded.chars().count(), 24);
    assert_eq!(encoded.len(), 72);
    // A two-byte character is two payload bytes: 16 markers.
    let encoded = encode("п");
    assert_eq!(encoded.chars().count(), 16);
    // The empty payload encodes to the empty marker run.
    assert_eq!(encode(""), "");
}

#[test]
fn encode_byte_spells_bits_least_significant_first() {
    // 'a' is 0x61: bits 0, 5 and 6 are set.
    let spelled = encode_byte(0x61);
    let expected: String = [I_1, I_0, I_0, I_0, I_0, I_1, I_1, I_0].concat();
    assert_eq!(spelled, expected);
}

#[test]
fn decode_byte_rejects_wrong_length() {
    assert_eq!(decode_byte(""), None);
    assert_eq!(decode_byte("short"), None);
    let seven_markers: String = I_1.repeat(7);
    assert_eq!(decode_byte(&seven_markers), None);
}

#[test]
fn decode_byte_reads_foreign_chunks_as_zero_bits() {
    // 24 bytes that are not markers at all decode leniently to byte 0.
    let plain = "abcdefghijklmnopqrstuvwx";
    assert_eq!(plain.len(), 24);
    assert_eq!(decode_byte(plain), Some(0));
}

#[test]
fn decode_rejects_length_not_a_multiple_of_eight_markers() {
    // One marker, four markers, seven markers: never a whole byte.
    assert_eq!(decode(I_0), None);
    assert_eq!(decode(&I_1.repeat(4)), None);
    assert_eq!(decode(&I_0.repeat(7)), None);
}

#[test]
fn decode_rejects_bytes_that_are_not_text() {
    // 0xff alone is not valid UTF-8, so its spelling must not decode.
    let encoded = encode_byte(0xff);
    assert_eq!(decode(&encoded), None);
}

#[test]
fn decode_of_empty_input_yields_empty_payload() {
    assert_eq!(decode(""), Some(String::new()));
}

#[test]
fn decode_recovers_exact_bytes() {
    // Spell two bytes by hand and read them back as text: "hi".
    let h = encode_byte(b'h');
    let i = encode_byte(b'i');
    let both = format!("{}{}", h, i);
    assert_eq!(decode(&both), Some("hi".to_string()));
}
