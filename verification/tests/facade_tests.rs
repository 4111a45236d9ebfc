use zero_width::create_secret;
use zero_width::encode;
use zero_width::extract_secret;
use zero_width::remove_unnecessary_symbols;

const I_0: char = '\u{200C}';
const I_1: char = '\u{200D}';

fn strip_markers(s: &str) -> String {
    s.chars().filter(|c| *c != I_0 && *c != I_1).collect()
}

fn count_markers(s: &str) -> usize {
    s.chars().filter(|c| *c == I_0 || *c == I_1).count()
}

#[test]
fn test_full_pipeline() {
    println!("Testing full pipeline");
    let secret = "суперsecret";
    let mixed_message = create_secret("Hello world", secret);

    let extracted_secret = extract_secret(&mixed_message).expect("Extraction failed");
    assert_eq!(secret, extracted_secret);
}

#[test]
fn test_extraction_from_complex_text() {
    println!("Testing extraction from complex text");
    let secret = "TopSecret123";

    let message = create_secret("Это тест, а вот и продолжение спрятанного сообщения", secret);

    let extracted = extract_secret(&message).expect("Extraction failed");
    assert_eq!(secret, extracted);
}

#[test]
fn sanitizer_keeps_markers_and_nothing_else() {
    let mixed = format!("a{}b{}c, плюс {}{} конец", I_0, I_1, I_1, I_0);
    let kept = remove_unnecessary_symbols(&mixed);
    let expected: String = [I_0, I_1, I_1, I_0].iter().collect();
    assert_eq!(kept, expected);
}

#[test]
fn sanitizer_is_idempotent() {
    let mixed = format!("plain {} text {}{} done", I_1, I_0, I_1);
    let once = remove_unnecessary_symbols(&mixed);
    let twice = remove_unnecessary_symbols(&once);
    assert_eq!(once, twice);
    // A marker-free input sanitizes to nothing, twice as well.
    assert_eq!(remove_unnecessary_symbols("nothing here"), "");
    assert_eq!(remove_unnecessary_symbols(""), "");
}

#[test]
fn extraction_survives_surrounding_noise() {
    let secret = "hi";
    let combined = create_secret("Hello world", secret);
    // Noise outside the marker run: prefix, suffix, and extra cover text.
    let noisy = format!("<<{}>> trailing junk, даже так", combined);
    assert_eq!(extract_secret(&noisy), Some(secret.to_string()));
}

#[test]
fn extraction_ignores_noise_between_cover_and_markers() {
    let secret = "noise";
    // Build the combined text by hand with the marker run in one piece.
    let markers = encode(secret);
    let noisy = format!("start | {} | end", markers);
    assert_eq!(extract_secret(&noisy), Some(secret.to_string()));
}

#[test]
fn embedding_with_empty_cover_round_trips() {
    let combined = create_secret("", "secret");
    assert_eq!(extract_secret(&combined), Some("secret".to_string()));
}

#[test]
fn embedding_empty_secret_round_trips_to_empty() {
    let combined = create_secret("x", "");
    assert_eq!(combined, "x");
    assert_eq!(extract_secret(&combined), Some(String::new()));
}

#[test]
fn embedding_never_splits_a_multibyte_character() {
    // The byte midpoint of "aππ" falls inside the first two-byte character,
    // so the split must walk down to the boundary after 'a'.
    let cover = "aππ";
    let combined = create_secret(cover, "s");
    assert!(combined.starts_with('a'));
    assert!(combined.ends_with("ππ"));
    assert_eq!(strip_markers(&combined), cover);
    assert_eq!(extract_secret(&combined), Some("s".to_string()));
    // A cover of multi-byte characters only behaves the same.
    let cover = "ДАРОВА";
    let combined = create_secret(cover, "щит");
    assert_eq!(strip_markers(&combined), cover);
    assert_eq!(extract_secret(&combined), Some("щит".to_string()));
}

#[test]
fn embedding_example_hello_world() {
    // Eleven cover bytes split at byte five: "Hello", sixteen markers for
    // the two secret bytes, then " world".
    let combined = create_secret("Hello world", "hi");
    assert!(combined.starts_with("Hello"));
    assert!(combined.ends_with(" world"));
    assert_eq!(count_markers(&combined), 16);
    assert_eq!(strip_markers(&combined), "Hello world");
    assert_eq!(extract_secret(&combined), Some("hi".to_string()));
}

#[test]
fn extraction_without_markers_yields_empty_payload() {
    // With no markers at all the sanitizer leaves the empty run, and the
    // empty run decodes to the empty payload.
    assert_eq!(extract_secret("Hello world"), Some(String::new()));
    assert_eq!(extract_secret(""), Some(String::new()));
}

#[test]
fn extraction_fails_on_a_broken_marker_run() {
    // Three markers cannot spell a whole byte.
    let broken: String = [I_0, I_1, I_0].iter().collect();
    let message = format!("text {} text", broken);
    assert_eq!(extract_secret(&message), None);
}

#[test]
fn extraction_fails_when_markers_spell_invalid_text() {
    // Eight one-markers spell the byte 0xff, which is not valid UTF-8.
    let run: String = std::iter::repeat(I_1).take(8).collect();
    assert_eq!(extract_secret(&run), None);
}
