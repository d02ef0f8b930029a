use cumulo_web::color::Color;

#[test]
fn hex_round_trips_for_opaque_and_alpha() {
    let opaque = Color::from_hex("#22aa22").unwrap();
    assert_eq!(opaque, Color::rgb(0x22, 0xaa, 0x22));
    assert_eq!(opaque.to_hex(), "#22aa22");

    let alpha = Color::from_hex("#22aa2280").unwrap();
    assert_eq!(alpha, Color::rgba(0x22, 0xaa, 0x22, 0x80));
    assert_eq!(alpha.to_hex(), "#22aa2280");
}

#[test]
fn hex_accepts_short_form_and_rejects_garbage() {
    assert_eq!(Color::from_hex("#0af"), Some(Color::rgb(0x00, 0xaa, 0xff)));
    assert_eq!(Color::from_hex("zzzzzz"), None);
    assert_eq!(Color::from_hex(""), None);
}

#[test]
fn hex_without_hash_and_upper_case() {
    assert_eq!(Color::from_hex("22AA22"), Some(Color::rgb(0x22, 0xaa, 0x22)));
    assert_eq!(Color::from_hex("FFF"), Some(Color::rgb(255, 255, 255)));
}

#[test]
fn hex_rejects_wrong_lengths_and_non_ascii() {
    assert_eq!(Color::from_hex("#1234"), None);
    assert_eq!(Color::from_hex("#1234567"), None);
    assert_eq!(Color::from_hex("#ééé"), None);
    assert_eq!(Color::from_hex("##fff"), None);
}

#[test]
fn hex_channel_takes_hex_digits_only() {
    assert_eq!(Color::from_hex("+f+f+f"), None);
    assert_eq!(Color::from_hex("#+f0000"), None);
    assert_eq!(Color::from_hex("+++"), None);
    assert_eq!(Color::from_hex("-f-f-f"), None);
}

#[test]
fn to_hex_writes_lower_case_two_digits() {
    assert_eq!(Color::rgb(0, 1, 255).to_hex(), "#0001ff");
    assert_eq!(Color::rgba(0xab, 0xcd, 0xef, 0).to_hex(), "#abcdef00");
}

#[test]
fn every_colour_reads_back_from_its_hex() {
    for c in [
        Color::rgb(0, 0, 0),
        Color::rgba(1, 2, 3, 4),
        Color::rgba(255, 255, 255, 254),
        Color::rgb(0x88, 0x99, 0xaa),
    ] {
        assert_eq!(Color::from_hex(&c.to_hex()), Some(c));
    }
}
