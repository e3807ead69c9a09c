use pepos::color::{hex_is_sliceable, hex_to_rgba, rgba_to_argb8888};
use pepos::dock::config::hex_to_rgba as dock_hex_to_rgba;
use pepos::launcher::config::hex_to_rgba as launcher_hex_to_rgba;
use pepos::menubar::config::hex_to_rgba as menubar_hex_to_rgba;

#[test]
fn hex_six_digits_is_opaque() {
    assert_eq!(hex_to_rgba("#1a1a1a"), (26, 26, 26, 255));
    assert_eq!(hex_to_rgba("#e8e8e8"), (232, 232, 232, 255));
}

#[test]
fn hex_eight_digits_has_alpha() {
    assert_eq!(hex_to_rgba("#5e9bffcc"), (94, 155, 255, 204));
}

#[test]
fn hex_uppercase_digits() {
    assert_eq!(hex_to_rgba("#ABCDEF"), (171, 205, 239, 255));
}

#[test]
fn hex_without_hash_and_with_many_hashes() {
    assert_eq!(hex_to_rgba("102030"), (16, 32, 48, 255));
    assert_eq!(hex_to_rgba("###102030"), (16, 32, 48, 255));
}

#[test]
fn hex_bad_field_reads_as_zero() {
    assert_eq!(hex_to_rgba("#zz8000"), (0, 128, 0, 255));
    assert_eq!(hex_to_rgba("#10-120"), (16, 0, 32, 255));
}

#[test]
fn hex_plus_sign_field() {
    assert_eq!(hex_to_rgba("#+f+a+1"), (15, 10, 1, 255));
}

#[test]
fn hex_seven_digits_ignores_the_odd_one() {
    assert_eq!(hex_to_rgba("#1122334"), (17, 34, 51, 255));
}

#[test]
fn hex_non_ascii_field() {
    assert_eq!(hex_to_rgba("é1234"), (0, 18, 52, 255));
    assert!(hex_is_sliceable("é1234"));
}

#[test]
fn hex_sliceable_checks() {
    assert!(hex_is_sliceable("#1a1a1a"));
    assert!(!hex_is_sliceable("#12345"));
    assert!(!hex_is_sliceable("#1é234"));
    assert!(hex_is_sliceable("#123456é"));
    assert_eq!(hex_to_rgba("#123456é"), (0x12, 0x34, 0x56, 0));
    assert!(!hex_is_sliceable("#1234567é"));
}

#[test]
fn hex_same_in_every_client() {
    for s in ["#1a1a1a", "#5e9bff", "#e8e8e880"] {
        let c = hex_to_rgba(s);
        assert_eq!(dock_hex_to_rgba(s), c);
        assert_eq!(launcher_hex_to_rgba(s), c);
        assert_eq!(menubar_hex_to_rgba(s), c);
    }
}

#[test]
fn hex_round_trip_on_samples() {
    for (r, g, b, a) in [(0u8, 0u8, 0u8, 0u8), (255, 255, 255, 255), (1, 2, 3, 4), (94, 155, 255, 204)] {
        let t = format!("#{:02x}{:02x}{:02x}", r, g, b);
        assert_eq!(hex_to_rgba(&t), (r, g, b, 255));
        let t = format!("#{:02x}{:02x}{:02x}{:02x}", r, g, b, a);
        assert_eq!(hex_to_rgba(&t), (r, g, b, a));
    }
}

#[test]
fn argb_swaps_red_and_blue() {
    let src = [1u8, 2, 3, 4, 5, 6, 7, 8];
    let mut dst = [0u8; 8];
    rgba_to_argb8888(&mut dst, &src);
    assert_eq!(dst, [3, 2, 1, 4, 7, 6, 5, 8]);
}

#[test]
fn argb_copies_whole_pixels_of_the_shorter_buffer() {
    let src = [1u8, 2, 3, 4, 5, 6];
    let mut dst = [9u8; 10];
    rgba_to_argb8888(&mut dst, &src);
    assert_eq!(dst, [3, 2, 1, 4, 9, 9, 9, 9, 9, 9]);
}

#[test]
fn argb_twice_is_identity() {
    let src: Vec<u8> = (0..40u8).collect();
    let mut once = vec![0u8; 40];
    let mut twice = vec![0u8; 40];
    rgba_to_argb8888(&mut once, &src);
    rgba_to_argb8888(&mut twice, &once);
    assert_eq!(twice, src);
}
