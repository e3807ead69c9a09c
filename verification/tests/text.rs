use pepos::text::strip_field_codes;

#[test]
fn strips_field_codes() {
    assert_eq!(strip_field_codes("firefox %u"), "firefox");
    assert_eq!(strip_field_codes("gimp-2.10 %U"), "gimp-2.10");
    assert_eq!(strip_field_codes("  foo   --bar %F\tbaz  "), "foo --bar baz");
    assert_eq!(strip_field_codes("%f"), "");
    assert_eq!(strip_field_codes(""), "");
}

#[test]
fn strip_keeps_percent_inside_words() {
    assert_eq!(strip_field_codes("printf 50% %i"), "printf 50%");
}

#[test]
fn strip_splits_on_unicode_whitespace() {
    assert_eq!(strip_field_codes("a\u{3000}b\u{a0}%c"), "a b");
}

#[test]
fn strip_is_idempotent_on_samples() {
    for s in ["vlc --started-from-file %U", " a  b ", "%%x y %", "x\n%f\ty"] {
        let once = strip_field_codes(s);
        assert_eq!(strip_field_codes(&once), once);
        assert!(once.split_whitespace().all(|w| !w.starts_with('%')));
    }
}
