use android_memeater::host::is_android;
use android_memeater::text::{
    chars_of, contains, ends_with, is_space, lower_case, to_ascii_lower, trim,
};

#[test]
fn white_space_is_what_std_trims() {
    for code in 0..0x11_0000u32 {
        if let Some(c) = char::from_u32(code) {
            assert_eq!(is_space(c), c.is_whitespace(), "{code:#x}");
        }
    }
}

#[test]
fn trim_is_what_std_trims() {
    for text in [
        "",
        " ",
        "a",
        " a",
        "a ",
        "  a b  ",
        "\t\n 10s \r\n",
        "\u{3000}x\u{2009}",
        "\u{85}\u{a0}\u{1680}y\u{2028}\u{2029}\u{202f}\u{205f}",
        "\u{180e}z\u{200b}",
        " \u{feff} ",
    ] {
        assert_eq!(trim(text), text.trim(), "{text:?}");
    }
}

#[test]
fn chars_come_in_order() {
    assert_eq!(chars_of(""), Vec::<char>::new());
    assert_eq!(chars_of("10ms"), vec!['1', '0', 'm', 's']);
    assert_eq!(chars_of("aé\u{3000}😀"), vec!['a', 'é', '\u{3000}', '😀']);
}

#[test]
fn endings() {
    let text = chars_of("10gib");
    assert!(ends_with(&text, "gib"));
    assert!(ends_with(&text, "b"));
    assert!(ends_with(&text, ""));
    assert!(ends_with(&text, "10gib"));
    assert!(!ends_with(&text, "gb"));
    assert!(!ends_with(&text, "g"));
    assert!(!ends_with(&text, "010gib"));
    assert!(ends_with(&[], ""));
    assert!(!ends_with(&[], "b"));
}

#[test]
fn occurrences() {
    assert!(contains("Linux version (Android)", "Android"));
    assert!(contains("Android", "Android"));
    assert!(contains("xAndroid", "Android"));
    assert!(contains("AndroiAndroid", "Android"));
    assert!(contains("anything", ""));
    assert!(contains("", ""));
    assert!(!contains("", "Android"));
    assert!(!contains("Androi", "Android"));
    assert!(!contains("android", "Android"));
    assert!(!contains("And roid", "Android"));
}

#[test]
fn host_is_told_by_its_marker() {
    assert!(is_android(
        "Linux version 5.10.101-android12-9 (build@host) (Android (7284624) clang 12.0.5)"
    ));
    assert!(!is_android("Linux version 6.1.0-18-amd64 (debian-kernel@lists.debian.org)"));
    assert!(!is_android("linux version 5.10 android"));
    assert!(!is_android(""));
}

#[test]
fn ascii_capitals_are_lowered() {
    let lowered = to_ascii_lower(&chars_of("10 GiB, Straße, ÀÉ, ΑΣ, \u{212a}@[`{"));
    assert_eq!(lowered, chars_of("10 gib, straße, ÀÉ, ΑΣ, \u{212a}@[`{"));
    for c in '\0'..='\u{7f}' {
        assert_eq!(to_ascii_lower(&[c]), vec![c.to_ascii_lowercase()]);
    }
    assert_eq!(to_ascii_lower(&[]), Vec::<char>::new());
}

#[test]
fn lower_case_of_each_char_is_what_std_gives() {
    for code in 0..0x11_0000u32 {
        if let Some(c) = char::from_u32(code) {
            let text = c.to_string();
            assert_eq!(lower_case(&text), text.to_lowercase(), "{code:#x}");
        }
    }
}

#[test]
fn lower_case_of_a_text_is_what_std_gives() {
    for text in [
        "",
        "10GiB",
        "10MB",
        "HELLO, World!",
        "Straße ÀÉÎ",
        "10\u{212a}iB",
        "İstanbul",
        "ὈΔΥΣΣΕΎΣ",
        "ΑΣ",
        "ΑΣ B",
        "ΑΣB",
        "AΣ",
        "aΣ",
        "Σ",
        "ΣA",
        "A.Σ",
        "AΣ.B",
        "A\u{301}Σ\u{301}",
        "Ǆ ǅ ǆ",
        "ＧＩＢ",
        "农历新年",
    ] {
        assert_eq!(lower_case(text), text.to_lowercase(), "{text:?}");
    }
}
