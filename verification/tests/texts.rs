use geocoder::search::tokenizer::normalize_turkish;
use geocoder::text::{join, push_present, split_words, to_decimal};

#[test]
fn joining_puts_the_separator_between_parts_only() {
    assert_eq!(join(&vec![], ", "), "");
    assert_eq!(join(&vec!["a"], ", "), "a");
    assert_eq!(join(&vec!["a", "", "c"], ", "), "a, , c");
}

#[test]
fn absent_names_are_left_out() {
    let some = Some("x".to_string());
    let none: Option<String> = None;
    let mut parts = vec!["a"];
    push_present(&mut parts, &none);
    push_present(&mut parts, &some);
    assert_eq!(parts, vec!["a", "x"]);
}

#[test]
fn words_are_split_at_every_sort_of_whitespace() {
    let samples = [
        "", " ", "a", "  a b\tc\n", "\u{a0}x\u{2003}y\u{3000}", "tek", "a\u{200b}b", "a\u{85}b\u{1680}c",
        "\u{b}\u{c}x\u{1c}y",
    ];
    for s in samples {
        let expected: Vec<String> = s.split_whitespace().map(|w| w.to_string()).collect();
        assert_eq!(split_words(s), expected, "{:?}", s);
        assert_eq!(split_words(s.trim()), expected, "{:?}", s);
    }
    assert_eq!(split_words("  Bağdat   Caddesi "), vec!["Bağdat", "Caddesi"]);
}

#[test]
fn numbers_are_written_in_decimal() {
    for n in [0u32, 7, 9, 10, 42, 99, 100, 1907, 4_294_967_295] {
        assert_eq!(to_decimal(n), n.to_string());
    }
}

#[test]
fn turkish_letters_become_ascii() {
    assert_eq!(normalize_turkish("şŞğĞüÜöÖıİçÇ"), "ssgguuooiicc");
    assert_eq!(normalize_turkish("İSTANBUL Kadıköy"), "istanbul kadikoy");
    assert_eq!(normalize_turkish("IĞDIR"), "igdir");
    assert_eq!(normalize_turkish(""), "");
}

#[test]
fn other_letters_become_lower_case_one_for_one() {
    assert_eq!(normalize_turkish("ÀÉ Ω 42-b"), "àé ω 42-b");
    assert_eq!(normalize_turkish("AZ[az]"), "az[az]");
    for s in ["Straße", "ŞİŞLİ", "\u{130}\u{1f88}", "日本"] {
        assert_eq!(normalize_turkish(s).chars().count(), s.chars().count());
    }
}

#[test]
fn normalizing_twice_changes_nothing() {
    for s in ["ŞİŞLİ Iğdır ÇÖĞÜ", "AZ[az] 42-b", ""] {
        let once = normalize_turkish(s);
        assert_eq!(normalize_turkish(&once), once);
        assert!(once.chars().all(|c| c.is_ascii() && !c.is_ascii_uppercase()));
    }
}

#[test]
fn every_character_is_normalized_once() {
    let all: String = (char::MIN..=char::MAX).collect();
    let once = normalize_turkish(&all);
    assert!(normalize_turkish(&once) == once);
    assert!(!once.chars().any(|c| c.is_ascii_uppercase() || "şŞğĞüÜöÖıİçÇ".contains(c)));
}

#[test]
fn normalizing_goes_by_character() {
    let (a, b) = ("Çanakkale ", "GÖKÇEADA");
    assert_eq!(
        normalize_turkish(&format!("{}{}", a, b)),
        format!("{}{}", normalize_turkish(a), normalize_turkish(b))
    );
}
