use md_peruse::i18n::{resolve_language, Language, LanguagePreference, FALLBACK_LANGUAGE};

#[test]
fn resolve_language_follows_preference_and_os_tag() {
    let cases = [
        (
            "日本語を選べば日本語",
            LanguagePreference::Ja,
            "en-US",
            Language::Ja,
        ),
        (
            "英語を選べば英語",
            LanguagePreference::En,
            "ja-JP",
            Language::En,
        ),
        (
            "systemで日本語のOSは日本語",
            LanguagePreference::System,
            "ja-JP",
            Language::Ja,
        ),
        (
            "地域サブタグのない指定も一次サブタグで判定する",
            LanguagePreference::System,
            "ja",
            Language::Ja,
        ),
        (
            "大文字小文字を区別しない",
            LanguagePreference::System,
            "JA-JP",
            Language::Ja,
        ),
        (
            "アンダースコア区切りも一次サブタグで判定する",
            LanguagePreference::System,
            "ja_JP",
            Language::Ja,
        ),
        (
            "systemで英語のOSは英語",
            LanguagePreference::System,
            "en-GB",
            Language::En,
        ),
        (
            "対応しない言語はフォールバックへ倒す",
            LanguagePreference::System,
            "fr-FR",
            FALLBACK_LANGUAGE,
        ),
        (
            "取得できなかったときもフォールバックへ倒す",
            LanguagePreference::System,
            "",
            FALLBACK_LANGUAGE,
        ),
    ];

    for (name, preference, tag, expected) in cases {
        assert_eq!(resolve_language(preference, tag), expected, "{name}");
    }
}

#[test]
fn default_preference_follows_the_os() {
    assert_eq!(LanguagePreference::default(), LanguagePreference::System);
}
