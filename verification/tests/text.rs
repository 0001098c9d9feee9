use feather_fences::text::{
    chars_of, decimal, eq_ignore_ascii_case, ext_of, extension, is_download_temp, is_white, label_units, lowercase, split_label,
    text_before, trimmed,
};

#[test]
fn texts_are_ordered_by_their_characters() {
    let b = |x: &str, y: &str| text_before(&chars_of(x), &chars_of(y));
    for (x, y) in [("", "a"), ("a", "b"), ("a", "aa"), ("Z", "a"), ("中", "文"), ("a😀", "a😁"), ("\u{ffff}", "😀")] {
        assert!(b(x, y) && !b(y, x), "{x} {y}");
        assert!(x < y);
        assert!(!b(x, x));
    }
}

#[test]
fn lower_case_follows_the_standard_library() {
    for s in ["ABC", "Ärger", "ΑΣ", "İ", "中文", ""] {
        assert_eq!(lowercase(s), s.to_lowercase());
    }
    assert_eq!(lowercase("JPG"), "jpg");
}

#[test]
fn white_space_is_trimmed_at_both_ends() {
    assert_eq!(trimmed("  a b \t\n"), "a b");
    assert_eq!(trimmed("\u{3000}名 "), "名");
    assert_eq!(trimmed(" \t"), "");
    for s in ["", "a", " a", "a ", "\u{85}a\u{2028}b\u{205f}", "\u{200b}a\u{feff}", "\u{180e}x", " \u{a0} "] {
        assert_eq!(trimmed(s), s.trim(), "{s:?}");
    }
}

#[test]
fn white_space_is_that_of_unicode() {
    for c in '\0'..=char::MAX {
        assert_eq!(is_white(c), c.is_whitespace(), "{c:?}");
    }
}

#[test]
fn extensions_are_what_the_standard_library_finds() {
    for name in [
        "a.txt", "a", ".hidden", ".hidden.txt", "a.tar.gz", "a.", "..a", "...", "a..b", "中.文", "", "x.JPG", ". .",
    ] {
        let want = std::path::Path::new(name).extension().map(|e| e.to_string_lossy().to_string());
        assert_eq!(extension(name), want, "{name}");
        let dotted = want.map(|e| format!(".{}", e.to_lowercase())).unwrap_or_default();
        assert_eq!(ext_of(name), dotted, "{name}");
    }
    assert_eq!(extension(".."), None);
    assert_eq!(ext_of("Photo.JPG"), ".jpg");
}

#[test]
fn unfinished_downloads_are_known_by_their_extension() {
    for name in ["a.crdownload", "a.PART", "a.Partial", "a.download", "x.y.tmp"] {
        assert!(is_download_temp(name), "{name}");
    }
    for name in ["a", "tmp", ".tmp", "a.tmpx", "a.parts", "a.txt", "crdownload"] {
        assert!(!is_download_temp(name), "{name}");
    }
}

#[test]
fn ascii_case_is_ignored() {
    for (a, b) in [("Desktop.INI", "desktop.ini"), ("", ""), ("a", "B"), ("ä", "Ä"), ("ab", "abc"), ("[", "{"), ("@", "`")] {
        assert_eq!(eq_ignore_ascii_case(a, b), a.eq_ignore_ascii_case(b), "{a} {b}");
    }
}

#[test]
fn numbers_are_written_in_decimal() {
    for n in [0u32, 1, 9, 10, 24, 100, 1006, 4_294_967_295] {
        assert_eq!(decimal(n), n.to_string());
    }
}

fn expected_split(text: &str, fitted: usize) -> (String, String) {
    let mut units = 0;
    let mut cut = text.chars().next().map_or(0, |c| c.len_utf8());
    for (i, c) in text.char_indices() {
        units += c.len_utf16();
        if units <= fitted {
            cut = i + c.len_utf8();
        }
    }
    (text[..cut].to_string(), text[cut..].to_string())
}

#[test]
fn labels_are_split_between_characters() {
    for text in ["a", "report.pdf", "😀", "😀a", "a😀b", "文件夹", "😀😀😀", "ab😀cd", "👩‍💻 notes"] {
        assert_eq!(label_units(text) as usize, text.encode_utf16().count());
        for fitted in 0..20 {
            let (first, second) = split_label(text, fitted);
            assert_eq!(format!("{first}{second}"), text);
            assert_eq!((first, second), expected_split(text, fitted as usize), "{text} {fitted}");
        }
    }
    assert_eq!(split_label("a😀b", 2), ("a".to_string(), "😀b".to_string()));
    assert_eq!(split_label("😀b", 1), ("😀".to_string(), "b".to_string()));
    assert_eq!(split_label("😀", 0), ("😀".to_string(), String::new()));
}
