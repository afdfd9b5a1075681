use xref_indexer::checksum::{checksum_bytes, file_symbols_checksum, fingerprint_of};
use xref_indexer::indexer::{is_supported_extension, should_skip_entry, worker_count};
use xref_indexer::language::Language;
use xref_indexer::lookup::{LocationSet, NameLookup, NameSet};
use xref_indexer::paths;
use xref_indexer::snippet::make_snippet;
use xref_indexer::source::decode_source;
use xref_indexer::text;
use xref_indexer::types::{FileSymbols, SymbolKind, Visibility};

#[test]
fn names_split_at_their_last_separator() {
    assert_eq!(text::simple_name("demo::Derived::run"), "run");
    assert_eq!(text::simple_name("run"), "run");
    assert_eq!(text::simple_name("a:::b"), "b");
    assert_eq!(text::simple_name("a::"), "");
    assert_eq!(
        text::split_last("demo::Derived::run"),
        Some(("demo::Derived".to_string(), "run".to_string()))
    );
    assert_eq!(text::split_last("run"), None);
}

#[test]
fn numbers_are_read_and_written() {
    assert_eq!(text::decimal_of(0), "0");
    assert_eq!(text::decimal_of(1024), "1024");
    assert_eq!(text::decimal_of(u128::MAX), u128::MAX.to_string());
    assert_eq!(text::hex_of(255, 4), "00ff");
    assert_eq!(text::parse_number("42", 100), Some(42));
    assert_eq!(text::parse_number("+42", 100), Some(42));
    assert_eq!(text::parse_number("101", 100), None);
    assert_eq!(text::parse_number("", 100), None);
    assert_eq!(text::parse_number("+", 100), None);
    assert_eq!(text::parse_number("-1", 100), None);
    assert_eq!(text::parse_number("4x", 100), None);
    assert_eq!(
        text::parse_number("18446744073709551615", u64::MAX),
        Some(u64::MAX)
    );
    assert_eq!(text::parse_number("18446744073709551616", u64::MAX), None);
}

#[test]
fn texts_are_trimmed_split_and_ordered() {
    assert_eq!(text::trim(" \t x y \u{2003}\n"), "x y");
    assert_eq!(text::trim(" \n"), "");
    assert_eq!(text::trim("\u{a0}\u{85}x\u{3000}\u{2028}"), "x");
    assert_eq!(text::trim("\u{200b}x\u{180e}"), "\u{200b}x\u{180e}");
    assert_eq!(
        text::split_once("key=a=b", '='),
        Some(("key".to_string(), "a=b".to_string()))
    );
    assert_eq!(text::split_once("key", '='), None);
    assert!(text::is_before("c", "cpp"));
    assert!(text::is_before("ab", "b"));
    assert!(!text::is_before("b", "b"));
    assert!(!text::is_before("cpp", "c"));
    assert_eq!(text::to_ascii_lower("CpP\u{c4}"), "cpp\u{c4}");
    assert!(text::contains("abcabd", "abd"));
    assert!(!text::contains("abcab", "abd"));
    assert!(text::contains("x", ""));
}

#[test]
fn paths_are_taken_apart() {
    assert_eq!(paths::parent_of("a/b/c.cpp"), Some("a/b".to_string()));
    assert_eq!(paths::parent_of("c.cpp"), Some(String::new()));
    assert_eq!(paths::parent_of("/a"), Some("/".to_string()));
    assert_eq!(paths::parent_of("/"), None);
    assert_eq!(paths::file_name_of("a/b/c.cpp"), Some("c.cpp".to_string()));
    assert_eq!(paths::extension_of("a/b/c.tar.GZ"), Some("GZ".to_string()));
    assert_eq!(paths::extension_of("a/.bashrc"), None);
    assert_eq!(paths::extension_of("a/Makefile"), None);
    assert_eq!(paths::file_stem_of("a/b.c.db"), Some("b.c".to_string()));
    assert_eq!(paths::file_stem_of("a/.db"), Some(".db".to_string()));
    assert_eq!(paths::join_path("data", "x.db"), "data/x.db");
    assert_eq!(paths::join_path("data/", "x.db"), "data/x.db");
    assert_eq!(paths::join_path("", "x.db"), "x.db");
    assert!(paths::is_below("src/a/b.cpp", "src/a"));
    assert!(paths::is_below("src/a", "src/a/"));
    assert!(!paths::is_below("src/ab/c.cpp", "src/a"));
    assert!(paths::is_filesystem_root("/"));
    assert!(!paths::is_filesystem_root("/a"));
    assert!(!paths::is_filesystem_root("a"));
}

#[test]
fn paths_agree_with_the_standard_library() {
    let samples = [
        "a", "a/b", "/a/b", "/", "", ".", "..", "a/..", "./a", "a/", "a//b", "/a/./b", "x.db",
        "a/.b", "a.b/c", "a/b.c.d", "a/..b", "//a", "a/b/",
    ];
    for p in samples {
        let path = std::path::Path::new(p);
        let parent = path.parent().map(|q| q.to_string_lossy().to_string());
        assert_eq!(paths::parent_of(p), parent, "parent of {p:?}");
        let name = path.file_name().map(|q| q.to_string_lossy().to_string());
        assert_eq!(paths::file_name_of(p), name, "name of {p:?}");
        let extension = path.extension().map(|q| q.to_string_lossy().to_string());
        assert_eq!(paths::extension_of(p), extension, "extension of {p:?}");
        let stem = path.file_stem().map(|q| q.to_string_lossy().to_string());
        assert_eq!(paths::file_stem_of(p), stem, "stem of {p:?}");
        for q in samples {
            assert_eq!(
                paths::is_below(p, q),
                path.starts_with(q),
                "{p:?} below {q:?}"
            );
        }
    }
}

#[test]
fn source_files_are_told_by_their_extension() {
    for name in ["a.c", "a.h", "a.H"] {
        assert!(is_supported_extension(name, Language::C));
        assert!(is_supported_extension(name, Language::Cpp));
    }
    for name in ["a.cpp", "a.CC", "a.cxx", "a.c++", "a.hpp", "a.hh", "a.hxx", "a.h++"] {
        assert!(!is_supported_extension(name, Language::C));
        assert!(is_supported_extension(name, Language::Cpp));
    }
    assert!(!is_supported_extension("a.rs", Language::Cpp));
    assert!(!is_supported_extension("cpp", Language::Cpp));
    assert!(!is_supported_extension(".cpp", Language::Cpp));
}

#[test]
fn hidden_entries_and_built_directories_are_passed_over() {
    assert!(should_skip_entry(".git", true));
    assert!(should_skip_entry(".hidden.cpp", false));
    assert!(!should_skip_entry(".", true));
    assert!(!should_skip_entry("..", true));
    assert!(should_skip_entry("build", true));
    assert!(!should_skip_entry("build", false));
    assert!(should_skip_entry("third_party", true));
    assert!(!should_skip_entry("src", true));
}

#[test]
fn workers_are_bounded_by_the_files() {
    assert_eq!(worker_count(None, 8, 100), 8);
    assert_eq!(worker_count(Some(3), 8, 100), 3);
    assert_eq!(worker_count(Some(0), 8, 100), 1);
    assert_eq!(worker_count(None, 8, 2), 2);
    assert_eq!(worker_count(None, 8, 0), 1);
}

#[test]
fn checksums_are_those_of_fnv() {
    assert_eq!(checksum_bytes(b""), "cbf29ce484222325:0");
    assert_eq!(checksum_bytes(b"a"), "af63dc4c8601ec8c:1");
    assert_eq!(checksum_bytes(b"foobar"), "85944171f73967e8:6");
    assert_eq!(fingerprint_of(0xff), "00000000000000ff");
    let empty = FileSymbols {
        file: "a.c".to_string(),
        language: "c".to_string(),
        definitions: vec![],
        references: vec![],
        calls: vec![],
        inherits: vec![],
    };
    assert_eq!(file_symbols_checksum(&empty), "cbf29ce484222325");
}

#[test]
fn sources_that_are_no_text_are_decoded_with_replacements() {
    let plain = decode_source(b"int x;");
    assert_eq!(plain.source, "int x;");
    assert_eq!(plain.bytes, 6);
    assert!(!plain.decoded_lossy);
    let broken = decode_source(b"int \xff;");
    assert_eq!(broken.source, "int \u{fffd};");
    assert_eq!(broken.bytes, 6);
    assert!(broken.decoded_lossy);
}

#[test]
fn snippets_show_numbered_lines() {
    let source = "one\r\ntwo\nthree\nfour";
    let s = make_snippet("a.c", source, 2, 1).expect("a snippet");
    assert_eq!(s.file, "a.c");
    assert_eq!((s.focus_line, s.start_line, s.end_line), (2, 1, 3));
    assert_eq!(s.text, "      1: one\n>     2: two\n      3: three\n");
    let s = make_snippet("a.c", source, 4, 100).expect("a snippet");
    assert_eq!((s.start_line, s.end_line), (1, 4));
    let s = make_snippet("a.c", source, 4, usize::MAX).expect("a snippet");
    assert_eq!((s.start_line, s.end_line), (1, 4));
    assert!(make_snippet("a.c", source, 0, 1).is_none());
    assert!(make_snippet("a.c", source, 5, 1).is_none());
    assert!(make_snippet("a.c", "", 1, 1).is_none());
    assert!(make_snippet("a.c", "x\n", 2, 1).is_none());
    let wide: String = "x\n".repeat(1_000_000);
    let s = make_snippet("a.c", &wide, 1_000_000, 0).expect("a snippet");
    assert_eq!(s.text, ">1000000: x\n");
}

#[test]
fn lookups_keep_positions_and_names() {
    let mut lookup = NameLookup::new();
    lookup.add(&"a".to_string(), 1);
    lookup.add(&"b".to_string(), 2);
    lookup.add(&"a".to_string(), 3);
    assert_eq!(lookup.get("a"), Some(&vec![1, 3]));
    assert_eq!(lookup.get("b"), Some(&vec![2]));
    assert_eq!(lookup.get("c"), None);
    let mut names = NameSet::new();
    assert!(!names.contains("a"));
    names.insert(&"a".to_string());
    assert!(names.contains("a"));
    assert!(!names.contains("b"));
    let mut places = LocationSet::new();
    places.insert(1, 2);
    assert!(places.contains(1, 2));
    assert!(!places.contains(2, 1));
}

#[test]
fn kinds_and_visibilities_have_names() {
    let kinds = [
        (SymbolKind::Function, "function"),
        (SymbolKind::Method, "method"),
        (SymbolKind::Constructor, "constructor"),
        (SymbolKind::Destructor, "destructor"),
        (SymbolKind::Macro, "macro"),
        (SymbolKind::Variable, "variable"),
        (SymbolKind::Class, "class"),
        (SymbolKind::Struct, "struct"),
        (SymbolKind::Union, "union"),
        (SymbolKind::Enum, "enum"),
        (SymbolKind::EnumVariant, "enum_variant"),
        (SymbolKind::Typedef, "typedef"),
        (SymbolKind::Namespace, "namespace"),
        (SymbolKind::Field, "field"),
    ];
    for (kind, name) in kinds {
        assert_eq!(kind.as_str(), name);
        assert_eq!(SymbolKind::from_str(name), Some(kind));
    }
    assert_eq!(SymbolKind::from_str("nonsense"), None);
    assert_eq!(Visibility::from_str("protected"), Some(Visibility::Protected));
    assert_eq!(Visibility::Private.as_str(), "private");
    assert_eq!(Visibility::from_str(""), None);
}

#[test]
fn lines_stand_between_line_feeds() {
    assert_eq!(text::lines_of("a\r\n\nb"), vec!["a\r", "", "b"]);
    assert_eq!(text::lines_of("a\n"), vec!["a", ""]);
    assert_eq!(text::lines_of(""), vec![""]);
}
