use cargo_cite::{
    collect_keys, line_is_cite_footnote, line_is_comment, line_is_generic_footnote, scan_for_key,
    Block, BlockType, CitationMap, File, Key, StyleError,
};

fn to_lines(text: &str) -> Vec<String> {
    text.lines().map(|l| l.to_string()).collect()
}

fn key(s: &str) -> Key {
    Key(s.to_string())
}

// Round-trip identity: without citation markers, parsing and serializing
// reproduces the input byte for byte.
#[test]
fn round_trip_no_markers() {
    let text = "/// plain comment\nfn f() {}\n// not a doc comment\n\tlet x = 1;\n";
    let file = File::open_from_lines(to_lines(text), "a.rs".into());
    assert_eq!(file.serialize(), text);
}

#[test]
fn round_trip_empty_file() {
    let file = File::open_from_lines(Vec::new(), "empty.rs".into());
    assert_eq!(file.blocks().len(), 0);
    assert_eq!(file.keys().len(), 0);
    assert_eq!(file.serialize(), "");
}

// Idempotence: a second pass over the first pass's output writes the same
// text again; no duplicate footnotes accumulate.
#[test]
fn cite_twice_is_once() {
    let text = "/// uses [^@alpha]\n/// and [^@beta]\nfn f() {}\n";
    let mut citations = CitationMap::new();
    citations.insert(key("alpha"), "First reference.".to_string());
    citations.insert(key("beta"), "Second reference.".to_string());

    let mut first = File::open_from_lines(to_lines(text), "a.rs".into());
    first.cite(&citations);
    let once = first.serialize();

    let mut second = File::open_from_lines(to_lines(&once), "a.rs".into());
    second.cite(&citations);
    assert_eq!(second.serialize(), once);
}

// Key extraction excludes self-generated footnotes: a footnote-definition
// line is not kept and contributes no key.
#[test]
fn footnote_definition_dropped() {
    let text = "/// genuine [^@x]\n/// [^@stale]: left over from an earlier run\n";
    let file = File::open_from_lines(to_lines(text), "a.rs".into());
    assert_eq!(file.serialize(), "/// genuine [^@x]\n");
    assert_eq!(file.keys().len(), 1);
    assert_eq!(file.keys().get(0).0, "x");
}

// Deterministic footnote order: keys seen as b then a come out a then b.
#[test]
fn footnotes_sorted_by_key() {
    let text = "/// cites [^@b] and [^@a]\n";
    let mut citations = CitationMap::new();
    citations.insert(key("a"), "A.".to_string());
    citations.insert(key("b"), "B.".to_string());
    let mut file = File::open_from_lines(to_lines(text), "a.rs".into());
    file.cite(&citations);
    assert_eq!(
        file.serialize(),
        "/// cites [^@b] and [^@a]\n///\n/// [^@a]: A.\n/// [^@b]: B.\n"
    );
}

// The worked example: two lines citing x and y, both resolvable, yields
// five lines with the footnotes in sorted order.
#[test]
fn five_line_example() {
    let text = "/// Uses [^@x]\n/// and [^@y]\n";
    let mut citations = CitationMap::new();
    citations.insert(key("x"), "X.".to_string());
    citations.insert(key("y"), "Y.".to_string());
    let mut file = File::open_from_lines(to_lines(text), "a.rs".into());
    file.cite(&citations);
    assert_eq!(
        file.serialize(),
        "/// Uses [^@x]\n/// and [^@y]\n///\n/// [^@x]: X.\n/// [^@y]: Y.\n"
    );
    if let Block::Comment(comment) = &file.blocks()[0] {
        assert_eq!(comment.len(), 5);
    } else {
        panic!("expected a comment block");
    }
}

// Blank-line policy: a plain last line gets exactly one blank comment line
// before the footnotes; a last line that is already a footnote definition
// gets none.
#[test]
fn blank_line_after_plain_text() {
    let text = "  /// cites [^@k]\n";
    let mut citations = CitationMap::new();
    citations.insert(key("k"), "K.".to_string());
    let mut file = File::open_from_lines(to_lines(text), "a.rs".into());
    file.cite(&citations);
    assert_eq!(file.serialize(), "  /// cites [^@k]\n  ///\n  /// [^@k]: K.\n");
}

#[test]
fn no_blank_line_after_generic_footnote() {
    let text = "/// cites [^@k]\n/// [^note]: a hand-written footnote\n";
    let mut citations = CitationMap::new();
    citations.insert(key("k"), "K.".to_string());
    let mut file = File::open_from_lines(to_lines(text), "a.rs".into());
    file.cite(&citations);
    assert_eq!(
        file.serialize(),
        "/// cites [^@k]\n/// [^note]: a hand-written footnote\n/// [^@k]: K.\n"
    );
}

#[test]
fn no_blank_line_after_blank_line() {
    let text = "/// cites [^@k]\n///\n";
    let mut citations = CitationMap::new();
    citations.insert(key("k"), "K.".to_string());
    let mut file = File::open_from_lines(to_lines(text), "a.rs".into());
    file.cite(&citations);
    assert_eq!(file.serialize(), "/// cites [^@k]\n///\n/// [^@k]: K.\n");
}

// Block alternation: maximal runs, never two adjacent blocks of one kind.
#[test]
fn blocks_alternate() {
    let text = "/// a\n/// b\nfn f() {}\nlet y = 2;\n//! c\nfn g() {}\n";
    let file = File::open_from_lines(to_lines(text), "a.rs".into());
    let blocks = file.blocks();
    assert_eq!(blocks.len(), 4);
    assert!(matches!(&blocks[0], Block::Comment(_)));
    assert!(matches!(&blocks[1], Block::Code(_)));
    assert!(matches!(&blocks[2], Block::Comment(_)));
    assert!(matches!(&blocks[3], Block::Code(_)));
    assert_eq!(blocks[0].len(), 2);
    assert_eq!(blocks[1].len(), 2);
    assert_eq!(blocks[2].len(), 1);
    assert_eq!(blocks[3].len(), 1);
}

// Missing-key omission: an unresolvable key yields no footnote and no
// failure; the file is unchanged when nothing resolves.
#[test]
fn missing_key_omitted() {
    let text = "/// cites [^@gone]\n";
    let citations = CitationMap::new();
    let mut file = File::open_from_lines(to_lines(text), "a.rs".into());
    file.cite(&citations);
    assert_eq!(file.serialize(), text);
}

// Global batch consistency: one key set is collected over all files, and
// both files draw their footnotes from the one map built from it.
#[test]
fn batch_keys_are_unioned() {
    let texts = vec![
        "/// cites [^@beta]\n".to_string(),
        "//! cites [^@alpha] and [^@beta]\n".to_string(),
    ];
    let union = collect_keys(&texts);
    assert_eq!(union.len(), 2);
    assert_eq!(union.get(0).0, "alpha");
    assert_eq!(union.get(1).0, "beta");

    let mut citations = CitationMap::new();
    citations.insert(key("alpha"), "A.".to_string());
    citations.insert(key("beta"), "B.".to_string());

    let mut first = File::open_from_lines(to_lines(&texts[0]), "a.rs".into());
    first.cite(&citations);
    assert_eq!(first.serialize(), "/// cites [^@beta]\n///\n/// [^@beta]: B.\n");

    let mut second = File::open_from_lines(to_lines(&texts[1]), "b.rs".into());
    second.cite(&citations);
    assert_eq!(
        second.serialize(),
        "//! cites [^@alpha] and [^@beta]\n//!\n//! [^@alpha]: A.\n//! [^@beta]: B.\n"
    );
}

// The inline scan: order kept, duplicates kept, unclosed markers skipped,
// keys stop at the first closing bracket.
#[test]
fn scan_finds_keys_in_order() {
    let keys = scan_for_key("x [^@b] y [^@a] z [^@b]");
    let names: Vec<&str> = keys.iter().map(|k| k.0.as_str()).collect();
    assert_eq!(names, vec!["b", "a", "b"]);
}

#[test]
fn scan_skips_unclosed_markers() {
    assert_eq!(scan_for_key("[^@never closed").len(), 0);
    assert_eq!(scan_for_key("[^@broken\nover] lines").len(), 0);
    let keys = scan_for_key("[^@ok] then [^@also]");
    assert_eq!(keys.len(), 2);
    assert_eq!(keys[0].0, "ok");
    assert_eq!(keys[1].0, "also");
}

#[test]
fn scan_takes_first_closing_bracket() {
    let keys = scan_for_key("[^@a]b]");
    assert_eq!(keys.len(), 1);
    assert_eq!(keys[0].0, "a");
}

#[test]
fn scan_allows_empty_key() {
    let keys = scan_for_key("an empty marker [^@]");
    assert_eq!(keys.len(), 1);
    assert_eq!(keys[0].0, "");
}

// A key referenced twice in one block is tracked once.
#[test]
fn duplicate_keys_tracked_once() {
    let text = "/// [^@k] twice [^@k]\n";
    let file = File::open_from_lines(to_lines(text), "a.rs".into());
    assert_eq!(file.keys().len(), 1);
}

// The four recognizers on representative lines.
#[test]
fn recognizer_comment_lines() {
    assert!(line_is_comment("/// doc"));
    assert!(line_is_comment("  \t//! inner doc"));
    assert!(!line_is_comment("// plain comment"));
    assert!(!line_is_comment("fn main() {}"));
    assert!(!line_is_comment(""));
}

#[test]
fn recognizer_footnote_lines() {
    assert!(line_is_cite_footnote("/// [^@key]: rendered text"));
    assert!(line_is_cite_footnote("  //!  [^@key]: rendered text"));
    assert!(!line_is_cite_footnote("/// [^note]: hand-written"));
    assert!(!line_is_cite_footnote("/// inline [^@key] only"));
    assert!(line_is_generic_footnote("/// [^note]: hand-written"));
    assert!(line_is_generic_footnote("/// [^@key]: rendered text"));
    assert!(!line_is_generic_footnote("/// plain text"));
}

// The citation map resolves exactly what was inserted; a later insert for
// the same key replaces the text.
#[test]
fn citation_map_lookup() {
    let mut citations = CitationMap::new();
    assert!(citations.get(&key("a")).is_none());
    citations.insert(key("a"), "first".to_string());
    citations.insert(key("b"), "other".to_string());
    citations.insert(key("a"), "second".to_string());
    assert_eq!(citations.get(&key("a")).unwrap().as_str(), "second");
    assert_eq!(citations.get(&key("b")).unwrap().as_str(), "other");
    assert!(citations.get(&key("c")).is_none());
}

// The two style-loading error variants and their descriptions.
#[test]
fn style_error_messages() {
    assert_eq!(StyleError::InvalidStyle.message(), "invalid style name");
    assert_eq!(StyleError::DependentStyle.message(), "style is not independent");
    assert_ne!(StyleError::InvalidStyle, StyleError::DependentStyle);
}

// Filenames and key sets are kept as given.
#[test]
fn file_accessors() {
    let text = "/// [^@z]\n/// [^@a]\n";
    let file = File::open_from_lines(to_lines(text), "src/lib.rs".into());
    assert_eq!(file.filename().as_str(), "src/lib.rs");
    assert_eq!(file.keys().len(), 2);
    assert_eq!(file.keys().get(0).0, "a");
    assert_eq!(file.keys().get(1).0, "z");
}

// A comment run made only of stale footnote definitions parses to an
// empty comment block; citing it is a no-op and the stale lines vanish
// from the output instead of failing.
#[test]
fn stale_footnotes_only_block() {
    let text = "/// [^@x]: stale one\n/// [^@y]: stale two\nfn f() {}\n";
    let mut citations = CitationMap::new();
    citations.insert(key("x"), "X.".to_string());
    let mut file = File::open_from_lines(to_lines(text), "a.rs".into());
    file.cite(&citations);
    assert_eq!(file.serialize(), "fn f() {}\n");
}
