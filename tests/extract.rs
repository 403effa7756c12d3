use rustdoc_prettier::extract::{chunk, preprocess_line, Characteristics, DocKind};

#[test]
fn preprocess_strips_one_space_after_marker() {
    let (key, payload) = preprocess_line("///  A comment in need of formatting");
    assert_eq!(
        Some(Characteristics {
            indent: 0,
            kind: DocKind::Outer
        }),
        key
    );
    assert_eq!(" A comment in need of formatting", payload);
}

#[test]
fn preprocess_inner_with_indent() {
    let (key, payload) = preprocess_line("    //! inner docs");
    assert_eq!(
        Some(Characteristics {
            indent: 4,
            kind: DocKind::Inner
        }),
        key
    );
    assert_eq!("inner docs", payload);
}

#[test]
fn preprocess_marker_only() {
    let (key, payload) = preprocess_line("\t///");
    assert_eq!(
        Some(Characteristics {
            indent: 1,
            kind: DocKind::Outer
        }),
        key
    );
    assert_eq!("", payload);
}

#[test]
fn preprocess_unicode_whitespace_after_marker() {
    let (_, payload) = preprocess_line("///\u{3000}wide");
    assert_eq!("wide", payload);
}

#[test]
fn preprocess_plain_line() {
    assert_eq!((None, ""), preprocess_line("fn main() {} // not docs"));
    assert_eq!((None, ""), preprocess_line("// plain comment"));
    assert_eq!((None, ""), preprocess_line(""));
}

#[test]
fn chunk_empty_input() {
    assert!(chunk("").is_empty());
}

#[test]
fn chunk_without_markers() {
    assert!(chunk("fn main() {\n    let x = 1;\n}\n").is_empty());
}

#[test]
fn chunk_groups_runs() {
    let text = "//! Crate docs\n//! more\n\n/// Item\n///\n///  indented\nfn f() {}\n    /// nested\n";
    let chunks = chunk(text);
    assert_eq!(3, chunks.len());
    assert_eq!(1..3, chunks[0].lines);
    assert_eq!(DocKind::Inner, chunks[0].characteristics.kind);
    assert_eq!("Crate docs\nmore\n", chunks[0].docs);
    assert_eq!(4..7, chunks[1].lines);
    assert_eq!(
        Characteristics {
            indent: 0,
            kind: DocKind::Outer
        },
        chunks[1].characteristics
    );
    assert_eq!("Item\n\n indented\n", chunks[1].docs);
    assert_eq!(8..9, chunks[2].lines);
    assert_eq!(4, chunks[2].characteristics.indent);
    assert_eq!("nested\n", chunks[2].docs);
}

#[test]
fn chunk_splits_on_kind_and_indent_change() {
    let text = "//! a\n/// b\n  /// c\n  /// d";
    let chunks = chunk(text);
    assert_eq!(3, chunks.len());
    assert_eq!(1..2, chunks[0].lines);
    assert_eq!(2..3, chunks[1].lines);
    assert_eq!(3..5, chunks[2].lines);
    assert_eq!("c\nd\n", chunks[2].docs);
}

#[test]
fn chunk_strips_carriage_returns() {
    let chunks = chunk("/// a\r\n/// b\r\n");
    assert_eq!(1, chunks.len());
    assert_eq!(1..3, chunks[0].lines);
    assert_eq!("a\nb\n", chunks[0].docs);
}
