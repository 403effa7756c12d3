use rustdoc_prettier::agent::{prettier_args, Options};
use rustdoc_prettier::extract::{Characteristics, DocKind};
use rustdoc_prettier::render::postprocess_docs;

fn outer(indent: usize) -> Characteristics {
    Characteristics {
        indent,
        kind: DocKind::Outer,
    }
}

#[test]
fn postprocess_single_space_after_marker() {
    assert_eq!(
        "/// A comment in need of formatting\n",
        postprocess_docs(outer(0), "A comment in need of formatting\n")
    );
}

#[test]
fn postprocess_empty_line_has_no_trailing_space() {
    assert_eq!(
        "    //! one\n    //!\n    //! two\n",
        postprocess_docs(
            Characteristics {
                indent: 4,
                kind: DocKind::Inner
            },
            "one\n\ntwo"
        )
    );
}

#[test]
fn postprocess_empty_output() {
    assert_eq!("", postprocess_docs(outer(2), ""));
}

#[test]
fn postprocess_crlf_output() {
    assert_eq!("/// a\n/// b\n", postprocess_docs(outer(0), "a\r\nb\r\n"));
}

#[test]
fn args_with_width() {
    let mut opts = Options::new();
    opts.max_width = Some(80);
    assert_eq!(
        vec![
            "--parser=markdown".to_string(),
            "--prose-wrap=always".to_string(),
            "--print-width=72".to_string()
        ],
        prettier_args(&opts, outer(4))
    );
}

#[test]
fn args_without_width() {
    let mut opts = Options::new();
    opts.args = vec!["--check".to_string(), "--tab-width=4".to_string()];
    assert_eq!(
        vec![
            "--parser=markdown".to_string(),
            "--check".to_string(),
            "--tab-width=4".to_string()
        ],
        prettier_args(&opts, outer(8))
    );
}

#[test]
fn args_width_saturates_at_zero() {
    let mut opts = Options::new();
    opts.max_width = Some(5);
    let args = prettier_args(&opts, outer(2));
    assert_eq!("--print-width=0", args[2]);
    opts.max_width = Some(1234);
    let args = prettier_args(&opts, outer(0));
    assert_eq!("--print-width=1230", args[2]);
}
