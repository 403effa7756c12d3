use rustdoc_prettier::pipeline::{FilePipeline, FormatError, Step};

/// Runs every chunk of `contents` through `agent`, as a driver would.
fn run(contents: &str, agent: impl Fn(&str) -> (bool, Option<i32>, Vec<u8>)) -> Result<String, FormatError> {
    let mut pipeline = FilePipeline::new(contents);
    loop {
        match pipeline.poll(false) {
            Step::Format(i) => {
                let docs = pipeline.chunks()[i].docs.clone();
                let (success, code, stdout) = agent(&docs);
                pipeline.accept_output(success, code, stdout)?;
            }
            Step::Interrupted => return Err(FormatError::Interrupted),
            Step::Done => return Ok(pipeline.finish()),
        }
    }
}

fn trim_agent(docs: &str) -> (bool, Option<i32>, Vec<u8>) {
    let out: String = docs.lines().map(|l| format!("{}\n", l.trim())).collect();
    (true, Some(0), out.into_bytes())
}

fn echo_agent(docs: &str) -> (bool, Option<i32>, Vec<u8>) {
    (true, Some(0), docs.as_bytes().to_vec())
}

#[test]
fn scenario_reflowed_comment_gets_one_space() {
    let out = run("///  A comment in need of formatting", trim_agent).unwrap();
    assert_eq!("/// A comment in need of formatting\n", out);
}

#[test]
fn no_markers_leaves_text_unchanged() {
    let text = "fn main() {\n    println!(\"hi\");\n}\n";
    let pipeline = FilePipeline::new(text);
    assert!(pipeline.chunks().is_empty());
    assert_eq!(Step::Done, pipeline.poll(false));
    assert_eq!(text, pipeline.finish());
}

#[test]
fn failing_agent_reports_line_range() {
    let mut pipeline = FilePipeline::new("///  A comment in need of formatting");
    assert_eq!(Step::Format(0), pipeline.poll(false));
    assert_eq!(
        Err(FormatError::AgentFailure {
            start: 1,
            end: 2,
            code: Some(1)
        }),
        pipeline.accept_output(false, Some(1), Vec::new())
    );
    assert_eq!(Step::Format(0), pipeline.poll(false));
}

#[test]
fn malformed_output_is_refused() {
    let mut pipeline = FilePipeline::new("x\n/// a\n/// b\n");
    assert_eq!(
        Err(FormatError::MalformedOutput { start: 2, end: 4 }),
        pipeline.accept_output(true, Some(0), vec![0xff, 0xfe])
    );
}

#[test]
fn cancellation_stops_before_next_chunk() {
    let pipeline = FilePipeline::new("/// a\n");
    assert_eq!(Step::Interrupted, pipeline.poll(true));
    let done = FilePipeline::new("no docs\n");
    assert_eq!(Step::Done, done.poll(true));
}

#[test]
fn outputs_land_at_their_chunks_in_order() {
    let text = "//! top\nuse x;\n\n    /// first\n    /// item\nfn a() {}\n/// last";
    let mut pipeline = FilePipeline::new(text);
    assert_eq!(3, pipeline.chunks().len());
    let outputs = ["TOP\n", "FIRST ITEM\n", "LAST\n"];
    for (i, out) in outputs.iter().enumerate() {
        assert_eq!(Step::Format(i), pipeline.poll(false));
        pipeline.accept_output(true, Some(0), out.as_bytes().to_vec()).unwrap();
    }
    assert_eq!(Step::Done, pipeline.poll(false));
    assert_eq!(
        "//! TOP\nuse x;\n\n    /// FIRST ITEM\nfn a() {}\n/// LAST\n",
        pipeline.finish()
    );
}

#[test]
fn untouched_text_survives_exactly() {
    let text = "a\r\n/// é doc\r\nb  \n\n/// tail\nc";
    let out = run(text, echo_agent).unwrap();
    assert_eq!("a\r\n/// é doc\nb  \n\n/// tail\nc", out);
}

#[test]
fn rerun_on_own_output_is_identical() {
    let text = "//!   Crate  docs\n///\tx\n  /// y\n";
    let once = run(text, trim_agent).unwrap();
    let twice = run(&once, trim_agent).unwrap();
    assert_eq!(once, twice);
}

#[test]
fn empty_agent_output_removes_lines() {
    let out = run("a\n/// gone\nb\n", |_| (true, Some(0), Vec::new())).unwrap();
    assert_eq!("a\nb\n", out);
}

#[test]
fn adjacent_chunks_with_no_gap() {
    let text = "//! a\n/// b\n    /// c\n";
    let mut pipeline = FilePipeline::new(text);
    assert_eq!(3, pipeline.chunks().len());
    for out in ["A", "B1\nB2", ""] {
        pipeline.accept_output(true, Some(0), out.as_bytes().to_vec()).unwrap();
    }
    assert_eq!(Step::Done, pipeline.poll(true));
    assert_eq!("//! A\n/// B1\n/// B2\n", pipeline.finish());
}

#[test]
fn agent_killed_by_signal_has_no_code() {
    let mut pipeline = FilePipeline::new("x\n\n/// a\n");
    assert_eq!(
        Err(FormatError::AgentFailure {
            start: 3,
            end: 4,
            code: None
        }),
        pipeline.accept_output(false, None, b"partial".to_vec())
    );
}
