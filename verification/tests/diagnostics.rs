use cargotom::analyze::{file_warnings, Analysis, Finding, Level};
use cargotom::tree::RangeExclusive;

fn finding(start: u32, end: u32, msg: &str) -> Finding {
    Finding { range: RangeExclusive { start, end }, msg: msg.to_string() }
}

#[test]
fn warnings_come_before_errors_at_their_lines() {
    let text = "[dependencies]\nserde = \"1\"\nserde = \"2\"\n";
    let analysis = Analysis {
        errors: vec![finding(27, 32, "Duplicate dependency name")],
        warnings: vec![finding(15, 20, "needs update"), finding(500, 501, "past the end")],
        fetch: vec![],
    };
    let ws = file_warnings(text, &analysis);
    assert_eq!(ws.len(), 2);
    assert!(ws[0].level == Level::Warn);
    assert_eq!(ws[0].msg, "needs update");
    assert_eq!(ws[0].start, (1, 0));
    assert_eq!(ws[0].end, (1, 5));
    assert!(ws[1].level == Level::Error);
    assert_eq!(ws[1].start, (2, 0));
    assert_eq!(ws[1].end, (2, 5));
}
