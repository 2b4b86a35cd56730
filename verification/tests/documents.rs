use srt_adjust::doc::{parse_document, Position, SubData, Subtitle};
use srt_adjust::error::SubError;
use srt_adjust::time::TimeSpan;

fn lines_of(text: &str) -> Vec<String> {
    let mut lines: Vec<String> = Vec::new();
    let mut cur = String::new();
    for c in text.chars() {
        cur.push(c);
        if c == '\n' {
            lines.push(std::mem::take(&mut cur));
        }
    }
    if !cur.is_empty() {
        lines.push(cur);
    }
    lines
}

#[test]
fn test_format_subtitle() {
    for line_ending in vec!["\n".to_string(), "\r\n".to_string()] {
        let data = SubData {
            subs: vec![
                Subtitle {
                    number: 1,
                    time_span: TimeSpan::new(0, 1000),
                    position: None,
                    lines: vec![format!("l1{}", line_ending), format!("l2{}", line_ending)],
                },
                Subtitle {
                    number: 2,
                    time_span: TimeSpan::new(2000, 3000),
                    position: Some(Position { x1: 1, x2: 2, y1: 3, y2: 4 }),
                    lines: vec![format!("l3{}", line_ending)],
                },
            ],
            line_ending: line_ending.to_owned(),
        };
        assert_eq!(
            data.format(),
            format!(
                "1{line_ending}\
                00:00:00,000 --> 00:00:01,000{line_ending}\
                l1{line_ending}\
                l2{line_ending}\
                {line_ending}\
                2{line_ending}\
                00:00:02,000 --> 00:00:03,000  X1:1 X2:2 Y1:3 Y2:4{line_ending}\
                l3{line_ending}\
                {line_ending}",
                line_ending = line_ending
            )
        );
    }
}

#[test]
fn test_parse_simple_document() {
    let text = "1\n00:00:08,614 --> 00:00:10,373\nHello\n\n2\n00:00:12,000 --> 00:00:13,000\nWorld\n\n";
    let d = parse_document(&lines_of(text)).unwrap();
    assert_eq!(d.line_ending, "\n");
    assert_eq!(d.subs.len(), 2);
    assert_eq!(d.subs[0].number, 1);
    assert_eq!(d.subs[0].time_span, TimeSpan::new(8614, 10373));
    assert!(d.subs[0].position.is_none());
    assert_eq!(d.subs[0].lines, vec!["Hello\n".to_string()]);
    assert_eq!(d.subs[1].number, 2);
    assert_eq!(d.subs[1].time_span, TimeSpan::new(12000, 13000));
}

#[test]
fn test_parse_document_position_line() {
    let text = "1\n00:00:08,614 --> 00:00:10,373  X1:201 X2:516 Y1:397 Y2:423\nHi\n";
    let d = parse_document(&lines_of(text)).unwrap();
    assert_eq!(d.subs.len(), 1);
    assert_eq!(d.subs[0].position, Some(Position { x1: 201, x2: 516, y1: 397, y2: 423 }));
    assert_eq!(d.subs[0].time_span, TimeSpan::new(8614, 10373));
}

#[test]
fn test_parse_document_crlf_and_final_flush() {
    let text = "1\r\n00:00:01,000 --> 00:00:02,000\r\nLine\r\n";
    let d = parse_document(&lines_of(text)).unwrap();
    assert_eq!(d.line_ending, "\r\n");
    assert_eq!(d.subs.len(), 1);
    assert_eq!(d.subs[0].lines, vec!["Line\r\n".to_string()]);
}

#[test]
fn test_parse_document_bad_number() {
    let text = "one\n00:00:01,000 --> 00:00:02,000\nText\n\n";
    match parse_document(&lines_of(text)) {
        Err(SubError::SubtitleParse(line)) => assert_eq!(line, "one\n"),
        other => panic!("expected a record failure, got {:?}", other),
    }
}

#[test]
fn test_parse_document_bad_time_line() {
    let text = "1\nnot a time line\nText\n\n";
    match parse_document(&lines_of(text)) {
        Err(SubError::SubtitleParse(line)) => assert_eq!(line, "not a time line\n"),
        other => panic!("expected a record failure, got {:?}", other),
    }
}

#[test]
fn test_parse_format_round_trip_bytes() {
    let text = "12\n01:02:03,004 --> 01:02:05,006\nFirst line\nSecond line\n\n13\n-00:00:01,500 --> 00:00:02,000  X1:-1 X2:2 Y1:3 Y2:4\n{\\an8}Tagged\n\n";
    let d = parse_document(&lines_of(text)).unwrap();
    assert_eq!(d.format(), text);
    let text2 = text.replace('\n', "\r\n");
    let d2 = parse_document(&lines_of(&text2)).unwrap();
    assert_eq!(d2.format(), text2);
}

#[test]
fn test_parse_empty_document() {
    let d = parse_document(&Vec::new()).unwrap();
    assert_eq!(d.subs.len(), 0);
    assert_eq!(d.line_ending, "\n");
    assert_eq!(d.format(), "");
}
