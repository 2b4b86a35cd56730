use srt_adjust::doc::{Position, SubData, Subtitle};
use srt_adjust::engine::{modify, modify_ok_check, placement_overlaps, OptFinal, Scale};
use srt_adjust::error::SubError;
use srt_adjust::time::TimeSpan;

fn plain_options() -> OptFinal {
    OptFinal {
        scale: None,
        scale_pivot: None,
        offset_ms: 0,
        offset_start_ms: i64::MIN,
        renumber_offset: false,
        to_top: Vec::new(),
        to_bottom: Vec::new(),
    }
}

fn one_record(number: i64, span: TimeSpan, position: Option<Position>, line: &str) -> SubData {
    SubData {
        subs: vec![Subtitle { number, time_span: span, position, lines: vec![line.to_string()] }],
        line_ending: "\n".to_string(),
    }
}

#[test]
fn test_offset_then_scale() {
    // the offset is applied first, then the scale on the shifted bounds
    let mut data = one_record(1, TimeSpan::new(8614, 10373), None, "Hello\n");
    let mut opt = plain_options();
    opt.offset_ms = 2000;
    assert!(modify_ok_check(&data, &opt));
    modify(&mut data, &opt).unwrap();
    assert_eq!(data.subs[0].time_span, TimeSpan::new(10614, 12373));

    let mut data = one_record(1, TimeSpan::new(8614, 10373), None, "Hello\n");
    opt.scale = Some(Scale { num: 2, den: 1 });
    opt.scale_pivot = Some(0);
    assert!(modify_ok_check(&data, &opt));
    modify(&mut data, &opt).unwrap();
    assert_eq!(data.subs[0].time_span, TimeSpan::new(21228, 24746));
    assert_eq!(data.subs[0].number, 1);
    assert_eq!(data.subs[0].lines, vec!["Hello\n".to_string()]);
}

#[test]
fn test_scale_truncates_toward_zero() {
    let mut data = SubData {
        subs: vec![
            Subtitle {
                number: 1,
                time_span: TimeSpan::new(5, 7),
                position: None,
                lines: vec!["a\n".to_string()],
            },
            Subtitle {
                number: 2,
                time_span: TimeSpan::new(-7, -5),
                position: None,
                lines: vec!["b\n".to_string()],
            },
        ],
        line_ending: "\n".to_string(),
    };
    let mut opt = plain_options();
    opt.scale = Some(Scale { num: 1, den: 2 });
    assert!(modify_ok_check(&data, &opt));
    modify(&mut data, &opt).unwrap();
    // 5/2 and 7/2 truncate to 2 and 3; -7/2 and -5/2 truncate to -3 and -2
    assert_eq!(data.subs[0].time_span, TimeSpan::new(2, 3));
    assert_eq!(data.subs[1].time_span, TimeSpan::new(-3, -2));
}

#[test]
fn test_scale_pivot_stays_fixed() {
    let mut data = one_record(1, TimeSpan::new(2000, 3000), None, "x\n");
    let mut opt = plain_options();
    opt.scale = Some(Scale { num: 2, den: 1 });
    opt.scale_pivot = Some(1000);
    assert!(modify_ok_check(&data, &opt));
    modify(&mut data, &opt).unwrap();
    assert_eq!(data.subs[0].time_span, TimeSpan::new(3000, 5000));
}

#[test]
fn test_offset_zero_scale_one_is_identity() {
    let mut data = one_record(7, TimeSpan::new(-123, 456), None, "x\n");
    let mut opt = plain_options();
    opt.scale = Some(Scale { num: 1, den: 1 });
    opt.scale_pivot = Some(99);
    assert!(modify_ok_check(&data, &opt));
    modify(&mut data, &opt).unwrap();
    assert_eq!(data.subs[0].time_span, TimeSpan::new(-123, 456));
    assert_eq!(data.subs[0].number, 7);
}

#[test]
fn test_offset_start_limits_adjustment() {
    let mut data = SubData {
        subs: vec![
            Subtitle {
                number: 1,
                time_span: TimeSpan::new(1000, 2000),
                position: None,
                lines: vec!["early\n".to_string()],
            },
            Subtitle {
                number: 2,
                time_span: TimeSpan::new(5000, 6000),
                position: None,
                lines: vec!["late\n".to_string()],
            },
        ],
        line_ending: "\n".to_string(),
    };
    let mut opt = plain_options();
    opt.offset_ms = 100;
    opt.offset_start_ms = 3000;
    assert!(modify_ok_check(&data, &opt));
    modify(&mut data, &opt).unwrap();
    assert_eq!(data.subs[0].time_span, TimeSpan::new(1000, 2000));
    assert_eq!(data.subs[1].time_span, TimeSpan::new(5100, 6100));
}

#[test]
fn test_renumber() {
    let mut data = SubData {
        subs: vec![
            Subtitle {
                number: 12,
                time_span: TimeSpan::new(0, 1),
                position: None,
                lines: vec!["a\n".to_string()],
            },
            Subtitle {
                number: 99,
                time_span: TimeSpan::new(2, 3),
                position: None,
                lines: vec!["b\n".to_string()],
            },
            Subtitle {
                number: 4,
                time_span: TimeSpan::new(4, 5),
                position: None,
                lines: vec!["c\n".to_string()],
            },
        ],
        line_ending: "\n".to_string(),
    };
    let mut opt = plain_options();
    opt.renumber_offset = true;
    assert!(modify_ok_check(&data, &opt));
    modify(&mut data, &opt).unwrap();
    let numbers: Vec<i64> = data.subs.iter().map(|s| s.number).collect();
    assert_eq!(numbers, vec![1, 2, 3]);
}

#[test]
fn test_to_top_inserts_and_replaces_tag() {
    let mut data = SubData {
        subs: vec![
            Subtitle {
                number: 1,
                time_span: TimeSpan::new(1000, 2000),
                position: None,
                lines: vec!["plain\n".to_string()],
            },
            Subtitle {
                number: 2,
                time_span: TimeSpan::new(3000, 4000),
                position: None,
                lines: vec!["{\\an2}tagged\n".to_string()],
            },
        ],
        line_ending: "\n".to_string(),
    };
    let mut opt = plain_options();
    opt.to_top = vec![TimeSpan::new(0, 10000)];
    assert!(modify_ok_check(&data, &opt));
    modify(&mut data, &opt).unwrap();
    assert_eq!(data.subs[0].lines[0], "{\\an8}plain\n");
    assert_eq!(data.subs[1].lines[0], "{\\an8}tagged\n");
    // the placement step leaves the timestamps alone
    assert_eq!(data.subs[0].time_span, TimeSpan::new(1000, 2000));
}

#[test]
fn test_to_bottom_strips_tag_and_position() {
    let mut data = one_record(
        1,
        TimeSpan::new(1000, 2000),
        Some(Position { x1: 1, x2: 2, y1: 3, y2: 4 }),
        "{\\an8}up\n",
    );
    let mut opt = plain_options();
    opt.to_bottom = vec![TimeSpan::new(0, 10000)];
    assert!(modify_ok_check(&data, &opt));
    modify(&mut data, &opt).unwrap();
    assert!(data.subs[0].position.is_none());
    assert_eq!(data.subs[0].lines[0], "up\n");
}

#[test]
fn test_to_top_conflicts_with_hard_position() {
    let mut data = one_record(
        1,
        TimeSpan::new(1000, 2000),
        Some(Position { x1: 1, x2: 2, y1: 3, y2: 4 }),
        "text\n",
    );
    let mut opt = plain_options();
    opt.to_top = vec![TimeSpan::new(0, 10000)];
    assert!(modify_ok_check(&data, &opt));
    match modify(&mut data, &opt) {
        Err(SubError::PositionOverrideConflict(ms)) => assert_eq!(ms, 1000),
        other => panic!("expected a conflict, got {:?}", other),
    }
}

#[test]
fn test_record_outside_top_never_conflicts() {
    // placement decisions use the original start time; a positioned record
    // outside every forced-top interval passes untouched
    let mut data = one_record(
        1,
        TimeSpan::new(20000, 21000),
        Some(Position { x1: 1, x2: 2, y1: 3, y2: 4 }),
        "text\n",
    );
    let mut opt = plain_options();
    opt.to_top = vec![TimeSpan::new(0, 10000)];
    assert!(modify_ok_check(&data, &opt));
    assert!(modify(&mut data, &opt).is_ok());
    assert!(data.subs[0].position.is_some());
}

#[test]
fn test_placement_overlaps() {
    let top = vec![TimeSpan::new(0, 1000)];
    let bottom_clear = vec![TimeSpan::new(2000, 3000)];
    let bottom_touching = vec![TimeSpan::new(500, 1500)];
    assert!(!placement_overlaps(&top, &bottom_clear));
    assert!(placement_overlaps(&top, &bottom_touching));
    assert!(!placement_overlaps(&Vec::new(), &bottom_clear));
}

#[test]
fn test_modify_ok_check_rejects_overflow() {
    let data = one_record(1, TimeSpan::new(i64::MAX - 10, i64::MAX - 5), None, "x\n");
    let mut opt = plain_options();
    opt.offset_ms = 100;
    assert!(!modify_ok_check(&data, &opt));
}
