use osm_history_animation::aggregate::{Aggregator, FrameRecord};
use osm_history_animation::intermediate::{
    metadata_value, read_frames, read_metadata, write_frames, write_header, write_metadata,
};
use osm_history_animation::projection::ProjectionKind;

fn sample() -> Vec<FrameRecord> {
    vec![(0, vec![(115, 3), (7, 65535)]), (1, vec![]), (2, vec![(0, 1)])]
}

#[test]
fn body_lines_are_written_one_per_frame() {
    let mut out = Vec::new();
    write_frames(&mut out, &sample());
    assert_eq!(String::from_utf8(out).unwrap(), "0,115,3,7,65535\n1\n2,0,1\n");
}

#[test]
fn written_frames_read_back() {
    let mut out = b"metadata version 0.1.0\nmetadata height 20\n\n".to_vec();
    write_frames(&mut out, &sample());
    assert_eq!(read_frames(&out), Ok(sample()));
}

#[test]
fn aggregate_round_trips_through_text() {
    let mut agg = Aggregator::new();
    for (f, p) in [(10, 4), (10, 4), (12, 9), (10, 1), (13, 0)] {
        agg.record(f, Some(p));
    }
    let frames = agg.finalize();
    let mut out = Vec::new();
    write_frames(&mut out, &frames);
    assert_eq!(read_frames(&out).unwrap(), frames);
}

#[test]
fn empty_sequence_round_trips() {
    let mut out = Vec::new();
    write_frames(&mut out, &Vec::new());
    assert!(out.is_empty());
    assert_eq!(read_frames(&out), Ok(Vec::new()));
}

#[test]
fn malformed_frame_lines_are_reported() {
    assert_eq!(read_frames(b"metadata a b\n\n0,1,2\n1,5\n"), Err(3));
    assert_eq!(read_frames(b"0,1,70000\n"), Err(0));
    assert_eq!(read_frames(b"0\nx\n"), Err(1));
    assert_eq!(read_frames(b"0,1,2\r\n1\r\n"), Ok(vec![(0, vec![(1, 2)]), (1, vec![])]));
}

#[test]
fn metadata_pairs_are_read_until_the_blank_line() {
    let text = b"metadata height 20\nmetadata bbox -10,-10,10,10\nmetadata projection ortho\n\n0,1,1\n";
    let pairs = read_metadata(text).unwrap();
    assert_eq!(
        pairs,
        vec![
            (b"height".to_vec(), b"20".to_vec()),
            (b"bbox".to_vec(), b"-10,-10,10,10".to_vec()),
            (b"projection".to_vec(), b"ortho".to_vec()),
        ]
    );
    assert_eq!(read_metadata(b"metadata height\n\n"), Err(0));
}

#[test]
fn header_lines_end_with_a_blank_line() {
    let pairs = vec![
        (b"height".to_vec(), b"20".to_vec()),
        (b"projection".to_vec(), b"equirect".to_vec()),
    ];
    let mut out = Vec::new();
    write_metadata(&mut out, &pairs);
    assert_eq!(String::from_utf8(out.clone()).unwrap(), "metadata height 20\nmetadata projection equirect\n\n");
    write_frames(&mut out, &sample());
    assert_eq!(read_metadata(&out), Ok(pairs));
    assert_eq!(read_frames(&out), Ok(sample()));
}

#[test]
fn empty_header_and_body_round_trip() {
    let mut out = Vec::new();
    write_metadata(&mut out, &Vec::new());
    write_frames(&mut out, &Vec::new());
    assert_eq!(out, b"\n".to_vec());
    assert_eq!(read_metadata(&out), Ok(Vec::new()));
    assert_eq!(read_frames(&out), Ok(Vec::new()));
}

#[test]
fn header_of_a_configuration_is_fixed() {
    let mut out = Vec::new();
    write_header(
        &mut out,
        &b"0.1.0".to_vec(),
        10,
        20,
        60,
        &b"-180,-90,180,90".to_vec(),
        &b"0,0".to_vec(),
        ProjectionKind::Equirect,
    );
    write_frames(&mut out, &vec![(0, vec![(3, 7), (9, 1)]), (1, vec![])]);
    assert_eq!(
        String::from_utf8(out.clone()).unwrap(),
        "metadata version 0.1.0\nmetadata height 10\nmetadata width 20\nmetadata sec_per_frame 60\n\
         metadata bbox -180,-90,180,90\nmetadata centre 0,0\nmetadata projection equirect\n\n0,3,7,9,1\n1\n"
    );
    let pairs = read_metadata(&out).unwrap();
    assert_eq!(metadata_value(&pairs, &b"height".to_vec()), Some(b"10".to_vec()));
    assert_eq!(metadata_value(&pairs, &b"projection".to_vec()), Some(b"equirect".to_vec()));
    assert_eq!(read_frames(&out), Ok(vec![(0, vec![(3, 7), (9, 1)]), (1, vec![])]));
}

#[test]
fn ortho_header_names_the_projection() {
    let mut out = Vec::new();
    write_header(&mut out, &b"1".to_vec(), 5, 5, 1, &b"a".to_vec(), &b"b".to_vec(), ProjectionKind::Ortho);
    assert!(String::from_utf8(out).unwrap().ends_with("metadata projection ortho\n\n"));
}

#[test]
fn later_metadata_lines_override_earlier_ones() {
    let pairs = read_metadata(b"metadata height 10\nmetadata width 3\nmetadata height 12\n\n").unwrap();
    assert_eq!(metadata_value(&pairs, &b"height".to_vec()), Some(b"12".to_vec()));
    assert_eq!(metadata_value(&pairs, &b"width".to_vec()), Some(b"3".to_vec()));
    assert_eq!(metadata_value(&pairs, &b"bbox".to_vec()), None);
}
