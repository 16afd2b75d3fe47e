use osm_history_animation::aggregate::{aggregate_events, Aggregator, COUNT_CAP};
use osm_history_animation::binning::{frame_number, EPOCH};
use osm_history_animation::colour_ramp::{ColourRamp, RampError};
use osm_history_animation::projection::{canvas_width, latlon_to_pixel_index, ortho_pixel_index, BBox};

const DEG: i32 = 10_000_000;

fn square_box() -> BBox {
    BBox { left: -10 * DEG, bottom: -10 * DEG, right: 10 * DEG, top: 10 * DEG }
}

#[test]
fn ramp_with_one_step_gives_palette_and_indices() {
    let ramp = ColourRamp::new_from_text("0,0,0\n10,255,0,0\n").unwrap();
    assert_eq!(ramp.empty_colour, (0, 0, 0));
    assert_eq!(ramp.steps, vec![(10, (255, 0, 0))]);
    assert_eq!(ramp.palette(), vec![0, 0, 0, 255, 0, 0]);
    assert_eq!(ramp.index_for_magnitude(None), 0);
    assert_eq!(ramp.index_for_magnitude(Some(100)), 155);
    assert_eq!(ramp.index_for_magnitude(Some(0)), 255);
    assert_eq!(ramp.index_for_magnitude(Some(255)), 0);
    assert_eq!(ramp.index_for_magnitude(Some(256)), 2);
    assert_eq!(ramp.index_for_magnitude(Some(u32::MAX)), 2);
    assert_eq!(ramp.high_magnitude_index(), 2);
    assert_eq!(ramp.animation_palette(), vec![0, 0, 0, 255, 0, 0, 255, 255, 255]);
}

#[test]
fn ramp_reads_steps_in_order_and_skips_non_numbers() {
    let ramp = ColourRamp::new_from_text("1, x,2,3\r\n5,10,20,30\r\n7,+40,50,300,9").unwrap();
    assert_eq!(ramp.empty_colour, (1, 2, 3));
    assert_eq!(ramp.steps, vec![(5, (10, 20, 30)), (7, (40, 50, 44))]);
    assert_eq!(ramp.palette(), vec![1, 2, 3, 10, 20, 30, 40, 50, 44]);
}

#[test]
fn ramp_errors() {
    assert_eq!(ColourRamp::new_from_text("").err(), Some(RampError::MissingEmptyColour));
    assert_eq!(ColourRamp::new_from_text("0,0,256\n").err(), Some(RampError::MissingEmptyColour));
    assert_eq!(ColourRamp::new_from_text("0,0,0\n1,2,3,4\n1,2,3\n").err(), Some(RampError::ShortStep(1)));
    let mut text = String::from("0,0,0\n");
    for i in 0..254 {
        text.push_str(&format!("{},1,2,3\n", i));
    }
    assert_eq!(ColourRamp::new_from_text(&text).unwrap().steps.len(), 254);
    assert_eq!(ColourRamp::new_from_text(&text).unwrap().palette().len(), 255 * 3);
    assert_eq!(ColourRamp::new_from_text(&text).unwrap().animation_palette().len(), 256 * 3);
    assert_eq!(ColourRamp::new_from_text(&text).unwrap().index_for_magnitude(Some(300)), 255);
    text.push_str("999,1,2,3\n");
    assert_eq!(ColourRamp::new_from_text(&text).err(), Some(RampError::TooManySteps));
}

#[test]
fn frame_numbers_count_from_the_epoch() {
    assert_eq!(frame_number(EPOCH, 60), 0);
    assert_eq!(frame_number(EPOCH + 59, 60), 0);
    assert_eq!(frame_number(EPOCH + 60, 60), 1);
    assert_eq!(frame_number(EPOCH + 86_400 * 3 + 5, 86_400), 3);
    let mut last = 0;
    for t in (EPOCH..EPOCH + 1000).step_by(7) {
        let f = frame_number(t, 13);
        assert!(f >= last);
        last = f;
    }
}

#[test]
fn equirect_point_inside_square_box() {
    assert_eq!(latlon_to_pixel_index(5 * DEG, 5 * DEG, 20, 20, &square_box()), Some(115));
    assert_eq!(latlon_to_pixel_index(0, 0, 20, 20, &square_box()), Some(210));
    assert_eq!(latlon_to_pixel_index(10 * DEG - 1, -10 * DEG + 1, 20, 20, &square_box()), Some(0));
    assert_eq!(latlon_to_pixel_index(-10 * DEG + 1, 10 * DEG - 1, 20, 20, &square_box()), Some(399));
}

#[test]
fn equirect_edges_are_outside() {
    let b = square_box();
    assert_eq!(latlon_to_pixel_index(10 * DEG, 0, 20, 20, &b), None);
    assert_eq!(latlon_to_pixel_index(-10 * DEG, 0, 20, 20, &b), None);
    assert_eq!(latlon_to_pixel_index(0, 10 * DEG, 20, 20, &b), None);
    assert_eq!(latlon_to_pixel_index(0, -10 * DEG, 20, 20, &b), None);
    assert_eq!(latlon_to_pixel_index(11 * DEG, 0, 20, 20, &b), None);
}

#[test]
fn canvas_width_follows_box_aspect() {
    let world = BBox { left: -180 * DEG, bottom: -90 * DEG, right: 180 * DEG, top: 90 * DEG };
    assert_eq!(canvas_width(500, &world), Some(1000));
    assert_eq!(canvas_width(20, &square_box()), Some(20));
    let flat = BBox { left: 0, bottom: 0, right: DEG, top: 0 };
    assert_eq!(canvas_width(20, &flat), None);
    let wide = BBox { left: -180 * DEG, bottom: 0, right: 180 * DEG, top: DEG };
    assert_eq!(canvas_width(u32::MAX, &wide), None);
    assert_eq!(canvas_width(3, &wide), Some(1080));
}

#[test]
fn ortho_index_is_row_major() {
    assert_eq!(ortho_pixel_index(Some((3, 2)), 10), Some(23));
    assert_eq!(ortho_pixel_index(None, 10), None);
    assert_eq!(ortho_pixel_index(Some((u32::MAX, u32::MAX)), u32::MAX), None);
}

#[test]
fn counts_saturate_at_the_cap() {
    let mut agg = Aggregator::new();
    for _ in 0..70_000 {
        agg.record(4, Some(9));
    }
    let frames = agg.finalize();
    assert_eq!(frames, vec![(0, vec![(9, COUNT_CAP)])]);
    assert_eq!(COUNT_CAP, 65535);
}

#[test]
fn frames_are_dense_and_renumbered() {
    let mut agg = Aggregator::new();
    agg.record(7, Some(1));
    agg.record(3, Some(2));
    agg.record(7, Some(1));
    agg.record(7, Some(5));
    agg.record(9, None);
    assert_eq!(agg.first_last(), Some((3, 9)));
    let frames = agg.finalize();
    assert_eq!(frames.len(), 7);
    for (i, f) in frames.iter().enumerate() {
        assert_eq!(f.0 as usize, i);
    }
    assert_eq!(frames[0].1, vec![(2, 1)]);
    let mut f4 = frames[4].1.clone();
    f4.sort();
    assert_eq!(f4, vec![(1, 2), (5, 1)]);
    for i in [1, 2, 3, 5, 6] {
        assert!(frames[i].1.is_empty());
    }
}

#[test]
fn no_events_give_no_frames() {
    let agg = Aggregator::new();
    assert_eq!(agg.first_last(), None);
    assert!(agg.finalize().is_empty());
}

#[test]
fn event_stream_is_binned_and_made_dense() {
    let events = vec![
        (EPOCH + 125, Some(4)),
        (EPOCH + 10, Some(2)),
        (EPOCH + 130, Some(4)),
        (EPOCH + 250, None),
        (EPOCH + 61, Some(2)),
    ];
    let frames = aggregate_events(&events, 60);
    assert_eq!(frames, vec![(0, vec![(2, 1)]), (1, vec![(2, 1)]), (2, vec![(4, 2)]), (3, vec![]), (4, vec![])]);
}

#[test]
fn event_stream_saturates_at_the_cap() {
    let events = vec![(EPOCH + 3600, Some(7)); 70_000];
    assert_eq!(aggregate_events(&events, 3600), vec![(0, vec![(7, 65535)])]);
    assert!(aggregate_events(&Vec::new(), 3600).is_empty());
}
