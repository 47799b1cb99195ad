use advent::plot::Plot;
use advent::video::Video;

#[test]
fn plot_starts_white() {
    let p = Plot::new(3, 2);
    assert_eq!(p.serialize(1), vec![255u8; 24]);
    assert_eq!(Plot::new(0, 5).serialize(3), Vec::<u8>::new());
    assert_eq!(Plot::new(5, 0).serialize(3), Vec::<u8>::new());
    assert_eq!(p.serialize(0), Vec::<u8>::new());
    assert_eq!(p.scaled_width(4), 12);
    assert_eq!(p.scaled_height(4), 8);
}

#[test]
fn plot_draw_sets_one_pixel() {
    let mut p = Plot::new(2, 2);
    p.draw(1, 0, (1, 2, 3));
    p.draw(0, 1, (4, 5, 6));
    assert_eq!(
        p.serialize(1),
        vec![255, 255, 255, 255, 1, 2, 3, 255, 4, 5, 6, 255, 255, 255, 255, 255]
    );
    p.draw(1, 0, (9, 9, 9));
    assert_eq!(
        p.serialize(1),
        vec![255, 255, 255, 255, 9, 9, 9, 255, 4, 5, 6, 255, 255, 255, 255, 255]
    );
}

#[test]
fn plot_serialize_scales_pixels_to_squares() {
    let mut p = Plot::new(2, 1);
    p.draw(0, 0, (10, 20, 30));
    p.draw(1, 0, (40, 50, 60));
    let a = [10u8, 20, 30, 255];
    let b = [40u8, 50, 60, 255];
    let mut row = vec![];
    row.extend_from_slice(&a);
    row.extend_from_slice(&a);
    row.extend_from_slice(&b);
    row.extend_from_slice(&b);
    let mut expected = row.clone();
    expected.extend_from_slice(&row);
    assert_eq!(p.serialize(2), expected);
    let data = p.serialize(3);
    assert_eq!(data.len(), 4 * 6 * 3);
    for y in 0..3 {
        for x in 0..6 {
            let at = 4 * (y * 6 + x);
            let want = if x < 3 { a } else { b };
            assert_eq!(&data[at..at + 4], &want);
        }
    }
}

#[test]
fn video_names_and_counts_frames() {
    let mut v = Video::new(4);
    for c in 0..8 {
        let mut p = Plot::new(16, 16);
        for x in 0..c {
            p.draw(x, 5, (255, 0, 0));
        }
        let frame = v.add_frame(&p);
        assert_eq!(frame.file_name, format!("frame_{:0>4}.png", c));
        assert_eq!(frame.pixel_data, p.serialize(4));
        assert_eq!(frame.pixel_data.len(), 4 * 64 * 64);
    }
    let frame = v.add_frame(&Plot::new(1, 1));
    assert_eq!(frame.file_name, "frame_0008.png");
    assert_eq!(frame.pixel_data, vec![255u8; 64]);
}

#[test]
fn video_frame_names_grow_past_four_digits() {
    let mut v = Video::new(1);
    let p = Plot::new(1, 1);
    let mut last = String::new();
    for _ in 0..10001 {
        last = v.add_frame(&p).file_name;
    }
    assert_eq!(last, "frame_10000.png");
}
