use graphik::get_center;
use graphik::graphik_circle::GraphikCircle;
use graphik::graphik_rect::GraphikRect;
use graphik::GraphikBuffer;
use graphik::GraphikBuilder;

#[test]
fn new_buffer_is_zeroed() {
    let buffer = GraphikBuffer::new(3, 2);
    assert_eq!(buffer.width, 3);
    assert_eq!(buffer.height, 2);
    assert_eq!(buffer.buffer.len(), 6);
    for pixel in buffer.buffer.iter() {
        assert_eq!(*pixel, 0);
    }
}

#[test]
fn fill_overwrites_every_pixel() {
    let mut builder = GraphikBuilder::new(3, 3);
    builder.fill(0xff202020);
    for pixel in builder.buffer.buffer.iter() {
        assert_eq!(*pixel, 0xff202020);
    }
    builder.fill(5);
    for pixel in builder.buffer.buffer.iter() {
        assert_eq!(*pixel, 5);
    }
}

#[test]
fn rect_fill_sets_exact_footprint() {
    let mut builder = GraphikBuilder::new(4, 4);
    builder.fill(0x00000000);
    let mut rect = GraphikRect::new(2, 2).origin(1, 1).color(0xAABBCCDD);
    builder.rect_fill(&mut rect);
    let mut set_count = 0;
    for y in 0..4usize {
        for x in 0..4usize {
            let pixel = builder.buffer.buffer[y * 4 + x];
            let inside = (1..3).contains(&x) && (1..3).contains(&y);
            if inside {
                assert_eq!(pixel, 0xAABBCCDD);
                set_count += 1;
            } else {
                assert_eq!(pixel, 0x00000000);
            }
        }
    }
    assert_eq!(set_count, 4);
}

#[test]
fn rect_fill_clips_out_of_bounds() {
    let mut builder = GraphikBuilder::new(3, 3);
    builder.fill(0);
    let mut rect = GraphikRect::new(5, 5).origin(-1, -1).color(2);
    builder.rect_fill(&mut rect);
    for pixel in builder.buffer.buffer.iter() {
        assert_eq!(*pixel, 2);
    }
}

#[test]
fn rect_fill_centered_origin_is_floor_division() {
    let mut builder = GraphikBuilder::new(800, 600);
    let mut rect = GraphikRect::new(300, 200).center(true).color(1);
    builder.rect_fill(&mut rect);
    assert_eq!(rect.x0, 250);
    assert_eq!(rect.y0, 200);
    assert_eq!(get_center(800, 300), 250);
    assert_eq!(get_center(600, 200), 200);
}

#[test]
fn get_center_saturates_when_object_larger() {
    assert_eq!(get_center(100, 300), 0);
    assert_eq!(get_center(100, 100), 0);
    assert_eq!(get_center(7, 2), 2);
}

#[test]
fn circle_fill_matches_distance_test_everywhere() {
    let mut builder = GraphikBuilder::new(7, 7);
    builder.fill(0);
    let mut circle = GraphikCircle::new(2).origin(3, 3).color(1);
    builder.circle_fill(&mut circle);
    for y in 0..7i32 {
        for x in 0..7i32 {
            let dx = x - 3;
            let dy = y - 3;
            let inside = dx * dx + dy * dy <= 4;
            let pixel = builder.buffer.buffer[(y as usize) * 7 + x as usize];
            assert_eq!(pixel, if inside { 1 } else { 0 }, "pixel ({}, {})", x, y);
        }
    }
}

#[test]
fn circle_radius_zero_sets_only_center() {
    let mut builder = GraphikBuilder::new(5, 5);
    builder.fill(0);
    let mut circle = GraphikCircle::new(0).origin(2, 3).color(8);
    builder.circle_fill(&mut circle);
    let mut set_count = 0;
    for y in 0..5usize {
        for x in 0..5usize {
            let pixel = builder.buffer.buffer[y * 5 + x];
            if pixel == 8 {
                set_count += 1;
                assert_eq!((x, y), (2, 3));
            } else {
                assert_eq!(pixel, 0);
            }
        }
    }
    assert_eq!(set_count, 1);
}

#[test]
fn circle_fill_centered_uses_buffer_midpoint() {
    let mut builder = GraphikBuilder::new(9, 5);
    builder.fill(0);
    let mut circle = GraphikCircle::new(1).center(true).color(3);
    builder.circle_fill(&mut circle);
    assert_eq!(circle.x0, 4);
    assert_eq!(circle.y0, 2);
    assert_eq!(builder.buffer.buffer[2 * 9 + 4], 3);
}
