use graphik::graphik_line::GraphikLine;
use graphik::GraphikBuilder;

fn set_pixels(builder: &GraphikBuilder, color: u32) -> Vec<(usize, usize)> {
    let w = builder.buffer.width;
    let h = builder.buffer.height;
    let mut out = Vec::new();
    for y in 0..h {
        for x in 0..w {
            if builder.buffer.buffer[y * w + x] == color {
                out.push((x, y));
            }
        }
    }
    out
}

#[test]
fn horizontal_line_is_exactly_the_segment() {
    let mut builder = GraphikBuilder::new(5, 5);
    builder.fill(0);
    let mut line = GraphikLine::new().horizontal(2, 0, 4).color(7);
    builder.line_draw(&mut line);
    assert_eq!(
        set_pixels(&builder, 7),
        vec![(0, 2), (1, 2), (2, 2), (3, 2), (4, 2)]
    );
}

#[test]
fn vertical_line_is_exactly_the_segment() {
    let mut builder = GraphikBuilder::new(5, 5);
    builder.fill(0);
    let mut line = GraphikLine::new().vertical(1, 3, 0).color(7);
    builder.line_draw(&mut line);
    assert_eq!(set_pixels(&builder, 7), vec![(1, 0), (1, 1), (1, 2), (1, 3)]);
}

#[test]
fn diagonal_line_plots_both_endpoints() {
    let mut builder = GraphikBuilder::new(5, 5);
    builder.fill(0);
    let mut line = GraphikLine::new().start(0, 0).end(4, 4).color(7);
    builder.line_draw(&mut line);
    let pixels = set_pixels(&builder, 7);
    assert!(pixels.contains(&(0, 0)));
    assert!(pixels.contains(&(4, 4)));
    assert_eq!(pixels, vec![(0, 0), (1, 1), (2, 2), (3, 3), (4, 4)]);
}

#[test]
fn degenerate_line_plots_single_point() {
    let mut builder = GraphikBuilder::new(5, 5);
    builder.fill(0);
    let mut line = GraphikLine::new().start(2, 3).end(2, 3).color(7);
    builder.line_draw(&mut line);
    assert_eq!(set_pixels(&builder, 7), vec![(2, 3)]);
}

#[test]
fn line_is_connected_eight_path() {
    let mut builder = GraphikBuilder::new(10, 10);
    builder.fill(0);
    let mut line = GraphikLine::new().start(0, 0).end(9, 4).color(7);
    builder.line_draw(&mut line);
    let pixels = set_pixels(&builder, 7);
    assert!(pixels.contains(&(0, 0)));
    assert!(pixels.contains(&(9, 4)));
    // Every plotted pixel except the start has an 8-neighbor among the rest.
    for &(x, y) in pixels.iter() {
        if (x, y) == (0, 0) {
            continue;
        }
        let neighbor = pixels.iter().any(|&(nx, ny)| {
            (nx, ny) != (x, y)
                && nx.abs_diff(x) <= 1
                && ny.abs_diff(y) <= 1
        });
        assert!(neighbor, "pixel ({}, {}) is isolated", x, y);
    }
}

#[test]
fn horizontal_center_uses_buffer_midpoint_row() {
    let mut builder = GraphikBuilder::new(5, 5);
    builder.fill(0);
    let mut line = GraphikLine::new().horizontal_center(0, 4).color(7);
    builder.line_draw(&mut line);
    assert_eq!(line.y0, 2);
    assert_eq!(line.y1, 2);
    assert!(!line.center);
    assert_eq!(
        set_pixels(&builder, 7),
        vec![(0, 2), (1, 2), (2, 2), (3, 2), (4, 2)]
    );
}

#[test]
fn vertical_center_uses_buffer_midpoint_column() {
    let mut builder = GraphikBuilder::new(5, 5);
    builder.fill(0);
    let mut line = GraphikLine::new().vertical_center(0, 4).color(7);
    builder.line_draw(&mut line);
    assert_eq!(line.x0, 2);
    assert_eq!(line.x1, 2);
    assert!(!line.center);
    assert_eq!(
        set_pixels(&builder, 7),
        vec![(2, 0), (2, 1), (2, 2), (2, 3), (2, 4)]
    );
}

#[test]
fn line_builders_clear_opposing_flags() {
    let mut line = GraphikLine::new();
    line.vertical_center(0, 4);
    assert!(line.vertical && !line.horizontal && line.center);
    line.horizontal(1, 0, 4);
    assert!(line.horizontal && !line.vertical && !line.center);
    line.vertical(1, 0, 4);
    assert!(line.vertical && !line.horizontal && !line.center);
    line.horizontal_center(0, 4);
    assert!(line.horizontal && !line.vertical && line.center);
}

#[test]
fn line_new_defaults_span_canvas() {
    let line = GraphikLine::new();
    assert_eq!((line.x0, line.y0), (0, 0));
    assert_eq!((line.x1, line.y1), (800, 600));
    assert_eq!(line.color, 0);
    assert!(!line.horizontal && !line.vertical && !line.center);
}

#[test]
fn line_draw_clips_out_of_bounds_points() {
    let mut builder = GraphikBuilder::new(3, 3);
    builder.fill(0);
    let mut line = GraphikLine::new().horizontal(1, -2, 5).color(7);
    builder.line_draw(&mut line);
    assert_eq!(set_pixels(&builder, 7), vec![(0, 1), (1, 1), (2, 1)]);
}
