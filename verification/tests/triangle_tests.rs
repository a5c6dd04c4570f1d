use graphik::graphik_triangle::GraphikTriangle;
use graphik::GraphikBuilder;

#[test]
fn sort_1() {
    let triangle = GraphikTriangle::new()
        .first(69, 1)
        .second(690, 2)
        .third(6900, 3);
    let triangle2 = triangle.clone().sort();
    assert_eq!(triangle, triangle2);
    assert_eq!(triangle.y1, triangle2.y1);
    assert_eq!(triangle.y2, triangle2.y2);
    assert_eq!(triangle.y3, triangle2.y3);
}

#[test]
fn sort_2() {
    let triangle = GraphikTriangle::new()
        .first(69, 2)
        .second(690, 1)
        .third(6900, 3);
    let triangle2 = triangle.clone().sort();
    assert_ne!(triangle, triangle2);
    assert_ne!(triangle.y1, triangle2.y1);
    assert_ne!(triangle.y2, triangle2.y2);
    assert_eq!(triangle.y3, triangle2.y3);
    assert_eq!(1, triangle2.y1);
    assert_eq!(2, triangle2.y2);
}

#[test]
fn sort_3() {
    let triangle = GraphikTriangle::new()
        .first(69, 3)
        .second(690, 1)
        .third(6900, 2);
    let triangle2 = triangle.clone().sort();
    assert_ne!(triangle, triangle2);
    assert_ne!(triangle.y1, triangle2.y1);
    assert_ne!(triangle.y2, triangle2.y2);
    assert_ne!(triangle.y3, triangle2.y3);
    assert_eq!(1, triangle2.y1);
    assert_eq!(2, triangle2.y2);
    assert_eq!(3, triangle2.y3);
}

#[test]
fn sort_keeps_x_paired_with_y() {
    let triangle = GraphikTriangle::new()
        .first(10, 3)
        .second(20, 1)
        .third(30, 2);
    let sorted = triangle.clone().sort();
    assert_eq!((sorted.x1, sorted.y1), (20, 1));
    assert_eq!((sorted.x2, sorted.y2), (30, 2));
    assert_eq!((sorted.x3, sorted.y3), (10, 3));
    assert_eq!(sorted.color, triangle.color);
}

#[test]
fn sort_is_idempotent_on_values() {
    let triangle = GraphikTriangle::new()
        .first(5, 9)
        .second(6, -4)
        .third(7, 0);
    let once = triangle.clone().sort();
    let twice = once.clone().sort();
    assert_eq!(once, twice);
}

#[test]
fn triangle_fill_right_triangle() {
    let mut builder = GraphikBuilder::new(4, 4);
    builder.fill(0);
    let mut tri = GraphikTriangle::new()
        .first(0, 0)
        .second(0, 2)
        .third(2, 2)
        .color(9);
    builder.triangle_fill(&mut tri);
    // Scanline 0 covers only the apex; each lower scanline widens by one.
    let mut expected = [[0u32; 4]; 4];
    expected[0][0] = 9;
    expected[1][0] = 9;
    expected[1][1] = 9;
    expected[2][0] = 9;
    expected[2][1] = 9;
    expected[2][2] = 9;
    for y in 0..4usize {
        for x in 0..4usize {
            assert_eq!(builder.buffer.buffer[y * 4 + x], expected[y][x]);
        }
    }
}

#[test]
fn triangle_fill_sorts_descriptor() {
    let mut builder = GraphikBuilder::new(4, 4);
    let mut tri = GraphikTriangle::new()
        .first(2, 2)
        .second(0, 0)
        .third(0, 2)
        .color(9);
    builder.triangle_fill(&mut tri);
    assert!(tri.y1 <= tri.y2 && tri.y2 <= tri.y3);
    assert_eq!((tri.x1, tri.y1), (0, 0));
}

#[test]
fn triangle_builders_set_named_fields_only() {
    let t = GraphikTriangle::new();
    assert_eq!((t.x1, t.y1, t.x2, t.y2, t.x3, t.y3), (0, 0, 0, 0, 0, 0));
    assert_eq!(t.color, 0xff202020);
    let t2 = t.clone().color(7);
    assert_eq!(t2.color, 7);
    assert_eq!((t2.x1, t2.y1), (0, 0));
}
