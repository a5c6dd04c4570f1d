use graphik::constants::Colors;
use graphik::graphik_rect::GraphikRect;
use graphik::GraphikBuilder;

#[test]
fn serialize_header_and_body_shape() {
    let mut builder = GraphikBuilder::new(4, 4);
    builder.fill(0);
    let bytes = builder.serialize();
    assert_eq!(&bytes[0..11], b"P6\n4 4 255\n");
    assert_eq!(bytes.len(), 11 + 4 * 4 * 3);
}

#[test]
fn serialize_multi_digit_dimensions() {
    let builder = GraphikBuilder::new(800, 600);
    let bytes = builder.serialize();
    let header = b"P6\n800 600 255\n";
    assert_eq!(&bytes[0..header.len()], header);
    assert_eq!(bytes.len(), header.len() + 800 * 600 * 3);
}

#[test]
fn serialize_rect_scenario_bytes() {
    // A 4x4 buffer filled with zero, then a 2x2 rectangle at (1, 1) with
    // color 0xAABBCCDD: the rectangle's pixels serialize as DD, CC, BB and
    // every other pixel as three zero bytes.
    let mut builder = GraphikBuilder::new(4, 4);
    builder.fill(0x00000000);
    let mut rect = GraphikRect::new(2, 2).origin(1, 1).color(0xAABBCCDD);
    builder.rect_fill(&mut rect);
    let bytes = builder.serialize();
    assert_eq!(&bytes[0..11], b"P6\n4 4 255\n");
    for y in 0..4usize {
        for x in 0..4usize {
            let offset = 11 + 3 * (y * 4 + x);
            let triple = [bytes[offset], bytes[offset + 1], bytes[offset + 2]];
            let inside = (1..3).contains(&x) && (1..3).contains(&y);
            if inside {
                assert_eq!(triple, [0xDD, 0xCC, 0xBB]);
            } else {
                assert_eq!(triple, [0, 0, 0]);
            }
        }
    }
}

#[test]
fn serialize_drops_top_byte() {
    let mut builder = GraphikBuilder::new(1, 1);
    builder.fill(0xFF010203);
    let bytes = builder.serialize();
    assert_eq!(&bytes[0..11], b"P6\n1 1 255\n");
    assert_eq!(&bytes[11..14], &[0x03, 0x02, 0x01]);
}

#[test]
fn color_values_are_packed_channels() {
    assert_eq!(Colors::Red.value(), 0x000000ff);
    assert_eq!(Colors::Green.value(), 0x0000ff00);
    assert_eq!(Colors::Blue.value(), 0x00ff0000);
    assert_eq!(Colors::Black.value(), 0x00000000);
    assert_eq!(Colors::White.value(), 0xffffffff);
    assert_eq!(Colors::Background.value(), 0xff202020);
}
