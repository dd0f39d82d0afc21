use mandelbrust::buffer::RenderBuffer;
use mandelbrust::tile::Tile;

#[test]
fn new_buffer_is_black_opaque() {
    let buf = RenderBuffer::new(4, 4);
    assert_eq!(buf.pixels.len(), 4 * 4 * 4);
    for chunk in buf.pixels.chunks_exact(4) {
        assert_eq!(chunk, &[0, 0, 0, 255]);
    }
}

#[test]
fn blit_tile_writes_correct_region() {
    let mut buf = RenderBuffer::new(8, 8);
    let tile = Tile {
        x: 2,
        y: 1,
        width: 3,
        height: 2,
    };
    let red = vec![255, 0, 0, 255].repeat(tile.pixel_count());
    buf.blit_tile(&tile, &red);

    // Check a pixel inside the tile.
    let idx = ((1 * 8) + 2) * 4;
    assert_eq!(&buf.pixels[idx..idx + 4], &[255, 0, 0, 255]);

    // Check a pixel outside the tile is still black.
    let idx2 = 0;
    assert_eq!(&buf.pixels[idx2..idx2 + 4], &[0, 0, 0, 255]);
}

#[test]
fn blit_tile_mirrored_flips_rows() {
    let mut buf = RenderBuffer::new(4, 4);
    let tile = Tile {
        x: 0,
        y: 0,
        width: 2,
        height: 2,
    };
    // row 0: red, green; row 1: blue, white
    let data = vec![
        255, 0, 0, 255, 0, 255, 0, 255, // row 0
        0, 0, 255, 255, 255, 255, 255, 255, // row 1
    ];
    buf.blit_tile_mirrored(&tile, &data);
    // destination row 0 gets source row 1
    assert_eq!(&buf.pixels[0..4], &[0, 0, 255, 255]);
    assert_eq!(&buf.pixels[4..8], &[255, 255, 255, 255]);
    // destination row 1 gets source row 0
    let r1 = (1 * 4) * 4;
    assert_eq!(&buf.pixels[r1..r1 + 4], &[255, 0, 0, 255]);
    assert_eq!(&buf.pixels[r1 + 4..r1 + 8], &[0, 255, 0, 255]);
}
