use raytracer::{create_render_chunks, RenderChunk, Rgb, RgbaBuffer, Viewport};

#[test]
fn render_chunks_cover_view_row_by_row() {
    let chunks = create_render_chunks([100, 60], [4, 3]);
    assert_eq!(chunks.len(), 12);
    assert_eq!(chunks[0], RenderChunk { id: 0, top: 0, left: 0, width: 25, height: 20 });
    assert_eq!(chunks[5], RenderChunk { id: 5, top: 20, left: 25, width: 25, height: 20 });
    assert_eq!(chunks[11], RenderChunk { id: 11, top: 40, left: 75, width: 25, height: 20 });
}

#[test]
fn render_chunks_drop_the_remainder() {
    let chunks = create_render_chunks([10, 7], [3, 2]);
    assert_eq!(chunks.len(), 6);
    for c in chunks.iter() {
        assert_eq!((c.width, c.height), (3, 3));
    }
    assert_eq!((chunks[5].left, chunks[5].top), (6, 3));
}

#[test]
fn each_pixel_lies_in_one_chunk() {
    let chunks = create_render_chunks([12, 9], [4, 3]);
    for y in 0..9 {
        for x in 0..12 {
            let holders: Vec<usize> = chunks
                .iter()
                .filter(|c| c.left <= x && x < c.left + c.width && c.top <= y && y < c.top + c.height)
                .map(|c| c.id)
                .collect();
            assert_eq!(holders, vec![(y / 3) * 4 + x / 3]);
        }
    }
}

#[test]
fn chunk_pixels_run_row_by_row() {
    let chunk = RenderChunk { id: 3, top: 10, left: 20, width: 3, height: 2 };
    let pixels = chunk.iter_pixels();
    assert_eq!(pixels.len(), 6);
    assert_eq!(pixels[0].chunk_pos, [0, 0]);
    assert_eq!(pixels[0].view_pos, [20, 10]);
    assert_eq!(pixels[4].chunk_pos, [1, 1]);
    assert_eq!(pixels[4].view_pos, [21, 11]);
    assert_eq!(pixels[5].view_pos, [22, 11]);
}

#[test]
fn empty_chunk_has_no_pixels() {
    let chunk = RenderChunk { id: 0, top: 0, left: 0, width: 0, height: 5 };
    assert!(chunk.iter_pixels().is_empty());
}

#[test]
fn view_chunks_start_black_and_keep_writes() {
    let viewport = Viewport::new(8, 6);
    let mut chunks = viewport.iter_view_chunks(2, 3);
    assert_eq!(chunks.len(), 6);
    assert_eq!(chunks[3].id, 3);
    assert_eq!((chunks[3].width, chunks[3].height), (4, 2));
    assert_eq!(chunks[3].get_view_relative_coords(1, 1), (5, 3));
    let c = &mut chunks[3];
    assert_eq!(*c.get_chunk_pixel(2, 1), Rgb::new(0, 0, 0));
    c.set_chunk_pixel(2, 1, Rgb::new(1, 2, 3));
    assert_eq!(*c.get_chunk_pixel(2, 1), Rgb::new(1, 2, 3));
    assert_eq!(*c.get_chunk_pixel(1, 1), Rgb::new(0, 0, 0));
    assert_eq!(*c.get_chunk_pixel(2, 0), Rgb::new(0, 0, 0));
}

#[test]
fn rgba_buffer_writes_four_bytes_per_pixel() {
    let mut buf = RgbaBuffer::new(3, 2);
    let raw = buf.get_raw_rgba_data();
    assert_eq!(raw.size, [3, 2]);
    assert_eq!(raw.rgba, &[0u8; 24][..]);
    buf.put_pixel(1, 1, [9, 8, 7, 255]);
    let raw = buf.get_raw_rgba_data();
    assert_eq!(&raw.rgba[16..20], &[9, 8, 7, 255]);
    assert_eq!(raw.rgba.iter().filter(|b| **b != 0).count(), 4);
}

#[test]
fn rgba_buffer_accepts_offsets_past_the_row_end() {
    let mut buf = RgbaBuffer::new(2, 2);
    buf.put_pixel(3, 0, [1, 1, 1, 1]);
    assert_eq!(&buf.get_raw_rgba_data().rgba[12..16], &[1, 1, 1, 1]);
}
