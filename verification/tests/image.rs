use oxideav_render::image::downsample_box;
use oxideav_render::RgbaImage;

#[test]
fn filled_produces_expected_shape() {
    let img = RgbaImage::filled(4, 2, [10, 20, 30, 40]);
    assert_eq!(img.width, 4);
    assert_eq!(img.height, 2);
    assert_eq!(img.stride, 16);
    assert_eq!(img.pixels.len(), 32);
    assert_eq!(img.pixel(0, 0), Some([10, 20, 30, 40]));
    assert_eq!(img.pixel(3, 1), Some([10, 20, 30, 40]));
    assert_eq!(img.pixel(4, 0), None);
    assert_eq!(img.pixel(0, 2), None);
}

#[test]
fn set_pixel_inside_bounds_updates_byte_quad() {
    let mut img = RgbaImage::filled(3, 2, [0, 0, 0, 255]);
    assert!(img.set_pixel(1, 0, [11, 22, 33, 44]));
    assert_eq!(img.pixel(1, 0), Some([11, 22, 33, 44]));
    // Neighbours untouched.
    assert_eq!(img.pixel(0, 0), Some([0, 0, 0, 255]));
    assert_eq!(img.pixel(2, 0), Some([0, 0, 0, 255]));
    assert_eq!(img.pixel(1, 1), Some([0, 0, 0, 255]));
}

#[test]
fn set_pixel_out_of_bounds_returns_false_and_no_op() {
    let mut img = RgbaImage::filled(2, 2, [7, 8, 9, 10]);
    let before = img.pixels.clone();
    assert!(!img.set_pixel(2, 0, [1, 1, 1, 1]));
    assert!(!img.set_pixel(0, 2, [1, 1, 1, 1]));
    assert!(!img.set_pixel(u32::MAX, 0, [1, 1, 1, 1]));
    assert_eq!(img.pixels, before);
}

#[test]
fn pixel_count_and_is_empty() {
    let zero = RgbaImage::filled(0, 5, [0; 4]);
    assert_eq!(zero.pixel_count(), 0);
    assert!(zero.is_empty());

    let one = RgbaImage::filled(1, 1, [0; 4]);
    assert_eq!(one.pixel_count(), 1);
    assert!(!one.is_empty());

    let small = RgbaImage::filled(640, 480, [0; 4]);
    assert_eq!(small.pixel_count(), 640 * 480);
    assert!(!small.is_empty());
}

#[test]
fn pixels_rgba_iterates_row_major() {
    // Row 0 = pure red, row 1 = pure green; verify ordering.
    let img = RgbaImage {
        width: 2,
        height: 2,
        stride: 8,
        pixels: vec![
            255, 0, 0, 255, 255, 0, 0, 255, // row 0
            0, 255, 0, 255, 0, 255, 0, 255, // row 1
        ],
    };
    let collected: Vec<[u8; 4]> = img.pixels_rgba();
    assert_eq!(collected.len(), 4);
    assert_eq!(collected[0], [255, 0, 0, 255]);
    assert_eq!(collected[1], [255, 0, 0, 255]);
    assert_eq!(collected[2], [0, 255, 0, 255]);
    assert_eq!(collected[3], [0, 255, 0, 255]);
}

#[test]
fn pixels_rgba_skips_row_padding() {
    // stride = 12 = 2 pixels * 4 bytes + 4 bytes of trailing
    // per-row padding the iterator must skip.
    let img = RgbaImage {
        width: 2,
        height: 2,
        stride: 12,
        pixels: vec![
            1, 2, 3, 4, 5, 6, 7, 8, 0xFF, 0xFF, 0xFF, 0xFF, // row 0 + pad
            9, 10, 11, 12, 13, 14, 15, 16, 0xFF, 0xFF, 0xFF, 0xFF, // row 1 + pad
        ],
    };
    let collected: Vec<[u8; 4]> = img.pixels_rgba();
    assert_eq!(
        collected,
        vec![
            [1, 2, 3, 4],
            [5, 6, 7, 8],
            [9, 10, 11, 12],
            [13, 14, 15, 16]
        ]
    );
}

#[test]
fn rows_yields_one_slice_per_row_with_stride_length() {
    let img = RgbaImage::filled(3, 4, [0xAA, 0xBB, 0xCC, 0xDD]);
    let rows: Vec<&[u8]> = img.rows();
    assert_eq!(rows.len(), 4);
    for row in rows {
        assert_eq!(row.len(), img.stride);
        assert_eq!(row.len(), 12);
        // Each pixel is [0xAA, 0xBB, 0xCC, 0xDD].
        for chunk in row.chunks_exact(4) {
            assert_eq!(chunk, &[0xAA, 0xBB, 0xCC, 0xDD]);
        }
    }
}

#[test]
fn rows_on_empty_image_yields_nothing() {
    let empty = RgbaImage::filled(0, 0, [0; 4]);
    assert_eq!(empty.rows().len(), 0);
    assert_eq!(empty.pixels_rgba().len(), 0);
}

#[test]
fn pixels_rgba_count_matches_pixel_count() {
    let img = RgbaImage::filled(7, 5, [0; 4]);
    assert_eq!(img.pixels_rgba().len() as u64, img.pixel_count());
}

#[test]
fn image_downsample_box_averages_uniform_field() {
    let src = RgbaImage::filled(4, 4, [200, 100, 50, 255]);
    let dst = downsample_box(&src, 2, 2, 2);
    assert_eq!(dst.width, 2);
    assert_eq!(dst.height, 2);
    for px in dst.pixels.chunks_exact(4) {
        assert_eq!(px, &[200, 100, 50, 255]);
    }
}

#[test]
fn image_downsample_box_averages_split_field() {
    let src = RgbaImage {
        width: 2,
        height: 2,
        stride: 8,
        pixels: vec![
            0, 0, 0, 255, 255, 255, 255, 255, 255, 255, 255, 255, 0, 0, 0, 255,
        ],
    };
    let dst = downsample_box(&src, 1, 1, 2);
    assert_eq!(dst.width, 1);
    assert_eq!(dst.height, 1);
    assert_eq!(dst.pixels[0], 127);
    assert_eq!(dst.pixels[1], 127);
    assert_eq!(dst.pixels[2], 127);
    assert_eq!(dst.pixels[3], 255);
}

#[test]
fn scanline_downsample_box_averages_uniform_field() {
    let src = RgbaImage {
        width: 4,
        height: 4,
        stride: 16,
        pixels: vec![
            200, 100, 50, 255, 200, 100, 50, 255, 200, 100, 50, 255, 200, 100, 50, 255, 200,
            100, 50, 255, 200, 100, 50, 255, 200, 100, 50, 255, 200, 100, 50, 255, 200, 100,
            50, 255, 200, 100, 50, 255, 200, 100, 50, 255, 200, 100, 50, 255, 200, 100, 50,
            255, 200, 100, 50, 255, 200, 100, 50, 255, 200, 100, 50, 255,
        ],
    };
    let dst = downsample_box(&src, 2, 2, 2);
    assert_eq!(dst.width, 2);
    assert_eq!(dst.height, 2);
    for px in dst.pixels.chunks_exact(4) {
        assert_eq!(px, &[200, 100, 50, 255]);
    }
}

#[test]
fn scanline_downsample_box_averages_split_field() {
    let src = RgbaImage {
        width: 2,
        height: 2,
        stride: 8,
        pixels: vec![
            0, 0, 0, 255, 255, 255, 255, 255, 255, 255, 255, 255, 0, 0, 0, 255,
        ],
    };
    let dst = downsample_box(&src, 1, 1, 2);
    assert_eq!(dst.width, 1);
    assert_eq!(dst.height, 1);
    assert_eq!(dst.pixels[0], 127);
    assert_eq!(dst.pixels[1], 127);
    assert_eq!(dst.pixels[2], 127);
    assert_eq!(dst.pixels[3], 255);
}

#[test]
fn short_buffer_cuts_rows_and_pixels_short() {
    let img = RgbaImage {
        width: 2,
        height: 3,
        stride: 8,
        pixels: (0..14).collect(),
    };
    let rows = img.rows();
    assert_eq!(rows.len(), 2);
    assert_eq!(rows[0], &[0, 1, 2, 3, 4, 5, 6, 7]);
    assert_eq!(rows[1], &[8, 9, 10, 11, 12, 13]);
    assert_eq!(img.pixels_rgba(), vec![[0, 1, 2, 3], [4, 5, 6, 7], [8, 9, 10, 11]]);
}

#[test]
fn zero_dimension_yields_no_rows() {
    for (w, h) in [(0, 5), (5, 0), (0, 0)] {
        let img = RgbaImage::filled(w, h, [1; 4]);
        assert!(img.is_empty());
        assert!(img.rows().is_empty());
        assert!(img.pixels_rgba().is_empty());
    }
}

#[test]
fn written_pixel_reads_back_and_others_stay() {
    let mut img = RgbaImage {
        width: 3,
        height: 2,
        stride: 16,
        pixels: (0..32).collect(),
    };
    let before: Vec<[u8; 4]> = img.pixels_rgba();
    assert!(img.set_pixel(2, 1, [90, 91, 92, 93]));
    let after = img.pixels_rgba();
    for i in 0..6 {
        if i == 5 {
            assert_eq!(after[i], [90, 91, 92, 93]);
        } else {
            assert_eq!(after[i], before[i]);
        }
    }
    assert_eq!(&img.pixels[28..], &[28, 29, 30, 31]);
}

#[test]
fn pixel_list_is_row_major() {
    let img = RgbaImage {
        width: 3,
        height: 2,
        stride: 12,
        pixels: (0..24).collect(),
    };
    let list = img.pixels_rgba();
    for y in 0..2 {
        for x in 0..3 {
            assert_eq!(Some(list[(y * 3 + x) as usize]), img.pixel(x, y));
        }
    }
}

#[test]
fn mean_rounds_down_and_stays_in_range() {
    let src = RgbaImage {
        width: 2,
        height: 2,
        stride: 8,
        pixels: vec![10, 0, 255, 1, 11, 0, 255, 1, 12, 0, 255, 1, 14, 0, 254, 0],
    };
    let dst = downsample_box(&src, 1, 1, 2);
    assert_eq!(dst.pixels, vec![11, 0, 254, 0]);
}

#[test]
fn factor_zero_counts_as_one() {
    let src = RgbaImage {
        width: 2,
        height: 1,
        stride: 8,
        pixels: vec![1, 2, 3, 4, 5, 6, 7, 8],
    };
    assert_eq!(downsample_box(&src, 2, 1, 0), src);
    assert_eq!(downsample_box(&src, 2, 1, 1), src);
}
