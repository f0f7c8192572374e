use face_auth_core::capture::IrFrame;
use face_auth_core::preprocess::{
    clahe_grid, clip_histogram, cumulative_counts, frame_to_luma16, tile_bounds, tile_histogram,
    GeometryError, BINS, CLAHE_TILES,
};

fn frame(data: Vec<u16>, width: u32, height: u32) -> IrFrame {
    IrFrame { data, width, height }
}

#[test]
fn rejects_frame_shorter_than_its_geometry() {
    let f = frame(vec![0; 10], 32, 32);
    assert!(frame_to_luma16(&f).is_err());
    assert_eq!(
        frame_to_luma16(&f).err(),
        Some(GeometryError::TooShort { got: 10, expected: 1024 })
    );
}

#[test]
fn rejects_zero_extent_frame() {
    assert!(frame_to_luma16(&frame(vec![], 0, 0)).is_err());
}

#[test]
fn accepts_exactly_sized_frame() {
    let f = frame(vec![1234; 32 * 32], 32, 32);
    let img = frame_to_luma16(&f).unwrap();
    assert_eq!(img.dimensions(), (32, 32));
}

#[test]
fn accepts_frame_with_trailing_padding() {
    let f = frame(vec![7; 32 * 32 + 64], 32, 32);
    assert!(frame_to_luma16(&f).is_ok());
}

#[test]
fn padding_is_dropped_from_the_image() {
    let mut data: Vec<u16> = (0..6).collect();
    data.push(999);
    let img = frame_to_luma16(&frame(data, 3, 2)).unwrap();
    assert_eq!(img.pixels, vec![0, 1, 2, 3, 4, 5]);
    assert_eq!(
        frame_to_luma16(&frame(vec![1, 2], 0, 5)).err(),
        Some(GeometryError::ZeroExtent)
    );
}

#[test]
fn grid_divides_rounding_up() {
    let f = frame(vec![0; 100 * 30], 100, 30);
    let g = clahe_grid(&f, CLAHE_TILES).unwrap();
    assert_eq!((g.width, g.height, g.tiles), (100, 30, 8));
    assert_eq!((g.tile_w, g.tile_h), (13, 4));
    let g1 = clahe_grid(&f, 0).unwrap();
    assert_eq!((g1.tiles, g1.tile_w, g1.tile_h), (1, 100, 30));
}

#[test]
fn grid_refuses_degenerate_frames() {
    assert!(clahe_grid(&frame(vec![], 0, 0), 8).is_none());
    assert!(clahe_grid(&frame(vec![100; 10], 32, 32), 8).is_none());
    assert!(clahe_grid(&frame(vec![1; 4], 0, 4), 8).is_none());
}

#[test]
fn tile_histogram_counts_high_bytes() {
    // 4x2 image; the tile is columns 1..3 of both rows.
    let data: Vec<u16> = vec![0, 257, 300, 65535, 0, 512, 257, 0];
    let h = tile_histogram(&data, 4, 1, 3, 0, 2);
    assert_eq!(h.len(), BINS);
    assert_eq!(h[1], 3);
    assert_eq!(h[2], 1);
    assert_eq!(h[0], 0);
    assert_eq!(h[255], 0);
    assert_eq!(h.iter().sum::<u32>(), 4);
}

#[test]
fn clipping_redistributes_the_excess() {
    let mut h = vec![0u32; BINS];
    h[0] = 600;
    h[10] = 5;
    clip_histogram(&mut h, 100);
    // 500 clipped from bin 0: 1 to every bin, and the 244 left over one
    // each to the first bins.
    assert_eq!(h[0], 100 + 1 + 1);
    assert_eq!(h[10], 5 + 1 + 1);
    assert_eq!(h[243], 1 + 1);
    assert_eq!(h[244], 1);
    assert_eq!(h.iter().sum::<u32>(), 605);
}

#[test]
fn clipping_below_the_limit_changes_nothing() {
    let mut h = vec![3u32; BINS];
    clip_histogram(&mut h, 10);
    assert!(h.iter().all(|&b| b == 3));
}

#[test]
fn cumulative_counts_run_to_the_total() {
    let c = cumulative_counts(&[1, 0, 4, 2]);
    assert_eq!(c, vec![1, 1, 5, 7]);
    assert!(cumulative_counts(&[]).is_empty());
}

#[test]
fn tiles_are_cut_off_at_the_edge() {
    let f = frame(vec![0; 100 * 30], 100, 30);
    let g = clahe_grid(&f, 8).unwrap();
    assert_eq!(tile_bounds(&g, 0, 0), Some((0, 13, 0, 4)));
    assert_eq!(tile_bounds(&g, 7, 7), Some((91, 100, 28, 30)));
    // One pixel wide: only the first column of tiles holds anything.
    let thin = frame(vec![0; 8], 1, 8);
    let g = clahe_grid(&thin, 8).unwrap();
    assert_eq!(tile_bounds(&g, 0, 3), Some((0, 1, 3, 4)));
    assert_eq!(tile_bounds(&g, 1, 3), None);
}
