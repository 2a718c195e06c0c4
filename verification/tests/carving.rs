use content_aware_resize::energy_function::{basic, BasicEnergy, GridEnergy};
use content_aware_resize::seam::{find_horizontal_seam, find_vertical_seam, EnergyMatrix};
use content_aware_resize::Image;

fn img_from(width: u32, height: u32, bytes: Vec<u8>) -> Image {
    Image::from_raw(width, height, bytes).unwrap()
}

/// A 5-wide image whose pixels in column c hold the channels (c, c, c).
fn column_coded_image(width: u32, height: u32) -> Image {
    let mut bytes = Vec::new();
    for _y in 0..height {
        for x in 0..width {
            bytes.push(x as u8);
            bytes.push(x as u8);
            bytes.push(x as u8);
        }
    }
    img_from(width, height, bytes)
}

/// The 4-row, 5-column energy grid used by the concrete seam cases.
fn concrete_grid() -> GridEnergy {
    GridEnergy {
        width: 5,
        values: vec![
            9, 9, 0, 9, 9, //
            9, 1, 9, 8, 9, //
            9, 9, 9, 9, 0, //
            9, 9, 9, 0, 9,
        ],
    }
}

#[test]
fn vertical_seam_concrete_grid() {
    let img = column_coded_image(5, 4);
    let grid = concrete_grid();
    let mut matrix = EnergyMatrix::new(&img);
    let seam = find_vertical_seam(&img, grid, &mut matrix);
    assert_eq!(seam, vec![3, 4, 3, 2]);
}

#[test]
fn vertical_seam_deterministic() {
    let img = column_coded_image(5, 4);
    let grid = concrete_grid();
    let mut matrix = EnergyMatrix::new(&img);
    let first = find_vertical_seam(&img, &grid, &mut matrix);
    let second = find_vertical_seam(&img, &grid, &mut matrix);
    assert_eq!(first, second);
}

#[test]
fn vertical_seam_shape() {
    let bytes: Vec<u8> = (0..6u32 * 5 * 3).map(|i| (i * 37 % 251) as u8).collect();
    let img = img_from(6, 5, bytes);
    let mut matrix = EnergyMatrix::new(&img);
    let seam = find_vertical_seam(&img, BasicEnergy, &mut matrix);
    assert_eq!(seam.len(), 5);
    for &c in &seam {
        assert!(c < 6);
    }
    for pair in seam.windows(2) {
        let lo = pair[0].min(pair[1]);
        let hi = pair[0].max(pair[1]);
        assert!(hi - lo <= 1);
    }
}

#[test]
fn vertical_seam_tie_break_is_leftmost() {
    // Every path through this grid costs the same, so the tie-break
    // decides everything: the leftmost column must win in every row.
    let img = column_coded_image(3, 2);
    let grid = GridEnergy { width: 3, values: vec![1, 1, 1, 0, 0, 0] };
    let mut matrix = EnergyMatrix::new(&img);
    let seam = find_vertical_seam(&img, grid, &mut matrix);
    assert_eq!(seam, vec![0, 0]);
}

#[test]
fn vertical_seam_single_column() {
    let img = img_from(1, 3, vec![5; 9]);
    let mut matrix = EnergyMatrix::new(&img);
    let seam = find_vertical_seam(&img, BasicEnergy, &mut matrix);
    assert_eq!(seam, vec![0, 0, 0]);
}

#[test]
fn horizontal_seam_concrete_grid() {
    // The transpose of the vertical concrete case: a 4-wide, 5-row image
    // whose energy at (x, y) is the vertical grid's entry at (y, x).
    let img = column_coded_image(4, 5);
    let vertical = concrete_grid();
    let mut values = vec![0u32; 20];
    for x in 0..4 {
        for y in 0..5 {
            values[y * 4 + x] = vertical.values[x * 5 + y];
        }
    }
    let grid = GridEnergy { width: 4, values };
    let mut matrix = EnergyMatrix::new(&img);
    let seam = find_horizontal_seam(&img, grid, &mut matrix);
    assert_eq!(seam, vec![3, 4, 3, 2]);
}

#[test]
fn removal_concrete_grid() {
    // Removing the seam [3, 4, 3, 2] (bottom to top) from a 5-wide image
    // whose column c holds (c, c, c) everywhere keeps, row by row, the
    // columns {0,1,3,4}, {0,1,2,4}, {0,1,2,3} and {0,1,2,4}, in order.
    let mut img = column_coded_image(5, 4);
    let grid = concrete_grid();
    img.resize_horizontal(4, &grid);
    assert_eq!(img.width(), 4);
    assert_eq!(img.height(), 4);
    let expected: [[u8; 4]; 4] = [[0, 1, 3, 4], [0, 1, 2, 4], [0, 1, 2, 3], [0, 1, 2, 4]];
    for y in 0..4 {
        for x in 0..4 {
            let p = img.get_pixel(x as u32, y as u32);
            assert_eq!(p, [expected[y][x]; 3]);
        }
    }
}

#[test]
fn horizontal_removal_concrete_grid() {
    // The transpose of the vertical removal: a 4-wide, 5-row image
    // whose row r holds (r, r, r) everywhere and whose energy at (x, y)
    // is the vertical grid's entry at (y, x). The horizontal seam
    // [3, 4, 3, 2] (right to left) removes, column by column from the
    // left, the rows 2, 3, 4 and 3.
    let mut bytes = Vec::new();
    for y in 0..5u8 {
        for _x in 0..4 {
            bytes.push(y);
            bytes.push(y);
            bytes.push(y);
        }
    }
    let mut img = img_from(4, 5, bytes);
    let vertical = concrete_grid();
    let mut values = vec![0u32; 20];
    for x in 0..4 {
        for y in 0..5 {
            values[y * 4 + x] = vertical.values[x * 5 + y];
        }
    }
    let grid = GridEnergy { width: 4, values };
    img.resize_vertical(4, &grid);
    assert_eq!(img.width(), 4);
    assert_eq!(img.height(), 4);
    let expected: [[u8; 4]; 4] = [[0, 1, 3, 4], [0, 1, 2, 4], [0, 1, 2, 3], [0, 1, 2, 4]];
    for x in 0..4 {
        for y in 0..4 {
            let p = img.get_pixel(x as u32, y as u32);
            assert_eq!(p, [expected[x][y]; 3]);
        }
    }
}

#[test]
fn resize_vertical_truncates_exactly() {
    let bytes: Vec<u8> = (0..3u32 * 6 * 3).map(|i| (i * 17 % 256) as u8).collect();
    let mut img = img_from(3, 6, bytes);
    img.resize_vertical(3, BasicEnergy);
    assert_eq!(img.width(), 3);
    assert_eq!(img.height(), 3);
    let raw = img.into_raw();
    assert_eq!(raw.len(), 3 * 3 * 3);
}

#[test]
fn resize_truncates_exactly() {
    let bytes: Vec<u8> = (0..6u32 * 3 * 3).map(|i| (i * 11 % 256) as u8).collect();
    let mut img = img_from(6, 3, bytes);
    img.resize_horizontal(3, BasicEnergy);
    assert_eq!(img.width(), 3);
    assert_eq!(img.height(), 3);
    let raw = img.into_raw();
    assert_eq!(raw.len(), 3 * 3 * 3);
}

#[test]
fn staged_shrink_matches_direct_shrink() {
    let bytes: Vec<u8> = (0..6u32 * 4 * 3).map(|i| (i * 53 % 249) as u8).collect();
    let mut direct = img_from(6, 4, bytes.clone());
    let mut staged = img_from(6, 4, bytes);
    direct.resize_horizontal(4, BasicEnergy);
    staged.resize_horizontal(5, BasicEnergy);
    staged.resize_horizontal(4, BasicEnergy);
    assert_eq!(direct.width(), staged.width());
    assert_eq!(direct.into_raw(), staged.into_raw());
}

#[test]
fn energy_single_pixel_in_bounds() {
    let img = img_from(1, 1, vec![200, 100, 50]);
    assert_eq!(basic(&img, 0, 0), 0);
    let levels = img.energy(BasicEnergy);
    assert_eq!(levels, vec![0]);
}

#[test]
fn energy_formula_exact() {
    // Two pixels side by side: each sees the horizontal difference
    // (3, 4, 5) per channel and no vertical difference, so the score is
    // 9 + 16 + 25 = 50 at both positions.
    let img = img_from(2, 1, vec![0, 0, 0, 3, 4, 5]);
    assert_eq!(basic(&img, 0, 0), 50);
    assert_eq!(basic(&img, 1, 0), 50);
}

#[test]
fn visualizer_uniform_image_is_black() {
    let img = img_from(3, 2, vec![7; 18]);
    let levels = img.energy(BasicEnergy);
    assert_eq!(levels, vec![0; 6]);
}

#[test]
fn visualizer_scales_to_full_range() {
    // Energies come out as [0, 900, 900]: the flat pixel sees no
    // difference, the two others see a horizontal difference of 30 on
    // one channel. The scaled levels are [0, 255, 255].
    let img = img_from(3, 1, vec![0, 0, 0, 0, 0, 0, 30, 0, 0]);
    let levels = img.energy(BasicEnergy);
    assert_eq!(levels, vec![0, 255, 255]);
}

#[test]
fn from_raw_checks_length() {
    assert!(Image::from_raw(2, 2, vec![0; 12]).is_some());
    assert!(Image::from_raw(2, 2, vec![0; 11]).is_none());
    assert!(Image::from_raw(2, 2, vec![0; 13]).is_none());
}

#[test]
fn get_pixel_reads_row_major() {
    let img = img_from(2, 2, vec![1, 2, 3, 4, 5, 6, 7, 8, 9, 10, 11, 12]);
    assert_eq!(img.get_pixel(0, 0), [1, 2, 3]);
    assert_eq!(img.get_pixel(1, 0), [4, 5, 6]);
    assert_eq!(img.get_pixel(0, 1), [7, 8, 9]);
    assert_eq!(img.get_pixel(1, 1), [10, 11, 12]);
}

#[test]
fn raw_bytes_round_trip() {
    let bytes = vec![1, 2, 3, 4, 5, 6];
    let img = img_from(2, 1, bytes.clone());
    assert_eq!(img.into_raw(), bytes);
}

#[test]
fn from_dynamic_image_converts_to_rgb() {
    // A grayscale source must come back expanded to three equal
    // channels, not handed through unchanged.
    let gray = image::GrayImage::from_raw(2, 1, vec![10, 200]).unwrap();
    let img = Image::from_dynamic_image(image::DynamicImage::ImageLuma8(gray));
    assert_eq!(img.width(), 2);
    assert_eq!(img.height(), 1);
    assert_eq!(img.get_pixel(0, 0), [10, 10, 10]);
    assert_eq!(img.get_pixel(1, 0), [200, 200, 200]);
}

#[test]
fn from_dynamic_image_keeps_rgb_bytes() {
    let rgb = image::RgbImage::from_raw(2, 1, vec![1, 2, 3, 4, 5, 6]).unwrap();
    let img = Image::from_dynamic_image(image::DynamicImage::ImageRgb8(rgb));
    assert_eq!(img.width(), 2);
    assert_eq!(img.height(), 1);
    assert_eq!(img.into_raw(), vec![1, 2, 3, 4, 5, 6]);
}
