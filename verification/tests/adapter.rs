use visual_crypto::img::{create_grid, flatten_rgb, to_one_or_zero, to_ones_and_zeros};

#[test]
fn create_grid_is_zeroed() {
    let g = create_grid(3, 2);
    assert_eq!(g.len(), 2);
    for row in &g {
        assert_eq!(row.len(), 3);
        for &cell in row {
            assert_eq!(cell, 0);
        }
    }
}

#[test]
fn threshold_keeps_only_full_white() {
    assert_eq!(to_one_or_zero(255), 1);
    assert_eq!(to_one_or_zero(254), 0);
    assert_eq!(to_one_or_zero(128), 0);
    assert_eq!(to_one_or_zero(0), 0);
}

#[test]
fn pixels_to_grid_transposes() {
    let pixels = vec![255, 0, 0, 255, 255, 255];
    let g = to_ones_and_zeros(&pixels, 2, 3);
    assert_eq!(g, vec![vec![1, 0, 1], vec![0, 1, 1]]);
}

#[test]
fn grid_to_rgb_exact_values() {
    let g = vec![vec![1, 0, 1], vec![0, 0, 1]];
    let out = flatten_rgb(&g);
    let expected = vec![
        255, 255, 255, 0, 0, 0, 0, 0, 0, 0, 0, 0, 255, 255, 255, 255, 255, 255,
    ];
    assert_eq!(out, expected);
}

#[test]
fn adapter_round_trip() {
    let pixels = vec![0, 255, 255, 0, 255, 0, 0, 255, 255, 0, 255, 255];
    let width = 4;
    let height = 3;
    let g = to_ones_and_zeros(&pixels, width, height);
    let out = flatten_rgb(&g);
    assert_eq!(out.len(), 3 * pixels.len());
    for k in 0..pixels.len() {
        assert_eq!(out[3 * k], pixels[k]);
        assert_eq!(out[3 * k + 1], pixels[k]);
        assert_eq!(out[3 * k + 2], pixels[k]);
    }
}
