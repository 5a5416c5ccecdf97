use visual_crypto::crypto::{ciphered, random, recover, Inverser, RandomGenerator};

fn assert_diag_tiles(g: &Vec<Vec<u8>>) {
    let h = g.len();
    let w = if h == 0 { 0 } else { g[0].len() };
    let mut i = 0;
    while i < h {
        let mut j = 0;
        while j < w {
            assert_eq!(g[i][j], g[i + 1][j + 1]);
            assert_eq!(g[i][j + 1], g[i + 1][j]);
            assert_ne!(g[i][j], g[i][j + 1]);
            j += 2;
        }
        i += 2;
    }
}

#[test]
fn inverse_of_bits() {
    assert_eq!(0u8.inverse(), 1);
    assert_eq!(1u8.inverse(), 0);
    assert_eq!(7u8.inverse(), 0);
}

#[test]
fn random_draw_is_a_bit() {
    for _ in 0..32 {
        let b = u8::random();
        assert!(b == 0 || b == 1);
    }
}

#[test]
fn random_share_dimensions_and_bits() {
    let share = random(8, 6);
    assert_eq!(share.len(), 6);
    for row in &share {
        assert_eq!(row.len(), 8);
        for &cell in row {
            assert!(cell == 0 || cell == 1);
        }
    }
}

#[test]
fn random_share_tile_invariant() {
    let share = random(10, 4);
    assert_diag_tiles(&share);
}

#[test]
fn encode_tile_invariant() {
    let source = vec![vec![1, 1], vec![0, 0], vec![1, 0]];
    let share = random(4, 6);
    let cipher = ciphered(&source, &share);
    assert_diag_tiles(&cipher);
}

#[test]
fn encode_doubles_dimensions() {
    let source = vec![vec![1, 0, 1], vec![0, 1, 1]];
    let share = random(6, 4);
    let cipher = ciphered(&source, &share);
    assert_eq!(cipher.len(), 2 * source.len());
    for row in &cipher {
        assert_eq!(row.len(), 2 * source[0].len());
    }
}

#[test]
fn concrete_scenario() {
    let source = vec![vec![1, 0], vec![0, 1]];
    // A share fixed by hand: tile leading bits 1, 0, 1, 0 in row-major tile
    // order, each tile completed with the complementary anti-diagonal.
    let share = vec![
        vec![1, 0, 0, 1],
        vec![0, 1, 1, 0],
        vec![1, 0, 0, 1],
        vec![0, 1, 1, 0],
    ];
    let cipher = ciphered(&source, &share);
    let expected_cipher = vec![
        vec![0, 1, 0, 1],
        vec![1, 0, 1, 0],
        vec![1, 0, 1, 0],
        vec![0, 1, 0, 1],
    ];
    assert_eq!(cipher, expected_cipher);

    let recovered = recover(&cipher, &share);
    let expected_recovered = vec![
        vec![1, 1, 0, 0],
        vec![1, 1, 0, 0],
        vec![0, 0, 1, 1],
        vec![0, 0, 1, 1],
    ];
    assert_eq!(recovered, expected_recovered);
}

#[test]
fn recover_exact_values() {
    let a = vec![vec![1, 0], vec![1, 1]];
    let b = vec![vec![1, 1], vec![0, 1]];
    let v = recover(&a, &b);
    assert_eq!(v, vec![vec![0, 1], vec![1, 0]]);
}

#[test]
fn recover_is_symmetric() {
    let a = vec![vec![1, 0, 0, 1], vec![0, 0, 1, 1]];
    let b = vec![vec![0, 0, 1, 1], vec![1, 0, 1, 0]];
    assert_eq!(recover(&a, &b), recover(&b, &a));
}

#[test]
fn round_trip_recovers_source_blocks() {
    let source = vec![vec![1, 0, 1], vec![0, 0, 1]];
    let share = random(6, 4);
    let cipher = ciphered(&source, &share);
    let recovered = recover(&cipher, &share);
    for i in 0..source.len() {
        for j in 0..source[0].len() {
            let s = source[i][j];
            assert_eq!(recovered[2 * i][2 * j], s);
            assert_eq!(recovered[2 * i][2 * j + 1], s);
            assert_eq!(recovered[2 * i + 1][2 * j], s);
            assert_eq!(recovered[2 * i + 1][2 * j + 1], s);
        }
    }
}

#[test]
fn same_share_ciphers_differ_as_sources() {
    let s1 = vec![vec![1, 0], vec![0, 1]];
    let s2 = vec![vec![1, 1], vec![0, 0]];
    let share = random(4, 4);
    let before = share.clone();
    let c1 = ciphered(&s1, &share);
    let c2 = ciphered(&s2, &share);
    // the share itself is read-only to the encoder
    assert_eq!(share, before);
    for ti in 0..2 {
        for tj in 0..2 {
            let tiles_equal = c1[2 * ti][2 * tj] == c2[2 * ti][2 * tj]
                && c1[2 * ti][2 * tj + 1] == c2[2 * ti][2 * tj + 1]
                && c1[2 * ti + 1][2 * tj] == c2[2 * ti + 1][2 * tj]
                && c1[2 * ti + 1][2 * tj + 1] == c2[2 * ti + 1][2 * tj + 1];
            assert_eq!(tiles_equal, s1[ti][tj] == s2[ti][tj]);
        }
    }
}
