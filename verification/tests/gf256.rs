use ecc_engine::gf256::{aes_mix_column, aes_sbox, gf256_add, gf256_inv, gf256_mul};

#[test]
fn test_gf256_add() {
    assert_eq!(gf256_add(0x57, 0x83), 0xD4);
    assert_eq!(gf256_add(0xFF, 0xFF), 0x00); // self-inverse
}

#[test]
fn test_gf256_mul_basic() {
    assert_eq!(gf256_mul(0x57, 0x83), 0xC1);
}

#[test]
fn test_gf256_mul_identity() {
    assert_eq!(gf256_mul(0x53, 0x01), 0x53); // multiply by 1
    assert_eq!(gf256_mul(0x00, 0x53), 0x00); // multiply by 0
}

#[test]
fn test_gf256_inv() {
    // inv(0x53) × 0x53 should equal 1
    let inv = gf256_inv(0x53);
    assert_eq!(gf256_mul(inv, 0x53), 0x01);
    assert_eq!(gf256_inv(0x00), 0x00); // special case
}

#[test]
fn test_aes_sbox_known_values() {
    assert_eq!(aes_sbox(0x00), 0x63);
    assert_eq!(aes_sbox(0x01), 0x7C);
    assert_eq!(aes_sbox(0x53), 0xED);
}

#[test]
fn test_aes_mix_column() {
    // FIPS 197 test vector
    let input = [0xDB, 0x13, 0x53, 0x45];
    let expected = [0x8E, 0x4D, 0xA1, 0xBC];
    assert_eq!(aes_mix_column(input), expected);
}

#[test]
fn gf256_mul_by_x_reduces() {
    assert_eq!(gf256_mul(0x80, 0x02), 0x1B);
    assert_eq!(gf256_mul(0x02, 0x80), 0x1B);
    assert_eq!(gf256_mul(0x57, 0x02), 0xAE);
    assert_eq!(gf256_mul(0x57, 0x13), 0xFE);
    assert_eq!(gf256_mul(0xFF, 0xFF), 0x13);
}

#[test]
fn gf256_is_a_field() {
    for a in 0..=255_u8 {
        assert_eq!(gf256_mul(a, 1), a);
        assert_eq!(gf256_mul(a, 0), 0);
        if a != 0 {
            assert_eq!(gf256_mul(a, gf256_inv(a)), 1);
        }
        for b in [0_u8, 1, 2, 3, 0x53, 0x80, 0xCA, 0xFF] {
            assert_eq!(gf256_mul(a, b), gf256_mul(b, a));
            for c in [1_u8, 7, 0x1B, 0xFE] {
                assert_eq!(gf256_mul(a, b ^ c), gf256_mul(a, b) ^ gf256_mul(a, c));
                assert_eq!(gf256_mul(gf256_mul(a, b), c), gf256_mul(a, gf256_mul(b, c)));
            }
        }
    }
}

#[test]
fn gf256_inv_exact_values() {
    assert_eq!(gf256_inv(0x01), 0x01);
    assert_eq!(gf256_inv(0x02), 0x8D);
    assert_eq!(gf256_inv(0x53), 0xCA);
}

#[test]
fn aes_sbox_is_a_permutation() {
    let mut seen = [false; 256];
    for a in 0..=255_u8 {
        seen[aes_sbox(a) as usize] = true;
    }
    assert!(seen.iter().all(|&s| s));
    assert_eq!(aes_sbox(0xFF), 0x16);
    assert_eq!(aes_sbox(0x10), 0xCA);
}

#[test]
fn aes_mix_column_more_vectors() {
    assert_eq!(aes_mix_column([0xF2, 0x0A, 0x22, 0x5C]), [0x9F, 0xDC, 0x58, 0x9D]);
    assert_eq!(aes_mix_column([0x01, 0x01, 0x01, 0x01]), [0x01, 0x01, 0x01, 0x01]);
    assert_eq!(aes_mix_column([0xD4, 0xD4, 0xD4, 0xD5]), [0xD5, 0xD5, 0xD7, 0xD6]);
    assert_eq!(aes_mix_column([0x00, 0x00, 0x00, 0x00]), [0x00, 0x00, 0x00, 0x00]);
}
