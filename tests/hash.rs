use blurhash_encode::{decode_base83, encode_ac, encode_dc, encode_quantized, quantize_ac_level, quantize_scale};

#[test]
fn black_single_component_image() {
    assert_eq!(encode_quantized(1, 1, 0, (0, 0, 0), &vec![]), "000000");
}

#[test]
fn white_single_component_image_dc_round_trips() {
    let hash = encode_quantized(1, 1, 0, (255, 255, 255), &vec![]);
    assert_eq!(encode_dc(255, 255, 255), 16777215);
    assert_eq!(&hash[2..6], "TSUA");
    assert_eq!(decode_base83(&hash[2..6]), Some(16777215));
}

#[test]
fn hash_length_follows_component_count() {
    for nx in 1..=9usize {
        for ny in 1..=9usize {
            let ac = vec![(9i64, 9i64, 9i64); nx * ny - 1];
            let hash = encode_quantized(nx, ny, 10, (1, 2, 3), &ac);
            assert_eq!(hash.len(), 6 + 2 * (nx * ny - 1));
        }
    }
}

#[test]
fn size_flag_decodes_to_component_counts() {
    for nx in 1..=9usize {
        for ny in 1..=9usize {
            let ac = vec![(0i64, 0i64, 0i64); nx * ny - 1];
            let hash = encode_quantized(nx, ny, 0, (0, 0, 0), &ac);
            let flag = decode_base83(&hash[0..1]).unwrap() as usize;
            assert_eq!(flag, (nx - 1) + (ny - 1) * 9);
            assert_eq!(flag % 9 + 1, nx);
            assert_eq!(flag / 9 + 1, ny);
        }
    }
}

#[test]
fn scale_flag_is_clamped_and_zero_without_ac() {
    let ac = vec![(9i64, 9i64, 9i64); 1];
    assert_eq!(&encode_quantized(2, 1, 500, (0, 0, 0), &ac)[1..2], "~");
    assert_eq!(&encode_quantized(2, 1, -7, (0, 0, 0), &ac)[1..2], "0");
    assert_eq!(&encode_quantized(2, 1, 40, (0, 0, 0), &ac)[1..2], "e");
    assert_eq!(&encode_quantized(1, 1, 40, (0, 0, 0), &vec![])[1..2], "0");
}

#[test]
fn mid_level_ac_components_give_mid_scale_pairs() {
    let ac = vec![(9i64, 9i64, 9i64); 11];
    let hash = encode_quantized(4, 3, 0, (1, 2, 3), &ac);
    assert_eq!(&hash[0..6], "L009m+");
    for k in 0..11 {
        assert_eq!(&hash[6 + 2 * k..8 + 2 * k], "fQ");
    }
}

#[test]
fn full_layout_of_a_small_hash() {
    let ac = vec![(-5i64, 30i64, 0i64), (18i64, 18i64, 18i64)];
    let hash = encode_quantized(3, 1, 40, (1, 2, 3), &ac);
    assert_eq!(hash, "2e09m+4A~q");
}

#[test]
fn dc_packing() {
    assert_eq!(encode_dc(0, 0, 0), 0);
    assert_eq!(encode_dc(1, 2, 3), 66051);
    assert_eq!(encode_dc(255, 0, 0), 0xFF0000);
    assert_eq!(encode_dc(0, 0, 255), 255);
}

#[test]
fn ac_packing_clamps_each_level() {
    assert_eq!(encode_ac((9, 9, 9)), 3429);
    assert_eq!(encode_ac((-5, 30, 0)), 342);
    assert_eq!(encode_ac((18, 18, 18)), 6858);
    assert_eq!(encode_ac((0, 0, 0)), 0);
    assert_eq!(encode_ac((1, 2, 3)), 361 + 38 + 3);
}

#[test]
fn scale_and_level_clamps() {
    assert_eq!(quantize_scale(-1), 0);
    assert_eq!(quantize_scale(0), 0);
    assert_eq!(quantize_scale(40), 40);
    assert_eq!(quantize_scale(82), 82);
    assert_eq!(quantize_scale(1000), 82);
    assert_eq!(quantize_ac_level(i64::MIN), 0);
    assert_eq!(quantize_ac_level(9), 9);
    assert_eq!(quantize_ac_level(19), 18);
}
