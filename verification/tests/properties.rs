use visioncortex::{
    erode_interior, BinaryImage, BinaryImageSampler, BitVec, ShapeEncoding, ShapeEncodingString, SpiralWalker,
};

fn pattern(size: usize, seed: usize) -> BinaryImage {
    let mut image = BinaryImage::new_w_h(size, size);
    for y in 0..size {
        for x in 0..size {
            image.set_pixel(x, y, (x * 7 + y * 13 + seed) % 5 < 2);
        }
    }
    image
}

fn upscale(image: &BinaryImage) -> BinaryImage {
    let mut up = BinaryImage::new_w_h(image.width * 2, image.height * 2);
    for y in 0..up.height {
        for x in 0..up.width {
            up.set_pixel(x, y, image.get_pixel(x / 2, y / 2));
        }
    }
    up
}

#[test]
fn roundtrip_restores_square_images() {
    for size in [1usize, 2, 4, 8, 16, 32] {
        let image = pattern(size, size);
        let encoded = ShapeEncoding::encode_binary_image(&image);
        let decoded = ShapeEncoding::decode_from(&encoded).image;
        assert_eq!(decoded.width, size);
        assert_eq!(decoded.height, size);
        assert_eq!(decoded.pixels, image.pixels);
    }
}

#[test]
fn roundtrip_restores_blank_2x2() {
    let image = BinaryImage::new_w_h(2, 2);
    let encoded = ShapeEncoding::encode_binary_image(&image);
    assert_eq!(encoded, ShapeEncodingString::Hex("00".to_owned()));
    let decoded = ShapeEncoding::decode_from(&encoded).image;
    assert_eq!(decoded.width, 2);
    assert_eq!(decoded.height, 2);
    assert_eq!(decoded.pixels, image.pixels);
}

#[test]
fn one_digit_hex_reads_as_one_bit_and_two_digits_as_five() {
    assert_eq!(ShapeEncoding::hexstring_to_bits("0").len(), 1);
    assert_eq!(ShapeEncoding::bits_to_bitstring(&ShapeEncoding::hexstring_to_bits("8")), "1");
    assert_eq!(ShapeEncoding::bits_to_bitstring(&ShapeEncoding::hexstring_to_bits("00")), "00000");
    assert_eq!(ShapeEncoding::bits_to_bitstring(&ShapeEncoding::hexstring_to_bits("80")), "10000");
}

#[test]
fn encoding_length_matches_length_from_area() {
    for size in [1usize, 2, 4, 8, 16] {
        let image = pattern(size, 3);
        let (encoding, encoder_size) = ShapeEncoding::encode_binary_image_as_shape_encoding(&image);
        assert_eq!(encoder_size, size);
        assert_eq!(encoding.bits().len(), encoding.length());
        assert_eq!(encoding.length(), ShapeEncoding::length_from_size(size));
        assert!(encoding.length() < 2 * size * size);
        assert_eq!(encoding.size(), size);
        assert_eq!(encoding.area(), size * size);
    }
}

#[test]
fn upscaled_image_keeps_encoding_prefix() {
    for size in [1usize, 2, 4, 8] {
        let image = pattern(size, 1);
        let up = upscale(&image);
        let small = ShapeEncoding::encode_as_shape_encoding(&BinaryImageSampler::new_with_size(&image, size)).bits();
        let mut large = ShapeEncoding::encode_as_shape_encoding(&BinaryImageSampler::new_with_size(&up, 2 * size)).bits();
        large.truncate(small.len());
        assert_eq!(small, large);
    }
}

#[test]
fn non_square_image_is_stretched_to_power_of_two() {
    let image = BinaryImage::from_string("***\n*--\n");
    let (encoding, encoder_size) = ShapeEncoding::encode_binary_image_as_shape_encoding(&image);
    assert_eq!(encoder_size, 4);
    assert_eq!(encoding.seq.len(), 3);
}

#[test]
fn bitstring_roundtrip() {
    let bits = ShapeEncoding::bitstring_to_bits("1011001110001");
    assert_eq!(ShapeEncoding::bits_to_bitstring(&bits), "1011001110001");
    assert_eq!(ShapeEncoding::bitstring_to_bits("").len(), 0);
}

#[test]
fn bitstring_plus_sign_reads_as_zero() {
    let bits = ShapeEncoding::bitstring_to_bits("+1");
    assert_eq!(ShapeEncoding::bits_to_bitstring(&bits), "01");
}

#[test]
fn hexstring_plus_sign_reads_as_zero() {
    let bits = ShapeEncoding::hexstring_to_bits("+F");
    assert_eq!(ShapeEncoding::bits_to_bitstring(&bits), "00001");
    let bits = ShapeEncoding::hexstring_to_bits("a8");
    assert_eq!(ShapeEncoding::bits_to_bitstring(&bits), "10101");
}

#[test]
fn hexstring_pads_to_whole_bytes() {
    let mut bits = BitVec::new();
    for b in [true, false, true, true, false] {
        bits.push(b);
    }
    assert_eq!(ShapeEncoding::bits_to_hexstring(&bits), "B0");
    assert_eq!(ShapeEncoding::bits_to_hexstring(&BitVec::new()), "");
}

#[test]
fn pow_helpers_edge_values() {
    assert_eq!(ShapeEncoding::next_pow_of_four(1), 0);
    assert_eq!(ShapeEncoding::next_pow_of_four(5), 2);
    assert_eq!(ShapeEncoding::next_pow_of_four(17), 3);
    assert!(ShapeEncoding::is_pow_of_four(64));
    assert!(!ShapeEncoding::is_pow_of_four(32));
    assert!(!ShapeEncoding::is_pow_of_four(0));
    assert_eq!(ShapeEncoding::layer_from_area(256), 5);
    assert_eq!(ShapeEncoding::num_layers(16), 5);
    assert_eq!(ShapeEncoding::area_from_length(25), 16);
    assert_eq!(ShapeEncoding::size_from_length(25), 4);
    assert_eq!(ShapeEncoding::size_from_length(105), 8);
    assert_eq!(ShapeEncoding::length_from_area(4), 5);
    assert_eq!(ShapeEncoding::get_length_from_area(262144), 436905);
    assert_eq!(ShapeEncoding::length_from_area(262144), 436905);
    assert_eq!(ShapeEncoding::hexstring_to_bits_length(432), 425);
}

#[test]
fn layer_weights() {
    assert_eq!(ShapeEncoding::layer_shift(1), 8);
    assert_eq!(ShapeEncoding::layer_shift(1024), 6);
    assert_eq!(ShapeEncoding::layer_shift(65536), 0);
    assert_eq!(ShapeEncoding::remainder(0), 54656);
    assert_eq!(ShapeEncoding::remainder(8), 128);
    assert_eq!(ShapeEncoding::remainder(9), 0);
}

#[test]
fn diff_sums_layers_for_hex_encodings() {
    let a = ShapeEncoding::encode_binary_image(&pattern(4, 0));
    let b = ShapeEncoding::encode_binary_image(&pattern(4, 2));
    let bits_a = ShapeEncoding::hexstring_to_bits(a.unwrap());
    let bits_b = ShapeEncoding::hexstring_to_bits(b.unwrap());
    let mut total = 0u64;
    for layer in 0..3 {
        total += ShapeEncoding::shape_encoding_diff_layer(&bits_a, &bits_b, layer);
    }
    total += ShapeEncoding::remainder(3);
    assert_eq!(a.diff(&b), total);
    assert_eq!(a.diff(&b), ShapeEncoding::shape_encoding_diff_bits(&bits_a, &bits_b));
}

#[test]
fn spiral_walk_order_4x4() {
    let cells = SpiralWalker::new(4).walk();
    assert_eq!(
        cells,
        vec![
            (1, 1), (2, 1), (2, 2), (1, 2), (0, 2), (0, 1), (0, 0), (1, 0),
            (2, 0), (3, 0), (3, 1), (3, 2), (3, 3), (2, 3), (1, 3), (0, 3)
        ]
    );
    assert_eq!(SpiralWalker::new(1).walk(), vec![(0, 0)]);
}

#[test]
fn erode_keeps_only_ink_and_grows_with_depth() {
    let image = pattern(9, 4);
    let mut previous = erode_interior(&image, 0);
    for y in 0..9 {
        for x in 0..9 {
            assert!(!previous.get_pixel(x, y));
        }
    }
    for depth in 1..6 {
        let result = erode_interior(&image, depth);
        for y in 0..9 {
            for x in 0..9 {
                if result.get_pixel(x, y) {
                    assert!(image.get_pixel(x, y));
                }
                if previous.get_pixel(x, y) {
                    assert!(result.get_pixel(x, y));
                }
            }
        }
        previous = result;
    }
}

#[test]
fn image_text_roundtrip_and_crop_of_blank() {
    let text = "-*-\n**-\n---\n";
    let image = BinaryImage::from_string(text);
    assert_eq!(image.width, 3);
    assert_eq!(image.height, 3);
    assert_eq!(image.to_string(), text);
    let cropped = image.crop();
    assert_eq!(cropped.to_string(), "-*\n**\n");
    let blank = BinaryImage::new_w_h(3, 2);
    let cropped = blank.crop();
    assert_eq!(cropped.width, 0);
    assert_eq!(cropped.height, 0);
}

#[test]
fn popcount_extremes() {
    assert_eq!(BinaryImage::popcount(0), 0);
    assert_eq!(BinaryImage::popcount(u32::MAX), 32);
}

fn shifted_glyph(width: usize, height: usize, dx: usize, dy: usize) -> BinaryImage {
    let mut image = BinaryImage::new_w_h(width, height);
    for (x, y) in [(0usize, 0usize), (1, 0), (2, 1), (0, 2), (1, 2), (2, 2)] {
        image.set_pixel(x + dx, y + dy, true);
    }
    image
}

#[test]
fn shifted_ink_encodes_alike_after_crop() {
    let a = shifted_glyph(6, 6, 0, 1);
    let b = shifted_glyph(9, 7, 5, 3);
    let ca = a.crop();
    let cb = b.crop();
    assert_eq!(ca.width, 3);
    assert_eq!(ca.height, 3);
    assert_eq!(ca.pixels, cb.pixels);
    assert_eq!(ShapeEncoding::encode_binary_image(&ca), ShapeEncoding::encode_binary_image(&cb));
    assert_ne!(ShapeEncoding::encode_binary_image(&a), ShapeEncoding::encode_binary_image(&b));
}

#[test]
fn distance_to_itself_is_the_remainder_and_least() {
    let a = "1011001110100101011101001".to_owned();
    let same = ShapeEncodingString::Bit(a.clone());
    assert_eq!(same.diff(&same), ShapeEncoding::remainder(3));
    // Position 5 lies in no compared window: the distance does not change.
    let mut outside = a.clone().into_bytes();
    outside[5] = if outside[5] == b'1' { b'0' } else { b'1' };
    let outside = ShapeEncodingString::Bit(String::from_utf8(outside).unwrap());
    assert_eq!(same.diff(&outside), ShapeEncoding::remainder(3));
    // Position 10 lies in the window of the finest layer.
    let mut inside = a.into_bytes();
    inside[10] = if inside[10] == b'1' { b'0' } else { b'1' };
    let inside = ShapeEncodingString::Bit(String::from_utf8(inside).unwrap());
    assert!(same.diff(&inside) > ShapeEncoding::remainder(3));
}

#[test]
fn image_without_rows_or_columns_encodes_as_blank() {
    let flat = BinaryImage::new_w_h(3, 0);
    let (encoding, side) = ShapeEncoding::encode_binary_image_as_shape_encoding(&flat);
    assert_eq!(side, 4);
    let blank = BinaryImage::new_w_h(4, 4);
    let (expected, _) = ShapeEncoding::encode_binary_image_as_shape_encoding(&blank);
    assert_eq!(encoding.seq, expected.seq);
    assert_eq!(
        ShapeEncoding::encode_binary_image(&BinaryImage::new_w_h(0, 0)),
        ShapeEncoding::encode_binary_image(&BinaryImage::new_w_h(2, 2))
    );
}
