use blurhash_encode::{decode_base83, encode_base83};

#[test]
fn zero_is_all_first_symbol() {
    assert_eq!(encode_base83(0, 0), "");
    assert_eq!(encode_base83(0, 1), "0");
    assert_eq!(encode_base83(0, 4), "0000");
    assert_eq!(encode_base83(0, 9), "000000000");
}

#[test]
fn single_digits_map_through_alphabet() {
    assert_eq!(encode_base83(9, 1), "9");
    assert_eq!(encode_base83(10, 1), "A");
    assert_eq!(encode_base83(36, 1), "a");
    assert_eq!(encode_base83(62, 1), "#");
    assert_eq!(encode_base83(82, 1), "~");
}

#[test]
fn most_significant_digit_first() {
    assert_eq!(encode_base83(83, 2), "10");
    assert_eq!(encode_base83(3429, 2), "fQ");
    assert_eq!(encode_base83(12345, 3), "1*z");
    assert_eq!(encode_base83(16777215, 4), "TSUA");
    assert_eq!(encode_base83(66051, 4), "09m+");
}

#[test]
fn digits_above_the_width_are_dropped() {
    assert_eq!(encode_base83(83, 1), "0");
    assert_eq!(encode_base83(3429, 1), "Q");
}

#[test]
fn decode_reads_numerals_back() {
    assert_eq!(decode_base83(""), Some(0));
    assert_eq!(decode_base83("~"), Some(82));
    assert_eq!(decode_base83("fQ"), Some(3429));
    assert_eq!(decode_base83("TSUA"), Some(16777215));
    assert_eq!(decode_base83("0000"), Some(0));
}

#[test]
fn decode_rejects_foreign_symbols() {
    assert_eq!(decode_base83("!"), None);
    assert_eq!(decode_base83("ab c"), None);
    assert_eq!(decode_base83("é"), None);
}

#[test]
fn decode_rejects_values_above_u32() {
    assert_eq!(decode_base83("~~~~~~"), None);
    assert_eq!(decode_base83("~~~~~"), Some(3939040642));
}

#[test]
fn round_trip_of_several_values() {
    for v in [0u32, 1, 82, 83, 6858, 571786, 16777215] {
        assert_eq!(decode_base83(&encode_base83(v, 4)), Some(v));
    }
}
