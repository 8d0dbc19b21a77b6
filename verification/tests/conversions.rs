use ipgen::ConvError;
use ipgen::{
    convert_decimals_to_binary, convert_dotted_decimals_to_binary, convert_hexadecimals_to_binary,
    convert_ip_binary_to_decimals, convert_ip_binary_to_dotted_decimals,
    convert_ip_binary_to_hexadecimals, convert_ip_binary_to_ipv6, convert_ip_binary_to_octals,
    convert_octals_to_binary,
};

#[test]
fn dotted_to_binary_known_value() {
    assert_eq!(
        convert_dotted_decimals_to_binary("192.168.1.1"),
        "11000000101010000000000100000001"
    );
}

#[test]
fn dotted_to_binary_zero_and_max() {
    assert_eq!(
        convert_dotted_decimals_to_binary("0.0.0.0"),
        "00000000000000000000000000000000"
    );
    assert_eq!(
        convert_dotted_decimals_to_binary("255.255.255.255"),
        "11111111111111111111111111111111"
    );
}

#[test]
fn dotted_to_binary_wrong_segment_count_is_empty() {
    assert_eq!(convert_dotted_decimals_to_binary("1.2.3"), "");
    assert_eq!(convert_dotted_decimals_to_binary("1.2.3.4.5"), "");
    assert_eq!(convert_dotted_decimals_to_binary(""), "");
}

#[test]
fn dotted_to_binary_bad_segments_default_to_zero() {
    assert_eq!(
        convert_dotted_decimals_to_binary("300.abc.1.1"),
        "00000000000000000000000100000001"
    );
    assert_eq!(
        convert_dotted_decimals_to_binary("..1.1"),
        "00000000000000000000000100000001"
    );
}

#[test]
fn dotted_round_trip() {
    let x = "10.0.0.255";
    let b = convert_dotted_decimals_to_binary(x);
    assert_eq!(convert_ip_binary_to_dotted_decimals(&b).unwrap(), x);
}

#[test]
fn hex_to_binary_known_value() {
    assert_eq!(
        convert_hexadecimals_to_binary("C0A80101"),
        "11000000101010000000000100000001"
    );
}

#[test]
fn hex_to_binary_wrong_length_is_empty() {
    assert_eq!(convert_hexadecimals_to_binary("C0A8010"), "");
    assert_eq!(convert_hexadecimals_to_binary(""), "");
}

#[test]
fn hex_to_binary_bad_pair_defaults_to_zero() {
    assert_eq!(
        convert_hexadecimals_to_binary("zzA80101"),
        "00000000101010000000000100000001"
    );
}

#[test]
fn hex_round_trip_uppercases() {
    let b = convert_hexadecimals_to_binary("c0a80101");
    assert_eq!(convert_ip_binary_to_hexadecimals(&b).unwrap(), "C0A80101");
}

#[test]
fn binary_to_hex_known_value() {
    assert_eq!(
        convert_ip_binary_to_hexadecimals("11000000101010000000000100000001").unwrap(),
        "C0A80101"
    );
}

#[test]
fn binary_to_hex_errors() {
    assert_eq!(
        convert_ip_binary_to_hexadecimals("1111"),
        Err(ConvError::BadLength)
    );
    assert_eq!(
        convert_ip_binary_to_hexadecimals("00000002"),
        Err(ConvError::NotBinary)
    );
}

#[test]
fn decimal_to_binary_known_value() {
    assert_eq!(
        convert_decimals_to_binary("3232235777").unwrap(),
        "11000000101010000000000100000001"
    );
    assert_eq!(
        convert_decimals_to_binary("0").unwrap(),
        "00000000000000000000000000000000"
    );
}

#[test]
fn decimal_to_binary_errors() {
    assert_eq!(convert_decimals_to_binary("abc"), Err(ConvError::NotDecimal));
    assert_eq!(convert_decimals_to_binary(""), Err(ConvError::NotDecimal));
    assert_eq!(
        convert_decimals_to_binary("4294967296"),
        Err(ConvError::NotDecimal)
    );
}

#[test]
fn decimal_round_trip_extremes() {
    for x in ["0", "1", "4294967295", "3232235777"] {
        let b = convert_decimals_to_binary(x).unwrap();
        assert_eq!(convert_ip_binary_to_decimals(&b).unwrap(), x);
    }
}

#[test]
fn binary_to_decimals_errors() {
    assert_eq!(convert_ip_binary_to_decimals(""), Err(ConvError::BadLength));
    assert_eq!(convert_ip_binary_to_decimals("102"), Err(ConvError::NotBinary));
    assert_eq!(
        convert_ip_binary_to_decimals("111111111111111111111111111111111"),
        Err(ConvError::TooLarge)
    );
}

#[test]
fn octal_to_binary_known_value() {
    assert_eq!(
        convert_octals_to_binary("300250001001").unwrap(),
        "11000000101010000000000100000001"
    );
    assert_eq!(convert_octals_to_binary("").unwrap(), "");
}

#[test]
fn octal_to_binary_errors() {
    assert_eq!(convert_octals_to_binary("777"), Err(ConvError::NotOctal));
    assert_eq!(convert_octals_to_binary("008"), Err(ConvError::NotOctal));
}

#[test]
fn binary_to_octals_round_trip() {
    assert_eq!(
        convert_ip_binary_to_octals("11000000101010000000000100000001").unwrap(),
        "300250001001"
    );
    assert_eq!(
        convert_ip_binary_to_octals("0111"),
        Err(ConvError::BadLength)
    );
}

#[test]
fn binary_to_dotted_known_value() {
    assert_eq!(
        convert_ip_binary_to_dotted_decimals("11000000101010000000000100000001").unwrap(),
        "192.168.1.1"
    );
    assert_eq!(
        convert_ip_binary_to_dotted_decimals("0101"),
        Err(ConvError::BadLength)
    );
    assert_eq!(
        convert_ip_binary_to_dotted_decimals("1100000010101000000000010000000x"),
        Err(ConvError::NotBinary)
    );
}

#[test]
fn binary_to_mapped_ipv6_zero() {
    assert_eq!(
        convert_ip_binary_to_ipv6("00000000000000000000000000000000").unwrap(),
        "::ffff:0000:0000"
    );
}

#[test]
fn binary_to_mapped_ipv6_known_value() {
    assert_eq!(
        convert_ip_binary_to_ipv6("11000000101010000000000100000001").unwrap(),
        "::ffff:c0a8:0101"
    );
    assert_eq!(
        convert_ip_binary_to_ipv6("110000001010100000000001000000"),
        Err(ConvError::BadLength)
    );
}
