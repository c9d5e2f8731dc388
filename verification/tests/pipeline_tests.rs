use textual_geometry::{
    bytes_to_nibbles, encode_all, hex_digits_to_bytes, nibbles_to_bytes, spiral_decode,
    spiral_encode, to_raster, Codec, CodecError, PreGeometry, Strategy, DEFAULT_DIM,
};

#[test]
fn text_round_trip_through_default_canvas() {
    let input: Vec<u8> = b"the rings close in, one cell at a time".to_vec();
    let pts = spiral_encode(&input).unwrap();
    assert_eq!(pts.len(), 2 * input.len());
    let pre: PreGeometry = ((DEFAULT_DIM, DEFAULT_DIM), to_raster(DEFAULT_DIM, &pts));
    let back = spiral_decode(&pre).unwrap();
    assert_eq!(back, input);
}

#[test]
fn text_capacity_boundary() {
    // the default canvas holds 64*64 = 4096 nibbles: 2048 bytes
    let exact = vec![0xC4u8; 2048];
    let pts = spiral_encode(&exact).unwrap();
    assert_eq!(pts.len(), 4096);
    let pre: PreGeometry = ((DEFAULT_DIM, DEFAULT_DIM), to_raster(DEFAULT_DIM, &pts));
    assert_eq!(spiral_decode(&pre).unwrap(), exact);
    let over = vec![0xC4u8; 2049];
    assert_eq!(spiral_encode(&over).unwrap_err(), CodecError::CapacityExceeded);
}

#[test]
fn encode_all_matches_spiral_encode() {
    let input: Vec<u8> = b"carrier".to_vec();
    assert_eq!(encode_all(&input).unwrap(), spiral_encode(&input).unwrap());
}

#[test]
fn decode_rejects_off_by_one_dimension() {
    // a snapshot whose declared dimension is off by one from the true
    // encode dimension must fail, not silently return wrong data
    let pts = spiral_encode(&b"x".to_vec()).unwrap();
    let raster = to_raster(DEFAULT_DIM, &pts);
    let off: PreGeometry = ((DEFAULT_DIM + 1, DEFAULT_DIM + 1), raster);
    assert_eq!(spiral_decode(&off).unwrap_err(), CodecError::InvalidDimension);
}

#[test]
fn nibble_conversion_agrees_with_hex_crate() {
    let data: Vec<u8> = vec![0x00, 0xab, 0xff, 0x10, 0x7e];
    let nibbles = bytes_to_nibbles(&data);
    assert_eq!(nibbles, vec![0x0, 0x0, 0xa, 0xb, 0xf, 0xf, 0x1, 0x0, 0x7, 0xe]);
    let from_hex_str: Vec<u8> = hex::encode(&data)
        .bytes()
        .map(|c| if c >= b'a' { c - b'a' + 10 } else { c - b'0' })
        .collect();
    assert_eq!(nibbles, from_hex_str);
    assert_eq!(nibbles_to_bytes(&nibbles).unwrap(), data);
}

#[test]
fn odd_nibble_count_cannot_form_bytes() {
    assert_eq!(
        nibbles_to_bytes(&vec![1u8, 2, 3]).unwrap_err(),
        CodecError::HexOddLength
    );
}

#[test]
fn codec_dispatch_configures_and_round_trips() {
    assert_eq!(
        Codec::configure(Strategy::Spiral, 9).unwrap_err(),
        CodecError::InvalidDimension
    );
    assert_eq!(
        Codec::configure(Strategy::Block, 3).unwrap_err(),
        CodecError::InvalidDimension
    );
    // a dimension the block strategy takes but the spiral one refuses
    assert!(Codec::configure(Strategy::Block, 6).is_ok());
    assert!(Codec::configure(Strategy::Spiral, 6).is_err());

    let seq = vec![11u8, 0, 4, 13];
    for (strategy, dim, cap) in [(Strategy::Spiral, 8u32, 4usize), (Strategy::Block, 4, 28)] {
        let codec = Codec::configure(strategy, dim).unwrap();
        assert_eq!(codec.capacity(), cap);
        let pts = codec.encode(&seq).unwrap();
        let pre: PreGeometry = ((dim, dim), to_raster(dim, &pts));
        let out = codec.decode(&pre).unwrap();
        assert_eq!(out.nibbles, seq);
        assert!(!out.ambiguous);
    }
}

#[test]
fn hex_digit_decoding_and_its_errors() {
    let ok = hex_digits_to_bytes(&b"0aFf10".to_vec()).unwrap();
    assert_eq!(ok, vec![0x0a, 0xff, 0x10]);
    assert_eq!(
        hex_digits_to_bytes(&b"abc".to_vec()).unwrap_err(),
        CodecError::HexOddLength
    );
    assert_eq!(
        hex_digits_to_bytes(&b"zz".to_vec()).unwrap_err(),
        CodecError::HexInvalidChar
    );
    // round trip with the encoding direction
    let data = vec![1u8, 2, 250];
    assert_eq!(
        hex_digits_to_bytes(&hex::encode(&data).into_bytes()).unwrap(),
        data
    );
}
