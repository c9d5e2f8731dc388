use textual_geometry::{to_raster, CodecError, DBLGeometry, Point, PreGeometry};

fn raster_pre(dim: u32, pts: &Vec<Point>) -> PreGeometry {
    ((dim, dim), to_raster(dim, pts))
}

fn round_trip(dim: u32, seq: &Vec<u8>) {
    let g = DBLGeometry::new(dim).unwrap();
    let pts = g.encode(seq).unwrap();
    let out = g.decode(&raster_pre(dim, &pts)).unwrap();
    assert_eq!(&out, seq);
}

#[test]
fn single_nibble_block_layout() {
    // dim 4: four 2x2 blocks. One nibble 0xa (bits 0,1,0,1 from least
    // significant) lands in block 0 at bit 7; the layer count 1 sits in
    // block 0's bit-0 pattern, and the boundary marker on block 1.
    let g = DBLGeometry::new(4).unwrap();
    let seq = vec![0xau8];
    let pts = g.encode(&seq).unwrap();
    assert_eq!(pts.len(), 16);
    // block 0 at origin (0,0): sub-pixels TL, TR, BL, BR
    assert_eq!(pts[0], Point { x: 0, y: 0, z: Some(1) }); // bit0 of 0xa = 0; layer bit = 1
    assert_eq!(pts[1], Point { x: 1, y: 0, z: Some(128) }); // bit1 of 0xa = 1, at bit 7
    assert_eq!(pts[2], Point { x: 0, y: 1, z: Some(0) });
    assert_eq!(pts[3], Point { x: 1, y: 1, z: Some(128) });
    // block 1 at origin (2,0): only the boundary marker
    assert_eq!(pts[4], Point { x: 2, y: 0, z: Some(1) });
    assert_eq!(pts[5], Point { x: 3, y: 0, z: Some(0) });
    // blocks 2 and 3 are silent
    assert_eq!(pts[8].z, Some(0));
    assert_eq!(pts[12].z, Some(0));
    let out = g.decode(&raster_pre(4, &pts)).unwrap();
    assert_eq!(out, seq);
}

#[test]
fn dim_not_divisible_by_two_is_rejected() {
    assert_eq!(DBLGeometry::new(5).unwrap_err(), CodecError::InvalidDimension);
    assert_eq!(DBLGeometry::new(0).unwrap_err(), CodecError::InvalidDimension);
    assert!(DBLGeometry::new(2).is_ok());
    assert!(DBLGeometry::new(64).is_ok());
}

#[test]
fn round_trip_every_layer_count() {
    // dim 4 holds 4 blocks, so layer j covers nibbles 4j..4j+4.
    let mut seq: Vec<u8> = Vec::new();
    let mut v = 0u8;
    for layers in 1..=7u32 {
        // a full stack of `layers` chunks ...
        while seq.len() < (4 * layers) as usize {
            seq.push(v % 16);
            v = v.wrapping_mul(7).wrapping_add(3);
        }
        round_trip(4, &seq);
        // ... and a partial final chunk
        if seq.len() >= 2 {
            let partial = seq[..seq.len() - 2].to_vec();
            round_trip(4, &partial);
        }
    }
}

#[test]
fn eighth_chunk_is_rejected() {
    let g = DBLGeometry::new(4).unwrap();
    assert_eq!(g.capacity(), 28);
    let full: Vec<u8> = (0..28u8).map(|i| i % 16).collect();
    round_trip(4, &full);
    let over: Vec<u8> = (0..29u8).map(|i| i % 16).collect();
    assert_eq!(g.encode(&over).unwrap_err(), CodecError::CapacityExceeded);
}

#[test]
fn empty_sequence_round_trips() {
    round_trip(4, &Vec::new());
    round_trip(2, &Vec::new());
}

#[test]
fn thirty_seven_byte_message_at_dim_64() {
    // 37 bytes = 74 nibbles in a single layer of the 1024-block canvas
    let mut bytes: Vec<u8> = Vec::new();
    let mut x = 0x5eedu32;
    for _ in 0..37 {
        x = x.wrapping_mul(1103515245).wrapping_add(12345);
        bytes.push((x >> 16) as u8);
    }
    let nibbles: Vec<u8> = bytes.iter().flat_map(|b| [b >> 4, b & 15]).collect();
    let g = DBLGeometry::new(64).unwrap();
    let pts = g.encode(&nibbles).unwrap();
    assert_eq!(pts.len(), 4 * 1024);
    let out = g.decode(&raster_pre(64, &pts)).unwrap();
    assert_eq!(out, nibbles);
    let back: Vec<u8> = out.chunks(2).map(|p| (p[0] << 4) | p[1]).collect();
    assert_eq!(back, bytes);
}

#[test]
fn block_encode_is_deterministic() {
    let g = DBLGeometry::new(8).unwrap();
    let seq = vec![1u8, 15, 3, 3, 0, 12, 9];
    assert_eq!(g.encode(&seq).unwrap(), g.encode(&seq).unwrap());
}

#[test]
fn out_of_range_layer_count_is_a_decode_error() {
    // dim 2: a single block. Write a bit-0 pattern spelling 9 layers.
    let pts = vec![
        Point { x: 0, y: 0, z: Some(1) },
        Point { x: 1, y: 0, z: Some(0) },
        Point { x: 0, y: 1, z: Some(0) },
        Point { x: 1, y: 1, z: Some(1) },
    ];
    let g = DBLGeometry::new(2).unwrap();
    assert_eq!(
        g.decode(&raster_pre(2, &pts)).unwrap_err(),
        CodecError::MalformedMetadata
    );
}

#[test]
fn block_decode_errors_on_malformed_pregeometry() {
    let g = DBLGeometry::new(4).unwrap();
    let pts = g.encode(&vec![7u8]).unwrap();
    let raster = to_raster(4, &pts);
    let mismatched: PreGeometry = ((4, 2), raster.clone());
    assert_eq!(g.decode(&mismatched).unwrap_err(), CodecError::DimensionMismatch);
    let truncated: PreGeometry = ((4, 4), raster[..15].to_vec());
    assert_eq!(g.decode(&truncated).unwrap_err(), CodecError::TruncatedRaster);
}

#[test]
fn bit_helpers_invert_each_other() {
    let g = DBLGeometry::new(4).unwrap();
    for n in 0..16u32 {
        let bits = g.hex_to_bits(n);
        assert_eq!(bits.len(), 4);
        let bools: Vec<bool> = bits.iter().map(|&b| b == 1).collect();
        assert_eq!(g.bits_to_hex(&bools), n as usize);
    }
    assert_eq!(g.hex_to_bits(0xa), vec![0, 1, 0, 1]);
}

#[test]
fn smallest_canvas_round_trips() {
    // dim 2: a single block carrying up to 7 nibbles, one per layer
    round_trip(2, &vec![5u8]);
    round_trip(2, &vec![0u8, 15, 1, 8, 3, 12, 7]);
}
