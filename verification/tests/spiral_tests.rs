use textual_geometry::{
    scan_order, to_raster, CodecError, Point, PreGeometry, SpiralGeometry,
};

fn raster_pre(dim: u32, pts: &Vec<Point>) -> PreGeometry {
    ((dim, dim), to_raster(dim, pts))
}

#[test]
fn single_zero_digit_marks_quadrant_zero_origin() {
    let g = SpiralGeometry::new(4).unwrap();
    let pts = g.encode(&vec![0u8]).unwrap();
    assert_eq!(pts.len(), 1);
    assert_eq!(pts[0], Point { x: 0, y: 0, z: Some(255) });
}

#[test]
fn two_digits_mark_their_quadrants_in_scan_order() {
    // dim 8: quadrants are 2x2; quadrant 15's origin is (6, 6) and the
    // scan's second cell is the local (1, 0).
    let g = SpiralGeometry::new(8).unwrap();
    let pts = g.encode(&vec![0x0u8, 0xf]).unwrap();
    assert_eq!(pts.len(), 2);
    assert_eq!(pts[0], Point { x: 0, y: 0, z: Some(255) });
    assert_eq!(pts[1], Point { x: 7, y: 6, z: Some(255) });
    // at dim 4 every quadrant has a single cell, so a second digit is
    // beyond capacity and must be rejected rather than dropped
    let tiny = SpiralGeometry::new(4).unwrap();
    assert_eq!(tiny.encode(&vec![0x0u8, 0xf]).unwrap_err(), CodecError::CapacityExceeded);
}

#[test]
fn dim_not_divisible_by_four_is_rejected() {
    assert_eq!(SpiralGeometry::new(9).unwrap_err(), CodecError::InvalidDimension);
    assert_eq!(SpiralGeometry::new(6).unwrap_err(), CodecError::InvalidDimension);
    assert!(SpiralGeometry::new(0).is_ok());
    assert!(SpiralGeometry::new(256).is_ok());
}

#[test]
fn round_trip_small() {
    let g = SpiralGeometry::new(8).unwrap();
    for seq in [vec![], vec![5u8], vec![1, 2], vec![15, 15, 15], vec![0, 9, 4, 11]] {
        let pts = g.encode(&seq).unwrap();
        let out = g.decode(&raster_pre(8, &pts)).unwrap();
        assert_eq!(out.nibbles, seq);
        assert!(!out.ambiguous);
    }
}

#[test]
fn capacity_boundary() {
    // dim 8: each quadrant is 2x2, so capacity is 4 scan steps.
    let g = SpiralGeometry::new(8).unwrap();
    assert_eq!(g.capacity(), 4);
    let at = vec![1u8, 2, 3, 4];
    let pts = g.encode(&at).unwrap();
    let out = g.decode(&raster_pre(8, &pts)).unwrap();
    assert_eq!(out.nibbles, at);
    let over = vec![1u8, 2, 3, 4, 5];
    assert_eq!(g.encode(&over).unwrap_err(), CodecError::CapacityExceeded);
}

#[test]
fn encode_is_deterministic() {
    let g = SpiralGeometry::new(16).unwrap();
    let seq = vec![3u8, 14, 0, 7, 7, 1];
    let a = g.encode(&seq).unwrap();
    let b = g.encode(&seq).unwrap();
    assert_eq!(a, b);
}

#[test]
fn one_hot_at_every_scan_step() {
    let dim = 16u32;
    let s = dim / 4;
    let g = SpiralGeometry::new(dim).unwrap();
    let seq = vec![4u8, 4, 0, 15, 9, 9, 2];
    let pts = g.encode(&seq).unwrap();
    let raster = to_raster(dim, &pts);
    let order = scan_order(s);
    for (t, cell) in order.iter().enumerate() {
        let mut lit = 0;
        for q in 0..16u32 {
            let x = (q % 4) * s + cell.0;
            let y = (q / 4) * s + cell.1;
            let z = raster[(y * dim + x) as usize].z.unwrap_or(0);
            if z > 0 {
                lit += 1;
            }
        }
        if t < seq.len() {
            assert_eq!(lit, 1);
        } else {
            assert_eq!(lit, 0);
        }
    }
}

#[test]
fn zero_and_multi_lit_quadrants() {
    // dim 4: one scan step, quadrants are single pixels. Light quadrants
    // 2 and 5 by hand: decode picks the lowest index and flags ambiguity.
    let mut pts: Vec<Point> = Vec::new();
    pts.push(Point { x: 2, y: 0, z: Some(255) }); // quadrant 2's only cell
    pts.push(Point { x: 1, y: 1, z: Some(255) }); // quadrant 5's only cell
    let g = SpiralGeometry::new(4).unwrap();
    let out = g.decode(&raster_pre(4, &pts)).unwrap();
    assert_eq!(out.nibbles, vec![2u8]);
    assert!(out.ambiguous);

    // an all-zero raster decodes to the empty sequence
    let empty = g.decode(&raster_pre(4, &Vec::new())).unwrap();
    assert_eq!(empty.nibbles, Vec::<u8>::new());
    assert!(!empty.ambiguous);
}

#[test]
fn decode_errors_on_malformed_pregeometry() {
    let g = SpiralGeometry::new(8).unwrap();
    let pts = g.encode(&vec![1u8, 2]).unwrap();
    let raster = to_raster(8, &pts);
    // declared dimensions that do not match the configured one
    let mismatched: PreGeometry = ((8, 4), raster.clone());
    assert_eq!(g.decode(&mismatched).unwrap_err(), CodecError::DimensionMismatch);
    // a point list shorter than width * height
    let truncated: PreGeometry = ((8, 8), raster[..10].to_vec());
    assert_eq!(g.decode(&truncated).unwrap_err(), CodecError::TruncatedRaster);
}
