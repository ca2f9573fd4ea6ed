use fgddem::mosaic::{
    common_tile_shape, crop_tile, layout_fits, CropError, processing_order, tiff_tile_range, FinishedTile, MergeError,
    TileAssembler, TIFF_TILE_H, TIFF_TILE_W,
};

#[test]
fn tile_range_of_a_source() {
    assert_eq!(tiff_tile_range(0, 0, 225, 150), (0, 0, 0, 0));
    assert_eq!(tiff_tile_range(225, 150, 225, 150), (0, 1, 0, 1));
    assert_eq!(tiff_tile_range(256, 512, 256, 1), (1, 1, 2, 2));
    assert_eq!(tiff_tile_range(255, 0, 2, 1), (0, 1, 0, 0));
}

#[test]
fn order_is_by_row_then_column_and_stable() {
    let offsets = vec![(10, 5), (0, 5), (3, 0), (0, 5), (7, 9)];
    assert_eq!(processing_order(&offsets), vec![2, 1, 3, 0, 4]);
    assert_eq!(processing_order(&vec![]), Vec::<usize>::new());
}

#[test]
fn common_shape_of_sources() {
    assert!(matches!(common_tile_shape(&vec![]), Err(MergeError::NoInputs)));
    assert_eq!(common_tile_shape(&vec![(3, 4), (3, 4)]).unwrap(), (3, 4));
    match common_tile_shape(&vec![(3, 4), (3, 4), (4, 3), (1, 1)]) {
        Err(MergeError::ShapeMismatch { index, expected, found }) => {
            assert_eq!((index, expected, found), (2, (3, 4), (4, 3)));
        }
        other => panic!("unexpected {:?}", other),
    }
}

#[test]
fn layout_checks() {
    assert!(layout_fits(400, 400, 200, 200, &vec![(0, 0), (200, 200)]));
    assert!(!layout_fits(400, 400, 0, 200, &vec![(0, 0)]));
    // The last tile the source reaches starts at column 512, past the mosaic.
    assert!(!layout_fits(500, 400, 200, 200, &vec![(400, 0)]));
    assert!(!layout_fits(usize::MAX, 10, 2, 1, &vec![(usize::MAX - 1, 0)]));
}

/// The value that the mosaic holds at `(x, y)` after laying down `sources` in
/// order over `fill`.
fn expected_at(sources: &[((usize, usize), Vec<i32>)], w: usize, h: usize, x: usize, y: usize, fill: i32) -> i32 {
    let mut v = fill;
    for ((c, r), vals) in sources {
        if *c <= x && x < c + w && *r <= y && y < r + h {
            v = vals[(y - r) * w + (x - c)];
        }
    }
    v
}

fn check_tile(t: &FinishedTile<i32>, sources: &[((usize, usize), Vec<i32>)], w: usize, h: usize, fill: i32) {
    assert_eq!(t.data.len(), t.width * t.height);
    for j in 0..t.data.len() {
        let x = t.x + j % t.width;
        let y = t.y + j / t.width;
        assert_eq!(t.data[j], expected_at(sources, w, h, x, y, fill), "pixel ({}, {})", x, y);
    }
}

fn assemble(width: usize, height: usize, w: usize, h: usize, sources: &[((usize, usize), Vec<i32>)], fill: i32) -> Vec<(usize, FinishedTile<i32>)> {
    let placements: Vec<(usize, usize)> = sources.iter().map(|s| s.0).collect();
    assert!(layout_fits(width, height, w, h, &placements));
    let mut a = TileAssembler::new(width, height, w, h, placements, fill);
    let mut out = Vec::new();
    for (k, (_, vals)) in sources.iter().enumerate() {
        assert!(!a.is_drained());
        assert!(a.holds_source(vals.len()));
        for t in a.add_next(vals) {
            out.push((k, t));
        }
        assert_eq!(a.laid_count(), k + 1);
    }
    assert!(a.is_drained());
    out
}

#[test]
fn four_sources_make_four_tiles() {
    let (w, h) = (200, 200);
    let mut sources = Vec::new();
    for (i, p) in [(0, 0), (200, 0), (0, 200), (200, 200)].iter().enumerate() {
        let vals: Vec<i32> = (0..(w * h) as i32).map(|v| v + 100_000 * i as i32).collect();
        sources.push((*p, vals));
    }
    let out = assemble(400, 400, w, h, &sources, -9999);
    let coords: Vec<(usize, usize, usize)> = out.iter().map(|(k, t)| (*k, t.x, t.y)).collect();
    // The last source reaches all four tiles, so all of them wait for it.
    assert_eq!(coords, vec![(3, 0, 0), (3, 256, 0), (3, 0, 256), (3, 256, 256)]);
    for (_, t) in &out {
        assert_eq!((t.width, t.height), (if t.x == 0 { 256 } else { 144 }, if t.y == 0 { 256 } else { 144 }));
        check_tile(t, &sources, w, h, -9999);
    }
}

#[test]
fn later_sources_win_and_gaps_keep_the_fill() {
    let (w, h) = (3, 2);
    let sources = vec![
        ((0, 0), vec![1, 2, 3, 4, 5, 6]),
        ((2, 1), vec![7, 8, 9, 10, 11, 12]),
    ];
    let out = assemble(6, 4, w, h, &sources, 0);
    assert_eq!(out.len(), 1);
    let (k, t) = &out[0];
    assert_eq!((*k, t.x, t.y, t.width, t.height), (1, 0, 0, 6, 4));
    assert_eq!(
        t.data,
        vec![1, 2, 3, 0, 0, 0, 4, 5, 7, 8, 9, 0, 0, 0, 10, 11, 12, 0, 0, 0, 0, 0, 0, 0]
    );
    check_tile(t, &sources, w, h, 0);
}

#[test]
fn a_tile_waits_for_its_last_source() {
    let (w, h) = (300, 10);
    let sources = vec![
        ((0, 0), vec![1; 3000]),
        ((300, 0), vec![2; 3000]),
        ((0, 20), vec![3; 3000]),
    ];
    let out = assemble(600, 30, w, h, &sources, -1);
    let coords: Vec<(usize, usize, usize)> = out.iter().map(|(k, t)| (*k, t.x, t.y)).collect();
    // Tile column 2 is reached by the second source only; columns 0 and 1 wait
    // for the third.
    assert_eq!(coords, vec![(1, 512, 0), (2, 0, 0), (2, 256, 0)]);
    for (_, t) in &out {
        assert_eq!(t.height, 30);
        check_tile(t, &sources, w, h, -1);
    }
    assert_eq!(TIFF_TILE_W * TIFF_TILE_H, 65536);
}

#[test]
fn merging_f64_values() {
    let sources = vec![((1, 1), vec![1.5f64, 2.5, 3.5, 4.5])];
    let mut a = TileAssembler::new(3, 3, 2, 2, vec![(1, 1)], -9999.0f64);
    let out = a.add_next(&sources[0].1);
    assert_eq!(out.len(), 1);
    assert_eq!(out[0].data, vec![-9999.0, -9999.0, -9999.0, -9999.0, 1.5, 2.5, -9999.0, 3.5, 4.5]);
}

#[test]
fn crop_refuses_a_buffer_of_the_wrong_length() {
    assert_eq!(crop_tile(&vec![0.0f64; 10], 0, 0, 5, 5).unwrap_err(), CropError::BufferLength(10));
    let t = crop_tile(&vec![7i32; 65536], 1, 0, 300, 2).unwrap();
    assert_eq!((t.x, t.y, t.width, t.height, t.data.len()), (256, 0, 44, 2, 88));
}

#[test]
fn disjoint_sources_in_any_order_give_the_same_mosaic() {
    let (w, h) = (3, 2);
    let a = ((0, 0), vec![1, 2, 3, 4, 5, 6]);
    let b = ((3, 0), vec![7, 8, 9, 10, 11, 12]);
    let c = ((1, 2), vec![13, 14, 15, 16, 17, 18]);
    let one = assemble(6, 4, w, h, &[a.clone(), b.clone(), c.clone()], 0);
    let two = assemble(6, 4, w, h, &[c, a, b], 0);
    assert_eq!(one.len(), 1);
    assert_eq!(one[0].1.data, two[0].1.data);
}
