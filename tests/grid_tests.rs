use grid_overlay::grid::{decode_grid, get_grid_value, to_u16s, Grid, GridError, GridInfo, IndexVariant};

fn numbered_blocks(n: usize) -> Vec<[[u8; 8]; 8]> {
    (0..n)
        .map(|k| {
            let mut b = [[0u8; 8]; 8];
            for r in 0..8 {
                for c in 0..8 {
                    b[r][c] = ((k * 64 + r * 8 + c) % 256) as u8;
                }
            }
            b
        })
        .collect()
}

fn single_block(width: u8, height: u8, variant: IndexVariant) -> Grid {
    let cells = width as usize * height as usize;
    Grid {
        info: GridInfo { width, height, c: vec![0; cells] },
        segment1: vec![0; 7],
        segment2: vec![0; 7],
        segment3: vec![0; 7],
        indices: vec![0; 7],
        blocks: numbered_blocks(1),
        variant,
    }
}

fn sample_grid(variant: IndexVariant) -> Grid {
    let segment1 = match variant {
        IndexVariant::Segment => vec![0, 1, 0, 1, 1, 0, 1, 0],
        IndexVariant::Header => vec![0, 0, 0, 0, 1, 1, 1, 1, 0, 0, 0, 0, 0, 0],
    };
    Grid {
        info: GridInfo { width: 2, height: 1, c: vec![0, 1] },
        segment1,
        segment2: (0..16).map(|i| i % 2).collect(),
        segment3: (0..16).map(|i| i % 3).collect(),
        indices: (0..16).map(|i| i % 4).collect(),
        blocks: numbered_blocks(4),
        variant,
    }
}

#[test]
fn to_u16s_reads_little_endian_pairs() {
    assert_eq!(to_u16s(&vec![0x34, 0x12, 0xff, 0xff, 0x01, 0x00]), vec![0x1234, 0xffff, 1]);
    assert_eq!(to_u16s(&vec![0x34, 0x12, 0x07]), vec![0x1234]);
    assert_eq!(to_u16s(&vec![]), Vec::<u16>::new());
}

fn six_records(blocks: usize) -> Vec<Vec<u8>> {
    vec![
        vec![2, 1, 0, 1, 77],
        vec![0, 1, 0, 1],
        vec![1, 0, 2, 0, 9],
        vec![3, 0],
        vec![0, 1, 0, 0],
        (0..blocks * 64).map(|i| (i % 251) as u8).collect(),
    ]
}

#[test]
fn decode_reshapes_six_records() {
    let g = decode_grid(&six_records(2), IndexVariant::Segment).unwrap();
    assert_eq!(g.info.width, 2);
    assert_eq!(g.info.height, 1);
    assert_eq!(g.info.c, vec![0, 1, 77]);
    assert_eq!(g.segment1, vec![0, 1, 0, 1]);
    assert_eq!(g.segment2, vec![1, 2]);
    assert_eq!(g.segment3, vec![3]);
    assert_eq!(g.indices, vec![256, 0]);
    assert_eq!(g.blocks.len(), 2);
    assert_eq!(g.blocks[0][0][0], 0);
    assert_eq!(g.blocks[0][1][2], 10);
    assert_eq!(g.blocks[1][7][7], (127 % 251) as u8);
    assert_eq!(g.variant, IndexVariant::Segment);
}

#[test]
fn decode_keeps_whole_macro_table() {
    let mut recs = six_records(1);
    recs[0] = vec![1, 1, 5, 6];
    let g = decode_grid(&recs, IndexVariant::Segment).unwrap();
    assert_eq!(g.info.c, vec![5, 6]);
    recs[0] = vec![1, 1, 5];
    let g = decode_grid(&recs, IndexVariant::Segment).unwrap();
    assert_eq!(g.info.c, vec![5]);
}

#[test]
fn decode_rejects_wrong_record_count() {
    let mut five = six_records(1);
    five.pop();
    assert!(matches!(decode_grid(&five, IndexVariant::Segment), Err(GridError::FormatError)));
    let mut seven = six_records(1);
    seven.push(vec![]);
    assert!(matches!(decode_grid(&seven, IndexVariant::Header), Err(GridError::FormatError)));
    assert!(matches!(decode_grid(&vec![], IndexVariant::Segment), Err(GridError::FormatError)));
}

#[test]
fn decode_rejects_partial_block() {
    for extra in [1usize, 10, 63] {
        let mut recs = six_records(3);
        recs[5].extend(vec![0; extra]);
        assert!(matches!(decode_grid(&recs, IndexVariant::Segment), Err(GridError::FormatError)));
    }
}

#[test]
fn decode_accepts_whole_blocks() {
    for k in [0usize, 1, 5] {
        let g = decode_grid(&six_records(k), IndexVariant::Segment).unwrap();
        assert_eq!(g.blocks.len(), k);
    }
}

#[test]
fn decode_rejects_short_info_record() {
    let mut recs = six_records(1);
    recs[0] = vec![2, 2, 0, 0, 0];
    assert!(matches!(decode_grid(&recs, IndexVariant::Segment), Err(GridError::FormatError)));
    recs[0] = vec![1];
    assert!(matches!(decode_grid(&recs, IndexVariant::Segment), Err(GridError::FormatError)));
}

#[test]
fn single_block_grid_reads_low_bits() {
    for variant in [IndexVariant::Segment, IndexVariant::Header] {
        let g = single_block(1, 1, variant);
        for y in 0..128u32 {
            for x in 0..128u32 {
                let expected = g.blocks[0][(y & 7) as usize][(x & 7) as usize];
                assert_eq!(get_grid_value(&g, x, y), Ok(expected));
            }
        }
    }
}

#[test]
fn single_block_grid_of_any_size() {
    let g = single_block(3, 2, IndexVariant::Header);
    for (x, y) in [(0u32, 0u32), (130, 5), (383, 255), (200, 129)] {
        assert_eq!(get_grid_value(&g, x, y), Ok(((y % 8) * 8 + x % 8) as u8));
    }
}

#[test]
fn repeated_resolution_is_identical() {
    let g = sample_grid(IndexVariant::Segment);
    let coords: Vec<(u32, u32)> = (0..256u32).flat_map(|x| (0..128u32).map(move |y| (x, y))).collect();
    let first: Vec<Result<u8, GridError>> = coords.iter().map(|&(x, y)| get_grid_value(&g, x, y)).collect();
    let second: Vec<Result<u8, GridError>> = coords.iter().map(|&(x, y)| get_grid_value(&g, x, y)).collect();
    assert_eq!(first, second);
    assert_eq!(g.info.c, vec![0, 1]);
}

#[test]
fn boundary_coordinates() {
    let g = single_block(2, 3, IndexVariant::Segment);
    assert_eq!(get_grid_value(&g, 255, 383), Ok(63));
    assert_eq!(get_grid_value(&g, 256, 0), Err(GridError::IndexOutOfRange));
    assert_eq!(get_grid_value(&g, 0, 384), Err(GridError::IndexOutOfRange));
    assert_eq!(get_grid_value(&g, u32::MAX, u32::MAX), Err(GridError::IndexOutOfRange));
}

#[test]
fn segment_descent_values() {
    let g = sample_grid(IndexVariant::Segment);
    let cases = [
        ((0, 0), 0),
        ((9, 3), 89),
        ((64, 64), 0),
        ((127, 127), 255),
        ((128, 0), 0),
        ((200, 100), 96),
        ((255, 127), 255),
        ((100, 70), 52),
    ];
    for ((x, y), v) in cases {
        assert_eq!(get_grid_value(&g, x, y), Ok(v), "pixel ({x}, {y})");
    }
}

#[test]
fn header_descent_values() {
    let g = sample_grid(IndexVariant::Header);
    let cases = [
        ((0, 0), 0),
        ((9, 3), 153),
        ((64, 64), 0),
        ((127, 127), 191),
        ((128, 0), 0),
        ((200, 100), 160),
        ((255, 127), 191),
        ((100, 70), 52),
    ];
    for ((x, y), v) in cases {
        assert_eq!(get_grid_value(&g, x, y), Ok(v), "pixel ({x}, {y})");
    }
}

#[test]
fn descent_index_out_of_range() {
    let mut g = single_block(1, 1, IndexVariant::Segment);
    g.segment1 = vec![0, 0];
    assert_eq!(get_grid_value(&g, 0, 0), Ok(0));
    assert_eq!(get_grid_value(&g, 64, 64), Err(GridError::IndexOutOfRange));
    let mut g = single_block(1, 1, IndexVariant::Segment);
    g.indices = vec![0, 0, 0, 5];
    assert_eq!(get_grid_value(&g, 0, 0), Ok(0));
    assert_eq!(get_grid_value(&g, 8, 8), Err(GridError::IndexOutOfRange));
    let mut g = single_block(1, 1, IndexVariant::Segment);
    g.info.c = vec![];
    assert_eq!(get_grid_value(&g, 0, 0), Err(GridError::IndexOutOfRange));
}
