use grid_overlay::asset::decode_assets;
use grid_overlay::container::{encode, ContainerError};
use grid_overlay::grid::{get_grid_value, IndexVariant};

fn grid_records(value: u8) -> Vec<Vec<u8>> {
    vec![
        vec![1, 1, 0],
        vec![0; 4],
        vec![0; 8],
        vec![0; 8],
        vec![0; 8],
        vec![value; 64],
    ]
}

#[test]
fn assets_that_do_not_decode_are_skipped() {
    let good_a = encode(&grid_records(3)).unwrap();
    let five = encode(&grid_records(4)[..5].to_vec()).unwrap();
    let not_a_container = vec![1, 2];
    let good_b = encode(&grid_records(9)).unwrap();
    let top = encode(&vec![good_a, five, not_a_container, good_b]).unwrap();
    let grids = decode_assets(&top, IndexVariant::Segment).unwrap();
    assert_eq!(grids.len(), 2);
    assert_eq!(get_grid_value(&grids[0], 5, 100), Ok(3));
    assert_eq!(get_grid_value(&grids[1], 127, 0), Ok(9));
}

#[test]
fn top_level_must_be_a_container() {
    assert!(matches!(decode_assets(&[0, 0], IndexVariant::Segment), Err(ContainerError::MissingCount)));
    let empty = encode(&vec![]).unwrap();
    assert_eq!(decode_assets(&empty, IndexVariant::Header).unwrap().len(), 0);
}
