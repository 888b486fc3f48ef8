//! From the bytes of a top-level container to the grids it holds.
//!
//! A top-level container holds one record per asset; each asset record is
//! itself a container whose six records describe one grid. Assets that are
//! not well-formed containers, or whose records do not describe a grid, are
//! skipped.

use vstd::prelude::*;
use crate::container::{ContainerError, contents, is_container, parse, parse_error, records};
use crate::grid::{Grid, IndexVariant, decodable, decode_grid, is_decoding};

verus! {

/// The asset record `rec` is a container whose records describe a grid.
pub open spec fn asset_decodes(rec: Seq<u8>) -> bool {
    is_container(rec) && decodable(records(rec))
}

/// Indices, in order, of the first `upto` assets that describe a grid.
pub open spec fn kept_assets(assets: Seq<Seq<u8>>, upto: int) -> Seq<int>
    decreases upto,
{
    if upto <= 0 {
        Seq::empty()
    } else if asset_decodes(assets[upto - 1]) {
        kept_assets(assets, upto - 1).push(upto - 1)
    } else {
        kept_assets(assets, upto - 1)
    }
}

/// The grids of all assets in a top-level container, in asset order.
///
/// Fails only when `bytes` itself is not a container; an asset that is not
/// a container, or whose records do not describe a grid, is skipped.
pub fn decode_assets(bytes: &[u8], variant: IndexVariant) -> (r: Result<Vec<Grid>, ContainerError>)
    ensures
        match r {
            Ok(grids) => {
                let assets = records(bytes@);
                let kept = kept_assets(assets, assets.len() as int);
                &&& is_container(bytes@)
                &&& grids@.len() == kept.len()
                &&& forall|j: int|
                    0 <= j < grids@.len() ==> is_decoding(
                        records(assets[kept[j]]),
                        variant,
                        &#[trigger] grids@[j],
                    )
            },
            Err(e) => !is_container(bytes@) && e == parse_error(bytes@),
        },
{
    let outer = match parse(bytes) {
        Ok(v) => v,
        Err(e) => {
            return Err(e);
        },
    };
    let ghost assets = records(bytes@);
    let n = outer.len();
    let mut grids: Vec<Grid> = Vec::new();
    let mut i: usize = 0;
    while i < n
        invariant
            n == outer@.len(),
            contents(outer@) == assets,
            assets == records(bytes@),
            i <= n,
            grids@.len() == kept_assets(assets, i as int).len(),
            forall|j: int|
                0 <= j < grids@.len() ==> is_decoding(
                    records(assets[kept_assets(assets, i as int)[j]]),
                    variant,
                    &#[trigger] grids@[j],
                ),
        decreases n - i,
    {
        assert(outer@[i as int]@ == assets[i as int]);
        match parse(outer[i].as_slice()) {
            Ok(recs) => {
                match decode_grid(&recs, variant) {
                    Ok(g) => {
                        grids.push(g);
                    },
                    Err(_) => {},
                }
            },
            Err(_) => {},
        }
        i = i + 1;
    }
    Ok(grids)
}

} // verus!
