//! Membership of a nullary in a shared FST map of evaluations.
use std::sync::Arc;
use vstd::prelude::*;
use crate::layers::{lemma_map_layer, map_layer_get, MapLayer};
use crate::text::utf8;

verus! {

/// A nullary and the map of evaluations to look it up in.
pub struct NullaryAndFst<'a> {
    pub nullary: &'a String,
    pub fst: Arc<MapLayer>,
}

/// Whether the map (one fst wrote) holds the nullary as a key.
pub fn fst_contains_nullary(params: NullaryAndFst) -> (r: bool)
    requires
        params.fst.intact(),
    ensures
        r == params.fst.entries().contains_key(utf8(params.nullary@)),
{
    let layer: &MapLayer = &params.fst;
    proof {
        lemma_map_layer(layer);
    }
    map_layer_get(&layer.map, params.nullary.as_str().as_bytes()).is_some()
}

} // verus!
