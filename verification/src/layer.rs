//! Playback states of layers.

use std::collections::HashMap;
use vstd::prelude::*;
use vstd::std_specs::hash::{builds_valid_hashers, obeys_key_model};

verus! {

/// Playback state for a single layer.
#[derive(Debug, Clone, Default, PartialEq)]
pub enum LayerState {
    #[default]
    Stopped,
    Playing { filename: String },
    Paused { filename: String },
}

/// What is known of a layer.
pub enum LayerModel {
    Stopped,
    Playing { filename: Seq<char> },
    Paused { filename: Seq<char> },
}

impl View for LayerState {
    type V = LayerModel;

    open spec fn view(&self) -> LayerModel {
        match *self {
            LayerState::Stopped => LayerModel::Stopped,
            LayerState::Playing { filename } => LayerModel::Playing { filename: filename@ },
            LayerState::Paused { filename } => LayerModel::Paused { filename: filename@ },
        }
    }
}

impl LayerState {
    /// The same state.
    pub fn copied(&self) -> (state: LayerState)
        ensures
            state@ == self@,
    {
        match self {
            LayerState::Stopped => LayerState::Stopped,
            LayerState::Playing { filename } => LayerState::Playing { filename: filename.clone() },
            LayerState::Paused { filename } => LayerState::Paused { filename: filename.clone() },
        }
    }
}

/// What is known of each layer.
pub open spec fn layer_models(states: Map<u16, LayerState>) -> Map<u16, LayerModel> {
    states.map_values(|state: LayerState| state@)
}

/// The numbers stand in ascending order, none of them twice.
pub open spec fn ascending(layers: Seq<u16>) -> bool {
    forall|i: int, j: int| 0 <= i < j < layers.len() ==> layers[i] < layers[j]
}

/// Puts a number into a row of numbers in ascending order.
fn insert_ascending(layers: &mut Vec<u16>, layer: u16)
    requires
        ascending(old(layers)@),
        !old(layers)@.contains(layer),
    ensures
        ascending(final(layers)@),
        forall|l: u16| #[trigger]
            final(layers)@.contains(l) <==> l == layer || old(layers)@.contains(l),
{
    let ghost before = layers@;
    let mut at: usize = 0;
    while at < layers.len() && layers[at] < layer
        invariant
            layers@ == before,
            at <= layers@.len(),
            forall|i: int| 0 <= i < at ==> layers@[i] < layer,
        decreases layers.len() - at,
    {
        at = at + 1;
    }
    proof {
        if at < before.len() {
            assert(before.contains(before[at as int]));
        }
    }
    layers.insert(at, layer);
    proof {
        let after = layers@;
        assert forall|l: u16| l == layer || before.contains(l) implies #[trigger] after.contains(
            l,
        ) by {
            if l == layer {
                assert(after[at as int] == layer);
            } else {
                let i = choose|i: int| 0 <= i < before.len() && before[i] == l;
                if i < at {
                    assert(after[i] == l);
                } else {
                    assert(after[i + 1] == l);
                }
            }
        }
        assert forall|l: u16| #[trigger] after.contains(l) implies l == layer || before.contains(
            l,
        ) by {
            let i = choose|i: int| 0 <= i < after.len() && after[i] == l;
            if i < at {
                assert(before[i] == l);
            } else if i > at {
                assert(before[i - 1] == l);
            }
        }
        assert(ascending(after));
    }
}

proof fn lemma_next_layer(layers: Seq<u16>, i: int)
    requires
        layers.no_duplicates(),
        0 <= i < layers.len(),
    ensures
        !layers.take(i).contains(layers[i]),
        forall|l: u16| #[trigger]
            layers.take(i + 1).contains(l) <==> l == layers[i] || layers.take(i).contains(l),
        i + 1 == layers.len() ==> layers.take(i + 1) == layers,
{
    let before = layers.take(i);
    let after = layers.take(i + 1);
    assert(after =~= before.push(layers[i]));
    if before.contains(layers[i]) {
        let j = choose|j: int| 0 <= j < i && before[j] == layers[i];
        assert(layers[j] == layers[i]);
    }
    assert forall|l: u16| l == layers[i] || before.contains(l) implies #[trigger] after.contains(
        l,
    ) by {
        if l == layers[i] {
            assert(after[i] == l);
        } else {
            let j = choose|j: int| 0 <= j < i && before[j] == l;
            assert(after[j] == l);
        }
    }
}

/// The layers of a map, in ascending order.
pub fn sorted_layers(states: &HashMap<u16, LayerState>) -> (layers: Vec<u16>)
    ensures
        ascending(layers@),
        forall|l: u16| #[trigger] layers@.contains(l) <==> states@.contains_key(l),
{
    broadcast use vstd::std_specs::hash::group_hash_axioms;

    let mut layers: Vec<u16> = Vec::new();
    for key in it: states.keys()
        invariant
            obeys_key_model::<u16>(),
            builds_valid_hashers::<std::hash::RandomState>(),
            it.seq().unref().to_set() == states@.dom(),
            it.seq().unref().no_duplicates(),
            ascending(layers@),
            forall|l: u16| #[trigger]
                layers@.contains(l) <==> it.seq().unref().take(it.index() as int).contains(l),
            it.index() == it.seq().len() ==> forall|l: u16| #[trigger]
                layers@.contains(l) <==> states@.contains_key(l),
    {
        proof {
            lemma_next_layer(it.seq().unref(), it.index() as int);
        }
        insert_ascending(&mut layers, *key);
    }
    layers
}

/// In a row of layers in ascending order an earlier one is less than a later one, and so no layer
/// stands in it twice.
pub proof fn law_ascending_rows_are_sorted(layers: Seq<u16>, i: int, j: int)
    requires
        ascending(layers),
        0 <= i < j < layers.len(),
    ensures
        layers[i] < layers[j],
{
}

} // verus!
