use vstd::prelude::*;
use vstd::std_specs::cmp::PartialEqSpecImpl;

verus! {

/// The identity of a layer: stable for the lifetime of the document.
#[derive(Debug, Clone, Copy, PartialEq, Eq, Hash, Structural)]
pub struct LayerId(pub usize);

/// A place in the paint order.
#[derive(Debug, Clone, Copy, PartialEq, Eq, Hash, Structural)]
pub struct CanvasOrder(usize);

/// What a layer list shows of one layer.
#[derive(Debug, Clone, Copy, PartialEq, Eq, Hash, Structural)]
pub struct LayerConfig {
    pub id: LayerId,
    pub visible: bool,
}

/// One line of a layer configuration: a layer and whether it is shown.
#[derive(Debug, Clone, Copy, PartialEq, Eq, Hash, Structural)]
pub struct CanvasLayerConfig {
    pub id: LayerId,
    pub visible: bool,
}

/// The arrangement of a layer stack: its layers in order, each with its
/// visibility, and the layer that edits go to.
#[derive(Debug)]
pub struct CanvasLayersConfig {
    pub entries: Vec<CanvasLayerConfig>,
    pub active_layer_id: LayerId,
}

impl CanvasLayersConfig {
    /// Whether two configurations name the same layers in the same order
    /// with the same visibility, and the same active layer.
    pub open spec fn same(self, other: CanvasLayersConfig) -> bool {
        self.entries@ == other.entries@ && self.active_layer_id == other.active_layer_id
    }
}

impl Clone for CanvasLayersConfig {
    fn clone(&self) -> (copy: CanvasLayersConfig)
        ensures
            copy.same(*self),
    {
        let mut entries: Vec<CanvasLayerConfig> = Vec::new();
        let mut i: usize = 0;
        while i < self.entries.len()
            invariant
                i <= self.entries.len(),
                entries@ == self.entries@.take(i as int),
            decreases self.entries.len() - i,
        {
            entries.push(self.entries[i]);
            assert(self.entries@.take(i + 1) =~= self.entries@.take(i as int).push(
                self.entries@[i as int],
            ));
            i = i + 1;
        }
        assert(self.entries@.take(self.entries@.len() as int) =~= self.entries@);
        CanvasLayersConfig { entries, active_layer_id: self.active_layer_id }
    }
}

impl PartialEq for CanvasLayersConfig {
    fn eq(&self, other: &CanvasLayersConfig) -> (equal: bool) {
        if self.active_layer_id != other.active_layer_id {
            return false;
        }
        if self.entries.len() != other.entries.len() {
            return false;
        }
        let mut i: usize = 0;
        while i < self.entries.len()
            invariant
                i <= self.entries.len(),
                self.entries.len() == other.entries.len(),
                forall|k: int| 0 <= k < i ==> self.entries@[k] == other.entries@[k],
            decreases self.entries.len() - i,
        {
            if self.entries[i] != other.entries[i] {
                return false;
            }
            i = i + 1;
        }
        assert(self.entries@ =~= other.entries@);
        true
    }
}

impl PartialEqSpecImpl for CanvasLayersConfig {
    open spec fn obeys_eq_spec() -> bool {
        true
    }

    open spec fn eq_spec(&self, other: &CanvasLayersConfig) -> bool {
        self.same(*other)
    }
}

impl Eq for CanvasLayersConfig {

}

} // verus!
