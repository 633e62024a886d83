//! The document around the schematic: the model being edited and the data
//! that the rest of the application derives from it.
use vstd::prelude::*;
use crate::arena::Id;
use crate::canvas::SchematicCanvas;

verus! {

/// Data derived from the model outside the editor; empty until it arrives.
#[derive(Debug)]
pub struct Derived {
    /// The tracks of the model as their ends and lengths.
    pub topology: Option<Vec<(Id, Id, u64)>>,
}

/// The model being edited, with the data derived from it.
#[derive(Debug)]
pub struct ViewModel {
    model: SchematicCanvas,
    derived: Derived,
}

impl ViewModel {
    pub closed spec fn spec_model(&self) -> SchematicCanvas {
        self.model
    }

    pub closed spec fn spec_data(&self) -> Derived {
        self.derived
    }

    /// The model being edited.
    pub fn model(&self) -> (r: &SchematicCanvas)
        ensures
            *r == self.spec_model(),
    {
        &self.model
    }

    /// The data derived from the model so far.
    pub fn data(&self) -> (r: &Derived)
        ensures
            *r == self.spec_data(),
    {
        &self.derived
    }

    /// A view of `model` with nothing derived yet.
    pub fn from_model(model: SchematicCanvas) -> (r: ViewModel)
        ensures
            r.spec_model() == model,
            r.spec_data().topology is None,
    {
        ViewModel { model, derived: Derived { topology: None } }
    }
}

} // verus!
