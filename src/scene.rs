use vstd::prelude::*;

verus! {

#[derive(PartialEq, Eq, Structural, Clone, Copy, Debug)]
pub enum Handedness {
    Left,
    Right,
}

#[derive(PartialEq, Eq, Structural, Clone, Copy, Debug)]
pub enum UpDirection {
    X,
    Y,
    Z,
}

/// Orientation conventions of a 3D scene.
#[derive(PartialEq, Eq, Structural, Clone, Copy, Debug)]
pub struct CoordinateSystem {
    pub handedness: Handedness,
    pub up_direction: UpDirection,
}

/// Panels of the editor's dock.
#[derive(PartialEq, Eq, Structural, Clone, Copy, Debug)]
pub enum Tab {
    GameView,
    Hierarchy,
    Resources,
    Assets,
    Inspector,
}

/// Author of a cited work.
#[derive(Debug)]
pub enum Author {
    Individual(String),
    Group(String),
}

/// An image bundled with the interface, under a human readable unique id.
#[derive(Clone, Copy, Debug)]
pub struct Icon {
    pub id: &'static str,
    pub png_bytes: &'static [u8],
}

impl Icon {
    pub fn new(id: &'static str, png_bytes: &'static [u8]) -> (r: Icon)
        ensures
            r.id == id,
            r.png_bytes == png_bytes,
    {
        Icon { id, png_bytes }
    }
}

} // verus!
