use vstd::prelude::*;

verus! {

/// Rotations clockwise in 90-degree steps, starting from the positive y-axis.
#[derive(Debug, Copy, Clone, PartialEq, Eq, Structural)]
pub enum Rotation {
    D0,
    D90,
    D180,
    D270,
}

impl Rotation {
    /// Number of 90-degree steps of this rotation.
    pub open spec fn index_spec(self) -> int {
        match self {
            Rotation::D0 => 0,
            Rotation::D90 => 1,
            Rotation::D180 => 2,
            Rotation::D270 => 3,
        }
    }

    /// Number of 90-degree steps of this rotation.
    pub fn index(&self) -> (r: usize)
        ensures
            r == self.index_spec(),
    {
        match self {
            Rotation::D0 => 0,
            Rotation::D90 => 1,
            Rotation::D180 => 2,
            Rotation::D270 => 3,
        }
    }

    /// The rotation one further 90-degree step clockwise.
    pub open spec fn succ_spec(self) -> Rotation {
        match self {
            Rotation::D0 => Rotation::D90,
            Rotation::D90 => Rotation::D180,
            Rotation::D180 => Rotation::D270,
            Rotation::D270 => Rotation::D0,
        }
    }

    /// All four rotations, by increasing angle.
    pub fn all() -> (r: Vec<Rotation>)
        ensures
            r@ =~= Self::all_spec(),
    {
        let mut v: Vec<Rotation> = Vec::new();
        v.push(Rotation::D0);
        v.push(Rotation::D90);
        v.push(Rotation::D180);
        v.push(Rotation::D270);
        v
    }

    /// All four rotations, by increasing angle.
    pub open spec fn all_spec() -> Seq<Rotation> {
        seq![Rotation::D0, Rotation::D90, Rotation::D180, Rotation::D270]
    }
}

} // verus!
