use crate::direction::Direction;
use crate::feature::Feature;
use crate::rotation::Rotation;
use crate::tile::Tile;
use vstd::prelude::*;

verus! {

/// A tile shape together with a rotation: the unit placed into the grid.
#[derive(Debug, Copy, Clone, PartialEq, Eq, Structural)]
pub struct RotatedTile {
    tile: Tile,
    rotation: Rotation,
}

/// Features on the four sides of `tile` in its unrotated orientation,
/// indexed by the canonical direction ordering (North, East, South, West).
pub open spec fn canonical_features(tile: Tile) -> Seq<Feature> {
    match tile {
        Tile::CCCCS => seq![Feature::City, Feature::City, Feature::City, Feature::City],
        Tile::CCCF | Tile::CCCFS => seq![Feature::City, Feature::City, Feature::City, Feature::Forest],
        Tile::CCCR | Tile::CCCRS => seq![Feature::City, Feature::City, Feature::City, Feature::Road],
        Tile::CCFF | Tile::CCFFS | Tile::CCFF2 => seq![Feature::City, Feature::City, Feature::Forest, Feature::Forest],
        Tile::CCRR | Tile::CCRRS => seq![Feature::City, Feature::City, Feature::Road, Feature::Road],
        Tile::CFCF | Tile::CFCFS | Tile::CFCF2 => seq![Feature::City, Feature::Forest, Feature::City, Feature::Forest],
        Tile::CFFF => seq![Feature::City, Feature::Forest, Feature::Forest, Feature::Forest],
        Tile::CFRR => seq![Feature::City, Feature::Forest, Feature::Road, Feature::Road],
        Tile::CRFR => seq![Feature::City, Feature::Road, Feature::Forest, Feature::Road],
        Tile::CRRF => seq![Feature::City, Feature::Road, Feature::Road, Feature::Forest],
        Tile::CRRR => seq![Feature::City, Feature::Road, Feature::Road, Feature::Road],
        Tile::FFFF => seq![Feature::Forest, Feature::Forest, Feature::Forest, Feature::Forest],
        Tile::FFFR => seq![Feature::Forest, Feature::Forest, Feature::Forest, Feature::Road],
        Tile::FFRR => seq![Feature::Forest, Feature::Forest, Feature::Road, Feature::Road],
        Tile::FRFR => seq![Feature::Forest, Feature::Road, Feature::Forest, Feature::Road],
        Tile::FRRR => seq![Feature::Forest, Feature::Road, Feature::Road, Feature::Road],
        Tile::RRRR => seq![Feature::Road, Feature::Road, Feature::Road, Feature::Road],
    }
}

impl RotatedTile {
    /// The tile shape of this oriented tile.
    pub closed spec fn tile_spec(self) -> Tile {
        self.tile
    }

    /// The rotation of this oriented tile.
    pub closed spec fn rotation_spec(self) -> Rotation {
        self.rotation
    }

    /// The oriented tile made of `tile` and `rotation`.
    pub closed spec fn new_spec(tile: Tile, rotation: Rotation) -> RotatedTile {
        RotatedTile { tile, rotation }
    }

    /// Feature shown on `side` once the rotation is applied: the unrotated
    /// feature table read at the query side rotated backward.
    pub open spec fn feature_spec(self, side: Direction) -> Feature {
        canonical_features(self.tile_spec())[(side.index_spec() + 4
            - self.rotation_spec().index_spec()) % 4]
    }

    /// Whether `other`, placed one step in direction `side` from `self`,
    /// agrees with `self` on the feature of the shared edge.
    pub open spec fn connects_spec(self, other: RotatedTile, side: Direction) -> bool {
        self.feature_spec(side) == other.feature_spec(side.rev_spec())
    }

    pub fn new(tile: Tile, rotation: Rotation) -> (r: Self)
        ensures
            r == Self::new_spec(tile, rotation),
            r.tile_spec() == tile,
            r.rotation_spec() == rotation,
    {
        Self { tile, rotation }
    }

    /// Feature shown on `side` once the rotation is applied.
    pub fn feature(&self, side: Direction) -> (r: Feature)
        ensures
            r == self.feature_spec(side),
    {
        let f: (Feature, Feature, Feature, Feature) = match self.tile {
            Tile::CCCCS => (Feature::City, Feature::City, Feature::City, Feature::City),
            Tile::CCCF | Tile::CCCFS => (Feature::City, Feature::City, Feature::City, Feature::Forest),
            Tile::CCCR | Tile::CCCRS => (Feature::City, Feature::City, Feature::City, Feature::Road),
            Tile::CCFF | Tile::CCFFS | Tile::CCFF2 => (Feature::City, Feature::City, Feature::Forest, Feature::Forest),
            Tile::CCRR | Tile::CCRRS => (Feature::City, Feature::City, Feature::Road, Feature::Road),
            Tile::CFCF | Tile::CFCFS | Tile::CFCF2 => (Feature::City, Feature::Forest, Feature::City, Feature::Forest),
            Tile::CFFF => (Feature::City, Feature::Forest, Feature::Forest, Feature::Forest),
            Tile::CFRR => (Feature::City, Feature::Forest, Feature::Road, Feature::Road),
            Tile::CRFR => (Feature::City, Feature::Road, Feature::Forest, Feature::Road),
            Tile::CRRF => (Feature::City, Feature::Road, Feature::Road, Feature::Forest),
            Tile::CRRR => (Feature::City, Feature::Road, Feature::Road, Feature::Road),
            Tile::FFFF => (Feature::Forest, Feature::Forest, Feature::Forest, Feature::Forest),
            Tile::FFFR => (Feature::Forest, Feature::Forest, Feature::Forest, Feature::Road),
            Tile::FFRR => (Feature::Forest, Feature::Forest, Feature::Road, Feature::Road),
            Tile::FRFR => (Feature::Forest, Feature::Road, Feature::Forest, Feature::Road),
            Tile::FRRR => (Feature::Forest, Feature::Road, Feature::Road, Feature::Road),
            Tile::RRRR => (Feature::Road, Feature::Road, Feature::Road, Feature::Road),
        };
        proof {
            assert(f.0 == canonical_features(self.tile)[0]);
            assert(f.1 == canonical_features(self.tile)[1]);
            assert(f.2 == canonical_features(self.tile)[2]);
            assert(f.3 == canonical_features(self.tile)[3]);
        }
        let index: usize = (side.index() + (4 - self.rotation.index())) % 4;
        if index == 0 {
            f.0
        } else if index == 1 {
            f.1
        } else if index == 2 {
            f.2
        } else {
            f.3
        }
    }

    /// Predicate returning whether `other` can connect to the given `side` of `self`.
    pub fn connects(&self, other: &Self, side: Direction) -> (r: bool)
        ensures
            r == self.connects_spec(*other, side),
    {
        let a = self.feature(side);
        let b = other.feature(side.rev());
        a == b
    }

    /// The tile shape of this oriented tile.
    pub fn tile(&self) -> (r: &Tile)
        ensures
            *r == self.tile_spec(),
    {
        &self.tile
    }

    /// The rotation of this oriented tile.
    pub fn rotation(&self) -> (r: &Rotation)
        ensures
            *r == self.rotation_spec(),
    {
        &self.rotation
    }
}

/// Connectivity is symmetric: `a` accepts `b` across its side `d` exactly
/// when `b` accepts `a` across the opposite side.
pub proof fn lemma_connects_symmetric(a: RotatedTile, b: RotatedTile, d: Direction)
    ensures
        a.connects_spec(b, d) == b.connects_spec(a, d.rev_spec()),
{
    crate::direction::lemma_rev_involutive(d);
}

/// Four 90-degree rotation steps return an oriented tile to itself.
pub proof fn lemma_rotation_full_cycle(a: RotatedTile, b: RotatedTile)
    requires
        b.tile_spec() == a.tile_spec(),
        b.rotation_spec() == a.rotation_spec().succ_spec().succ_spec().succ_spec().succ_spec(),
    ensures
        b == a,
{
}

/// Rotating one step clockwise moves each side's feature to the next side:
/// the rotated tile read at the rotated query side matches the unrotated
/// table under the modular indexing.
pub proof fn lemma_rotation_consistent(a: RotatedTile, b: RotatedTile, d: Direction)
    requires
        b.tile_spec() == a.tile_spec(),
        b.rotation_spec() == a.rotation_spec().succ_spec(),
    ensures
        b.feature_spec(d.succ_spec()) == a.feature_spec(d),
{
}

} // verus!
