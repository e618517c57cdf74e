use vstd::prelude::*;

verus! {

/// Tile shapes of the catalogue, named by the features on their four sides
/// (North, East, South, West) in the unrotated orientation; a trailing `S`
/// marks a shield variant, a trailing `2` an alternative drawing.
#[derive(Debug, Copy, Clone, PartialEq, Eq, Structural)]
pub enum Tile {
    CCCCS,
    CCCF,
    CCCFS,
    CCCR,
    CCCRS,
    CCFF,
    CCFFS,
    CCFF2,
    CCRR,
    CCRRS,
    CFCF,
    CFCFS,
    CFCF2,
    CFFF,
    CFRR,
    CRFR,
    CRRF,
    CRRR,
    FFFF,
    FFFR,
    FFRR,
    FRFR,
    FRRR,
    RRRR,
}

impl Tile {
    /// Occurrence weight of this tile in the physical tile set.
    pub open spec fn weight_spec(self) -> nat {
        match self {
            Tile::CCCCS => 1,
            Tile::CCCF => 3,
            Tile::CCCFS => 1,
            Tile::CCCR => 1,
            Tile::CCCRS => 2,
            Tile::CCFF => 3,
            Tile::CCFFS => 2,
            Tile::CCFF2 => 2,
            Tile::CCRR => 3,
            Tile::CCRRS => 2,
            Tile::CFCF => 1,
            Tile::CFCFS => 2,
            Tile::CFCF2 => 3,
            Tile::CFFF => 5,
            Tile::CFRR => 3,
            Tile::CRFR => 3,
            Tile::CRRF => 3,
            Tile::CRRR => 3,
            Tile::FFFF => 4,
            Tile::FFFR => 2,
            Tile::FFRR => 9,
            Tile::FRFR => 8,
            Tile::FRRR => 4,
            Tile::RRRR => 1,
        }
    }

    /// Occurrence weight of this tile in the physical tile set.
    pub fn weight(&self) -> (r: usize)
        ensures
            r == self.weight_spec(),
            1 <= r <= 9,
    {
        match self {
            Tile::CCCCS => 1,
            Tile::CCCF => 3,
            Tile::CCCFS => 1,
            Tile::CCCR => 1,
            Tile::CCCRS => 2,
            Tile::CCFF => 3,
            Tile::CCFFS => 2,
            Tile::CCFF2 => 2,
            Tile::CCRR => 3,
            Tile::CCRRS => 2,
            Tile::CFCF => 1,
            Tile::CFCFS => 2,
            Tile::CFCF2 => 3,
            Tile::CFFF => 5,
            Tile::CFRR => 3,
            Tile::CRFR => 3,
            Tile::CRRF => 3,
            Tile::CRRR => 3,
            Tile::FFFF => 4,
            Tile::FFFR => 2,
            Tile::FFRR => 9,
            Tile::FRFR => 8,
            Tile::FRRR => 4,
            Tile::RRRR => 1,
        }
    }

    /// Every tile of the catalogue, in catalogue order.
    pub open spec fn all_spec() -> Seq<Tile> {
        seq![
            Tile::CCCCS,
            Tile::CCCF,
            Tile::CCCFS,
            Tile::CCCR,
            Tile::CCCRS,
            Tile::CCFF,
            Tile::CCFFS,
            Tile::CCFF2,
            Tile::CCRR,
            Tile::CCRRS,
            Tile::CFCF,
            Tile::CFCFS,
            Tile::CFCF2,
            Tile::CFFF,
            Tile::CFRR,
            Tile::CRFR,
            Tile::CRRF,
            Tile::CRRR,
            Tile::FFFF,
            Tile::FFFR,
            Tile::FFRR,
            Tile::FRFR,
            Tile::FRRR,
            Tile::RRRR,
        ]
    }

    /// Every tile of the catalogue, in catalogue order.
    pub fn all() -> (r: Vec<Tile>)
        ensures
            r@ =~= Self::all_spec(),
    {
        let mut v: Vec<Tile> = Vec::new();
        v.push(Tile::CCCCS);
        v.push(Tile::CCCF);
        v.push(Tile::CCCFS);
        v.push(Tile::CCCR);
        v.push(Tile::CCCRS);
        v.push(Tile::CCFF);
        v.push(Tile::CCFFS);
        v.push(Tile::CCFF2);
        v.push(Tile::CCRR);
        v.push(Tile::CCRRS);
        v.push(Tile::CFCF);
        v.push(Tile::CFCFS);
        v.push(Tile::CFCF2);
        v.push(Tile::CFFF);
        v.push(Tile::CFRR);
        v.push(Tile::CRFR);
        v.push(Tile::CRRF);
        v.push(Tile::CRRR);
        v.push(Tile::FFFF);
        v.push(Tile::FFFR);
        v.push(Tile::FFRR);
        v.push(Tile::FRFR);
        v.push(Tile::FRRR);
        v.push(Tile::RRRR);
        v
    }

    /// Sum of the weights of the tiles of `s`.
    pub open spec fn weight_sum(s: Seq<Tile>) -> nat
        decreases s.len(),
    {
        if s.len() == 0 {
            0
        } else {
            s[0].weight_spec() + Self::weight_sum(s.drop_first())
        }
    }

    /// Sum of the weights of every tile of the catalogue.
    pub fn total_weight() -> (r: usize)
        ensures
            r == Self::weight_sum(Self::all_spec()),
    {
        let tiles = Self::all();
        let mut total: usize = 0;
        let mut i: usize = 0;
        proof {
            lemma_weight_sum_bound(tiles@);
        }
        while i < tiles.len()
            invariant
                i <= tiles@.len(),
                tiles@ =~= Self::all_spec(),
                total == Self::weight_sum(tiles@.take(i as int)),
                total <= 9 * i,
            decreases tiles@.len() - i,
        {
            proof {
                assert(tiles@.take(i + 1).drop_last() =~= tiles@.take(i as int));
                lemma_weight_sum_last(tiles@.take(i + 1));
            }
            total = total + tiles[i].weight();
            i = i + 1;
        }
        proof {
            assert(tiles@.take(tiles@.len() as int) =~= tiles@);
        }
        total
    }
}

/// The weight sum over a sequence of tiles is bounded by nine per entry.
pub proof fn lemma_weight_sum_bound(s: Seq<Tile>)
    ensures
        Tile::weight_sum(s) <= 9 * s.len(),
    decreases s.len(),
{
    if s.len() > 0 {
        lemma_weight_sum_bound(s.drop_first());
    }
}

/// Splitting off the last entry splits the weight sum.
pub proof fn lemma_weight_sum_last(s: Seq<Tile>)
    requires
        s.len() > 0,
    ensures
        Tile::weight_sum(s) == Tile::weight_sum(s.drop_last()) + s.last().weight_spec(),
    decreases s.len(),
{
    if s.len() > 1 {
        lemma_weight_sum_last(s.drop_first());
        assert(s.drop_first().drop_last() =~= s.drop_last().drop_first());
        assert(s.last() == s.drop_first().last());
        assert(s.drop_last()[0] == s[0]);
        assert(Tile::weight_sum(s.drop_last()) == s.drop_last()[0].weight_spec()
            + Tile::weight_sum(s.drop_last().drop_first()));
    } else {
        assert(s.drop_last() =~= Seq::<Tile>::empty());
        assert(s.drop_first() =~= Seq::<Tile>::empty());
    }
    assert(Tile::weight_sum(s) == s[0].weight_spec() + Tile::weight_sum(s.drop_first()));
}

} // verus!
