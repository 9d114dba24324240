//! Fog of war: which cells the player has ever seen, and how each cell is shown.
use vstd::prelude::*;

use crate::fov::FieldOfView;
use crate::grid::GridPos;

verus! {

/// How a cell is presented: in view now, seen before, or never seen.
#[derive(Clone, Copy, PartialEq, Eq, Hash, Debug, Structural)]
pub enum TileShade {
    Visible,
    Remembered,
    Hidden,
}

/// Every cell the player has had in view.
pub struct FogOfWar {
    viewed_positions: Vec<GridPos>,
}

fn holds(cells: &Vec<GridPos>, pos: &GridPos) -> (r: bool)
    ensures
        r == cells@.contains(*pos),
{
    let mut k: usize = 0;
    while k < cells.len()
        invariant
            0 <= k <= cells@.len(),
            forall|j: int| 0 <= j < k ==> cells@[j] != *pos,
        decreases cells@.len() - k,
    {
        if cells[k].is_at(pos) {
            return true;
        }
        k = k + 1;
    }
    false
}

impl FogOfWar {
    /// The cells seen so far.
    pub closed spec fn viewed(&self) -> Set<GridPos> {
        self.viewed_positions@.to_set()
    }

    /// Nothing seen yet.
    pub fn new() -> (r: FogOfWar)
        ensures
            r.viewed() == Set::<GridPos>::empty(),
    {
        let r = FogOfWar { viewed_positions: Vec::new() };
        assert(r.viewed() =~= Set::<GridPos>::empty());
        r
    }

    /// Adds every cell the view currently shows to the cells seen.
    pub fn update_viewed_positions(&mut self, fov: &FieldOfView)
        ensures
            final(self).viewed() == old(self).viewed().union(fov.visible().to_set()),
    {
        let visible = fov.visible_positions();
        let mut k: usize = 0;
        while k < visible.len()
            invariant
                visible@ == fov.visible(),
                0 <= k <= visible@.len(),
                self.viewed() == old(self).viewed().union(visible@.subrange(0, k as int).to_set()),
            decreases visible@.len() - k,
        {
            let p = visible[k];
            let ghost before = self.viewed_positions@;
            assert(visible@.subrange(0, k as int + 1) =~= visible@.subrange(0, k as int).push(p));
            if !holds(&self.viewed_positions, &p) {
                self.viewed_positions.push(p);
                assert(self.viewed_positions@.to_set() =~= before.to_set().insert(p)) by {
                    assert forall|q: GridPos| #[trigger] self.viewed_positions@.contains(q)
                        <==> before.contains(q) || q == p by {
                        if self.viewed_positions@.contains(q) && q != p {
                            let j = choose|j: int| 0 <= j < self.viewed_positions@.len() && self.viewed_positions@[j] == q;
                            assert(before[j] == q);
                        }
                        if before.contains(q) {
                            let j = choose|j: int| 0 <= j < before.len() && before[j] == q;
                            assert(self.viewed_positions@[j] == q);
                        }
                        assert(self.viewed_positions@[before.len() as int] == p);
                    }
                }
            }
            proof {
                assert(visible@.subrange(0, k as int + 1).to_set() =~= visible@.subrange(0, k as int).to_set().insert(p)) by {
                    let s = visible@.subrange(0, k as int);
                    assert forall|q: GridPos| #[trigger] s.push(p).contains(q) <==> s.contains(q) || q == p by {
                        if s.push(p).contains(q) && q != p {
                            let j = choose|j: int| 0 <= j < s.push(p).len() && s.push(p)[j] == q;
                            assert(s[j] == q);
                        }
                        if s.contains(q) {
                            let j = choose|j: int| 0 <= j < s.len() && s[j] == q;
                            assert(s.push(p)[j] == q);
                        }
                        assert(s.push(p)[s.len() as int] == p);
                    }
                }
                assert(self.viewed() =~= old(self).viewed().union(visible@.subrange(0, k as int + 1).to_set()));
            }
            k = k + 1;
        }
        assert(visible@.subrange(0, visible@.len() as int) =~= visible@);
    }

    /// Whether `pos` has been seen.
    pub fn has_viewed(&self, pos: &GridPos) -> (r: bool)
        ensures
            r == self.viewed().contains(*pos),
    {
        holds(&self.viewed_positions, pos)
    }

    /// How `pos` is shown: fully when the view shows it now, dimmed when it was seen
    /// before, not at all otherwise.
    pub fn shade(&self, fov: &FieldOfView, pos: &GridPos) -> (r: TileShade)
        ensures
            r == (if fov.visible().contains(*pos) {
                TileShade::Visible
            } else if self.viewed().contains(*pos) {
                TileShade::Remembered
            } else {
                TileShade::Hidden
            }),
    {
        if fov.is_visible(pos) {
            TileShade::Visible
        } else if self.has_viewed(pos) {
            TileShade::Remembered
        } else {
            TileShade::Hidden
        }
    }
}

} // verus!
