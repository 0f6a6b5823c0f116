//! Clicks and drags: what the pointer does to the tiles.
use crate::grid::{Grid, GridView};
use crate::grid_laws::{lemma_set_end_marked, lemma_set_start_marked};
use crate::tile::{Sprite, TileType, VisualTile};
use vstd::prelude::*;

verus! {

/// What the pointer did.
#[derive(Clone, Copy, Debug, PartialEq, Eq, Structural)]
pub enum TilePick {
    /// The tile was clicked.
    Clicked(VisualTile),
    /// The pointer came onto the tile.
    JustEntered(VisualTile),
    /// Anything else.
    Other,
}

/// The grid and the sprites, and the kind that the pointer has in hand while
/// the button is held down.
pub struct Picking {
    pub grid: GridView,
    pub sprites: Seq<Sprite>,
    pub hover: TileType,
}

impl Picking {
    /// What one pick does. A click on a tile clicks it, and the kind the tile
    /// ends with is the kind in hand from then on. The pointer coming onto a
    /// tile while the button is down drags the kind in hand over it.
    pub open spec fn after(self, pick: TilePick, pressed: bool) -> Picking {
        match pick {
            TilePick::Clicked(at) => {
                let p = (at.x, at.y);
                Picking {
                    grid: self.grid.clicked(p, None),
                    sprites: self.grid.clicked_sprites(self.sprites, p, None),
                    hover: if self.grid.in_bounds(p) {
                        self.grid.tile(p).tile_type.clicked(None)
                    } else {
                        self.hover
                    },
                }
            },
            TilePick::JustEntered(at) => {
                let p = (at.x, at.y);
                if pressed {
                    Picking {
                        grid: self.grid.dragged(p, self.hover),
                        sprites: self.grid.dragged_sprites(self.sprites, p, self.hover),
                        hover: self.hover,
                    }
                } else {
                    self
                }
            },
            TilePick::Other => self,
        }
    }

    /// What the first `count` picks of `picks` do, one after the other.
    pub open spec fn after_all(self, picks: Seq<TilePick>, pressed: bool, count: int) -> Picking
        decreases count,
    {
        if count <= 0 {
            self
        } else {
            self.after_all(picks, pressed, count - 1).after(picks[count - 1], pressed)
        }
    }

    /// The grid is well formed and has exactly one start and one end.
    pub open spec fn sound(self) -> bool {
        self.grid.wf() && self.grid.marked()
    }

    /// A pick keeps the grid well formed, with exactly one start and one end.
    pub proof fn lemma_after_sound(self, pick: TilePick, pressed: bool)
        requires
            self.sound(),
        ensures
            self.after(pick, pressed).sound(),
    {
        match pick {
            TilePick::JustEntered(at) => {
                let p = (at.x, at.y);
                if pressed && self.grid.can_drag(p) {
                    lemma_set_start_marked(self.grid, p);
                    lemma_set_end_marked(self.grid, p);
                }
            },
            _ => {},
        }
    }

    /// Picks keep the grid well formed, with exactly one start and one end.
    pub proof fn lemma_after_all_sound(self, picks: Seq<TilePick>, pressed: bool, count: int)
        requires
            self.sound(),
            count <= picks.len(),
        ensures
            self.after_all(picks, pressed, count).sound(),
        decreases count,
    {
        if count > 0 {
            self.lemma_after_all_sound(picks, pressed, count - 1);
            self.after_all(picks, pressed, count - 1).lemma_after_sound(picks[count - 1], pressed);
        }
    }
}

/// Handles the pointer's picks in order: see [`Picking::after`]. Without the
/// button held down, nothing is in hand when the picks begin: the kind in
/// hand is `Empty` then.
pub fn process_tile_click_events(
    events: &Vec<TilePick>,
    sprites: &mut Vec<Sprite>,
    grid: &mut Grid,
    hover_tile_type: &mut TileType,
    left_pressed: bool,
)
    requires
        old(grid)@.shaped(),
    ensures
        final(grid)@.shaped(),
        ({
            let before = Picking {
                grid: old(grid)@,
                sprites: old(sprites)@,
                hover: if left_pressed {
                    *old(hover_tile_type)
                } else {
                    TileType::Empty
                },
            };
            (Picking { grid: final(grid)@, sprites: final(sprites)@, hover: *final(hover_tile_type) })
                == before.after_all(events@, left_pressed, events@.len() as int)
        }),
{
    if !left_pressed {
        *hover_tile_type = TileType::default();
    }
    let ghost before = Picking { grid: grid@, sprites: sprites@, hover: *hover_tile_type };
    let mut i: usize = 0;
    while i < events.len()
        invariant
            i <= events@.len(),
            grid@.shaped(),
            (Picking { grid: grid@, sprites: sprites@, hover: *hover_tile_type })
                == before.after_all(events@, left_pressed, i as int),
        decreases events@.len() - i,
    {
        match events[i] {
            TilePick::Clicked(at) => {
                match grid.set_tile_on_click(at.x, at.y, sprites) {
                    Ok(kind) => {
                        *hover_tile_type = kind;
                    },
                    Err(_) => {},
                }
            },
            TilePick::JustEntered(at) => {
                if left_pressed {
                    let _ = grid.set_tile_on_drag(at.x, at.y, *hover_tile_type, sprites);
                }
            },
            TilePick::Other => {},
        }
        i += 1;
    }
}

} // verus!
