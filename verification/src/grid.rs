//! The grid: a square of tiles with one start and one end marker.
use crate::search::search;
use crate::solve_buffer::{SolveBuffer, TileColorEvent};
use crate::solver::{search_left, search_owed, SolverState};
use crate::tile::{paint, painted, Color, Sprite, Tile, TileType, BG_COLOR, END_COLOR, START_COLOR};
use vstd::prelude::*;

verus! {

/// The smallest side a grid may have.
pub const MIN_GRID_SIZE: usize = 5;

/// What can go wrong in the grid and around it.
#[derive(Clone, Copy, Debug, PartialEq, Eq, Structural)]
pub enum GridError {
    /// A position lies outside the grid; also what a search reports whose way
    /// back from the end left the tiles that the search had reached.
    OutOfBounds,
    /// A grid side below the minimum, or one whose tiles cannot be counted.
    InvalidConfiguration,
    /// The selected algorithm has no implementation.
    NotImplemented,
    /// An entity that the sprite table does not hold.
    StaleHandle,
}

/// What the host may ask of the grid.
#[derive(Clone, Copy, Debug, PartialEq, Eq, Structural)]
pub enum GridEvent {
    Resize(usize),
    Clear,
    Reset,
    Solve,
}

pub struct Grid {
    /// The rows of tiles: the tile at `(x, y)` is `grid[y][x]`.
    pub grid: Vec<Vec<Tile>>,
    pub start: (usize, usize),
    pub end: (usize, usize),
    pub grid_size: usize,
}

/// The grid as a mathematical value.
pub struct GridView {
    pub cells: Seq<Seq<Tile>>,
    pub start: (usize, usize),
    pub end: (usize, usize),
    pub size: usize,
}

/// The entity of the tile at `(x, y)` in a grid of side `size`: its index
/// when the tiles are counted row by row.
pub open spec fn entity_at(size: int, x: int, y: int) -> int {
    y * size + x
}

/// The position at which a grid of side `size` gets its end marker when none
/// is given.
pub open spec fn default_end(size: usize) -> (usize, usize) {
    ((size - 2) as usize, (size - 2) as usize)
}

/// Whether a grid can have the side `size`: it is not below the minimum, and
/// its tiles can be counted in a `usize`.
pub open spec fn valid_size(size: usize) -> bool {
    MIN_GRID_SIZE <= size && size * size <= usize::MAX
}

impl GridView {
    pub open spec fn in_bounds(self, p: (usize, usize)) -> bool {
        p.0 < self.size && p.1 < self.size
    }

    pub open spec fn tile(self, p: (usize, usize)) -> Tile {
        self.cells[p.1 as int][p.0 as int]
    }

    /// The tiles form a square of side `size`, and each knows its position and
    /// its entity.
    pub open spec fn shaped(self) -> bool {
        &&& valid_size(self.size)
        &&& self.cells.len() == self.size
        &&& forall|y: int| 0 <= y < self.size ==> (#[trigger] self.cells[y]).len() == self.size
        &&& forall|x: int, y: int|
            0 <= x < self.size && 0 <= y < self.size ==> {
                &&& (#[trigger] self.cells[y][x]).position == (x as usize, y as usize)
                &&& self.cells[y][x].entity == entity_at(self.size as int, x, y)
            }
    }

    /// A shaped grid whose markers lie inside it.
    pub open spec fn wf(self) -> bool {
        &&& self.shaped()
        &&& self.in_bounds(self.start)
        &&& self.in_bounds(self.end)
    }

    /// The tile at the start marker is a `Start`.
    pub open spec fn start_marked(self) -> bool {
        self.tile(self.start).tile_type == TileType::Start
    }

    /// Exactly one tile is a `Start`, the one at `start`, and exactly one is
    /// an `End`, the one at `end`.
    pub open spec fn marked(self) -> bool {
        forall|x: int, y: int|
            0 <= x < self.size && 0 <= y < self.size ==> {
                &&& ((#[trigger] self.cells[y][x]).tile_type == TileType::Start) == (self.start
                    == (x as usize, y as usize))
                &&& (self.cells[y][x].tile_type == TileType::End) == (self.end == (
                    x as usize,
                    y as usize,
                ))
            }
    }

    pub open spec fn with_tile(self, p: (usize, usize), tile: Tile) -> GridView {
        GridView {
            cells: self.cells.update(p.1 as int, self.cells[p.1 as int].update(p.0 as int, tile)),
            ..self
        }
    }

    /// The grid after the tile at `p` took the kind `kind`.
    pub open spec fn retyped(self, p: (usize, usize), kind: TileType) -> GridView {
        self.with_tile(p, self.tile(p).with_type(kind))
    }

    /// The grid after the start marker moved to `new`. A position outside the
    /// grid changes nothing. The tile at the old position becomes `Empty`,
    /// unless that position lies outside the grid.
    pub open spec fn set_start(self, new: (usize, usize)) -> GridView {
        if !self.in_bounds(new) {
            self
        } else {
            let lifted = if self.in_bounds(self.start) {
                self.retyped(self.start, TileType::Empty)
            } else {
                self
            };
            GridView { start: new, ..lifted.retyped(new, TileType::Start) }
        }
    }

    /// The grid after the end marker moved to `new`, in the same way.
    pub open spec fn set_end(self, new: (usize, usize)) -> GridView {
        if !self.in_bounds(new) {
            self
        } else {
            let lifted = if self.in_bounds(self.end) {
                self.retyped(self.end, TileType::Empty)
            } else {
                self
            };
            GridView { end: new, ..lifted.retyped(new, TileType::End) }
        }
    }

    /// The sprites after a marker moved from `from` to `new` and the tile at
    /// `new` took the colour `color`.
    pub open spec fn marker_sprites(
        self,
        sprites: Seq<Sprite>,
        from: (usize, usize),
        new: (usize, usize),
        color: Color,
    ) -> Seq<Sprite> {
        if !self.in_bounds(new) {
            sprites
        } else {
            let lifted = if self.in_bounds(from) {
                painted(sprites, self.tile(from).entity, BG_COLOR)
            } else {
                sprites
            };
            painted(lifted, self.tile(new).entity, color)
        }
    }

    /// The grid after a click on the tile at `p`: see [`TileType::clicked`].
    /// A click outside the grid changes nothing.
    pub open spec fn clicked(self, p: (usize, usize), paint: Option<TileType>) -> GridView {
        if self.in_bounds(p) {
            self.retyped(p, self.tile(p).tile_type.clicked(paint))
        } else {
            self
        }
    }

    /// The sprites after a click on the tile at `p`.
    pub open spec fn clicked_sprites(
        self,
        sprites: Seq<Sprite>,
        p: (usize, usize),
        paint: Option<TileType>,
    ) -> Seq<Sprite> {
        if self.in_bounds(p) {
            painted(
                sprites,
                self.tile(p).entity,
                self.tile(p).tile_type.clicked(paint).spec_color(),
            )
        } else {
            sprites
        }
    }

    /// Whether a drag over the tile at `p` does anything: the tile lies inside
    /// the grid and holds no marker.
    pub open spec fn can_drag(self, p: (usize, usize)) -> bool {
        self.in_bounds(p) && p != self.start && p != self.end
    }

    /// The grid after a drag over the tile at `p` with the kind `paint` in
    /// hand: a marker in hand moves there, any other kind is painted on.
    pub open spec fn dragged(self, p: (usize, usize), paint: TileType) -> GridView {
        if !self.can_drag(p) {
            self
        } else {
            match paint {
                TileType::Start => self.set_start(p),
                TileType::End => self.set_end(p),
                _ => self.clicked(p, Some(paint)),
            }
        }
    }

    /// The sprites after a drag over the tile at `p`.
    pub open spec fn dragged_sprites(
        self,
        sprites: Seq<Sprite>,
        p: (usize, usize),
        paint: TileType,
    ) -> Seq<Sprite> {
        if !self.can_drag(p) {
            sprites
        } else {
            match paint {
                TileType::Start => self.marker_sprites(sprites, self.start, p, START_COLOR),
                TileType::End => self.marker_sprites(sprites, self.end, p, END_COLOR),
                _ => self.clicked_sprites(sprites, p, Some(paint)),
            }
        }
    }

    /// The tile that row-major index `i` stands for.
    pub open spec fn tile_of(self, i: int) -> Tile {
        self.cells[i / (self.size as int)][i % (self.size as int)]
    }

    /// A fresh table of sprites: one for each tile, in the colour of its kind.
    pub open spec fn tile_sprites(self) -> Seq<Sprite> {
        Seq::new(
            (self.size * self.size) as nat,
            |i: int| Sprite { color: self.tile_of(i).tile_type.spec_color() },
        )
    }

    /// The table `sprites` after each tile's sprite took the colour of the
    /// tile's kind: the sprite of every tile, or with `only_empty` that of
    /// every `Empty` tile, among the first `upto` tiles. Sprites that belong
    /// to no tile stay as they are.
    pub open spec fn repainted(
        self,
        sprites: Seq<Sprite>,
        only_empty: bool,
        upto: int,
    ) -> Seq<Sprite> {
        Seq::new(
            sprites.len(),
            |i: int|
                if i < upto && (!only_empty || self.tile_of(i).tile_type == TileType::Empty) {
                    Sprite { color: self.tile_of(i).tile_type.spec_color() }
                } else {
                    sprites[i]
                },
        )
    }

    /// The kind that the tile at `(x, y)` of a new grid has.
    pub open spec fn default_kind(size: usize, x: int, y: int) -> TileType {
        if x == 1 && y == 1 {
            TileType::Start
        } else if x == size - 2 && y == size - 2 {
            TileType::End
        } else {
            TileType::Empty
        }
    }

    /// A new grid of side `size`.
    pub open spec fn fresh(size: usize) -> GridView {
        GridView {
            cells: Seq::new(
                size as nat,
                |y: int|
                    Seq::new(
                        size as nat,
                        |x: int|
                            Tile {
                                entity: entity_at(size as int, x, y) as u64,
                                position: (x as usize, y as usize),
                                parent: None,
                                tile_type: Self::default_kind(size, x, y),
                            },
                    ),
            ),
            start: (1, 1),
            end: default_end(size),
            size,
        }
    }

    /// The grid with every wall removed and the markers back where a new grid
    /// has them.
    pub open spec fn reset(self) -> GridView {
        GridView {
            cells: Seq::new(
                self.size as nat,
                |y: int|
                    Seq::new(
                        self.size as nat,
                        |x: int| self.cells[y][x].with_type(Self::default_kind(self.size, x, y)),
                    ),
            ),
            start: (1, 1),
            end: default_end(self.size),
            size: self.size,
        }
    }

    /// The grid cut or grown to the side `size`. A tile that both grids have
    /// keeps its kind and parent; a tile that only the new grid has is a
    /// default tile. The markers stay, also where they now lie outside.
    pub open spec fn reshaped(self, size: usize) -> GridView {
        GridView {
            cells: Seq::new(
                size as nat,
                |y: int|
                    Seq::new(
                        size as nat,
                        |x: int|
                            {
                                let kept = if x < self.size && y < self.size {
                                    self.cells[y][x]
                                } else {
                                    Tile::spec_default()
                                };
                                Tile {
                                    entity: entity_at(size as int, x, y) as u64,
                                    position: (x as usize, y as usize),
                                    ..kept
                                }
                            },
                    ),
            ),
            size,
            ..self
        }
    }

    /// The grid after each marker that lies outside it came back in: the
    /// start to `(1, 1)`, the end to `default_end`. Of two that are outside,
    /// the start comes first. A marker that is inside and in the way of the
    /// other moves to its own default place before the other comes in.
    pub open spec fn relocated(self) -> GridView {
        let start_out = !self.in_bounds(self.start);
        let end_out = !self.in_bounds(self.end);
        if start_out {
            let cleared = if !end_out && self.end == (1usize, 1usize) {
                self.set_end(default_end(self.size))
            } else {
                self
            };
            let started = cleared.set_start((1, 1));
            if end_out {
                started.set_end(default_end(self.size))
            } else {
                started
            }
        } else if end_out {
            let cleared = if self.start == default_end(self.size) {
                self.set_start((1, 1))
            } else {
                self
            };
            cleared.set_end(default_end(self.size))
        } else {
            self
        }
    }

    /// The grid after a resize to the side `size`. A side that no grid can
    /// have changes nothing.
    pub open spec fn resized(self, size: usize) -> GridView {
        if valid_size(size) {
            self.reshaped(size).relocated()
        } else {
            self
        }
    }

    /// Moving a marker leaves the grid shaped.
    pub proof fn lemma_marker_shaped(self, new: (usize, usize))
        requires
            self.shaped(),
        ensures
            self.set_start(new).shaped(),
            self.set_end(new).shaped(),
            self.set_start(new).size == self.size,
            self.set_end(new).size == self.size,
            self.set_start(new).end == self.end,
            self.set_end(new).start == self.start,
            self.in_bounds(new) ==> self.set_start(new).start == new,
            self.in_bounds(new) ==> self.set_end(new).end == new,
    {
    }

    /// Bringing the markers back in leaves the grid shaped, and well formed.
    pub proof fn lemma_relocated_shaped(self)
        requires
            self.shaped(),
        ensures
            self.relocated().wf(),
            self.relocated().size == self.size,
    {
        let home = default_end(self.size);
        self.lemma_marker_shaped(home);
        self.lemma_marker_shaped((1, 1));
        self.set_end(home).lemma_marker_shaped((1, 1));
        self.set_start((1, 1)).lemma_marker_shaped(home);
        self.set_end(home).set_start((1, 1)).lemma_marker_shaped(home);
    }
}

/// The entity of a tile inside the grid is below the number of tiles.
pub proof fn lemma_entity_bound(size: int, x: int, y: int)
    requires
        0 <= x < size,
        0 <= y < size,
    ensures
        0 <= entity_at(size, x, y) < size * size,
        entity_at(size, x, y) + 1 <= size * size,
{
    assert(0 <= y * size && y * size + size <= size * size) by (nonlinear_arith)
        requires
            0 <= y < size,
    ;
}

/// A tile's position can be read off its entity.
pub proof fn lemma_entity_div_mod(size: int, x: int, y: int)
    requires
        0 <= x < size,
        0 <= y < size,
    ensures
        entity_at(size, x, y) / size == y,
        entity_at(size, x, y) % size == x,
{
    vstd::arithmetic::div_mod::lemma_fundamental_div_mod_converse(
        entity_at(size, x, y),
        size,
        y,
        x,
    );
}

impl View for Grid {
    type V = GridView;

    open spec fn view(&self) -> GridView {
        GridView {
            cells: Seq::new(self.grid@.len(), |y: int| self.grid@[y]@),
            start: self.start,
            end: self.end,
            size: self.grid_size,
        }
    }
}

impl Grid {
    /// The rows are as many and as long as the grid's side says.
    pub open spec fn rows_fit(&self) -> bool {
        &&& self.grid@.len() == self.grid_size
        &&& forall|y: int|
            0 <= y < self.grid_size ==> (#[trigger] self.grid@[y])@.len() == self.grid_size
    }

    pub proof fn lemma_rows_fit(&self)
        requires
            self@.shaped(),
        ensures
            self.rows_fit(),
    {
        assert forall|y: int| 0 <= y < self.grid_size implies (#[trigger] self.grid@[y])@.len()
            == self.grid_size by {
            assert(self@.cells[y] == self.grid@[y]@);
        }
    }

    /// The tile at `(x, y)`.
    pub fn tile_at(&self, x: usize, y: usize) -> (result: Result<Tile, GridError>)
        requires
            self@.shaped(),
        ensures
            self@.in_bounds((x, y)) ==> result == Ok::<Tile, GridError>(self@.tile((x, y))),
            !self@.in_bounds((x, y)) ==> result == Err::<Tile, GridError>(GridError::OutOfBounds),
    {
        if x >= self.grid_size || y >= self.grid_size {
            return Err(GridError::OutOfBounds);
        }
        Ok(self.grid[y][x])
    }

    /// Gives the tile at `p` the kind `kind`, and its sprite that kind's colour.
    fn retype(&mut self, p: (usize, usize), kind: TileType, sprites: &mut Vec<Sprite>)
        requires
            old(self)@.shaped(),
            old(self)@.in_bounds(p),
        ensures
            final(self)@ == old(self)@.retyped(p, kind),
            final(sprites)@ == painted(old(sprites)@, old(self)@.tile(p).entity, kind.spec_color()),
    {
        let entity = self.grid[p.1][p.0].entity;
        self.grid[p.1][p.0].tile_type = kind;
        paint(sprites, entity, kind.color());
        assert(self@.cells =~~= old(self)@.retyped(p, kind).cells);
    }

    /// Moves the start marker to `new`: see [`GridView::set_start`]. The
    /// sprite of the old start tile takes the background colour and that of
    /// the new one the start colour.
    pub fn set_start(&mut self, new: (usize, usize), sprites: &mut Vec<Sprite>) -> (result: Result<
        (),
        GridError,
    >)
        requires
            old(self)@.shaped(),
        ensures
            final(self)@ == old(self)@.set_start(new),
            final(sprites)@ == old(self)@.marker_sprites(
                old(sprites)@,
                old(self)@.start,
                new,
                START_COLOR,
            ),
            old(self)@.in_bounds(new) ==> result == Ok::<(), GridError>(()),
            !old(self)@.in_bounds(new) ==> result == Err::<(), GridError>(GridError::OutOfBounds),
    {
        if new.0 >= self.grid_size || new.1 >= self.grid_size {
            return Err(GridError::OutOfBounds);
        }
        if self.start.0 < self.grid_size && self.start.1 < self.grid_size {
            let from = self.start;
            self.retype(from, TileType::Empty, sprites);
        }
        self.start = new;
        self.retype(new, TileType::Start, sprites);
        Ok(())
    }

    /// The tile at the start marker.
    pub fn get_start(&self) -> (tile: Tile)
        requires
            self@.wf(),
        ensures
            tile == self@.tile(self@.start),
    {
        self.grid[self.start.1][self.start.0]
    }

    /// Moves the end marker to `new`: see [`GridView::set_end`]. The sprite
    /// of the old end tile takes the background colour and that of the new
    /// one the end colour.
    pub fn set_end(&mut self, new: (usize, usize), sprites: &mut Vec<Sprite>) -> (result: Result<
        (),
        GridError,
    >)
        requires
            old(self)@.shaped(),
        ensures
            final(self)@ == old(self)@.set_end(new),
            final(sprites)@ == old(self)@.marker_sprites(
                old(sprites)@,
                old(self)@.end,
                new,
                END_COLOR,
            ),
            old(self)@.in_bounds(new) ==> result == Ok::<(), GridError>(()),
            !old(self)@.in_bounds(new) ==> result == Err::<(), GridError>(GridError::OutOfBounds),
    {
        if new.0 >= self.grid_size || new.1 >= self.grid_size {
            return Err(GridError::OutOfBounds);
        }
        if self.end.0 < self.grid_size && self.end.1 < self.grid_size {
            let from = self.end;
            self.retype(from, TileType::Empty, sprites);
        }
        self.end = new;
        self.retype(new, TileType::End, sprites);
        Ok(())
    }

    /// The tile at the end marker.
    pub fn get_end(&self) -> (tile: Tile)
        requires
            self@.wf(),
        ensures
            tile == self@.tile(self@.end),
    {
        self.grid[self.end.1][self.end.0]
    }
}

/// The rows of a grid of side `size` made from the rows `old` of side
/// `old_size`: a tile that both have is kept, any other is a default tile;
/// each tile gets its position and entity in the new grid, and with
/// `reset_kinds` the kind that a new grid has there.
pub open spec fn rebuilt_rows(
    old: Seq<Seq<Tile>>,
    old_size: usize,
    size: usize,
    reset_kinds: bool,
) -> Seq<Seq<Tile>> {
    Seq::new(
        size as nat,
        |y: int| Seq::new(size as nat, |x: int| rebuilt_tile(old, old_size, size, reset_kinds, x, y)),
    )
}

pub open spec fn rebuilt_tile(
    old: Seq<Seq<Tile>>,
    old_size: usize,
    size: usize,
    reset_kinds: bool,
    x: int,
    y: int,
) -> Tile {
    let kept = if x < old_size && y < old_size {
        old[y][x]
    } else {
        Tile::spec_default()
    };
    Tile {
        entity: entity_at(size as int, x, y) as u64,
        position: (x as usize, y as usize),
        parent: kept.parent,
        tile_type: if reset_kinds {
            GridView::default_kind(size, x, y)
        } else {
            kept.tile_type
        },
    }
}

/// Rebuilt rows form a square in which each tile knows its place.
pub proof fn lemma_rebuilt_shaped(
    old: Seq<Seq<Tile>>,
    old_size: usize,
    size: usize,
    reset_kinds: bool,
    start: (usize, usize),
    end: (usize, usize),
)
    requires
        valid_size(size),
    ensures
        (GridView { cells: rebuilt_rows(old, old_size, size, reset_kinds), start, end, size }).shaped(),
{
    let view = GridView { cells: rebuilt_rows(old, old_size, size, reset_kinds), start, end, size };
    assert forall|x: int, y: int| 0 <= x < size && 0 <= y < size implies {
        &&& (#[trigger] view.cells[y][x]).position == (x as usize, y as usize)
        &&& view.cells[y][x].entity == entity_at(size as int, x, y)
    } by {
        lemma_entity_bound(size as int, x, y);
    }
}

/// Whether a grid can have the side `size`.
pub fn is_valid_size(size: usize) -> (ok: bool)
    ensures
        ok == valid_size(size),
{
    size >= MIN_GRID_SIZE && size.checked_mul(size).is_some()
}

fn rebuild_rows(old: &Vec<Vec<Tile>>, old_size: usize, size: usize, reset_kinds: bool) -> (rows:
    Vec<Vec<Tile>>)
    requires
        valid_size(size),
        old@.len() == old_size,
        forall|y: int| 0 <= y < old_size ==> (#[trigger] old@[y])@.len() == old_size,
    ensures
        rows@.len() == size,
        forall|y: int|
            0 <= y < size ==> (#[trigger] rows@[y])@ == rebuilt_rows(
                Seq::new(old@.len(), |y: int| old@[y]@),
                old_size,
                size,
                reset_kinds,
            )[y],
{
    let ghost cells = Seq::new(old@.len(), |y: int| old@[y]@);
    let ghost target = rebuilt_rows(cells, old_size, size, reset_kinds);
    let mut rows: Vec<Vec<Tile>> = Vec::new();
    let mut y: usize = 0;
    while y < size
        invariant
            valid_size(size),
            old@.len() == old_size,
            forall|y: int| 0 <= y < old_size ==> (#[trigger] old@[y])@.len() == old_size,
            cells == Seq::new(old@.len(), |y: int| old@[y]@),
            target == rebuilt_rows(cells, old_size, size, reset_kinds),
            y <= size,
            rows@.len() == y,
            forall|k: int| 0 <= k < y ==> (#[trigger] rows@[k])@ == target[k],
        decreases size - y,
    {
        let mut row: Vec<Tile> = Vec::new();
        let mut x: usize = 0;
        while x < size
            invariant
                valid_size(size),
                old@.len() == old_size,
                forall|y: int| 0 <= y < old_size ==> (#[trigger] old@[y])@.len() == old_size,
                cells == Seq::new(old@.len(), |y: int| old@[y]@),
                target == rebuilt_rows(cells, old_size, size, reset_kinds),
                y < size,
                x <= size,
                row@.len() == x,
                forall|k: int| 0 <= k < x ==> (#[trigger] row@[k]) == target[y as int][k],
            decreases size - x,
        {
            proof {
                lemma_entity_bound(size as int, x as int, y as int);
            }
            let kept = if x < old_size && y < old_size {
                old[y][x]
            } else {
                Tile::default()
            };
            let kind = if !reset_kinds {
                kept.tile_type
            } else if x == 1 && y == 1 {
                TileType::Start
            } else if x == size - 2 && y == size - 2 {
                TileType::End
            } else {
                TileType::Empty
            };
            let entity = (y * size + x) as u64;
            row.push(Tile::new(entity, (x, y), kept.parent, kind));
            x += 1;
        }
        assert(row@ =~= target[y as int]);
        rows.push(row);
        y += 1;
    }
    rows
}

impl Grid {
    /// Makes a grid of side `grid_size` with the start at `(1, 1)` and the end
    /// at `(grid_size - 2, grid_size - 2)`, and fills `sprites` with one
    /// sprite for each tile.
    pub fn spawn_grid(grid_size: usize, sprites: &mut Vec<Sprite>) -> (result: Result<
        Grid,
        GridError,
    >)
        ensures
            match result {
                Ok(grid) => {
                    &&& valid_size(grid_size)
                    &&& grid@ == GridView::fresh(grid_size)
                    &&& final(sprites)@ == grid@.tile_sprites()
                },
                Err(error) => {
                    &&& !valid_size(grid_size)
                    &&& error == GridError::InvalidConfiguration
                    &&& final(sprites)@ == old(sprites)@
                },
            },
    {
        if !is_valid_size(grid_size) {
            return Err(GridError::InvalidConfiguration);
        }
        let none: Vec<Vec<Tile>> = Vec::new();
        let rows = rebuild_rows(&none, 0, grid_size, true);
        let grid = Grid {
            grid: rows,
            start: (1, 1),
            end: (grid_size - 2, grid_size - 2),
            grid_size,
        };
        proof {
            assert(grid@.cells =~~= GridView::fresh(grid_size).cells);
            assert(grid@.cells =~~= rebuilt_rows(Seq::empty(), 0, grid_size, true));
            lemma_rebuilt_shaped(Seq::empty(), 0, grid_size, true, grid.start, grid.end);
        }
        grid.spawn_sprites(sprites);
        Ok(grid)
    }

    /// Replaces `sprites` by a fresh table for the grid's tiles.
    fn spawn_sprites(&self, sprites: &mut Vec<Sprite>)
        requires
            self@.shaped(),
        ensures
            final(sprites)@ == self@.tile_sprites(),
    {
        sprites.clear();
        let size = self.grid_size;
        proof {
            self.lemma_rows_fit();
        }
        let mut y: usize = 0;
        while y < size
            invariant
                size == self.grid_size,
                self@.shaped(),
                self.rows_fit(),
                y <= size,
                sprites@.len() == y * size,
                forall|i: int|
                    0 <= i < sprites@.len() ==> #[trigger] sprites@[i] == (Sprite {
                        color: self@.tile_of(i).tile_type.spec_color(),
                    }),
            decreases size - y,
        {
            let mut x: usize = 0;
            while x < size
                invariant
                    size == self.grid_size,
                    self@.shaped(),
                    self.rows_fit(),
                    y < size,
                    x <= size,
                    sprites@.len() == y * size + x,
                    forall|i: int|
                        0 <= i < sprites@.len() ==> #[trigger] sprites@[i] == (Sprite {
                            color: self@.tile_of(i).tile_type.spec_color(),
                        }),
                decreases size - x,
            {
                proof {
                    lemma_entity_div_mod(size as int, x as int, y as int);
                }
                let tile = self.grid[y][x];
                sprites.push(Sprite { color: tile.tile_type.color() });
                x += 1;
            }
            assert(y * size + size == (y + 1) * size) by (nonlinear_arith);
            y += 1;
        }
        assert(sprites@ =~= self@.tile_sprites());
    }

    /// Gives the sprite of each tile the colour of the tile's kind: of every
    /// tile, or with `only_empty` of every `Empty` tile.
    fn repaint(&self, sprites: &mut Vec<Sprite>, only_empty: bool)
        requires
            self@.shaped(),
        ensures
            final(sprites)@ == self@.repainted(
                old(sprites)@,
                only_empty,
                self@.size * self@.size,
            ),
    {
        let size = self.grid_size;
        let mut y: usize = 0;
        proof {
            self.lemma_rows_fit();
        }
        assert(sprites@ =~= self@.repainted(old(sprites)@, only_empty, 0));
        while y < size
            invariant
                size == self.grid_size,
                self@.shaped(),
                self.rows_fit(),
                y <= size,
                sprites@ == self@.repainted(old(sprites)@, only_empty, y * size),
            decreases size - y,
        {
            let mut x: usize = 0;
            while x < size
                invariant
                    size == self.grid_size,
                    self@.shaped(),
                    self.rows_fit(),
                    y < size,
                    x <= size,
                    sprites@ == self@.repainted(old(sprites)@, only_empty, y * size + x),
                decreases size - x,
            {
                proof {
                    lemma_entity_div_mod(size as int, x as int, y as int);
                    lemma_entity_bound(size as int, x as int, y as int);
                }
                let tile = self.grid[y][x];
                proof {
                    let k = y * size + x;
                    assert(tile == self@.cells[y as int][x as int]);
                    assert(self@.tile_of(k) == tile);
                    assert(tile.entity == k);
                }
                if !only_empty || tile.tile_type == TileType::Empty {
                    paint(sprites, tile.entity, tile.tile_type.color());
                }
                assert(sprites@ =~= self@.repainted(
                    old(sprites)@,
                    only_empty,
                    y * size + x + 1,
                ));
                x += 1;
            }
            assert(y * size + size == (y + 1) * size) by (nonlinear_arith);
            y += 1;
        }
    }

    /// Gives every `Empty` tile's sprite the background colour again, which
    /// removes what a search has painted. No tile changes.
    pub fn clear(&self, sprites: &mut Vec<Sprite>)
        requires
            self@.shaped(),
        ensures
            final(sprites)@ == self@.repainted(old(sprites)@, true, self@.size * self@.size),
    {
        self.repaint(sprites, true);
    }

    /// Brings the grid back to what a new grid of its side is: see
    /// [`GridView::reset`]. Each tile's sprite takes the colour of the
    /// tile's new kind.
    pub fn reset(&mut self, sprites: &mut Vec<Sprite>)
        requires
            old(self)@.shaped(),
        ensures
            final(self)@ == old(self)@.reset(),
            final(sprites)@ == final(self)@.repainted(
                old(sprites)@,
                false,
                old(self)@.size * old(self)@.size,
            ),
    {
        let size = self.grid_size;
        proof {
            self.lemma_rows_fit();
        }
        let rows = rebuild_rows(&self.grid, size, size, true);
        self.grid = rows;
        self.start = (1, 1);
        self.end = (size - 2, size - 2);
        proof {
            assert(self@.cells =~~= old(self)@.reset().cells);
            assert(self@.cells =~~= rebuilt_rows(old(self)@.cells, size, size, true));
            lemma_rebuilt_shaped(old(self)@.cells, size, size, true, self.start, self.end);
        }
        self.repaint(sprites, false);
    }

    /// Moves each marker that lies outside the grid back into it: see
    /// [`GridView::relocated`].
    fn relocate(&mut self, sprites: &mut Vec<Sprite>)
        requires
            old(self)@.shaped(),
        ensures
            final(self)@ == old(self)@.relocated(),
    {
        let size = self.grid_size;
        let home = (size - 2, size - 2);
        let start_out = self.start.0 >= size || self.start.1 >= size;
        let end_out = self.end.0 >= size || self.end.1 >= size;
        if start_out {
            if !end_out && self.end.0 == 1 && self.end.1 == 1 {
                let _ = self.set_end(home, sprites);
            }
            let _ = self.set_start((1, 1), sprites);
            if end_out {
                let _ = self.set_end(home, sprites);
            }
        } else if end_out {
            if self.start.0 == home.0 && self.start.1 == home.1 {
                let _ = self.set_start((1, 1), sprites);
            }
            let _ = self.set_end(home, sprites);
        }
    }

    /// Resizes the grid to the side `new_size`: see [`GridView::resized`].
    /// The old sprites are discarded and `sprites` becomes a fresh table for
    /// the new tiles. A side that no grid can have is refused, and nothing
    /// changes.
    pub fn resize(&mut self, new_size: usize, sprites: &mut Vec<Sprite>) -> (result: Result<
        (),
        GridError,
    >)
        requires
            old(self)@.shaped(),
        ensures
            final(self)@ == old(self)@.resized(new_size),
            valid_size(new_size) ==> result == Ok::<(), GridError>(()) && final(sprites)@
                == old(self)@.resized(new_size).tile_sprites(),
            !valid_size(new_size) ==> result == Err::<(), GridError>(
                GridError::InvalidConfiguration,
            ) && final(sprites)@ == old(sprites)@,
    {
        if !is_valid_size(new_size) {
            return Err(GridError::InvalidConfiguration);
        }
        proof {
            self.lemma_rows_fit();
        }
        let rows = rebuild_rows(&self.grid, self.grid_size, new_size, false);
        self.grid = rows;
        self.grid_size = new_size;
        proof {
            assert(self@.cells =~~= old(self)@.reshaped(new_size).cells);
            assert(self@.cells =~~= rebuilt_rows(
                old(self)@.cells,
                old(self).grid_size,
                new_size,
                false,
            ));
            lemma_rebuilt_shaped(
                old(self)@.cells,
                old(self).grid_size,
                new_size,
                false,
                self.start,
                self.end,
            );
        }
        self.relocate(sprites);
        proof {
            old(self)@.reshaped(new_size).lemma_relocated_shaped();
        }
        self.spawn_sprites(sprites);
        Ok(())
    }

    /// Clicks the tile at `(x, y)`: an `Empty` tile becomes a `Wall` and a
    /// `Wall` becomes `Empty`; a marker stays. Returns the kind the tile ends
    /// with. A click outside the grid changes nothing.
    pub fn set_tile_on_click(&mut self, x: usize, y: usize, sprites: &mut Vec<Sprite>) -> (result:
        Result<TileType, GridError>)
        requires
            old(self)@.shaped(),
        ensures
            final(self)@ == old(self)@.clicked((x, y), None),
            final(sprites)@ == old(self)@.clicked_sprites(old(sprites)@, (x, y), None),
            old(self)@.in_bounds((x, y)) ==> result == Ok::<TileType, GridError>(
                old(self)@.tile((x, y)).tile_type.clicked(None),
            ),
            !old(self)@.in_bounds((x, y)) ==> result == Err::<TileType, GridError>(
                GridError::OutOfBounds,
            ),
    {
        if x >= self.grid_size || y >= self.grid_size {
            return Err(GridError::OutOfBounds);
        }
        let mut tile = self.grid[y][x];
        let mut sprite = Sprite { color: tile.tile_type.color() };
        let kind = tile.click(&mut sprite, None);
        self.retype((x, y), kind, sprites);
        Ok(kind)
    }

    /// Drags over the tile at `(x, y)` with the kind `paint_type` in hand: see
    /// [`GridView::dragged`]. A tile that holds a marker is passed over. A
    /// drag outside the grid changes nothing.
    pub fn set_tile_on_drag(
        &mut self,
        x: usize,
        y: usize,
        paint_type: TileType,
        sprites: &mut Vec<Sprite>,
    ) -> (result: Result<(), GridError>)
        requires
            old(self)@.shaped(),
        ensures
            final(self)@ == old(self)@.dragged((x, y), paint_type),
            final(sprites)@ == old(self)@.dragged_sprites(old(sprites)@, (x, y), paint_type),
            old(self)@.in_bounds((x, y)) ==> result == Ok::<(), GridError>(()),
            !old(self)@.in_bounds((x, y)) ==> result == Err::<(), GridError>(
                GridError::OutOfBounds,
            ),
    {
        if x >= self.grid_size || y >= self.grid_size {
            return Err(GridError::OutOfBounds);
        }
        if (x == self.start.0 && y == self.start.1) || (x == self.end.0 && y == self.end.1) {
            return Ok(());
        }
        proof {
            self.lemma_rows_fit();
        }
        match paint_type {
            TileType::Start => self.set_start((x, y), sprites),
            TileType::End => self.set_end((x, y), sprites),
            _ => {
                let mut tile = self.grid[y][x];
                let mut sprite = Sprite { color: tile.tile_type.color() };
                let kind = tile.click(&mut sprite, Some(paint_type));
                self.retype((x, y), kind, sprites);
                Ok(())
            },
        }
    }

    /// Searches the way from the start to the end with the algorithm and the
    /// heuristic that `solver_state` selects: see
    /// [`Algorithm::get_algorithm`](crate::solver::Algorithm::get_algorithm).
    pub fn solve(&mut self, solver_state: &SolverState, solve_buffer: &mut SolveBuffer) -> (result:
        Result<bool, GridError>)
        requires
            old(self)@.wf(),
        ensures
            final(self)@.wf(),
            solver_state.algorithm.implemented() ==> search_left(
                search(old(self)@, solver_state.heuristic),
                old(self)@,
                final(self)@,
                old(solve_buffer)@,
                final(solve_buffer)@,
                result,
            ),
            solver_state.algorithm.implemented() ==> search_owed(
                old(self)@,
                solver_state.heuristic,
                result,
            ),
            !solver_state.algorithm.implemented() ==> {
                &&& result == Err::<bool, GridError>(GridError::NotImplemented)
                &&& final(self)@ == old(self)@
                &&& final(solve_buffer)@ == old(solve_buffer)@
            },
    {
        solver_state.algorithm.get_algorithm(self, solve_buffer, &solver_state.heuristic)
    }
}

/// The grid, the sprites and the queue of batches together.
pub struct World {
    pub grid: GridView,
    pub sprites: Seq<Sprite>,
    pub batches: Seq<Seq<TileColorEvent>>,
}

impl World {
    /// What an event does. Every event first drops the batches that wait. A
    /// resize, a clear and a reset then do what the grid's operations of that
    /// name do; a solve clears and then searches.
    pub open spec fn after(self, event: GridEvent, solver_state: SolverState) -> World {
        match event {
            GridEvent::Resize(size) => World {
                grid: self.grid.resized(size),
                sprites: if valid_size(size) {
                    self.grid.resized(size).tile_sprites()
                } else {
                    self.sprites
                },
                batches: Seq::empty(),
            },
            GridEvent::Clear => World {
                grid: self.grid,
                sprites: self.grid.repainted(self.sprites, true, self.grid.size * self.grid.size),
                batches: Seq::empty(),
            },
            GridEvent::Reset => World {
                grid: self.grid.reset(),
                sprites: self.grid.reset().repainted(
                    self.sprites,
                    false,
                    self.grid.size * self.grid.size,
                ),
                batches: Seq::empty(),
            },
            GridEvent::Solve => {
                let sprites = self.grid.repainted(
                    self.sprites,
                    true,
                    self.grid.size * self.grid.size,
                );
                if solver_state.algorithm.implemented() {
                    let done = search(self.grid, solver_state.heuristic);
                    World {
                        grid: GridView { cells: done.cells, ..self.grid },
                        sprites,
                        batches: done.batches,
                    }
                } else {
                    World { grid: self.grid, sprites, batches: Seq::empty() }
                }
            },
        }
    }

    /// What a solve reports: that the algorithm is not implemented, or that the
    /// way back from the end broke off.
    pub open spec fn failure(self, event: GridEvent, solver_state: SolverState) -> Option<
        GridError,
    > {
        if event != GridEvent::Solve {
            None
        } else if !solver_state.algorithm.implemented() {
            Some(GridError::NotImplemented)
        } else if search(self.grid, solver_state.heuristic).broken {
            Some(GridError::OutOfBounds)
        } else {
            None
        }
    }

    /// What the first `count` events of `events` do, one after the other.
    pub open spec fn after_all(self, events: Seq<GridEvent>, solver_state: SolverState, count: int) -> World
        decreases count,
    {
        if count <= 0 {
            self
        } else {
            self.after_all(events, solver_state, count - 1).after(events[count - 1], solver_state)
        }
    }

    /// The first failure that one of the first `count` events reports.
    pub open spec fn first_failure(
        self,
        events: Seq<GridEvent>,
        solver_state: SolverState,
        count: int,
    ) -> Option<GridError>
        decreases count,
    {
        if count <= 0 {
            None
        } else {
            match self.first_failure(events, solver_state, count - 1) {
                Some(error) => Some(error),
                None => self.after_all(events, solver_state, count - 1).failure(
                    events[count - 1],
                    solver_state,
                ),
            }
        }
    }
}

/// Handles the host's events in order: see [`World::after`]. A resize to a
/// side that no grid can have is passed over. What a solve reports is handed
/// back, the first such report if there are several; the events after it are
/// handled all the same.
pub fn process_grid_events(
    events: &Vec<GridEvent>,
    grid: &mut Grid,
    sprites: &mut Vec<Sprite>,
    solver_state: &SolverState,
    solve_buffer: &mut SolveBuffer,
) -> (result: Result<(), GridError>)
    requires
        old(grid)@.wf(),
    ensures
        final(grid)@.wf(),
        ({
            let before = World {
                grid: old(grid)@,
                sprites: old(sprites)@,
                batches: old(solve_buffer)@,
            };
            let after = before.after_all(events@, *solver_state, events@.len() as int);
            &&& events@.len() > 0 ==> final(grid)@ == after.grid && final(sprites)@
                == after.sprites && final(solve_buffer)@ == after.batches
            &&& events@.len() == 0 ==> final(grid)@ == old(grid)@ && final(sprites)@ == old(sprites)@ && final(solve_buffer)@ == old(solve_buffer)@
            &&& result == match before.first_failure(
                events@,
                *solver_state,
                events@.len() as int,
            ) {
                Some(error) => Err::<(), GridError>(error),
                None => Ok::<(), GridError>(()),
            }
        }),
{
    let ghost before = World { grid: grid@, sprites: sprites@, batches: solve_buffer@ };
    let mut result: Result<(), GridError> = Ok(());
    let mut i: usize = 0;
    while i < events.len()
        invariant
            i <= events@.len(),
            grid@.wf(),
            before == (World {
                grid: old(grid)@,
                sprites: old(sprites)@,
                batches: old(solve_buffer)@,
            }),
            i > 0 ==> (World { grid: grid@, sprites: sprites@, batches: solve_buffer@ })
                == before.after_all(events@, *solver_state, i as int),
            i == 0 ==> grid@ == old(grid)@ && sprites@ == old(sprites)@ && solve_buffer@ == old(solve_buffer)@,
            result == match before.first_failure(events@, *solver_state, i as int) {
                Some(error) => Err::<(), GridError>(error),
                None => Ok::<(), GridError>(()),
            },
        decreases events@.len() - i,
    {
        let ghost here = before.after_all(events@, *solver_state, i as int);
        proof {
            if i == 0 {
                assert(here == before);
            }
            assert(here.grid == grid@ && here.sprites == sprites@);
        }
        solve_buffer.clear();
        match events[i] {
            GridEvent::Resize(size) => {
                proof {
                    if valid_size(size) {
                        lemma_rebuilt_shaped(
                            grid@.cells,
                            grid@.size,
                            size,
                            false,
                            grid@.start,
                            grid@.end,
                        );
                        assert(grid@.reshaped(size).cells =~~= rebuilt_rows(
                            grid@.cells,
                            grid@.size,
                            size,
                            false,
                        ));
                        grid@.reshaped(size).lemma_relocated_shaped();
                    }
                }
                let _ = grid.resize(size, sprites);
            },
            GridEvent::Clear => {
                grid.clear(sprites);
            },
            GridEvent::Reset => {
                grid.reset(sprites);
            },
            GridEvent::Solve => {
                grid.clear(sprites);
                match grid.solve(solver_state, solve_buffer) {
                    Ok(_) => {},
                    Err(error) => {
                        if result.is_ok() {
                            result = Err(error);
                        }
                    },
                }
                proof {
                    assert(Seq::<Seq<TileColorEvent>>::empty() + search(
                        here.grid,
                        solver_state.heuristic,
                    ).batches =~= search(here.grid, solver_state.heuristic).batches);
                }
            },
        }
        i += 1;
    }
    result
}

} // verus!
