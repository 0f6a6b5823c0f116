//! Tiles: the cells of the grid, their kinds and the colours they are drawn in.
use vstd::prelude::*;

verus! {

/// A colour of the palette that tiles are drawn in. The host decides how each
/// entry looks on screen.
#[derive(Clone, Copy, Debug, PartialEq, Eq, Structural)]
pub enum Color {
    Background,
    Wall,
    Start,
    End,
    Closed,
    Open,
    Path,
}

pub const BG_COLOR: Color = Color::Background;

pub const WALL_COLOR: Color = Color::Wall;

pub const START_COLOR: Color = Color::Start;

pub const END_COLOR: Color = Color::End;

pub const CLOSED_COLOR: Color = Color::Closed;

pub const OPEN_COLOR: Color = Color::Open;

pub const PATH_COLOR: Color = Color::Path;

/// The kind of a tile. `Empty` is the kind of a tile that holds nothing: it
/// can be walked over and painted.
#[derive(Clone, Copy, Debug, PartialEq, Eq, Structural)]
pub enum TileType {
    Empty,
    Start,
    End,
    Wall,
}

impl Default for TileType {
    fn default() -> (kind: TileType)
        ensures
            kind == TileType::Empty,
    {
        TileType::Empty
    }
}

impl TileType {
    /// The colour a tile of this kind has when no search has touched it.
    pub open spec fn spec_color(&self) -> Color {
        match *self {
            TileType::Empty => BG_COLOR,
            TileType::Wall => WALL_COLOR,
            TileType::Start => START_COLOR,
            TileType::End => END_COLOR,
        }
    }

    #[verifier::when_used_as_spec(spec_color)]
    pub fn color(&self) -> (color: Color)
        ensures
            color == self.spec_color(),
    {
        match *self {
            TileType::Empty => BG_COLOR,
            TileType::Wall => WALL_COLOR,
            TileType::Start => START_COLOR,
            TileType::End => END_COLOR,
        }
    }

    /// The kind a tile has after a click. Without a paint kind, a click swaps
    /// `Empty` and `Wall`; with one, it paints over `Empty` and `Wall`. A
    /// `Start` or `End` tile keeps its kind either way.
    pub open spec fn clicked(self, paint: Option<TileType>) -> TileType {
        match paint {
            None => match self {
                TileType::Empty => TileType::Wall,
                TileType::Wall => TileType::Empty,
                _ => self,
            },
            Some(kind) => match self {
                TileType::Wall | TileType::Empty => kind,
                _ => self,
            },
        }
    }
}

/// The visual object of one tile, as far as the grid is concerned: the colour
/// it shows. The host keeps one per tile, in a table indexed by the tile's
/// `entity`.
#[derive(Clone, Copy, Debug, PartialEq, Eq, Structural)]
pub struct Sprite {
    pub color: Color,
}

/// The table of sprites after the sprite of `entity` took `color`. An entity
/// that the table does not hold changes nothing.
pub open spec fn painted(sprites: Seq<Sprite>, entity: u64, color: Color) -> Seq<Sprite> {
    if entity < sprites.len() {
        sprites.update(entity as int, Sprite { color })
    } else {
        sprites
    }
}

/// Gives the sprite of `entity` the colour `color`. Returns whether the table
/// holds that entity; if it does not, nothing changes.
pub fn paint(sprites: &mut Vec<Sprite>, entity: u64, color: Color) -> (found: bool)
    ensures
        final(sprites)@ == painted(old(sprites)@, entity, color),
        found == (entity < old(sprites)@.len()),
{
    if entity < sprites.len() as u64 {
        sprites[entity as usize] = Sprite { color };
        true
    } else {
        false
    }
}

#[derive(Clone, Copy, Debug)]
pub struct Tile {
    /// Index of the tile's sprite in the host's table.
    pub entity: u64,
    /// `(x, y)` position of the tile in the grid.
    pub position: (usize, usize),
    /// Position of the tile this one was reached from in the last search.
    pub parent: Option<(usize, usize)>,
    pub tile_type: TileType,
}

impl Tile {
    pub fn new(
        entity: u64,
        position: (usize, usize),
        parent: Option<(usize, usize)>,
        tile_type: TileType,
    ) -> (tile: Tile)
        ensures
            tile == (Tile { entity, position, parent, tile_type }),
    {
        Tile { entity, position, parent, tile_type }
    }

    pub open spec fn spec_default() -> Tile {
        Tile { entity: 0, position: (0, 0), parent: None, tile_type: TileType::Empty }
    }

    /// An `Empty` tile at the origin, bound to no sprite of its own yet.
    #[verifier::when_used_as_spec(spec_default)]
    pub fn default() -> (tile: Tile)
        ensures
            tile == Tile::spec_default(),
    {
        Tile { entity: 0, position: (0, 0), parent: None, tile_type: TileType::default() }
    }

    /// This tile with another kind.
    pub open spec fn with_type(self, tile_type: TileType) -> Tile {
        Tile { tile_type, ..self }
    }

    /// This tile with another parent.
    pub open spec fn with_parent(self, parent: (usize, usize)) -> Tile {
        Tile { parent: Some(parent), ..self }
    }

    /// Sets the tile's kind and gives the sprite that kind's colour.
    pub fn set_type(&mut self, new_type: TileType, sprite: &mut Sprite)
        ensures
            *final(self) == old(self).with_type(new_type),
            final(sprite).color == new_type.spec_color(),
    {
        self.tile_type = new_type;
        sprite.color = new_type.color();
    }

    /// Clicks the tile: see [`TileType::clicked`]. The sprite takes the colour
    /// of the kind the tile ends with, which is returned.
    pub fn click(&mut self, sprite: &mut Sprite, new_type: Option<TileType>) -> (kind: TileType)
        ensures
            kind == old(self).tile_type.clicked(new_type),
            *final(self) == old(self).with_type(kind),
            final(sprite).color == kind.spec_color(),
    {
        match new_type {
            None => {
                self.tile_type = match self.tile_type {
                    TileType::Empty => TileType::Wall,
                    TileType::Wall => TileType::Empty,
                    _ => self.tile_type,
                };
            },
            Some(new_type) => {
                self.tile_type = match self.tile_type {
                    TileType::Wall | TileType::Empty => new_type,
                    _ => self.tile_type,
                }
            },
        }
        sprite.color = self.tile_type.color();
        self.tile_type
    }
}

/// The grid position that a visual tile stands for.
#[derive(Clone, Copy, Debug, PartialEq, Eq, Structural)]
pub struct VisualTile {
    pub x: usize,
    pub y: usize,
}

impl VisualTile {
    pub fn new(position: (usize, usize)) -> (tile: VisualTile)
        ensures
            tile.x == position.0,
            tile.y == position.1,
    {
        VisualTile { x: position.0, y: position.1 }
    }
}

} // verus!
