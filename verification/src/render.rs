use vstd::prelude::*;
use crate::tile::type_code;
use crate::world::{World, WorldView, lemma_in_bounds_addressable};
use crate::text::{decimal, push_decimal, push_text};
use crate::water::mass_evaporation::{is_source_pos, is_source_exec};

verus! {

broadcast use lemma_in_bounds_addressable;

/// The kinds of tile, numbered as in the packed byte of a tile.
#[derive(Clone, Copy, PartialEq, Eq, Debug, Structural)]
pub enum TileType {
    Air,
    Grass,
    Dirt,
    Stone,
    Sand,
    Water,
}

pub open spec fn tile_type_code(t: TileType) -> u8 {
    match t {
        TileType::Air => 0,
        TileType::Grass => 1,
        TileType::Dirt => 2,
        TileType::Stone => 3,
        TileType::Sand => 4,
        TileType::Water => 5,
    }
}

impl TileType {
    /// The numeric code of the tile type.
    pub fn code(self) -> (c: u8)
        ensures
            c == tile_type_code(self),
    {
        match self {
            TileType::Air => 0,
            TileType::Grass => 1,
            TileType::Dirt => 2,
            TileType::Stone => 3,
            TileType::Sand => 4,
            TileType::Water => 5,
        }
    }
}

/// The water of one cell as the renderer shows it.
#[derive(Clone, Copy, PartialEq, Eq, Debug, Structural)]
pub struct WaterCell {
    pub level: u8,
    pub is_source: bool,
    pub sediment: u8,
}

impl WaterCell {
    /// A cell without water.
    pub fn empty() -> (c: WaterCell)
        ensures
            c == (WaterCell { level: 0, is_source: false, sediment: 0 }),
    {
        WaterCell { level: 0, is_source: false, sediment: 0 }
    }
}

/// The three-character text of a cell: water shows as `~N ` (or `*N ` for a source)
/// with its level N; otherwise Grass ` G `, Dirt ` D `, Stone ` # `, Sand ` S `, and
/// anything else ` . `.
pub open spec fn cell_text(tile: u8, water: WaterCell) -> Seq<char> {
    if water.level > 0 {
        seq![if water.is_source {
            '*'
        } else {
            '~'
        }] + decimal(water.level as nat) + seq![' ']
    } else if tile == 1 {
        seq![' ', 'G', ' ']
    } else if tile == 2 {
        seq![' ', 'D', ' ']
    } else if tile == 3 {
        seq![' ', '#', ' ']
    } else if tile == 4 {
        seq![' ', 'S', ' ']
    } else {
        seq![' ', '.', ' ']
    }
}

/// Formats one cell (see `cell_text`).
pub fn format_cell(tile: u8, water: WaterCell) -> (s: String)
    ensures
        s@ == cell_text(tile, water),
{
    let mut s = String::new();
    if water.level > 0 {
        if water.is_source {
            push_text(&mut s, "*");
        } else {
            push_text(&mut s, "~");
        }
        push_decimal(&mut s, water.level as usize);
        push_text(&mut s, " ");
        proof {
            reveal_strlit("*");
            reveal_strlit("~");
            reveal_strlit(" ");
            assert(s@ =~= cell_text(tile, water));
        }
        return s;
    }
    let lit = if tile == 1 {
        " G "
    } else if tile == 2 {
        " D "
    } else if tile == 3 {
        " # "
    } else if tile == 4 {
        " S "
    } else {
        " . "
    };
    push_text(&mut s, lit);
    proof {
        reveal_strlit(" G ");
        reveal_strlit(" D ");
        reveal_strlit(" # ");
        reveal_strlit(" S ");
        reveal_strlit(" . ");
        assert(s@ =~= cell_text(tile, water));
    }
    s
}

/// The water the renderer shows at (x, y, z): the water mass as the level, whether the
/// cell is a listed source, and the sediment.
pub open spec fn water_cell_at(v: WorldView, x: int, y: int, z: int) -> WaterCell {
    WaterCell {
        level: v.mass(x, y, z),
        is_source: is_source_pos(v.sources, x, y, z),
        sediment: v.water_sediment[v.idx(x, y, z)],
    }
}

pub open spec fn cell_at_text(v: WorldView, x: int, y: int, z: int) -> Seq<char> {
    cell_text(type_code(v.tile(x, y, z)), water_cell_at(v, x, y, z))
}

/// The text of cells (0, y, z) .. (n - 1, y, z).
pub open spec fn row_text(v: WorldView, y: int, z: int, n: nat) -> Seq<char>
    decreases n,
{
    if n == 0 {
        Seq::empty()
    } else {
        row_text(v, y, z, (n - 1) as nat) + cell_at_text(v, n - 1, y, z)
    }
}

/// Rows y = 0 .. m - 1 of layer z, each ended by a newline.
pub open spec fn layer_rows(v: WorldView, z: int, m: nat) -> Seq<char>
    decreases m,
{
    if m == 0 {
        Seq::empty()
    } else {
        layer_rows(v, z, (m - 1) as nat) + row_text(v, m - 1, z, v.width) + seq!['\n']
    }
}

/// Rows z = h - 1 down to h - n of the slice at depth y, each ended by a newline.
pub open spec fn side_rows(v: WorldView, y: int, n: nat) -> Seq<char>
    decreases n,
{
    if n == 0 {
        Seq::empty()
    } else {
        side_rows(v, y, (n - 1) as nat) + row_text(v, y, v.height - n, v.width) + seq!['\n']
    }
}

/// A top-down view of layer z: a header `z=Z (WxD):` and one line per row.
pub open spec fn top_down_text(v: WorldView, z: int) -> Seq<char> {
    seq!['z', '='] + decimal(z as nat) + seq![' ', '('] + decimal(v.width) + seq!['x'] + decimal(
        v.depth,
    ) + seq![')', ':', '\n'] + layer_rows(v, z, v.depth)
}

/// A side view of the slice at depth y: a header `y=Y (x->, z^, WxH):` and one line per
/// layer, the top layer first.
pub open spec fn side_text(v: WorldView, y: int) -> Seq<char> {
    seq!['y', '='] + decimal(y as nat) + seq![' ', '(', 'x', '-', '>', ',', ' ', 'z', '^', ',', ' ']
        + decimal(v.width) + seq!['x'] + decimal(v.height) + seq![')', ':', '\n'] + side_rows(
        v,
        y,
        v.height,
    )
}

/// Which slice of the world a renderer shows.
#[derive(Clone, Copy, PartialEq, Eq, Debug, Structural)]
pub enum SliceAxis {
    /// The horizontal layer at this z.
    TopDown(usize),
    /// The vertical slice at this y.
    Side(usize),
}

/// Turns a world into text.
pub trait WorldRenderer {
    /// The worlds this renderer can show.
    spec fn can_render(&self, world: WorldView) -> bool;

    fn render(&self, world: &World) -> String
        requires
            world.wf(),
            self.can_render(world@),
    ;
}

/// Renders one slice of the world as text, three characters per cell.
pub struct AsciiRenderer {
    slice: SliceAxis,
}

impl AsciiRenderer {
    pub closed spec fn axis(&self) -> SliceAxis {
        self.slice
    }

    pub fn top_down(z: usize) -> (r: AsciiRenderer)
        ensures
            r.axis() == SliceAxis::TopDown(z),
    {
        AsciiRenderer { slice: SliceAxis::TopDown(z) }
    }

    pub fn side_view(y: usize) -> (r: AsciiRenderer)
        ensures
            r.axis() == SliceAxis::Side(y),
    {
        AsciiRenderer { slice: SliceAxis::Side(y) }
    }
}

/// Appends the text of cells (0, y, z) .. (w - 1, y, z).
fn push_row(s: &mut String, world: &World, y: usize, z: usize)
    requires
        world.wf(),
        y < world@.depth,
        z < world@.height,
    ensures
        final(s)@ == old(s)@ + row_text(world@, y as int, z as int, world@.width),
{
    let w = world.width();
    let sources = world.sources();
    let mut x: usize = 0;
    while x < w
        invariant
            world.wf(),
            w == world@.width,
            sources@ == world@.sources,
            y < world@.depth,
            z < world@.height,
            x <= w,
            s@ == old(s)@ + row_text(world@, y as int, z as int, x as nat),
        decreases w - x,
    {
        let tile = world.get(x, y, z);
        let cell = WaterCell {
            level: world.water_mass(x, y, z),
            is_source: is_source_exec(sources, x, y, z),
            sediment: world.water_sediment(x, y, z),
        };
        let t = format_cell(tile.pack() & 0x07, cell);
        proof {
            crate::tile::lemma_packed_type_bits(tile);
        }
        push_text(s, t.as_str());
        proof {
            assert(s@ =~= old(s)@ + row_text(world@, y as int, z as int, (x + 1) as nat));
        }
        x += 1;
    }
}

impl AsciiRenderer {
    fn render_top_down(&self, world: &World, z: usize) -> (s: String)
        requires
            world.wf(),
            z < world@.height,
        ensures
            s@ == top_down_text(world@, z as int),
    {
        let w = world.width();
        let d = world.depth();
        let mut out = String::new();
        push_text(&mut out, "z=");
        push_decimal(&mut out, z);
        push_text(&mut out, " (");
        push_decimal(&mut out, w);
        push_text(&mut out, "x");
        push_decimal(&mut out, d);
        push_text(&mut out, "):\n");
        proof {
            reveal_strlit("z=");
            reveal_strlit(" (");
            reveal_strlit("x");
            reveal_strlit("):\n");
        }
        let ghost header = out@;
        let mut y: usize = 0;
        while y < d
            invariant
                world.wf(),
                d == world@.depth,
                z < world@.height,
                y <= d,
                out@ == header + layer_rows(world@, z as int, y as nat),
            decreases d - y,
        {
            push_row(&mut out, world, y, z);
            push_text(&mut out, "\n");
            proof {
                reveal_strlit("\n");
                assert(out@ =~= header + layer_rows(world@, z as int, (y + 1) as nat));
            }
            y += 1;
        }
        assert(out@ =~= top_down_text(world@, z as int));
        out
    }

    fn render_side(&self, world: &World, y: usize) -> (s: String)
        requires
            world.wf(),
            y < world@.depth,
        ensures
            s@ == side_text(world@, y as int),
    {
        let w = world.width();
        let h = world.height();
        let mut out = String::new();
        push_text(&mut out, "y=");
        push_decimal(&mut out, y);
        push_text(&mut out, " (x->, z^, ");
        push_decimal(&mut out, w);
        push_text(&mut out, "x");
        push_decimal(&mut out, h);
        push_text(&mut out, "):\n");
        proof {
            reveal_strlit("y=");
            reveal_strlit(" (x->, z^, ");
            reveal_strlit("x");
            reveal_strlit("):\n");
        }
        let ghost header = out@;
        let mut z = h;
        while z > 0
            invariant
                world.wf(),
                h == world@.height,
                y < world@.depth,
                z <= h,
                out@ == header + side_rows(world@, y as int, (h - z) as nat),
            decreases z,
        {
            z -= 1;
            push_row(&mut out, world, y, z);
            push_text(&mut out, "\n");
            proof {
                reveal_strlit("\n");
                assert(out@ =~= header + side_rows(world@, y as int, (h - z) as nat));
            }
        }
        assert(out@ =~= side_text(world@, y as int));
        out
    }
}

/// The text an ASCII renderer produces for a world.
pub open spec fn ascii_text(axis: SliceAxis, v: WorldView) -> Seq<char> {
    match axis {
        SliceAxis::TopDown(z) => top_down_text(v, z as int),
        SliceAxis::Side(y) => side_text(v, y as int),
    }
}

impl WorldRenderer for AsciiRenderer {
    /// A top-down view needs its layer to exist, a side view its slice.
    open spec fn can_render(&self, world: WorldView) -> bool {
        match self.axis() {
            SliceAxis::TopDown(z) => z < world.height,
            SliceAxis::Side(y) => y < world.depth,
        }
    }

    fn render(&self, world: &World) -> (s: String)
        ensures
            s@ == ascii_text(self.axis(), world@),
    {
        match self.slice {
            SliceAxis::TopDown(z) => self.render_top_down(world, z),
            SliceAxis::Side(y) => self.render_side(world, y),
        }
    }
}

} // verus!
