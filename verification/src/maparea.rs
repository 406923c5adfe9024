//! The map: a grid of blocks, drawn from the blocks of a tileset, painted
//! cell by cell, with undo and redo.

use vstd::prelude::*;
use vstd::arithmetic::div_mod::{lemma_fundamental_div_mod, lemma_fundamental_div_mod_converse};
use crate::constants::{
    base_palette,
    hover_palette,
    spec_base_palette,
    spec_hover_palette,
    RgbPalette,
    RgbTriple,
    BLOCK_SIZE,
};
use crate::history::{History, HistoryView};
use crate::palette::highlight;
use crate::position::{cell_x, cell_y, lemma_cell_origin, Positionable};
use crate::raster::{Raster, RasterView, Rect};
use crate::tileset::{block_image, Tileset, TilesetView};

verus! {

/// The number of cells in a row of the maps that the editor works on.
pub const MAP_WIDTH: u8 = 20;

/// The number of rows of the maps that the editor works on.
pub const MAP_HEIGHT: u8 = 18;

/// The cell, counted row by row, that holds the pixel `(px, py)` of a map of
/// `columns` cells a row.
#[verifier::opaque]
pub open spec fn cell_at(px: int, py: int, columns: int) -> int {
    (py / (BLOCK_SIZE as int)) * columns + px / (BLOCK_SIZE as int)
}

/// The colour of the pixel `(px, py)` of the map `mapset` of `columns` cells
/// a row, drawn from the blocks of the strip `strip`: that of its place in
/// the block of its cell, and black beyond the end of the map.
pub open spec fn map_color(mapset: Seq<u8>, columns: int, strip: RasterView, px: int, py: int)
    -> RgbTriple {
    let cell = cell_at(px, py, columns);
    if 0 <= cell < mapset.len() {
        block_image(strip, mapset[cell]).at(px % (BLOCK_SIZE as int), py % (BLOCK_SIZE as int))
    } else {
        (0u8, 0u8, 0u8)
    }
}

/// The picture of the map `mapset` of `columns` by `rows` cells, drawn from
/// the blocks of the strip `strip`.
pub open spec fn map_image(mapset: Seq<u8>, columns: nat, rows: nat, strip: RasterView)
    -> RasterView {
    RasterView {
        width: columns * BLOCK_SIZE as nat,
        height: rows * BLOCK_SIZE as nat,
        rows: Seq::new(
            rows * BLOCK_SIZE as nat,
            |y: int|
                Seq::new(
                    columns * BLOCK_SIZE as nat,
                    |x: int| map_color(mapset, columns as int, strip, x, y),
                ),
        ),
    }
}

/// The square of cell `index` on a map of `columns` cells a row.
pub open spec fn cell_rect(index: int, columns: int) -> Rect {
    Rect {
        x: cell_x(index, columns * BLOCK_SIZE) as usize,
        y: cell_y(index, columns * BLOCK_SIZE) as usize,
        width: BLOCK_SIZE,
        height: BLOCK_SIZE,
    }
}

/// A place on an axis is made of its block and its place in the block.
proof fn lemma_block_parts(pixel: int)
    requires
        0 <= pixel,
    ensures
        pixel == (pixel / 32) * 32 + pixel % 32,
        0 <= pixel / 32,
        0 <= pixel % 32 < 32,
{
}

/// The square of column `column` and row `row` holds the pixels of that
/// column and row.
proof fn lemma_square_covers(
    column: int,
    row: int,
    px: int,
    py: int,
    pixel_column: int,
    pixel_row: int,
    fx: int,
    fy: int,
)
    requires
        0 <= fx < 32,
        0 <= fy < 32,
        px == pixel_column * 32 + fx,
        py == pixel_row * 32 + fy,
    ensures
        (column * 32 <= px < column * 32 + 32 && row * 32 <= py < row * 32 + 32) <==> (pixel_column
            == column && pixel_row == row),
        pixel_column == column ==> px - column * 32 == fx,
        pixel_row == row ==> py - row * 32 == fy,
{
}

/// Row and column name a cell, and one cell only.
proof fn lemma_cell_number(columns: int, row: int, column: int, other_row: int, other_column: int)
    requires
        0 <= column < columns,
        0 <= other_column < columns,
    ensures
        (row * columns + column == other_row * columns + other_column) <==> (row == other_row
            && column == other_column),
{
    lemma_fundamental_div_mod_converse(row * columns + column, columns, row, column);
    lemma_fundamental_div_mod_converse(
        other_row * columns + other_column,
        columns,
        other_row,
        other_column,
    );
}

/// The square of cell `index` holds the pixels whose cell is `index`, each at
/// its place in the block.
pub proof fn lemma_cell_covers(index: int, columns: int, px: int, py: int)
    requires
        0 <= index,
        0 < columns,
        0 <= px < columns * BLOCK_SIZE,
        0 <= py,
    ensures
        cell_x(index, columns * BLOCK_SIZE) == (index % columns) * BLOCK_SIZE,
        cell_y(index, columns * BLOCK_SIZE) == (index / columns) * BLOCK_SIZE,
        (cell_x(index, columns * BLOCK_SIZE) <= px < cell_x(index, columns * BLOCK_SIZE)
            + BLOCK_SIZE && cell_y(index, columns * BLOCK_SIZE) <= py < cell_y(
            index,
            columns * BLOCK_SIZE,
        ) + BLOCK_SIZE) <==> cell_at(px, py, columns) == index,
        cell_at(px, py, columns) == index ==> px - cell_x(index, columns * BLOCK_SIZE) == px % 32
            && py - cell_y(index, columns * BLOCK_SIZE) == py % 32,
        0 <= cell_at(px, py, columns),
{
    reveal(cell_at);
    lemma_cell_origin(index, columns);
    lemma_block_parts(px);
    lemma_block_parts(py);
    lemma_fundamental_div_mod(index, columns);
    let column = index % columns;
    let row = index / columns;
    assert(index == row * columns + column) by (nonlinear_arith)
        requires
            index == columns * row + column,
    ;
    assert(0 <= column < columns);
    assert(px / 32 < columns) by (nonlinear_arith)
        requires
            px < columns * 32,
            px == (px / 32) * 32 + px % 32,
            0 <= px % 32,
    ;
    lemma_square_covers(column, row, px, py, px / 32, py / 32, px % 32, py % 32);
    lemma_cell_number(columns, py / 32, px / 32, row, column);
    assert(0 <= (py / 32) * columns) by (nonlinear_arith)
        requires
            0 <= py / 32,
            0 < columns,
    ;
}

/// The colour of a pixel after cell `index` of the map is given the block
/// `block`: that of the block inside the square of the cell, and the colour
/// it had outside.
pub proof fn lemma_map_color_update(
    mapset: Seq<u8>,
    columns: int,
    strip: RasterView,
    index: int,
    block: u8,
    px: int,
    py: int,
)
    requires
        0 <= index < mapset.len(),
        index * BLOCK_SIZE <= usize::MAX,
        0 < columns,
        0 <= px < columns * BLOCK_SIZE,
        0 <= py,
    ensures
        map_color(mapset.update(index, block), columns, strip, px, py) == if cell_rect(
            index,
            columns,
        ).contains(px, py) {
            block_image(strip, block).at(
                px - cell_rect(index, columns).x,
                py - cell_rect(index, columns).y,
            )
        } else {
            map_color(mapset, columns, strip, px, py)
        },
{
    lemma_cell_covers(index, columns, px, py);
    lemma_cell_in_reach(index, columns);
}

/// The corner of a cell has room in a machine word where the cell's number
/// times the block size has.
proof fn lemma_cell_in_reach(index: int, columns: int)
    requires
        0 <= index,
        0 < columns,
    ensures
        0 <= cell_x(index, columns * BLOCK_SIZE) <= index * BLOCK_SIZE,
        0 <= cell_y(index, columns * BLOCK_SIZE) <= index * BLOCK_SIZE,
{
    lemma_cell_origin(index, columns);
    lemma_fundamental_div_mod(index, columns);
    let column = index % columns;
    let row = index / columns;
    assert(0 <= column <= index && 0 <= row <= index) by (nonlinear_arith)
        requires
            index == columns * row + column,
            0 <= column < columns,
            0 <= index,
    ;
}

/// The colour of a pixel after the block `block` is added at the end of the
/// map: that of the block inside the square of the new cell, and the colour
/// it had outside.
proof fn lemma_map_color_grow(
    mapset: Seq<u8>,
    columns: int,
    strip: RasterView,
    block: u8,
    px: int,
    py: int,
)
    requires
        mapset.len() * BLOCK_SIZE <= usize::MAX,
        0 < columns,
        0 <= px < columns * BLOCK_SIZE,
        0 <= py,
    ensures
        map_color(mapset.push(block), columns, strip, px, py) == if cell_rect(
            mapset.len() as int,
            columns,
        ).contains(px, py) {
            block_image(strip, block).at(
                px - cell_rect(mapset.len() as int, columns).x,
                py - cell_rect(mapset.len() as int, columns).y,
            )
        } else {
            map_color(mapset, columns, strip, px, py)
        },
{
    lemma_cell_covers(mapset.len() as int, columns, px, py);
    lemma_cell_in_reach(mapset.len() as int, columns);
}

/// The cells beyond the grid are not on the picture: a map cut to the size
/// of the grid gives the same colours.
proof fn lemma_map_color_cut(
    mapset: Seq<u8>,
    count: int,
    columns: int,
    rows: int,
    strip: RasterView,
    px: int,
    py: int,
)
    requires
        0 <= count <= mapset.len(),
        count == mapset.len() || count == columns * rows,
        0 <= px < columns * BLOCK_SIZE,
        0 <= py < rows * BLOCK_SIZE,
    ensures
        map_color(mapset.take(count), columns, strip, px, py) == map_color(
            mapset,
            columns,
            strip,
            px,
            py,
        ),
{
    if count == mapset.len() {
        assert(mapset.take(count) =~= mapset);
    } else {
        lemma_pixel_cell(px, py, columns, rows);
    }
}

/// Whether `changes` lists the places where `new` differs from `old`, each
/// with the byte that `new` has there, in ascending order of place and as far
/// as both reach.
pub open spec fn lists_changes(changes: Seq<(usize, u8)>, old: Seq<u8>, new: Seq<u8>) -> bool {
    let reach = if old.len() <= new.len() {
        old.len()
    } else {
        new.len()
    };
    &&& forall|j: int|
        0 <= j < changes.len() ==> (#[trigger] changes[j]).0 < reach && old[changes[j].0 as int]
            != new[changes[j].0 as int] && changes[j].1 == new[changes[j].0 as int]
    &&& forall|j: int, k: int|
        0 <= j < k < changes.len() ==> (#[trigger] changes[j]).0 < (#[trigger] changes[k]).0
    &&& forall|place: int|
        0 <= place < reach && #[trigger] old[place] != new[place] ==> changed_before(
            changes,
            changes.len() as int,
            place,
        )
}

/// Whether one of the first `count` of `changes` is at `place`.
pub open spec fn changed_before(changes: Seq<(usize, u8)>, count: int, place: int) -> bool {
    exists|j: int| 0 <= j < count && (#[trigger] changes[j]).0 == place
}

/// One more change reaches one more place, that of the change.
proof fn lemma_changed_step(changes: Seq<(usize, u8)>, count: int, place: int)
    requires
        0 <= count < changes.len(),
    ensures
        changed_before(changes, count + 1, place) <==> (changed_before(changes, count, place)
            || changes[count].0 == place),
{
    if changed_before(changes, count, place) {
        let j = choose|j: int| 0 <= j < count && (#[trigger] changes[j]).0 == place;
        assert(0 <= j < count + 1 && changes[j].0 == place);
    }
    if changes[count].0 == place {
        assert(0 <= count < count + 1 && changes[count].0 == place);
    }
}

/// A pixel of the picture of a grid lies in a cell of the grid.
proof fn lemma_pixel_cell(px: int, py: int, columns: int, rows: int)
    requires
        0 <= px < columns * BLOCK_SIZE,
        0 <= py < rows * BLOCK_SIZE,
    ensures
        0 <= cell_at(px, py, columns) < columns * rows,
{
    lemma_block_parts(px);
    lemma_block_parts(py);
    reveal(cell_at);
    assert(0 <= (py / 32) * columns + px / 32 < columns * rows) by (nonlinear_arith)
        requires
            0 <= px / 32,
            0 <= py / 32,
            px == (px / 32) * 32 + px % 32,
            py == (py / 32) * 32 + py % 32,
            0 <= px % 32,
            0 <= py % 32,
            px < columns * 32,
            py < rows * 32,
    ;
}

/// Column and row of a grid name one of its cells.
proof fn lemma_grid_cell(column: int, row: int, columns: int, rows: int)
    requires
        0 <= column < columns,
        0 <= row < rows,
    ensures
        0 <= row * columns,
        0 <= column + row * columns < columns * rows,
{
    assert(0 <= row * columns && column + row * columns < columns * rows) by (nonlinear_arith)
        requires
            0 <= column < columns,
            0 <= row < rows,
    ;
}

/// What a map holds.
pub struct MapareaView {
    /// The block of each cell, row by row.
    pub mapset: Seq<u8>,
    /// The number of cells in a row.
    pub width: u8,
    /// The number of rows.
    pub height: u8,
    /// The cell under the pointer.
    pub hovered: Option<usize>,
    /// The picture of the map.
    pub cache: RasterView,
    /// The palette in which the picture is drawn.
    pub palette: RgbPalette,
    /// The states the map has gone through.
    pub history: HistoryView,
}

impl MapareaView {
    /// The map has a block for each cell of the grid and a picture of the
    /// size of the grid, its history holds maps of its size, and the pointer
    /// is on one of its cells, if on any.
    pub open spec fn wf(self) -> bool {
        &&& self.mapset.len() == self.width * self.height
        &&& self.cache.wf()
        &&& self.cache.width == self.width * BLOCK_SIZE
        &&& self.cache.height == self.height * BLOCK_SIZE
        &&& self.history.states_have_len(self.mapset.len())
        &&& (self.hovered matches Some(index) ==> index < self.mapset.len())
    }

    /// Whether the picture is that of the map, drawn from the blocks of `strip`.
    pub open spec fn renders(self, strip: RasterView) -> bool {
        self.cache == map_image(self.mapset, self.width as nat, self.height as nat, strip)
    }

    /// The square of cell `index`.
    pub open spec fn cell_rect(self, index: int) -> Rect {
        cell_rect(index, self.width as int)
    }

    /// The square of the whole map.
    pub open spec fn area(self) -> Rect {
        Rect {
            x: 0,
            y: 0,
            width: (self.width * BLOCK_SIZE) as usize,
            height: (self.height * BLOCK_SIZE) as usize,
        }
    }

    /// The map with the block `block` in cell `index`, the block drawn over
    /// the square of the cell and nothing else drawn.
    pub open spec fn block_put(self, strip: RasterView, index: int, block: u8) -> MapareaView {
        MapareaView {
            mapset: self.mapset.update(index, block),
            cache: self.cache.paste(
                block_image(strip, block),
                self.cell_rect(index).x as int,
                self.cell_rect(index).y as int,
            ),
            ..self
        }
    }

    /// The map with the blocks of `state` in place of its own: the cells
    /// whose block differs are drawn anew, each over its square, and every
    /// other pixel of the picture stays.
    pub open spec fn replaced(self, strip: RasterView, state: Seq<u8>) -> MapareaView {
        MapareaView {
            mapset: state,
            cache: RasterView {
                width: self.cache.width,
                height: self.cache.height,
                rows: Seq::new(
                    self.cache.height,
                    |y: int|
                        Seq::new(
                            self.cache.width,
                            |x: int|
                                if self.mapset[cell_at(x, y, self.width as int)] != state[cell_at(
                                    x,
                                    y,
                                    self.width as int,
                                )] {
                                    block_image(strip, state[cell_at(x, y, self.width as int)]).at(
                                        x % (BLOCK_SIZE as int),
                                        y % (BLOCK_SIZE as int),
                                    )
                                } else {
                                    self.cache.at(x, y)
                                },
                        ),
                ),
            },
            ..self
        }
    }

    /// The squares to draw anew when the pointer moves from the cell `old`
    /// to the cell `index`: none where it stays, else the square it leaves,
    /// if any, and the square it reaches.
    pub open spec fn moved(self, old: Option<usize>, index: usize) -> Seq<Rect> {
        match old {
            Some(before) => if before == index {
                Seq::empty()
            } else {
                seq![self.cell_rect(before as int), self.cell_rect(index as int)]
            },
            None => seq![self.cell_rect(index as int)],
        }
    }

    /// What the map shows of `viewport`: the part of the picture that lies in
    /// it, with the cell under the pointer in the hover palette.
    pub open spec fn shown(self, viewport: Rect) -> RasterView {
        let part = self.cache.clip(viewport);
        let plain = self.cache.crop(part);
        match self.hovered {
            Some(index) => plain.highlight(
                self.cache,
                part,
                self.cell_rect(index as int),
                self.palette,
                spec_hover_palette(),
            ),
            None => plain,
        }
    }

    /// The map after cell `index` is painted with the block `block`: the
    /// block is put, and the new map is committed to the history.
    pub open spec fn painted(self, strip: RasterView, index: int, block: u8) -> MapareaView {
        let put = self.block_put(strip, index, block);
        MapareaView { history: put.history.update(put.mapset), ..put }
    }
}

/// Putting a block in a cell keeps a map well formed, and keeps its picture
/// the picture of the map: to draw the one block over its square gives what
/// drawing the whole map anew would give.
pub proof fn lemma_put_keeps_rendering(map: MapareaView, strip: RasterView, index: int, block: u8)
    requires
        map.wf(),
        0 <= index < map.mapset.len(),
    ensures
        map.block_put(strip, index, block).wf(),
        map.renders(strip) ==> map.block_put(strip, index, block).renders(strip),
{
    let put = map.block_put(strip, index, block);
    lemma_grid_size(map.width, map.height);
    assert(BLOCK_SIZE == 32);
    assert(index * 32 <= usize::MAX);
    if map.renders(strip) {
        let want = map_image(put.mapset, map.width as nat, map.height as nat, strip);
        assert forall|px: int, py: int| put.cache.covers(px, py) implies put.cache.at(px, py)
            == want.at(px, py) by {
            lemma_map_color_update(map.mapset, map.width as int, strip, index, block, px, py);
        }
        put.cache.lemma_same_pixels(want);
    }
}

/// A grid of at most 255 by 255 cells has fewer than 65026 cells, and a cell
/// has a row where it has a column.
proof fn lemma_grid_size(width: u8, height: u8)
    ensures
        0 <= width * height <= 65025,
        width * height > 0 ==> width > 0 && height > 0,
        65025 * BLOCK_SIZE <= usize::MAX,
{
    assert(0 <= width * height <= 65025 && (width * height > 0 ==> width > 0 && height > 0))
        by (nonlinear_arith)
        requires
            0 <= width <= 255,
            0 <= height <= 255,
    ;
    assert(usize::MAX >= 0xffff_ffff);
}

/// The cell that a press of `button` at the pixel `pos` acts on, and whether
/// it paints the cell (the first button) or picks its block (the third);
/// `None` beside the grid and for any other button.
pub open spec fn pressed(map: MapareaView, pos: (usize, usize), button: u32) -> Option<
    (usize, bool),
> {
    if pos.0 / BLOCK_SIZE < map.width && pos.1 / BLOCK_SIZE < map.height && (button == 1 || button
        == 3) {
        Some(((pos.0 / BLOCK_SIZE + (pos.1 / BLOCK_SIZE) * map.width) as usize, button == 1))
    } else {
        None
    }
}

/// What a press of a button on the map has done.
#[derive(Debug)]
pub enum Click {
    /// Nothing.
    Ignored,
    /// A cell was painted: its square is to be drawn anew.
    Painted(Rect),
    /// The block of a cell was selected in the tileset: these squares of the
    /// tileset are to be drawn anew.
    Picked(Vec<Rect>),
}

/// Why a cell could not be painted.
#[derive(Debug, Clone, Copy, PartialEq, Eq, Structural)]
pub enum PaintError {
    /// The map has no such cell.
    OutOfRange,
}

/// The map.
#[derive(Debug)]
pub struct Maparea {
    mapset: Vec<u8>,
    width: u8,
    height: u8,
    hovered: Option<usize>,
    pix_cache: Raster,
    palette: RgbPalette,
    history: History,
}

impl View for Maparea {
    type V = MapareaView;

    closed spec fn view(&self) -> MapareaView {
        MapareaView {
            mapset: self.mapset@,
            width: self.width,
            height: self.height,
            hovered: self.hovered,
            cache: self.pix_cache@,
            palette: self.palette,
            history: self.history@,
        }
    }
}

impl Positionable for Maparea {

}

impl Clone for Maparea {
    /// A map that holds the same blocks, picture and history.
    fn clone(&self) -> (copy: Maparea)
        ensures
            copy@ == self@,
    {
        let mapset = self.mapset.clone();
        assert(mapset@ =~= self.mapset@);
        Maparea {
            mapset,
            width: self.width,
            height: self.height,
            hovered: self.hovered,
            pix_cache: self.pix_cache.clone(),
            palette: self.palette,
            history: self.history.clone(),
        }
    }
}

impl Maparea {
    /// A map of `width` by `height` cells with the blocks of `mapset`, its
    /// picture drawn from the blocks of `tileset`; the pointer is on no cell,
    /// and the history begins with `mapset`.
    pub fn new(width: u8, height: u8, mapset: Vec<u8>, tileset: &Tileset) -> (map: Maparea)
        requires
            mapset@.len() == width * height,
        ensures
            map@.wf(),
            map@ == (MapareaView {
                mapset: mapset@,
                width,
                height,
                hovered: None,
                cache: map_image(mapset@, width as nat, height as nat, tileset@.cache),
                palette: spec_base_palette(),
                history: HistoryView::fresh(mapset@),
            }),
    {
        let pixel_width = Self::block_to_pixel_size(width);
        let pixel_height = Self::block_to_pixel_size(height);
        assert(pixel_width == width * 32 && pixel_height == height * 32);
        let pix_cache = Self::static_build_pix(
            pixel_width,
            pixel_height,
            mapset.as_slice(),
            tileset,
        );
        let first = mapset.clone();
        assert(first@ =~= mapset@);
        let history = History::new(first);
        proof {
            pix_cache.lemma_view_wf();
        }
        Maparea {
            mapset: mapset,
            width: width,
            height: height,
            hovered: None,
            pix_cache: pix_cache,
            palette: base_palette(),
            history: history,
        }
    }

    /// A map of the size that the editor works on, 20 by 18 cells, with the
    /// blocks of `mapset`.
    pub fn from_data(mapset: Vec<u8>, tileset: &Tileset) -> (map: Maparea)
        requires
            mapset@.len() == MAP_WIDTH * MAP_HEIGHT,
        ensures
            map@.wf(),
            map@ == (MapareaView {
                mapset: mapset@,
                width: MAP_WIDTH,
                height: MAP_HEIGHT,
                hovered: None,
                cache: map_image(mapset@, MAP_WIDTH as nat, MAP_HEIGHT as nat, tileset@.cache),
                palette: spec_base_palette(),
                history: HistoryView::fresh(mapset@),
            }),
    {
        Maparea::new(MAP_WIDTH, MAP_HEIGHT, mapset, tileset)
    }

    /// The corner of cell `index` in a grid `width` pixels wide.
    pub fn static_coords(index: usize, width: usize, _height: usize) -> (corner: (usize, usize))
        requires
            width > 0,
            width % BLOCK_SIZE == 0,
            index * BLOCK_SIZE <= usize::MAX,
        ensures
            corner.0 == cell_x(index as int, width as int),
            corner.1 == cell_y(index as int, width as int),
    {
        let offset = index * BLOCK_SIZE;
        let row = offset / width;
        proof {
            lemma_cell_in_reach(index as int, width as int / 32);
        }
        (offset % width, row * BLOCK_SIZE)
    }

    /// The corner of cell `index` of the map.
    pub fn coords(&self, index: usize) -> (corner: (usize, usize))
        requires
            self@.wf(),
            index < self@.mapset.len(),
        ensures
            corner.0 == self@.cell_rect(index as int).x,
            corner.1 == self@.cell_rect(index as int).y,
            corner.0 == (index % self@.width as usize) * BLOCK_SIZE,
            corner.1 == (index / self@.width as usize) * BLOCK_SIZE,
    {
        proof {
            lemma_grid_size(self.width, self.height);
            lemma_cell_origin(index as int, self.width as int);
            lemma_cell_in_reach(index as int, self.width as int);
        }
        let width = Self::block_to_pixel_size(self.width);
        let height = Self::block_to_pixel_size(self.height);
        assert(width == self.width * 32 && self.width > 0);
        Self::static_coords(index, width, height)
    }

    /// The number of pixels that `size` blocks take on an axis.
    pub fn block_to_pixel_size(size: u8) -> (pixels: usize)
        ensures
            pixels == size * BLOCK_SIZE,
    {
        size as usize * BLOCK_SIZE
    }

    /// A black picture of the given size, to draw on.
    fn new_pixbuf_static(width: usize, height: usize) -> (canvas: Raster)
        requires
            3 * (width * height) <= usize::MAX,
        ensures
            canvas@ == RasterView::blank(width as nat, height as nat),
    {
        let made = Raster::new(width, height);
        made.unwrap()
    }

    /// The picture, `width` by `height` pixels, of the map `mapset`, drawn
    /// from the blocks of `tileset`.
    fn static_build_pix(width: usize, height: usize, mapset: &[u8], tileset: &Tileset) -> (picture:
        Raster)
        requires
            width % BLOCK_SIZE == 0,
            height % BLOCK_SIZE == 0,
            width <= 255 * BLOCK_SIZE,
            height <= 255 * BLOCK_SIZE,
        ensures
            picture@ == map_image(
                mapset@,
                (width / BLOCK_SIZE) as nat,
                (height / BLOCK_SIZE) as nat,
                tileset@.cache,
            ),
    {
        let columns = width / BLOCK_SIZE;
        let rows = height / BLOCK_SIZE;
        assert(BLOCK_SIZE == 32);
        assert(width == columns * 32 && height == rows * 32);
        assert(3 * (width * height) <= usize::MAX && columns * rows <= 65025) by (nonlinear_arith)
            requires
                0 <= width <= 255 * 32,
                0 <= height <= 255 * 32,
                0 <= columns <= 255,
                0 <= rows <= 255,
                usize::MAX >= 0xffff_ffff,
        ;
        let mut canvas = Self::new_pixbuf_static(width, height);
        let ghost strip = tileset@.cache;
        let cells = columns * rows;
        let count = if mapset.len() < cells {
            mapset.len()
        } else {
            cells
        };
        proof {
            canvas.lemma_view_wf();
            let none = map_image(mapset@.take(0), columns as nat, rows as nat, strip);
            canvas@.lemma_same_pixels(none);
        }
        let mut i: usize = 0;
        while i < count
            invariant
                i <= count,
                count <= mapset@.len(),
                count <= cells,
                cells == columns * rows,
                cells <= 65025,
                width == columns * 32,
                height == rows * 32,
                strip == tileset@.cache,
                canvas@ == map_image(mapset@.take(i as int), columns as nat, rows as nat, strip),
            decreases count - i,
        {
            let b = mapset[i];
            assert(columns > 0) by (nonlinear_arith)
                requires
                    i < columns * rows,
                    0 <= rows,
            ;
            let (x, y) = Self::static_coords(i, width, height);
            let tile = tileset.block_image(b);
            let ghost before = canvas@;
            canvas.blit(&tile, x, y);
            proof {
                canvas.lemma_view_wf();
                let want = map_image(mapset@.take(i + 1), columns as nat, rows as nat, strip);
                assert(mapset@.take(i + 1) =~= mapset@.take(i as int).push(b));
                assert forall|px: int, py: int| canvas@.covers(px, py) implies canvas@.at(px, py)
                    == want.at(px, py) by {
                    lemma_map_color_grow(mapset@.take(i as int), columns as int, strip, b, px, py);
                }
                canvas@.lemma_same_pixels(want);
            }
            i += 1;
        }
        proof {
            let want = map_image(mapset@, columns as nat, rows as nat, strip);
            assert forall|px: int, py: int| canvas@.covers(px, py) implies canvas@.at(px, py)
                == want.at(px, py) by {
                lemma_map_color_cut(mapset@, count as int, columns as int, rows as int, strip, px, py);
            }
            canvas@.lemma_same_pixels(want);
        }
        canvas
    }

    /// Puts the block `block_index` in cell `map_index` and draws it over the
    /// square of the cell; the history is left as it is.
    pub fn update_map_block(&mut self, tileset: &Tileset, map_index: usize, block_index: u8)
        requires
            old(self)@.wf(),
            map_index < old(self)@.mapset.len(),
        ensures
            final(self)@ == old(self)@.block_put(tileset@.cache, map_index as int, block_index),
            final(self)@.wf(),
            old(self)@.renders(tileset@.cache) ==> final(self)@.renders(tileset@.cache),
    {
        proof {
            lemma_put_keeps_rendering(self@, tileset@.cache, map_index as int, block_index);
        }
        let (x, y) = self.coords(map_index);
        self.mapset[map_index] = block_index;
        let tile = tileset.block_image(block_index);
        self.pix_cache.blit(&tile, x, y);
    }

    /// The places where `new` differs from `old`, each with the byte that
    /// `new` has there, in ascending order of place and as far as both reach.
    pub fn diff(old: &[u8], new: &[u8]) -> (result: Vec<(usize, u8)>)
        ensures
            lists_changes(result@, old@, new@),
    {
        let mut result: Vec<(usize, u8)> = Vec::new();
        let reach = if old.len() <= new.len() {
            old.len()
        } else {
            new.len()
        };
        let mut i: usize = 0;
        while i < reach
            invariant
                i <= reach,
                reach <= old@.len(),
                reach <= new@.len(),
                forall|j: int|
                    0 <= j < result@.len() ==> (#[trigger] result@[j]).0 < i && old@[result@[j].0 as int]
                        != new@[result@[j].0 as int] && result@[j].1 == new@[result@[j].0 as int],
                forall|j: int, k: int|
                    0 <= j < k < result@.len() ==> (#[trigger] result@[j]).0 < (
                    #[trigger] result@[k]).0,
                forall|place: int|
                    0 <= place < i && #[trigger] old@[place] != new@[place] ==> changed_before(
                        result@,
                        result@.len() as int,
                        place,
                    ),
            decreases reach - i,
        {
            let o = old[i];
            let n = new[i];
            if o != n {
                let ghost before = result@;
                result.push((i, n));
                proof {
                    assert forall|place: int|
                        0 <= place < i + 1 && #[trigger] old@[place] != new@[place]
                        implies changed_before(result@, result@.len() as int, place) by {
                        if place < i {
                            assert(changed_before(before, before.len() as int, place));
                            let j = choose|j: int|
                                0 <= j < before.len() && (#[trigger] before[j]).0 == place;
                            assert(result@[j] == before[j]);
                        } else {
                            assert(result@[before.len() as int].0 == place);
                        }
                    }
                }
            }
            i += 1;
        }
        result
    }

    /// Puts `mapset` in place of the map's blocks and returns the blocks it
    /// had, with the square to draw anew: the whole map.
    fn set_mapset(&mut self, mapset: Vec<u8>) -> (out: (Vec<u8>, Rect))
        requires
            mapset@.len() == old(self)@.mapset.len(),
        ensures
            final(self)@ == (MapareaView { mapset: mapset@, ..old(self)@ }),
            out.0@ == old(self)@.mapset,
            out.1 == old(self)@.area(),
    {
        let mut held = mapset;
        core::mem::swap(&mut self.mapset, &mut held);
        let area = Rect {
            x: 0,
            y: 0,
            width: Self::block_to_pixel_size(self.width),
            height: Self::block_to_pixel_size(self.height),
        };
        (held, area)
    }

    /// Gives the map the blocks of `state`: draws anew, each over its square,
    /// the cells whose block differs, and puts `state` in place of the map's
    /// blocks. Returns the square to draw anew: the whole map.
    fn replace_mapset(&mut self, tileset: &Tileset, state: Vec<u8>) -> (dirty: Rect)
        requires
            old(self)@.wf(),
            state@.len() == old(self)@.mapset.len(),
        ensures
            final(self)@ == old(self)@.replaced(tileset@.cache, state@),
            final(self)@.wf(),
            old(self)@.renders(tileset@.cache) ==> final(self)@.renders(tileset@.cache),
            dirty == old(self)@.area(),
    {
        let ghost start = self@;
        let ghost strip = tileset@.cache;
        let ghost columns = self.width as int;
        let changes = Self::diff(self.mapset.as_slice(), state.as_slice());
        let mut k: usize = 0;
        while k < changes.len()
            invariant
                k <= changes@.len(),
                start.wf(),
                self@.wf(),
                strip == tileset@.cache,
                columns == start.width,
                state@.len() == start.mapset.len(),
                lists_changes(changes@, start.mapset, state@),
                self@ == (MapareaView { mapset: self@.mapset, cache: self@.cache, ..start }),
                self@.mapset.len() == start.mapset.len(),
                forall|place: int|
                    0 <= place < start.mapset.len() ==> #[trigger] self@.mapset[place]
                        == if changed_before(changes@, k as int, place) {
                        state@[place]
                    } else {
                        start.mapset[place]
                    },
                forall|px: int, py: int|
                    start.cache.covers(px, py) ==> #[trigger] self@.cache.at(px, py)
                        == if changed_before(changes@, k as int, cell_at(px, py, columns)) {
                        block_image(strip, state@[cell_at(px, py, columns)]).at(px % 32, py % 32)
                    } else {
                        start.cache.at(px, py)
                    },
                start.renders(strip) ==> self@.renders(strip),
            decreases changes@.len() - k,
        {
            let (index, block) = changes[k];
            let ghost before = self@;
            self.update_map_block(tileset, index, block);
            proof {
                lemma_grid_size(start.width, start.height);
                assert forall|place: int| 0 <= place < start.mapset.len() implies (
                #[trigger] self@.mapset[place]) == if changed_before(changes@, k + 1, place) {
                    state@[place]
                } else {
                    start.mapset[place]
                } by {
                    lemma_changed_step(changes@, k as int, place);
                }
                assert forall|px: int, py: int| start.cache.covers(px, py) implies (
                #[trigger] self@.cache.at(px, py)) == if changed_before(
                    changes@,
                    k + 1,
                    cell_at(px, py, columns),
                ) {
                    block_image(strip, state@[cell_at(px, py, columns)]).at(px % 32, py % 32)
                } else {
                    start.cache.at(px, py)
                } by {
                    lemma_changed_step(changes@, k as int, cell_at(px, py, columns));
                    lemma_cell_covers(index as int, columns, px, py);
                    lemma_cell_in_reach(index as int, columns);
                }
            }
            k += 1;
        }
        proof {
            assert(self@.mapset =~= state@) by {
                assert forall|place: int| 0 <= place < state@.len() implies self@.mapset[place]
                    == state@[place] by {
                    if start.mapset[place] != state@[place] {
                        assert(changed_before(changes@, changes@.len() as int, place));
                    }
                }
            }
            let want = start.replaced(strip, state@);
            assert forall|px: int, py: int| self@.cache.covers(px, py) implies self@.cache.at(
                px,
                py,
            ) == want.cache.at(px, py) by {
                lemma_grid_size(start.width, start.height);
                lemma_pixel_cell(px, py, start.width as int, start.height as int);
                let cell = cell_at(px, py, columns);
                if start.mapset[cell] != state@[cell] {
                    assert(changed_before(changes@, changes@.len() as int, cell));
                }
                if changed_before(changes@, changes@.len() as int, cell) {
                    let j = choose|j: int|
                        0 <= j < changes@.len() && (#[trigger] changes@[j]).0 == cell;
                    assert(start.mapset[changes@[j].0 as int] != state@[changes@[j].0 as int]);
                }
            }
            self@.cache.lemma_same_pixels(want.cache);
        }
        let (_, dirty) = self.set_mapset(state);
        dirty
    }

    /// Makes again the painting that was taken back last, and returns the
    /// square to draw anew: the whole map. Nothing changes, and nothing is
    /// returned, where no painting was taken back.
    pub fn redo(&mut self, tileset: &Tileset) -> (dirty: Option<Rect>)
        requires
            old(self)@.wf(),
        ensures
            final(self)@.wf(),
            old(self)@.history.next.len() == 0 ==> dirty is None && final(self)@ == old(self)@,
            old(self)@.history.next.len() > 0 ==> dirty == Some(old(self)@.area()) && final(self)@
                == (MapareaView {
                history: old(self)@.history.redo(),
                ..old(self)@.replaced(tileset@.cache, old(self)@.history.next.last())
            }),
            old(self)@.renders(tileset@.cache) ==> final(self)@.renders(tileset@.cache),
    {
        match self.history.redo() {
            Some(state) => Some(self.replace_mapset(tileset, state)),
            None => None,
        }
    }

    /// Takes the last painting back: the map gets the blocks it had before
    /// it. Returns the square to draw anew: the whole map. Nothing changes,
    /// and nothing is returned, where no painting is left to take back.
    pub fn undo(&mut self, tileset: &Tileset) -> (dirty: Option<Rect>)
        requires
            old(self)@.wf(),
        ensures
            final(self)@.wf(),
            old(self)@.history.prev.len() == 0 ==> dirty is None && final(self)@ == old(self)@,
            old(self)@.history.prev.len() > 0 ==> dirty == Some(old(self)@.area()) && final(self)@
                == (MapareaView {
                history: old(self)@.history.undo(),
                ..old(self)@.replaced(tileset@.cache, old(self)@.history.undo().current())
            }),
            old(self)@.renders(tileset@.cache) ==> final(self)@.renders(tileset@.cache),
    {
        match self.history.undo() {
            Some(state) => Some(self.replace_mapset(tileset, state)),
            None => None,
        }
    }

    /// The square of cell `index`.
    fn cell_rect(&self, index: usize) -> (rect: Rect)
        requires
            self@.wf(),
            index < self@.mapset.len(),
        ensures
            rect == self@.cell_rect(index as int),
    {
        let (x, y) = self.coords(index);
        Rect { x, y, width: BLOCK_SIZE, height: BLOCK_SIZE }
    }

    /// What the map shows of `viewport`: the part of the picture that lies in
    /// it, with the cell under the pointer in the hover palette. The raster
    /// starts at the top left corner of that part.
    pub fn paint(&self, viewport: Rect) -> (canvas: Raster)
        requires
            self@.wf(),
        ensures
            canvas@ == self@.shown(viewport),
    {
        let cache_width = self.pix_cache.width();
        let cache_height = self.pix_cache.height();
        let part = self.pix_cache.clip(viewport);
        let mut canvas = self.pix_cache.sub_image(part).unwrap();
        if let Some(index) = self.hovered {
            self.paint_tile_with_palette(&mut canvas, part, index, hover_palette());
        }
        canvas
    }

    /// Shows cell `index` in `palette` on `canvas`, which shows `part` of the
    /// picture: the pixels of `part` that lie on the cell get the colours of
    /// the picture, swapped from the palette of the picture to `palette`.
    pub fn paint_tile_with_palette(
        &self,
        canvas: &mut Raster,
        part: Rect,
        index: usize,
        palette: RgbPalette,
    )
        requires
            self@.wf(),
            index < self@.mapset.len(),
            old(canvas)@.width == part.width,
            old(canvas)@.height == part.height,
            part.x + part.width <= self@.cache.width,
            part.y + part.height <= self@.cache.height,
        ensures
            final(canvas)@ == old(canvas)@.highlight(
                self@.cache,
                part,
                self@.cell_rect(index as int),
                self@.palette,
                palette,
            ),
    {
        let block = self.cell_rect(index);
        highlight(canvas, &self.pix_cache, part, block, self.palette, palette);
    }

    /// Puts the pointer on cell `index`; nothing changes where the map has
    /// no such cell.
    pub fn hover_tile_at(&mut self, index: usize)
        requires
            old(self)@.wf(),
        ensures
            final(self)@.wf(),
            index < old(self)@.mapset.len() ==> final(self)@ == (MapareaView {
                hovered: Some(index),
                ..old(self)@
            }),
            index >= old(self)@.mapset.len() ==> final(self)@ == old(self)@,
    {
        if index < self.mapset.len() {
            self.hovered = Some(index);
        }
    }

    /// The pointer has left the map: no cell is under it. Returns the square
    /// to draw anew, that of the cell that was under the pointer.
    pub fn clear_hover(&mut self) -> (dirty: Option<Rect>)
        requires
            old(self)@.wf(),
        ensures
            final(self)@.wf(),
            final(self)@ == (MapareaView { hovered: None, ..old(self)@ }),
            dirty == match old(self)@.hovered {
                Some(index) => Some(old(self)@.cell_rect(index as int)),
                None => None,
            },
    {
        let dirty = match self.hovered {
            Some(old_hovered) => Some(self.cell_rect(old_hovered)),
            None => None,
        };
        self.hovered = None;
        dirty
    }

    /// The pointer has moved to the pixel `pos`. Where that pixel lies on a
    /// cell of the grid, the cell is under the pointer, and the squares to
    /// draw anew are returned: none where the cell was under the pointer
    /// already, else the square of the cell that was, if any, and the square
    /// of the cell that is. Where the pixel lies beside the grid, nothing
    /// changes.
    pub fn motion_notify(&mut self, pos: (usize, usize)) -> (dirty: Vec<Rect>)
        requires
            old(self)@.wf(),
        ensures
            final(self)@.wf(),
            pos.0 / BLOCK_SIZE < old(self)@.width && pos.1 / BLOCK_SIZE < old(self)@.height ==> {
                let index = (pos.0 / BLOCK_SIZE + (pos.1 / BLOCK_SIZE) * old(self)@.width) as usize;
                &&& index < old(self)@.mapset.len()
                &&& final(self)@ == (MapareaView { hovered: Some(index), ..old(self)@ })
                &&& dirty@ == old(self)@.moved(old(self)@.hovered, index)
            },
            !(pos.0 / BLOCK_SIZE < old(self)@.width && pos.1 / BLOCK_SIZE < old(self)@.height)
                ==> final(self)@ == old(self)@ && dirty@ == Seq::<Rect>::empty(),
    {
        let (pos_x, pos_y) = pos;
        let block_x = pos_x / BLOCK_SIZE;
        let block_y = pos_y / BLOCK_SIZE;
        let mut dirty: Vec<Rect> = Vec::new();
        if block_x >= self.width as usize || block_y >= self.height as usize {
            return dirty;
        }
        proof {
            lemma_grid_cell(block_x as int, block_y as int, self.width as int, self.height as int);
            lemma_grid_size(self.width, self.height);
        }
        let new_hovered = block_x + block_y * self.width as usize;
        if let Some(old_hovered) = self.hovered {
            if new_hovered != old_hovered {
                dirty.push(self.cell_rect(old_hovered));
                self.hover_tile_at(new_hovered);
                dirty.push(self.cell_rect(new_hovered));
            }
        } else {
            self.hover_tile_at(new_hovered);
            dirty.push(self.cell_rect(new_hovered));
        }
        assert(dirty@ =~= old(self)@.moved(old(self)@.hovered, new_hovered));
        dirty
    }

    /// Paints cell `index` with the block `block`: puts the block, draws it
    /// over the square of the cell, and commits the new map to the history,
    /// whether or not the cell held that block already; nothing is left to
    /// redo. Returns the square to draw anew. Fails, and nothing changes,
    /// where the map has no such cell.
    pub fn paint_cell(&mut self, tileset: &Tileset, index: usize, block: u8) -> (done: Result<
        Rect,
        PaintError,
    >)
        requires
            old(self)@.wf(),
        ensures
            final(self)@.wf(),
            index < old(self)@.mapset.len() ==> done == Ok::<Rect, PaintError>(
                old(self)@.cell_rect(index as int),
            ) && final(self)@ == old(self)@.painted(tileset@.cache, index as int, block),
            index < old(self)@.mapset.len() ==> final(self)@.history.prev.len() == old(self)@.history.prev.len() + 1 && final(self)@.history.prev.last() == final(self)@.mapset
                && final(self)@.history.next.len() == 0,
            index >= old(self)@.mapset.len() ==> done == Err::<Rect, PaintError>(
                PaintError::OutOfRange,
            ) && final(self)@ == old(self)@,
            old(self)@.renders(tileset@.cache) ==> final(self)@.renders(tileset@.cache),
    {
        if index >= self.mapset.len() {
            return Err(PaintError::OutOfRange);
        }
        self.update_map_block(tileset, index, block);
        let state = self.mapset.clone();
        assert(state@ =~= self.mapset@);
        self.history.update(state);
        Ok(self.cell_rect(index))
    }

    /// A button was pressed at the pixel `pos`. Beside the grid, and for any
    /// button but the first and the third, nothing happens. The first button
    /// paints the cell under the pointer with the block selected in
    /// `tileset`, as `button_press_left` does; the third selects in `tileset`
    /// the block of the cell under the pointer, as `button_press_right` does.
    pub fn button_press(&mut self, tileset: &mut Tileset, pos: (usize, usize), button: u32) -> (done:
        Click)
        requires
            old(self)@.wf(),
        ensures
            final(self)@.wf(),
            final(tileset)@.cache == old(tileset)@.cache,
            old(self)@.renders(old(tileset)@.cache) ==> final(self)@.renders(final(tileset)@.cache),
            match pressed(old(self)@, pos, button) {
                None => done is Ignored && final(self)@ == old(self)@ && final(tileset)@ == old(tileset)@,
                Some((index, true)) => index < old(self)@.mapset.len() && final(tileset)@ == old(tileset)@ && match old(tileset)@.selected {
                    Some(block) => done == Click::Painted(old(self)@.cell_rect(index as int))
                        && final(self)@ == old(self)@.painted(
                        old(tileset)@.cache,
                        index as int,
                        block,
                    ),
                    None => done is Ignored && final(self)@ == old(self)@,
                },
                Some((index, false)) => index < old(self)@.mapset.len() && final(self)@ == old(self)@ && final(tileset)@ == (TilesetView {
                    selected: Some(old(self)@.mapset[index as int]),
                    ..old(tileset)@
                }) && (done matches Click::Picked(dirty) && dirty@ == old(tileset)@.moved(
                    old(tileset)@.selected,
                    old(self)@.mapset[index as int],
                )),
            },
    {
        let (pos_x, pos_y) = pos;
        let block_x = pos_x / BLOCK_SIZE;
        let block_y = pos_y / BLOCK_SIZE;
        if block_x >= self.width as usize || block_y >= self.height as usize {
            return Click::Ignored;
        }
        proof {
            lemma_grid_cell(block_x as int, block_y as int, self.width as int, self.height as int);
            lemma_grid_size(self.width, self.height);
        }
        let block_index = block_x + block_y * self.width as usize;
        match button {
            1 => match self.button_press_left(tileset, block_index) {
                Some(rect) => Click::Painted(rect),
                None => Click::Ignored,
            },
            3 => Click::Picked(self.button_press_right(tileset, block_index)),
            _ => Click::Ignored,
        }
    }

    /// Paints cell `block_index` with the block selected in `tileset` and
    /// returns the square to draw anew. Nothing happens where no block is
    /// selected or the map has no such cell.
    pub fn button_press_left(&mut self, tileset: &Tileset, block_index: usize) -> (dirty: Option<
        Rect,
    >)
        requires
            old(self)@.wf(),
        ensures
            final(self)@.wf(),
            old(self)@.renders(tileset@.cache) ==> final(self)@.renders(tileset@.cache),
            match tileset@.selected {
                Some(block) if block_index < old(self)@.mapset.len() => dirty == Some(
                    old(self)@.cell_rect(block_index as int),
                ) && final(self)@ == old(self)@.painted(tileset@.cache, block_index as int, block),
                _ => dirty is None && final(self)@ == old(self)@,
            },
    {
        let selected_block = tileset.selected();
        if let Some(selected_block_index) = selected_block {
            match self.paint_cell(tileset, block_index, selected_block_index) {
                Ok(rect) => Some(rect),
                Err(_) => None,
            }
        } else {
            None
        }
    }

    /// Selects in `tileset` the block of cell `block_index` and returns the
    /// squares of the tileset to draw anew, as `select_tile_at` does. Nothing
    /// happens where the map has no such cell.
    pub fn button_press_right(&self, tileset: &mut Tileset, block_index: usize) -> (dirty: Vec<Rect>)
        ensures
            block_index < self@.mapset.len() ==> final(tileset)@ == (TilesetView {
                selected: Some(self@.mapset[block_index as int]),
                ..old(tileset)@
            }) && dirty@ == old(tileset)@.moved(
                old(tileset)@.selected,
                self@.mapset[block_index as int],
            ),
            block_index >= self@.mapset.len() ==> final(tileset)@ == old(tileset)@ && dirty@
                == Seq::<Rect>::empty(),
    {
        if block_index < self.mapset.len() {
            let tile_index = self.mapset[block_index];
            tileset.select_tile_at(tile_index)
        } else {
            Vec::new()
        }
    }

    /// Hands the blocks of the map, row by row, to `call_on_bytes` and
    /// returns what it returns.
    pub fn on_bytes<T, F: Fn(&[u8]) -> T>(&self, call_on_bytes: F) -> (out: T)
        requires
            forall|bytes: &[u8]| bytes@ == self@.mapset ==> call_on_bytes.requires((bytes,)),
        ensures
            exists|bytes: &[u8]| bytes@ == self@.mapset && call_on_bytes.ensures((bytes,), out),
    {
        call_on_bytes(self.mapset.as_slice())
    }

    /// The blocks of the map, row by row.
    pub fn mapset(&self) -> (bytes: &Vec<u8>)
        ensures
            bytes@ == self@.mapset,
    {
        &self.mapset
    }

    /// The number of cells in a row.
    pub fn width(&self) -> (width: u8)
        ensures
            width == self@.width,
    {
        self.width
    }

    /// The number of rows.
    pub fn height(&self) -> (height: u8)
        ensures
            height == self@.height,
    {
        self.height
    }

    /// The cell under the pointer.
    pub fn hovered(&self) -> (index: Option<usize>)
        ensures
            index == self@.hovered,
    {
        self.hovered
    }

    /// The picture of the map.
    pub fn pix_cache(&self) -> (picture: &Raster)
        ensures
            picture@ == self@.cache,
    {
        &self.pix_cache
    }

    /// The states the map has gone through.
    pub fn history(&self) -> (history: &History)
        ensures
            history@ == self@.history,
    {
        &self.history
    }
}

} // verus!
