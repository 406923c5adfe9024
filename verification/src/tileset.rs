//! The strip of blocks to paint with, built from a blockset and the image
//! of the tiles, with the block under the pointer and the selected block.

use vstd::prelude::*;
use vstd::arithmetic::div_mod::{lemma_mod_pos_bound, lemma_multiply_divide_lt};
use vstd::arithmetic::mul::lemma_mul_upper_bound;
use crate::constants::{
    base_palette,
    hover_palette,
    select_palette,
    spec_base_palette,
    spec_hover_palette,
    spec_select_palette,
    RgbPalette,
    RgbTriple,
    BLOCK_SIZE,
    TILE_SIZE,
};
use crate::palette::highlight;
use crate::position::{block_of, cell_x, cell_y, get_event_pos, Positionable};
use crate::raster::{Raster, RasterView, Rect};

verus! {

/// The number of whole tiles in a row of the image `pix`.
pub open spec fn tiles_across(pix: RasterView) -> int {
    pix.width as int / (TILE_SIZE as int)
}

/// The number of whole tiles in a column of the image `pix`.
pub open spec fn tiles_down(pix: RasterView) -> int {
    pix.height as int / (TILE_SIZE as int)
}

/// The number of whole tiles in the image `pix`: a blockset names a tile by
/// a number below it.
pub open spec fn tile_count(pix: RasterView) -> int {
    tiles_across(pix) * tiles_down(pix)
}

/// The left edge, on the strip, of the tile that slot `slot` of a blockset
/// names: blocks stand side by side, each of four rows of four tiles.
#[verifier::opaque]
pub open spec fn strip_x(slot: int) -> int {
    (slot % 4) * TILE_SIZE + (slot / 16) * BLOCK_SIZE
}

/// The top edge, on the strip, of the tile that slot `slot` of a blockset names.
#[verifier::opaque]
pub open spec fn strip_y(slot: int) -> int {
    ((slot / 4) % 4) * TILE_SIZE
}

/// The slot of a blockset whose tile covers the pixel `(px, py)` of the
/// strip, for a pixel of the first 32 rows.
#[verifier::opaque]
pub open spec fn strip_slot(px: int, py: int) -> int {
    (px / (BLOCK_SIZE as int)) * 16 + (py / (TILE_SIZE as int)) * 4 + (px % (BLOCK_SIZE as int))
        / (TILE_SIZE as int)
}

/// The colour of the pixel `(px, py)` of the strip built from `blockset` and
/// `pix`: that of the tile of `pix` that its slot names, and black below the
/// first 32 rows, beyond the blockset, and where the slot names no tile of `pix`.
pub open spec fn strip_color(blockset: Seq<u8>, pix: RasterView, px: int, py: int) -> RgbTriple {
    let slot = strip_slot(px, py);
    if py < BLOCK_SIZE && slot < blockset.len() && blockset[slot] < tile_count(pix) {
        let tile = blockset[slot] as int;
        pix.at(
            TILE_SIZE * (tile % tiles_across(pix)) + px % (TILE_SIZE as int),
            TILE_SIZE * (tile / tiles_across(pix)) + py % (TILE_SIZE as int),
        )
    } else {
        (0u8, 0u8, 0u8)
    }
}

/// The strip of the given size built from `blockset` and `pix`.
pub open spec fn strip_image(blockset: Seq<u8>, pix: RasterView, width: nat, height: nat)
    -> RasterView {
    RasterView {
        width,
        height,
        rows: Seq::new(
            height,
            |y: int| Seq::new(width, |x: int| strip_color(blockset, pix, x, y)),
        ),
    }
}

/// The top left corner of block `index` on a strip `width` pixels wide, and
/// the corner of the strip where it has no pixel.
pub open spec fn block_origin(index: int, width: int) -> (int, int) {
    if width > 0 {
        (cell_x(index, width), cell_y(index, width))
    } else {
        (0, 0)
    }
}

/// A slot is made of its block, its row in the block and its column in the row.
proof fn lemma_slot_parts(slot: int)
    requires
        0 <= slot,
    ensures
        slot == (slot / 16) * 16 + ((slot / 4) % 4) * 4 + slot % 4,
        0 <= slot / 16,
        0 <= (slot / 4) % 4 < 4,
        0 <= slot % 4 < 4,
{
}

/// A pixel's place on an axis is made of its block, its tile in the block and
/// its place in the tile.
proof fn lemma_pixel_parts(pixel: int)
    requires
        0 <= pixel,
    ensures
        pixel == (pixel / 32) * 32 + ((pixel % 32) / 8) * 8 + pixel % 8,
        pixel / 8 == (pixel / 32) * 4 + (pixel % 32) / 8,
        0 <= pixel / 32,
        0 <= (pixel % 32) / 8 < 4,
        0 <= pixel % 8 < 8,
{
}

/// The tile in column `column` of row `row` of block `block` covers the
/// pixels that lie in that block, row and column.
proof fn lemma_tile_covers(
    block: int,
    row: int,
    column: int,
    px: int,
    py: int,
    pixel_block: int,
    pixel_column: int,
    pixel_row: int,
    fx: int,
    fy: int,
)
    requires
        0 <= block,
        0 <= row < 4,
        0 <= column < 4,
        0 <= pixel_block,
        0 <= pixel_column < 4,
        0 <= pixel_row,
        0 <= fx < 8,
        0 <= fy < 8,
        px == pixel_block * 32 + pixel_column * 8 + fx,
        py == pixel_row * 8 + fy,
    ensures
        (column * 8 + block * 32 <= px < column * 8 + block * 32 + 8 && row * 8 <= py < row * 8
            + 8) <==> (py < 32 && pixel_block * 16 + pixel_row * 4 + pixel_column == block * 16
            + row * 4 + column),
        column * 8 + block * 32 <= px < column * 8 + block * 32 + 8 ==> px - (column * 8 + block
            * 32) == fx,
        row * 8 <= py < row * 8 + 8 ==> py - row * 8 == fy,
{
}

/// The tile of slot `slot` covers the pixels whose slot is `slot`, and no
/// pixel has a slot below 0.
proof fn lemma_strip_slot(slot: int, px: int, py: int)
    requires
        0 <= slot,
        0 <= px,
        0 <= py,
    ensures
        (strip_x(slot) <= px < strip_x(slot) + TILE_SIZE && strip_y(slot) <= py < strip_y(slot)
            + TILE_SIZE) <==> (py < BLOCK_SIZE && strip_slot(px, py) == slot),
        strip_x(slot) <= px < strip_x(slot) + TILE_SIZE ==> px - strip_x(slot) == px % 8,
        strip_y(slot) <= py < strip_y(slot) + TILE_SIZE ==> py - strip_y(slot) == py % 8,
        strip_x(slot) == (slot % 4) * 8 + (slot / 16) * 32,
        strip_y(slot) == ((slot / 4) % 4) * 8,
        0 <= strip_slot(px, py),
{
    reveal(strip_x);
    reveal(strip_y);
    reveal(strip_slot);
    lemma_slot_parts(slot);
    lemma_pixel_parts(px);
    lemma_tile_covers(
        slot / 16,
        (slot / 4) % 4,
        slot % 4,
        px,
        py,
        px / 32,
        (px % 32) / 8,
        py / 8,
        px % 8,
        py % 8,
    );
}

/// Drawing the tile of slot `slot` gives the colours of the strip built from
/// one more slot of the blockset.
proof fn lemma_strip_pixel(blockset: Seq<u8>, pix: RasterView, slot: int, px: int, py: int)
    requires
        0 <= slot < blockset.len(),
        0 <= px,
        0 <= py,
    ensures
        strip_color(blockset.take(slot + 1), pix, px, py) == if strip_x(slot) <= px < strip_x(slot)
            + TILE_SIZE && strip_y(slot) <= py < strip_y(slot) + TILE_SIZE && blockset[slot]
            < tile_count(pix) {
            pix.at(
                TILE_SIZE * (blockset[slot] as int % tiles_across(pix)) + (px - strip_x(slot)),
                TILE_SIZE * (blockset[slot] as int / tiles_across(pix)) + (py - strip_y(slot)),
            )
        } else {
            strip_color(blockset.take(slot), pix, px, py)
        },
{
    lemma_strip_slot(slot, px, py);
    let at = strip_slot(px, py);
    if at < slot {
        assert(blockset.take(slot)[at] == blockset.take(slot + 1)[at]);
    }
    if at == slot {
        assert(blockset.take(slot + 1)[at] == blockset[slot]);
    }
}

/// The square that block `index` stands on, on the strip `strip`.
pub open spec fn block_rect(strip: RasterView, index: u8) -> Rect {
    let (x, y) = block_origin(index as int, strip.width as int);
    Rect { x: x as usize, y: y as usize, width: BLOCK_SIZE, height: BLOCK_SIZE }
}

/// Whether the strip `strip` holds all of block `index`.
pub open spec fn has_block(strip: RasterView, index: u8) -> bool {
    let (x, y) = block_origin(index as int, strip.width as int);
    x + BLOCK_SIZE <= strip.width && y + BLOCK_SIZE <= strip.height
}

/// What block `index` of the strip `strip` looks like: its square of the
/// strip, and a black square where the strip does not hold all of it.
pub open spec fn block_image(strip: RasterView, index: u8) -> RasterView {
    if has_block(strip, index) {
        strip.crop(block_rect(strip, index))
    } else {
        RasterView::blank(BLOCK_SIZE as nat, BLOCK_SIZE as nat)
    }
}

/// What a tileset holds.
pub struct TilesetView {
    /// The strip of blocks.
    pub cache: RasterView,
    /// The block to paint with.
    pub selected: Option<u8>,
    /// The block under the pointer.
    pub hovered: Option<u8>,
    /// The palette in which the strip is drawn.
    pub palette: RgbPalette,
    /// The number of tiles of the image the strip was built from, capped at 255.
    pub max_block_id: u8,
}

impl TilesetView {
    /// The square of the strip that block `index` stands on.
    pub open spec fn block_rect(self, index: u8) -> Rect {
        block_rect(self.cache, index)
    }

    /// Whether the strip holds all of block `index`.
    pub open spec fn has_block(self, index: u8) -> bool {
        has_block(self.cache, index)
    }

    /// What the tileset shows of `viewport`: the part of the strip that lies
    /// in it, with the block under the pointer in the hover palette and, drawn
    /// after it, the selected block in the select palette.
    pub open spec fn shown(self, viewport: Rect) -> RasterView {
        let part = self.cache.clip(viewport);
        let plain = self.cache.crop(part);
        let hovered = match self.hovered {
            Some(index) => plain.highlight(
                self.cache,
                part,
                self.block_rect(index),
                self.palette,
                spec_hover_palette(),
            ),
            None => plain,
        };
        match self.selected {
            Some(index) => hovered.highlight(
                self.cache,
                part,
                self.block_rect(index),
                self.palette,
                spec_select_palette(),
            ),
            None => hovered,
        }
    }

    /// The squares to draw anew when the mark moves from block `old` to block
    /// `index`: none where it stays, else the square it leaves, if any, and
    /// the square it reaches.
    pub open spec fn moved(self, old: Option<u8>, index: u8) -> Seq<Rect> {
        match old {
            Some(before) => if before == index {
                Seq::empty()
            } else {
                seq![self.block_rect(before), self.block_rect(index)]
            },
            None => seq![self.block_rect(index)],
        }
    }
}

/// Where the block under the pointer is the selected block, the tileset shows
/// what it would show with no block under the pointer: the select palette is
/// drawn over the hover palette.
pub proof fn lemma_selected_over_hovered(tileset: TilesetView, viewport: Rect)
    requires
        tileset.hovered is Some,
        tileset.hovered == tileset.selected,
    ensures
        tileset.shown(viewport) == (TilesetView { hovered: None, ..tileset }).shown(viewport),
{
    let both = tileset.shown(viewport);
    let selected = (TilesetView { hovered: None, ..tileset }).shown(viewport);
    assert forall|x: int, y: int| both.covers(x, y) implies both.at(x, y) == selected.at(x, y) by {
        let part = tileset.cache.clip(viewport);
        let plain = tileset.cache.crop(part);
        let index = tileset.hovered->0;
        let hovered = plain.highlight(
            tileset.cache,
            part,
            tileset.block_rect(index),
            tileset.palette,
            spec_hover_palette(),
        );
    }
    both.lemma_same_pixels(selected);
}

/// The strip of blocks to paint with.
#[derive(Debug)]
pub struct Tileset {
    selected: Option<u8>,
    hovered: Option<u8>,
    pix_cache: Raster,
    palette: RgbPalette,
    max_block_id: u8,
}

impl View for Tileset {
    type V = TilesetView;

    closed spec fn view(&self) -> TilesetView {
        TilesetView {
            cache: self.pix_cache@,
            selected: self.selected,
            hovered: self.hovered,
            palette: self.palette,
            max_block_id: self.max_block_id,
        }
    }
}

impl Positionable for Tileset {

}

impl Clone for Tileset {
    /// A tileset that holds the same strip and the same marks.
    fn clone(&self) -> (copy: Tileset)
        ensures
            copy@ == self@,
    {
        Tileset {
            selected: self.selected,
            hovered: self.hovered,
            pix_cache: self.pix_cache.clone(),
            palette: self.palette,
            max_block_id: self.max_block_id,
        }
    }
}

impl Tileset {
    /// A tileset with a strip of the given size built from `blockset` and the
    /// image `pix` of the tiles; no block is selected or under the pointer.
    pub fn new(width: usize, height: usize, pix: &Raster, blockset: &[u8]) -> (tileset: Tileset)
        requires
            3 * (width * height) <= usize::MAX,
        ensures
            tileset@ == (TilesetView {
                cache: strip_image(blockset@, pix@, width as nat, height as nat),
                selected: None,
                hovered: None,
                palette: spec_base_palette(),
                max_block_id: (if tile_count(pix@) <= 255 {
                    tile_count(pix@)
                } else {
                    255
                }) as u8,
            }),
    {
        let tileset_pix_cache = Self::build_tileset_pix(width, height, pix, blockset);
        let tiles = Self::count_tiles(pix);
        Tileset {
            selected: None,
            hovered: None,
            pix_cache: tileset_pix_cache,
            palette: base_palette(),
            max_block_id: if tiles <= 255 {
                tiles as u8
            } else {
                255
            },
        }
    }

    /// A tileset whose strip is as wide as the blocks of `blockset` need,
    /// two pixels for each slot, and one block high.
    pub fn from_data(blockset: &Vec<u8>, pix: &Raster) -> (tileset: Tileset)
        requires
            192 * blockset@.len() <= usize::MAX,
        ensures
            tileset@ == (TilesetView {
                cache: strip_image(blockset@, pix@, 2 * blockset@.len(), BLOCK_SIZE as nat),
                selected: None,
                hovered: None,
                palette: spec_base_palette(),
                max_block_id: (if tile_count(pix@) <= 255 {
                    tile_count(pix@)
                } else {
                    255
                }) as u8,
            }),
    {
        let width = blockset.len() * (TILE_SIZE / 4);
        let height = BLOCK_SIZE;
        assert(3 * (width * height) == 192 * blockset@.len()) by (nonlinear_arith)
            requires
                width == blockset@.len() * 2,
                height == 32,
        ;
        Tileset::new(width, height, pix, blockset.as_slice())
    }

    /// The number of tiles of the image the strip was built from, capped at 255.
    pub fn get_max_block_id(&self) -> (count: u8)
        ensures
            count == self@.max_block_id,
    {
        self.max_block_id
    }

    /// The number of whole tiles in the image `pix`.
    fn count_tiles(pix: &Raster) -> (count: usize)
        ensures
            count == tile_count(pix@),
            tiles_across(pix@) <= pix@.width,
            tiles_down(pix@) <= pix@.height,
    {
        let held = pix.pixels().len();
        let tileset_width = pix.width() / TILE_SIZE;
        let tileset_height = pix.height() / TILE_SIZE;
        proof {
            assert(pix@.width * pix@.height <= held);
            lemma_mul_upper_bound(
                tileset_width as int,
                pix@.width as int,
                tileset_height as int,
                pix@.height as int,
            );
        }
        tileset_width * tileset_height
    }

    /// A black picture of the given size, to draw on.
    fn new_pixbuf_static(width: usize, height: usize) -> (canvas: Raster)
        requires
            3 * (width * height) <= usize::MAX,
        ensures
            canvas@ == RasterView::blank(width as nat, height as nat),
    {
        let made = Raster::new(width, height);
        made.unwrap()
    }

    /// The strip of the given size built from `blockset` and `pix`.
    fn build_tileset_pix(width: usize, height: usize, pix: &Raster, blockset: &[u8]) -> (strip:
        Raster)
        requires
            3 * (width * height) <= usize::MAX,
        ensures
            strip@ == strip_image(blockset@, pix@, width as nat, height as nat),
    {
        let mut canvas = Self::new_pixbuf_static(width, height);
        let pix_width = pix.width();
        let tileset_width = pix_width / TILE_SIZE;
        let max_block_id = Self::count_tiles(pix);
        proof {
            canvas.lemma_view_wf();
            let none = strip_image(blockset@.take(0), pix@, width as nat, height as nat);
            assert forall|x: int, y: int| canvas@.covers(x, y) implies canvas@.at(x, y) == none.at(
                x,
                y,
            ) by {
                lemma_strip_slot(0, x, y);
            }
            canvas@.lemma_same_pixels(none);
        }
        if width == 0 || height == 0 {
            proof {
                canvas@.lemma_same_pixels(strip_image(blockset@, pix@, width as nat, height as nat));
            }
            return canvas;
        }
        assert(width <= usize::MAX / 3) by (nonlinear_arith)
            requires
                3 * (width * height) <= usize::MAX,
                height >= 1,
        ;
        let mut i: usize = 0;
        while i < blockset.len()
            invariant
                i <= blockset@.len(),
                width <= usize::MAX / 3,
                pix_width == pix@.width,
                tileset_width == tiles_across(pix@),
                max_block_id == tile_count(pix@),
                tiles_down(pix@) <= pix@.height,
                canvas@ == strip_image(blockset@.take(i as int), pix@, width as nat, height as nat),
            decreases blockset@.len() - i,
        {
            let b = blockset[i] as usize;
            let ghost before = canvas@;
            if b < max_block_id && i / 16 <= width / BLOCK_SIZE {
                proof {
                    assert(tileset_width > 0) by (nonlinear_arith)
                        requires
                            b < tileset_width * tiles_down(pix@),
                            0 <= tileset_width,
                            0 <= b,
                    ;
                    lemma_multiply_divide_lt(b as int, tileset_width as int, tiles_down(pix@));
                    lemma_mod_pos_bound(b as int, tileset_width as int);
                }
                let area = Rect {
                    x: TILE_SIZE * (b % tileset_width),
                    y: TILE_SIZE * (b / tileset_width),
                    width: TILE_SIZE,
                    height: TILE_SIZE,
                };
                let tile = pix.sub_image(area).unwrap();
                let block = i / 16;
                assert(block * 32 <= width) by (nonlinear_arith)
                    requires
                        block <= width / 32,
                ;
                let left = (i % 4) * TILE_SIZE + block * BLOCK_SIZE;
                let top = ((i / 4) % 4) * TILE_SIZE;
                proof {
                    lemma_strip_slot(i as int, 0, 0);
                }
                canvas.blit(&tile, left, top);
            }
            proof {
                canvas.lemma_view_wf();
                let want = strip_image(
                    blockset@.take(i + 1),
                    pix@,
                    width as nat,
                    height as nat,
                );
                assert forall|px: int, py: int| canvas@.covers(px, py) implies canvas@.at(px, py)
                    == want.at(px, py) by {
                    lemma_strip_pixel(blockset@, pix@, i as int, px, py);
                    if i / 16 > width / 32 {
                        lemma_strip_slot(i as int, 0, 0);
                        assert(strip_x(i as int) >= width) by (nonlinear_arith)
                            requires
                                strip_x(i as int) == (i % 4) * 8 + (i / 16) * 32,
                                i / 16 > width / 32,
                        ;
                    }
                }
                canvas@.lemma_same_pixels(want);
            }
            i += 1;
        }
        proof {
            assert(blockset@.take(i as int) =~= blockset@);
        }
        canvas
    }

    /// The block to paint with.
    pub fn selected(&self) -> (index: Option<u8>)
        ensures
            index == self@.selected,
    {
        self.selected
    }

    /// The block under the pointer.
    pub fn hovered(&self) -> (index: Option<u8>)
        ensures
            index == self@.hovered,
    {
        self.hovered
    }

    /// The top left corner of block `index` on the strip.
    pub fn coords(&self, index: u8) -> (corner: (usize, usize))
        ensures
            (corner.0 as int, corner.1 as int) == block_origin(
                index as int,
                self@.cache.width as int,
            ),
            corner.0 == self@.block_rect(index).x,
            corner.1 == self@.block_rect(index).y,
    {
        let width = self.pix_cache.width();
        if width == 0 {
            return (0, 0);
        }
        let offset = index as usize * BLOCK_SIZE;
        let row = offset / width;
        assert(row <= offset) by (nonlinear_arith)
            requires
                row == offset / width,
                width >= 1,
                offset >= 0,
        ;
        (offset % width, row * BLOCK_SIZE)
    }

    /// The square of the strip that block `index` stands on.
    fn block_rect(&self, index: u8) -> (rect: Rect)
        ensures
            rect == self@.block_rect(index),
    {
        let (x, y) = self.coords(index);
        Rect { x, y, width: BLOCK_SIZE, height: BLOCK_SIZE }
    }

    /// Selects block `index` and returns the squares to draw anew: none where
    /// `index` is selected already, else the square of the block selected
    /// before, if any, and the square of `index`.
    pub fn select_tile_at(&mut self, index: u8) -> (dirty: Vec<Rect>)
        ensures
            final(self)@ == (TilesetView { selected: Some(index), ..old(self)@ }),
            dirty@ == old(self)@.moved(old(self)@.selected, index),
    {
        let mut dirty: Vec<Rect> = Vec::new();
        let should_select = match self.selected {
            Some(old) => index != old,
            None => true,
        };
        if !should_select {
            return dirty;
        }
        if let Some(old_selected) = self.selected {
            dirty.push(self.block_rect(old_selected));
        }
        dirty.push(self.block_rect(index));
        self.selected = Some(index);
        assert(dirty@ =~= old(self)@.moved(old(self)@.selected, index));
        dirty
    }

    /// Puts the pointer on block `index`.
    pub fn hover_tile_at(&mut self, index: u8)
        ensures
            final(self)@ == (TilesetView { hovered: Some(index), ..old(self)@ }),
    {
        self.hovered = Some(index);
    }

    /// A copy of block `index`, or `None` where the strip does not hold all
    /// of it.
    pub fn get_tile_pix(&self, index: u8) -> (tile: Option<Raster>)
        ensures
            tile is Some <==> self@.has_block(index),
            tile matches Some(raster) ==> raster@ == self@.cache.crop(self@.block_rect(index)),
    {
        let width = self.pix_cache.width();
        let rect = self.block_rect(index);
        self.pix_cache.sub_image(rect)
    }

    /// What block `index` looks like: a copy of it, and a black square where
    /// the strip does not hold all of it.
    pub fn block_image(&self, index: u8) -> (tile: Raster)
        ensures
            tile@ == block_image(self@.cache, index),
    {
        match self.get_tile_pix(index) {
            Some(tile) => tile,
            None => {
                let blank = Raster::new(BLOCK_SIZE, BLOCK_SIZE);
                blank.unwrap()
            },
        }
    }

    /// What the tileset shows of `viewport`: the part of the strip that lies
    /// in it, with the block under the pointer in the hover palette and, drawn
    /// after it, the selected block in the select palette. The raster starts
    /// at the top left corner of that part.
    pub fn paint(&self, viewport: Rect) -> (canvas: Raster)
        ensures
            canvas@ == self@.shown(viewport),
    {
        let cache_width = self.pix_cache.width();
        let cache_height = self.pix_cache.height();
        let part = self.pix_cache.clip(viewport);
        let mut canvas = self.pix_cache.sub_image(part).unwrap();
        if let Some(index) = self.hovered {
            self.paint_tile_with_palette(&mut canvas, part, index, hover_palette());
        }
        if let Some(index) = self.selected {
            self.paint_tile_with_palette(&mut canvas, part, index, select_palette());
        }
        canvas
    }

    /// Shows block `index` in `palette` on `canvas`, which shows `part` of
    /// the strip: the pixels of `part` that lie on the block get the colours
    /// of the strip, swapped from the palette of the strip to `palette`.
    pub fn paint_tile_with_palette(
        &self,
        canvas: &mut Raster,
        part: Rect,
        index: u8,
        palette: RgbPalette,
    )
        requires
            old(canvas)@.width == part.width,
            old(canvas)@.height == part.height,
            part.x + part.width <= self@.cache.width,
            part.y + part.height <= self@.cache.height,
        ensures
            final(canvas)@ == old(canvas)@.highlight(
                self@.cache,
                part,
                self@.block_rect(index),
                self@.palette,
                palette,
            ),
    {
        let block = self.block_rect(index);
        highlight(canvas, &self.pix_cache, part, block, self.palette, palette);
    }

    /// The pointer has left the strip: no block is under it. Returns the
    /// square to draw anew, that of the block that was under the pointer.
    pub fn leave_notify(&mut self) -> (dirty: Option<Rect>)
        ensures
            final(self)@ == (TilesetView { hovered: None, ..old(self)@ }),
            dirty == match old(self)@.hovered {
                Some(index) => Some(old(self)@.block_rect(index)),
                None => None,
            },
    {
        let dirty = match self.hovered {
            Some(old_hovered) => Some(self.block_rect(old_hovered)),
            None => None,
        };
        self.hovered = None;
        dirty
    }

    /// The pointer has moved to the pixel `pos`: the block of its column is
    /// under it. Returns the squares to draw anew: none where that block was
    /// under the pointer already, else the square of the block that was, if
    /// any, and the square of the block that is.
    pub fn motion_notify(&mut self, pos: (usize, usize)) -> (dirty: Vec<Rect>)
        ensures
            final(self)@ == (TilesetView {
                hovered: Some(block_of(pos.0 as int) as u8),
                ..old(self)@
            }),
            dirty@ == old(self)@.moved(old(self)@.hovered, block_of(pos.0 as int) as u8),
    {
        let (lx, _) = get_event_pos(pos);
        let mut dirty: Vec<Rect> = Vec::new();
        if let Some(old_hovered) = self.hovered {
            if lx != old_hovered {
                dirty.push(self.block_rect(old_hovered));
                self.hover_tile_at(lx);
                dirty.push(self.block_rect(lx));
            }
        } else {
            self.hover_tile_at(lx);
            dirty.push(self.block_rect(lx));
        }
        assert(dirty@ =~= old(self)@.moved(old(self)@.hovered, lx));
        dirty
    }

    /// A button was pressed at the pixel `pos`: the block of its column is
    /// selected. Returns the squares to draw anew, as `select_tile_at` does.
    pub fn button_press(&mut self, pos: (usize, usize)) -> (dirty: Vec<Rect>)
        ensures
            final(self)@ == (TilesetView {
                selected: Some(block_of(pos.0 as int) as u8),
                ..old(self)@
            }),
            dirty@ == old(self)@.moved(old(self)@.selected, block_of(pos.0 as int) as u8),
    {
        let pos = get_event_pos(pos);
        let (lx, _) = pos;
        self.select_tile_at(lx)
    }
}

} // verus!
