//! Swapping the four colours of one palette for those of another.

use vstd::prelude::*;
use vstd::slice::slice_subrange;
use crate::constants::{rgb_triple_from, RgbPalette, RgbTriple};
use crate::raster::{lemma_pixel_index, Raster, RasterView, Rect};

verus! {

impl RgbPalette {
    /// The colour in slot `slot`, counted from 0.
    pub open spec fn color(self, slot: int) -> RgbTriple {
        if slot == 0 {
            self.0
        } else if slot == 1 {
            self.1
        } else if slot == 2 {
            self.2
        } else {
            self.3
        }
    }

    /// The first slot that holds `color`, if one does.
    pub open spec fn slot_of(self, color: RgbTriple) -> Option<int> {
        if color == self.0 {
            Some(0)
        } else if color == self.1 {
            Some(1)
        } else if color == self.2 {
            Some(2)
        } else if color == self.3 {
            Some(3)
        } else {
            None
        }
    }

    /// Whether the four colours differ from one another.
    pub open spec fn distinct(self) -> bool {
        &&& self.0 != self.1
        &&& self.0 != self.2
        &&& self.0 != self.3
        &&& self.1 != self.2
        &&& self.1 != self.3
        &&& self.2 != self.3
    }
}

/// The colour that takes the place of `color`: the colour that `to` holds in
/// the first slot where `from` holds `color`, and `color` itself where `from`
/// does not hold it.
pub open spec fn swap_color(color: RgbTriple, from: RgbPalette, to: RgbPalette) -> RgbTriple {
    match from.slot_of(color) {
        Some(slot) => to.color(slot),
        None => color,
    }
}

/// Whether `color` is a colour of `from` that comes back when it is swapped
/// to `to` and then from `to` to `from`: `to` must not hold, in an earlier
/// slot, the colour that it gives for `color`.
pub open spec fn swaps_back(color: RgbTriple, from: RgbPalette, to: RgbPalette) -> bool {
    from.slot_of(color) matches Some(slot) && to.slot_of(to.color(slot)) == Some(slot)
}

impl RasterView {
    /// The raster with every pixel's colour swapped from `from` to `to`.
    pub open spec fn recolor(self, from: RgbPalette, to: RgbPalette) -> RasterView {
        RasterView {
            width: self.width,
            height: self.height,
            rows: Seq::new(
                self.height,
                |y: int| Seq::new(self.width, |x: int| swap_color(self.at(x, y), from, to)),
            ),
        }
    }
}

impl RasterView {
    /// A raster that shows `part` of `cache`, with the pixels of `part` that
    /// lie in `block` shown anew, in the colours that `cache` has for them
    /// swapped from `from` to `to`.
    pub open spec fn highlight(
        self,
        cache: RasterView,
        part: Rect,
        block: Rect,
        from: RgbPalette,
        to: RgbPalette,
    ) -> RasterView {
        RasterView {
            width: self.width,
            height: self.height,
            rows: Seq::new(
                self.height,
                |y: int|
                    Seq::new(
                        self.width,
                        |x: int|
                            if block.contains(part.x + x, part.y + y) {
                                swap_color(cache.at(part.x + x, part.y + y), from, to)
                            } else {
                                self.at(x, y)
                            },
                    ),
            ),
        }
    }
}

/// A colour of `from` comes back from a swap to `to` exactly when
/// `swaps_back` says so.
pub proof fn lemma_swaps_back_is_exact(color: RgbTriple, from: RgbPalette, to: RgbPalette)
    requires
        from.slot_of(color) is Some,
    ensures
        swaps_back(color, from, to) <==> swap_color(swap_color(color, from, to), to, from)
            == color,
{
}

/// Every colour of `from` comes back from a swap to a palette of four
/// different colours.
pub proof fn lemma_distinct_swaps_back(color: RgbTriple, from: RgbPalette, to: RgbPalette)
    requires
        from.slot_of(color) is Some,
        to.distinct(),
    ensures
        swaps_back(color, from, to),
{
}

/// Swapping a raster from one palette to another and back gives the raster
/// again, where each of its colours is one of the first palette that comes
/// back.
pub proof fn lemma_recolor_round_trip(image: RasterView, from: RgbPalette, to: RgbPalette)
    requires
        image.wf(),
        forall|x: int, y: int| image.covers(x, y) ==> swaps_back(image.at(x, y), from, to),
    ensures
        image.recolor(from, to).recolor(to, from) == image,
{
    let back = image.recolor(from, to).recolor(to, from);
    assert forall|x: int, y: int| back.covers(x, y) implies back.at(x, y) == image.at(x, y) by {
        assert(image.covers(x, y));
        assert(swaps_back(image.at(x, y), from, to));
    }
    back.lemma_same_pixels(image);
}

/// The base, hover and select palettes each hold four different colours.
pub proof fn lemma_named_palettes_distinct()
    ensures
        crate::constants::spec_base_palette().distinct(),
        crate::constants::spec_hover_palette().distinct(),
        crate::constants::spec_select_palette().distinct(),
{
}

/// Whether two colours are the same.
fn same_color(a: RgbTriple, b: RgbTriple) -> (same: bool)
    ensures
        same == (a == b),
{
    a.0 == b.0 && a.1 == b.1 && a.2 == b.2
}

/// A copy of `tile` with every pixel's colour swapped from `from_pal` to
/// `to_pal`: a pixel whose colour `from_pal` holds gets the colour that
/// `to_pal` holds in the same slot, the first such slot deciding; any other
/// pixel keeps its colour.
pub fn change_palette(tile: &Raster, from_pal: RgbPalette, to_pal: RgbPalette) -> (out: Raster)
    ensures
        out@ == tile@.recolor(from_pal, to_pal),
{
    let bytes = tile.pixels();
    let len = bytes.len();
    let mut pxs: Vec<u8> = Vec::new();
    let mut done: usize = 0;
    while done < len
        invariant
            len == bytes@.len(),
            len % 3 == 0,
            done % 3 == 0,
            done <= len,
            pxs@.len() == done,
            forall|k: int|
                0 <= k && 3 * k < done ==> (#[trigger] pxs@[3 * k], pxs@[3 * k + 1], pxs@[3 * k
                    + 2]) == swap_color(
                    (bytes@[3 * k], bytes@[3 * k + 1], bytes@[3 * k + 2]),
                    from_pal,
                    to_pal,
                ),
        decreases len - done,
    {
        let chunk = slice_subrange(bytes.as_slice(), done, done + 3);
        let triple = rgb_triple_from(chunk);
        let (red, green, blue) = {
            if same_color(triple, from_pal.0) {
                to_pal.0
            } else if same_color(triple, from_pal.1) {
                to_pal.1
            } else if same_color(triple, from_pal.2) {
                to_pal.2
            } else if same_color(triple, from_pal.3) {
                to_pal.3
            } else {
                triple
            }
        };
        let ghost before = pxs@;
        pxs.push(red);
        pxs.push(green);
        pxs.push(blue);
        proof {
            assert forall|k: int| 0 <= k && 3 * k < done + 3 implies (#[trigger] pxs@[3 * k], pxs@[3
                * k + 1], pxs@[3 * k + 2]) == swap_color(
                (bytes@[3 * k], bytes@[3 * k + 1], bytes@[3 * k + 2]),
                from_pal,
                to_pal,
            ) by {
                if 3 * k < done {
                    assert(pxs@[3 * k] == before[3 * k]);
                }
            }
        }
        done += 3;
    }
    let width = tile.width();
    let height = tile.height();
    let made = Raster::from_rgb(width, height, pxs);
    let out = made.unwrap();
    proof {
        tile.lemma_view_wf();
        out.lemma_view_wf();
        let want = tile@.recolor(from_pal, to_pal);
        assert forall|x: int, y: int| out@.covers(x, y) implies out@.at(x, y) == want.at(x, y) by {
            lemma_pixel_index(width as int, height as int, x, y);
            let k = y * width + x;
            assert((pxs@[3 * k], pxs@[3 * k + 1], pxs@[3 * k + 2]) == swap_color(
                (bytes@[3 * k], bytes@[3 * k + 1], bytes@[3 * k + 2]),
                from_pal,
                to_pal,
            ));
        }
        out@.lemma_same_pixels(want);
    }
    out
}

/// Shows the pixels of `block` highlighted on `canvas`, which shows `part` of
/// `cache`: each pixel of `part` that lies in `block` gets the colour that
/// `cache` has for it, swapped from `from` to `to`.
pub fn highlight(
    canvas: &mut Raster,
    cache: &Raster,
    part: Rect,
    block: Rect,
    from: RgbPalette,
    to: RgbPalette,
)
    requires
        old(canvas)@.width == part.width,
        old(canvas)@.height == part.height,
        part.x + part.width <= cache@.width,
        part.y + part.height <= cache@.height,
    ensures
        final(canvas)@ == old(canvas)@.highlight(cache@, part, block, from, to),
{
    let cache_width = cache.width();
    let cache_height = cache.height();
    let on_cache = cache.clip(block);
    let region = on_cache.intersect(part);
    proof {
        canvas.lemma_view_wf();
        cache.lemma_view_wf();
    }
    let ghost before = canvas@;
    if region.width > 0 && region.height > 0 {
        let cut = cache.sub_image(region).unwrap();
        let recolored = change_palette(&cut, from, to);
        canvas.blit(&recolored, region.x - part.x, region.y - part.y);
    }
    proof {
        canvas.lemma_view_wf();
        let want = before.highlight(cache@, part, block, from, to);
        assert forall|x: int, y: int| canvas@.covers(x, y) implies canvas@.at(x, y) == want.at(
            x,
            y,
        ) by {
            on_cache.lemma_meet_contains(part, part.x + x, part.y + y);
        }
        canvas@.lemma_same_pixels(want);
    }
}

} // verus!
