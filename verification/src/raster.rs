//! Rasters of RGB pixels, and rectangles on them.

use vstd::prelude::*;
use vstd::arithmetic::div_mod::lemma_fundamental_div_mod_converse;
use crate::constants::RgbTriple;

verus! {

/// An axis-aligned rectangle of pixels: its top left corner and its size.
#[derive(Debug, Clone, Copy, PartialEq, Eq, Structural)]
pub struct Rect {
    pub x: usize,
    pub y: usize,
    pub width: usize,
    pub height: usize,
}

impl Rect {
    /// Whether the pixel `(px, py)` lies inside the rectangle.
    pub open spec fn contains(self, px: int, py: int) -> bool {
        self.x <= px < self.x + self.width && self.y <= py < self.y + self.height
    }

    /// The pixels that two rectangles share.
    pub open spec fn meet(self, other: Rect) -> Rect {
        let x = if self.x >= other.x { self.x } else { other.x };
        let y = if self.y >= other.y { self.y } else { other.y };
        let right = if self.x + self.width <= other.x + other.width {
            self.x + self.width
        } else {
            other.x + other.width
        };
        let bottom = if self.y + self.height <= other.y + other.height {
            self.y + self.height
        } else {
            other.y + other.height
        };
        Rect {
            x,
            y,
            width: (if right > x { right - x } else { 0 }) as usize,
            height: (if bottom > y { bottom - y } else { 0 }) as usize,
        }
    }

    /// A pixel lies in the meet of two rectangles exactly when it lies in both.
    pub proof fn lemma_meet_contains(self, other: Rect, px: int, py: int)
        ensures
            self.meet(other).contains(px, py) <==> self.contains(px, py) && other.contains(px, py),
    {
    }

    /// Computes the pixels that two rectangles share.
    pub fn intersect(self, other: Rect) -> (shared: Rect)
        requires
            self.x + self.width <= usize::MAX,
            self.y + self.height <= usize::MAX,
            other.x + other.width <= usize::MAX,
            other.y + other.height <= usize::MAX,
        ensures
            shared == self.meet(other),
    {
        let x = if self.x >= other.x { self.x } else { other.x };
        let y = if self.y >= other.y { self.y } else { other.y };
        let right = if self.x + self.width <= other.x + other.width {
            self.x + self.width
        } else {
            other.x + other.width
        };
        let bottom = if self.y + self.height <= other.y + other.height {
            self.y + self.height
        } else {
            other.y + other.height
        };
        Rect {
            x,
            y,
            width: if right > x { right - x } else { 0 },
            height: if bottom > y { bottom - y } else { 0 },
        }
    }
}

/// What a raster shows: its size and its colours, row by row from the top,
/// each row from the left.
#[verifier::ext_equal]
pub struct RasterView {
    pub width: nat,
    pub height: nat,
    pub rows: Seq<Seq<RgbTriple>>,
}

impl RasterView {
    /// There are `height` rows of `width` colours each.
    pub open spec fn wf(self) -> bool {
        &&& self.rows.len() == self.height
        &&& forall|y: int| 0 <= y < self.height ==> (#[trigger] self.rows[y]).len() == self.width
    }

    /// Whether `(x, y)` is a pixel of the raster.
    pub open spec fn covers(self, x: int, y: int) -> bool {
        0 <= x < self.width && 0 <= y < self.height
    }

    /// The colour of the pixel in column `x` of row `y`.
    pub open spec fn at(self, x: int, y: int) -> RgbTriple {
        self.rows[y][x]
    }

    /// The raster of the given size whose pixels are all black.
    pub open spec fn blank(width: nat, height: nat) -> RasterView {
        RasterView {
            width,
            height,
            rows: Seq::new(height, |y: int| Seq::new(width, |x: int| (0u8, 0u8, 0u8))),
        }
    }

    /// The raster that packed RGB bytes describe: three bytes a pixel, rows
    /// one after the other without padding.
    pub open spec fn from_rgb(width: nat, height: nat, bytes: Seq<u8>) -> RasterView {
        RasterView {
            width,
            height,
            rows: Seq::new(
                height,
                |y: int|
                    Seq::new(
                        width,
                        |x: int|
                            (
                                bytes[3 * (y * width + x)],
                                bytes[3 * (y * width + x) + 1],
                                bytes[3 * (y * width + x) + 2],
                            ),
                    ),
            ),
        }
    }

    /// The raster that rows of pixels describe which start `rowstride` bytes
    /// apart, a pixel taking `channels` bytes of which the first three are
    /// its red, green and blue.
    pub open spec fn from_strided(
        width: nat,
        height: nat,
        rowstride: nat,
        channels: nat,
        bytes: Seq<u8>,
    ) -> RasterView {
        RasterView {
            width,
            height,
            rows: Seq::new(
                height,
                |y: int|
                    Seq::new(
                        width,
                        |x: int|
                            (
                                bytes[y * rowstride + x * channels],
                                bytes[y * rowstride + x * channels + 1],
                                bytes[y * rowstride + x * channels + 2],
                            ),
                    ),
            ),
        }
    }

    /// The part of `area` that lies on the raster.
    pub open spec fn clip(self, area: Rect) -> Rect {
        let x = if area.x <= self.width { area.x as nat } else { self.width };
        let y = if area.y <= self.height { area.y as nat } else { self.height };
        Rect {
            x: x as usize,
            y: y as usize,
            width: (if area.width <= self.width - x { area.width as int } else { self.width - x }) as usize,
            height: (if area.height <= self.height - y { area.height as int } else { self.height - y }) as usize,
        }
    }

    /// The raster cut down to `area`, which must lie on it.
    pub open spec fn crop(self, area: Rect) -> RasterView {
        RasterView {
            width: area.width as nat,
            height: area.height as nat,
            rows: Seq::new(
                area.height as nat,
                |y: int| Seq::new(area.width as nat, |x: int| self.at(area.x + x, area.y + y)),
            ),
        }
    }

    /// The raster with `src` drawn over it, the top left corner of `src` at
    /// `(x, y)`; what of `src` falls beside the raster is lost.
    pub open spec fn paste(self, src: RasterView, x: int, y: int) -> RasterView {
        RasterView {
            width: self.width,
            height: self.height,
            rows: Seq::new(
                self.height,
                |py: int|
                    Seq::new(
                        self.width,
                        |px: int|
                            if x <= px < x + src.width && y <= py < y + src.height {
                                src.at(px - x, py - y)
                            } else {
                                self.at(px, py)
                            },
                    ),
            ),
        }
    }

    /// Two rasters of one size that agree on every pixel are the same raster.
    pub proof fn lemma_same_pixels(self, other: RasterView)
        requires
            self.wf(),
            other.wf(),
            self.width == other.width,
            self.height == other.height,
            forall|x: int, y: int| self.covers(x, y) ==> self.at(x, y) == other.at(x, y),
        ensures
            self == other,
    {
        assert forall|y: int| 0 <= y < self.height implies self.rows[y] =~= other.rows[y] by {
            assert forall|x: int| 0 <= x < self.width implies self.rows[y][x] == other.rows[y][x] by {
                assert(self.covers(x, y));
                assert(self.at(x, y) == other.at(x, y));
            }
        }
        assert(self.rows =~= other.rows);
    }
}

/// Whether `len` bytes hold `height` rows of `width` pixels which start
/// `rowstride` bytes apart, a pixel taking `channels` bytes, three at least:
/// the rows must not overlap, and the last row must be whole.
pub open spec fn strided_fits(width: nat, height: nat, rowstride: nat, channels: nat, len: nat)
    -> bool {
    &&& channels >= 3
    &&& rowstride >= width * channels
    &&& (width == 0 || height == 0 || len >= (height - 1) * rowstride + width * channels)
}

/// A rectangle of RGB pixels, held as packed bytes.
#[derive(Debug, PartialEq, Eq)]
pub struct Raster {
    width: usize,
    height: usize,
    pixels: Vec<u8>,
}

/// The place of a pixel among the pixels of a raster `width` wide.
pub open spec fn pixel_index(width: int, x: int, y: int) -> int {
    y * width + x
}

/// Pixels of a grid have places of their own, in row-major order.
pub proof fn lemma_pixel_index(width: int, height: int, x: int, y: int)
    requires
        0 <= x < width,
        0 <= y < height,
    ensures
        0 <= pixel_index(width, x, y) < width * height,
        pixel_index(width, x, y) / width == y,
        pixel_index(width, x, y) % width == x,
{
    assert(0 <= y * width + x < width * height) by (nonlinear_arith)
        requires
            0 <= x < width,
            0 <= y < height,
    ;
    lemma_fundamental_div_mod_converse(y * width + x, width, y, x);
}

/// Rows of a grid follow one another: a pixel of an earlier row has an earlier place.
proof fn lemma_row_order(width: int, x: int, y: int, later: int)
    requires
        0 <= x < width,
        0 <= y < later,
    ensures
        pixel_index(width, x, y) < later * width,
{
    assert(y * width + x < later * width) by (nonlinear_arith)
        requires
            0 <= x < width,
            0 <= y < later,
    ;
}

/// The colour that packed RGB bytes hold for the pixel `(x, y)`.
spec fn color_in(bytes: Seq<u8>, width: int, x: int, y: int) -> RgbTriple {
    let first = 3 * pixel_index(width, x, y);
    (bytes[first], bytes[first + 1], bytes[first + 2])
}

impl View for Raster {
    type V = RasterView;

    closed spec fn view(&self) -> RasterView {
        RasterView::from_rgb(self.width as nat, self.height as nat, self.pixels@)
    }
}

impl Clone for Raster {
    /// A raster that shows the same pixels.
    fn clone(&self) -> (copy: Raster)
        ensures
            copy@ == self@,
    {
        proof {
            use_type_invariant(self);
        }
        let pixels = self.pixels.clone();
        assert(pixels@ =~= self.pixels@);
        Raster { width: self.width, height: self.height, pixels }
    }
}

impl Raster {
    #[verifier::type_invariant]
    spec fn holds_all_pixels(&self) -> bool {
        self.pixels@.len() == 3 * (self.width * self.height)
    }

    /// Every raster has as many rows and columns as its size says.
    pub proof fn lemma_view_wf(&self)
        ensures
            self@.wf(),
    {
    }

    /// A black raster of the given size, or `None` where its bytes would not
    /// fit in memory.
    pub fn new(width: usize, height: usize) -> (made: Option<Raster>)
        ensures
            made is Some <==> 3 * (width * height) <= usize::MAX,
            made matches Some(raster) ==> raster@ == RasterView::blank(width as nat, height as nat),
    {
        let count = match width.checked_mul(height) {
            Some(count) => count,
            None => {
                return None;
            },
        };
        let len = match count.checked_mul(3) {
            Some(len) => len,
            None => {
                return None;
            },
        };
        let pixels: Vec<u8> = vec![0u8; len];
        let raster = Raster { width, height, pixels };
        proof {
            let view = raster@;
            let blank = RasterView::blank(width as nat, height as nat);
            assert forall|y: int| 0 <= y < height implies view.rows[y] =~= blank.rows[y] by {
                assert forall|x: int| 0 <= x < width implies view.rows[y][x] == blank.rows[y][x] by {
                    lemma_pixel_index(width as int, height as int, x, y);
                }
            }
            assert(view.rows =~= blank.rows);
        }
        Some(raster)
    }

    /// The raster that packed RGB bytes describe, or `None` where their
    /// number is not three for each pixel.
    pub fn from_rgb(width: usize, height: usize, pixels: Vec<u8>) -> (made: Option<Raster>)
        ensures
            made is Some <==> pixels@.len() == 3 * (width * height),
            made matches Some(raster) ==> raster@ == RasterView::from_rgb(
                width as nat,
                height as nat,
                pixels@,
            ),
    {
        let given = pixels.len();
        assert(0 <= width * height) by (nonlinear_arith);
        let count = match width.checked_mul(height) {
            Some(count) => count,
            None => {
                return None;
            },
        };
        let len = match count.checked_mul(3) {
            Some(len) => len,
            None => {
                return None;
            },
        };
        if given != len {
            return None;
        }
        Some(Raster { width, height, pixels })
    }

    /// The raster that rows of pixels describe which start `rowstride` bytes
    /// apart, a pixel taking `channels` bytes of which the first three are
    /// its red, green and blue; `None` where `bytes` does not hold such rows.
    pub fn from_strided(
        width: usize,
        height: usize,
        rowstride: usize,
        channels: usize,
        bytes: &[u8],
    ) -> (made: Option<Raster>)
        ensures
            made is Some <==> strided_fits(
                width as nat,
                height as nat,
                rowstride as nat,
                channels as nat,
                bytes@.len(),
            ),
            made matches Some(raster) ==> raster@ == RasterView::from_strided(
                width as nat,
                height as nat,
                rowstride as nat,
                channels as nat,
                bytes@,
            ),
    {
        let len = bytes.len();
        if channels < 3 {
            return None;
        }
        let row_len = match width.checked_mul(channels) {
            Some(row_len) => row_len,
            None => {
                return None;
            },
        };
        if rowstride < row_len {
            return None;
        }
        let mut rows: usize = 0;
        if width > 0 && height > 0 {
            let before = match (height - 1).checked_mul(rowstride) {
                Some(before) => before,
                None => {
                    assert(0 <= width * channels) by (nonlinear_arith);
                    return None;
                },
            };
            let need = match before.checked_add(row_len) {
                Some(need) => need,
                None => {
                    return None;
                },
            };
            if len < need {
                return None;
            }
            rows = height;
        }
        let mut pixels: Vec<u8> = Vec::new();
        let mut y: usize = 0;
        while y < rows
            invariant
                y <= rows,
                rows == 0 || (rows == height && width > 0 && len >= (height - 1) * rowstride
                    + width * channels),
                len == bytes@.len(),
                channels >= 3,
                rowstride >= width * channels,
                pixels@.len() == 3 * (y * width),
                forall|px: int, py: int|
                    0 <= px < width && 0 <= py < y ==> #[trigger] color_in(
                        pixels@,
                        width as int,
                        px,
                        py,
                    ) == (
                        bytes@[py * rowstride + px * channels],
                        bytes@[py * rowstride + px * channels + 1],
                        bytes@[py * rowstride + px * channels + 2],
                    ),
            decreases rows - y,
        {
            let mut x: usize = 0;
            while x < width
                invariant
                    x <= width,
                    y < rows,
                    rows == height,
                    len >= (height - 1) * rowstride + width * channels,
                    len == bytes@.len(),
                    channels >= 3,
                    rowstride >= width * channels,
                    pixels@.len() == 3 * (y * width + x),
                    forall|px: int, py: int|
                        (0 <= px < width && 0 <= py < y) || (py == y && 0 <= px < x)
                            ==> #[trigger] color_in(pixels@, width as int, px, py) == (
                            bytes@[py * rowstride + px * channels],
                            bytes@[py * rowstride + px * channels + 1],
                            bytes@[py * rowstride + px * channels + 2],
                        ),
                decreases width - x,
            {
                proof {
                    assert(0 <= y * rowstride <= (height - 1) * rowstride && 0 <= x * channels
                        && x * channels + channels <= width * channels) by (nonlinear_arith)
                        requires
                            0 <= y <= height - 1,
                            0 <= x < width,
                            0 <= rowstride,
                            0 <= channels,
                    ;
                }
                let from = y * rowstride + x * channels;
                let ghost before = pixels@;
                pixels.push(bytes[from]);
                pixels.push(bytes[from + 1]);
                pixels.push(bytes[from + 2]);
                proof {
                    assert forall|px: int, py: int|
                        (0 <= px < width && 0 <= py < y) || (py == y && 0 <= px < x + 1)
                        implies #[trigger] color_in(pixels@, width as int, px, py) == (
                        bytes@[py * rowstride + px * channels],
                        bytes@[py * rowstride + px * channels + 1],
                        bytes@[py * rowstride + px * channels + 2],
                    ) by {
                        if py < y {
                            lemma_row_order(width as int, px, py, y as int);
                        }
                        if !(py == y && px == x) {
                            assert(color_in(pixels@, width as int, px, py) == color_in(
                                before,
                                width as int,
                                px,
                                py,
                            ));
                        }
                    }
                }
                x += 1;
            }
            proof {
                assert((y + 1) * width == y * width + width) by (nonlinear_arith);
            }
            y += 1;
        }
        proof {
            assert(y * width == width * height) by (nonlinear_arith)
                requires
                    y == rows,
                    rows == height || (rows == 0 && (width == 0 || height == 0)),
            ;
        }
        let raster = Raster { width, height, pixels };
        proof {
            let view = raster@;
            let want = RasterView::from_strided(
                width as nat,
                height as nat,
                rowstride as nat,
                channels as nat,
                bytes@,
            );
            assert forall|py: int| 0 <= py < height implies view.rows[py] =~= want.rows[py] by {
                assert forall|px: int| 0 <= px < width implies view.rows[py][px]
                    == want.rows[py][px] by {
                    assert(view.rows[py][px] == color_in(raster.pixels@, width as int, px, py));
                }
            }
            assert(view.rows =~= want.rows);
        }
        Some(raster)
    }

    /// The number of pixels in a row.
    pub fn width(&self) -> (width: usize)
        ensures
            width == self@.width,
    {
        self.width
    }

    /// The number of rows.
    pub fn height(&self) -> (height: usize)
        ensures
            height == self@.height,
    {
        self.height
    }

    /// The part of `area` that lies on the raster.
    pub fn clip(&self, area: Rect) -> (part: Rect)
        ensures
            part == self@.clip(area),
    {
        let x = if area.x <= self.width { area.x } else { self.width };
        let y = if area.y <= self.height { area.y } else { self.height };
        Rect {
            x,
            y,
            width: if area.width <= self.width - x { area.width } else { self.width - x },
            height: if area.height <= self.height - y { area.height } else { self.height - y },
        }
    }

    /// A copy of the pixels inside `area`, or `None` where `area` reaches
    /// beyond the raster.
    pub fn sub_image(&self, area: Rect) -> (cut: Option<Raster>)
        ensures
            cut is Some <==> area.x + area.width <= self@.width && area.y + area.height
                <= self@.height,
            cut matches Some(raster) ==> raster@ == self@.crop(area),
    {
        proof {
            use_type_invariant(self);
        }
        if area.x > self.width || area.width > self.width - area.x || area.y > self.height
            || area.height > self.height - area.y {
            return None;
        }
        let total = self.pixels.len();
        let mut pixels: Vec<u8> = Vec::new();
        let mut dy: usize = 0;
        while dy < area.height
            invariant
                total == 3 * (self.width * self.height),
                dy <= area.height,
                area.x + area.width <= self.width,
                area.y + area.height <= self.height,
                self.pixels@.len() == 3 * (self.width * self.height),
                pixels@.len() == 3 * (dy * area.width),
                forall|x: int, y: int|
                    0 <= x < area.width && 0 <= y < dy ==> #[trigger] color_in(
                        pixels@,
                        area.width as int,
                        x,
                        y,
                    ) == color_in(self.pixels@, self.width as int, area.x + x, area.y + y),
            decreases area.height - dy,
        {
            let mut dx: usize = 0;
            while dx < area.width
                invariant
                    total == 3 * (self.width * self.height),
                    dx <= area.width,
                    dy < area.height,
                    area.x + area.width <= self.width,
                    area.y + area.height <= self.height,
                    self.pixels@.len() == 3 * (self.width * self.height),
                    pixels@.len() == 3 * (dy * area.width + dx),
                    forall|x: int, y: int|
                        (0 <= x < area.width && 0 <= y < dy) || (y == dy && 0 <= x < dx)
                            ==> #[trigger] color_in(pixels@, area.width as int, x, y) == color_in(
                            self.pixels@,
                            self.width as int,
                            area.x + x,
                            area.y + y,
                        ),
                decreases area.width - dx,
            {
                let column = area.x + dx;
                let row = area.y + dy;
                proof {
                    lemma_pixel_index(
                        self.width as int,
                        self.height as int,
                        column as int,
                        row as int,
                    );
                    assert(0 <= row * self.width) by (nonlinear_arith);
                }
                let from = 3 * (row * self.width + column);
                let ghost before = pixels@;
                pixels.push(self.pixels[from]);
                pixels.push(self.pixels[from + 1]);
                pixels.push(self.pixels[from + 2]);
                proof {
                    assert forall|x: int, y: int|
                        (0 <= x < area.width && 0 <= y < dy) || (y == dy && 0 <= x < dx + 1)
                        implies #[trigger] color_in(pixels@, area.width as int, x, y) == color_in(
                        self.pixels@,
                        self.width as int,
                        area.x + x,
                        area.y + y,
                    ) by {
                        if y < dy {
                            lemma_row_order(area.width as int, x, y, dy as int);
                        }
                        if !(y == dy && x == dx) {
                            assert(color_in(pixels@, area.width as int, x, y) == color_in(
                                before,
                                area.width as int,
                                x,
                                y,
                            ));
                        }
                    }
                }
                dx += 1;
            }
            proof {
                assert((dy + 1) * area.width == dy * area.width + area.width) by (nonlinear_arith);
            }
            dy += 1;
        }
        proof {
            assert(area.height * area.width == area.width * area.height) by (nonlinear_arith);
        }
        let raster = Raster { width: area.width, height: area.height, pixels };
        proof {
            let view = raster@;
            let crop = self@.crop(area);
            assert forall|y: int| 0 <= y < area.height implies view.rows[y] =~= crop.rows[y] by {
                assert forall|x: int| 0 <= x < area.width implies view.rows[y][x]
                    == crop.rows[y][x] by {
                    assert(view.rows[y][x] == color_in(raster.pixels@, area.width as int, x, y));
                    assert(crop.rows[y][x] == color_in(
                        self.pixels@,
                        self.width as int,
                        area.x + x,
                        area.y + y,
                    ));
                }
            }
            assert(view.rows =~= crop.rows);
        }
        Some(raster)
    }

    /// Draws `src` over this raster, the top left corner of `src` at `(x, y)`.
    /// What of `src` falls beside the raster is lost; pixels that `src` does
    /// not reach stay as they are.
    pub fn blit(&mut self, src: &Raster, x: usize, y: usize)
        ensures
            final(self)@ == old(self)@.paste(src@, x as int, y as int),
    {
        proof {
            use_type_invariant(&*self);
            use_type_invariant(src);
        }
        let ghost start = self.pixels@;
        let total = self.pixels.len();
        let src_total = src.pixels.len();
        let width = self.width;
        let height = self.height;
        let columns = if x >= width {
            0
        } else if src.width <= width - x {
            src.width
        } else {
            width - x
        };
        let rows = if y >= height {
            0
        } else if src.height <= height - y {
            src.height
        } else {
            height - y
        };
        let mut dy: usize = 0;
        while dy < rows && columns > 0
            invariant
                dy <= rows,
                self.width == width,
                self.height == height,
                total == 3 * (width * height),
                src_total == 3 * (src.width * src.height),
                src.pixels@.len() == src_total,
                self.pixels@.len() == total,
                columns <= src.width,
                rows <= src.height,
                columns > 0 ==> x + columns <= width,
                rows > 0 ==> y + rows <= height,
                forall|px: int, py: int|
                    0 <= px < width && 0 <= py < height ==> #[trigger] color_in(
                        self.pixels@,
                        width as int,
                        px,
                        py,
                    ) == if x <= px < x + columns && y <= py < y + dy {
                        color_in(src.pixels@, src.width as int, px - x, py - y)
                    } else {
                        color_in(start, width as int, px, py)
                    },
            decreases rows - dy,
        {
            let mut dx: usize = 0;
            while dx < columns
                invariant
                    dx <= columns,
                    dy < rows,
                    self.width == width,
                    self.height == height,
                    total == 3 * (width * height),
                    src_total == 3 * (src.width * src.height),
                    src.pixels@.len() == src_total,
                    self.pixels@.len() == total,
                    columns <= src.width,
                    rows <= src.height,
                    x + columns <= width,
                    y + rows <= height,
                    forall|px: int, py: int|
                        0 <= px < width && 0 <= py < height ==> #[trigger] color_in(
                            self.pixels@,
                            width as int,
                            px,
                            py,
                        ) == if (x <= px < x + columns && y <= py < y + dy) || (py == y + dy && x
                            <= px < x + dx) {
                            color_in(src.pixels@, src.width as int, px - x, py - y)
                        } else {
                            color_in(start, width as int, px, py)
                        },
                decreases columns - dx,
            {
                let column = x + dx;
                let row = y + dy;
                proof {
                    lemma_pixel_index(width as int, height as int, column as int, row as int);
                    lemma_pixel_index(src.width as int, src.height as int, dx as int, dy as int);
                    assert(0 <= row * width) by (nonlinear_arith);
                    assert(0 <= dy * src.width) by (nonlinear_arith);
                }
                let from = 3 * (dy * src.width + dx);
                let to = 3 * (row * width + column);
                let ghost before = self.pixels@;
                let red = src.pixels[from];
                let green = src.pixels[from + 1];
                let blue = src.pixels[from + 2];
                self.pixels[to] = red;
                self.pixels[to + 1] = green;
                self.pixels[to + 2] = blue;
                proof {
                    assert forall|px: int, py: int| 0 <= px < width && 0 <= py < height implies (
                    #[trigger] color_in(self.pixels@, width as int, px, py)) == if (x <= px < x
                        + columns && y <= py < y + dy) || (py == y + dy && x <= px < x + dx + 1) {
                        color_in(src.pixels@, src.width as int, px - x, py - y)
                    } else {
                        color_in(start, width as int, px, py)
                    } by {
                        lemma_pixel_index(width as int, height as int, px, py);
                        if !(px == column && py == row) {
                            assert(pixel_index(width as int, px, py) != pixel_index(
                                width as int,
                                column as int,
                                row as int,
                            ));
                            assert(color_in(self.pixels@, width as int, px, py) == color_in(
                                before,
                                width as int,
                                px,
                                py,
                            ));
                        }
                    }
                }
                dx += 1;
            }
            dy += 1;
        }
        proof {
            let view = self@;
            let pasted = old(self)@.paste(src@, x as int, y as int);
            assert forall|py: int| 0 <= py < height implies view.rows[py] =~= pasted.rows[py] by {
                assert forall|px: int| 0 <= px < width implies view.rows[py][px]
                    == pasted.rows[py][px] by {
                    assert(view.rows[py][px] == color_in(self.pixels@, width as int, px, py));
                    if x <= px < x + src.width && y <= py < y + src.height {
                        assert(src@.at(px - x, py - y) == color_in(
                            src.pixels@,
                            src.width as int,
                            px - x,
                            py - y,
                        ));
                    } else {
                        assert(old(self)@.at(px, py) == color_in(start, width as int, px, py));
                    }
                }
            }
            assert(view.rows =~= pasted.rows);
        }
    }

    /// The colour of the pixel `(x, y)`, or `None` where the raster has no
    /// such pixel.
    pub fn get_pixel(&self, x: usize, y: usize) -> (color: Option<RgbTriple>)
        ensures
            color == if self@.covers(x as int, y as int) {
                Some(self@.at(x as int, y as int))
            } else {
                None
            },
    {
        proof {
            use_type_invariant(self);
        }
        if x >= self.width || y >= self.height {
            return None;
        }
        let total = self.pixels.len();
        proof {
            lemma_pixel_index(self.width as int, self.height as int, x as int, y as int);
            assert(0 <= y * self.width) by (nonlinear_arith);
        }
        let first = 3 * (y * self.width + x);
        Some((self.pixels[first], self.pixels[first + 1], self.pixels[first + 2]))
    }

    /// The pixels as packed RGB bytes: three bytes a pixel, rows one after
    /// the other without padding.
    pub fn pixels(&self) -> (bytes: &Vec<u8>)
        ensures
            bytes@.len() == 3 * (self@.width * self@.height),
            self@ == RasterView::from_rgb(self@.width, self@.height, bytes@),
    {
        proof {
            use_type_invariant(self);
        }
        &self.pixels
    }
}

} // verus!
