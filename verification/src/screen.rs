use crate::buffer::{in_region, point, region_rank, Buffer, Grid};
use vstd::arithmetic::div_mod::{lemma_fundamental_div_mod, lemma_fundamental_div_mod_converse};
use vstd::prelude::*;

verus! {

/// A pixel in the format that block transfers use: one byte for each of
/// blue, green and red.
#[derive(Clone, Copy, Debug, PartialEq, Eq, Structural)]
pub struct Pixel {
    pub blue: u8,
    pub green: u8,
    pub red: u8,
}

impl Pixel {
    /// The gray pixel whose three channels all hold `intensity`.
    pub open spec fn gray(intensity: u8) -> Pixel {
        Pixel { blue: intensity, green: intensity, red: intensity }
    }

    /// The pixel without light in any channel.
    pub open spec fn black() -> Pixel {
        Pixel::gray(0)
    }

    /// Creates a pixel from RGB values.
    pub fn new(red: u8, green: u8, blue: u8) -> (pixel: Pixel)
        ensures
            pixel == (Pixel { blue, green, red }),
    {
        Pixel { blue, green, red }
    }
}

/// The part of the pixel storage that a transfer reads.
#[derive(Clone, Copy, Debug, PartialEq, Eq)]
pub enum BlitSource {
    /// The whole storage, row after row.
    Full,
    /// The rectangle whose first cell is at `coords`, in storage whose rows
    /// are `px_stride` pixels long.
    SubRectangle { coords: (usize, usize), px_stride: usize },
}

/// A transfer of pixels from a screen's storage to the display: where to
/// read, where on the display to write, and how much.
#[derive(Clone, Copy, Debug, PartialEq, Eq)]
pub struct Blit {
    /// Location of the source rectangle in the storage.
    pub src: BlitSource,
    /// Coordinates of the destination rectangle on the display.
    pub dest: (usize, usize),
    /// Width and height of the rectangles.
    pub dims: (usize, usize),
}

/// The transfer of the rectangle at `coords` with extent `dims`, out of
/// storage whose rows are `px_stride` pixels long, to the same place on the
/// display.
pub open spec fn region_blit(coords: (usize, usize), dims: (usize, usize), px_stride: usize) -> Blit {
    Blit { src: BlitSource::SubRectangle { coords, px_stride }, dest: coords, dims }
}

/// Whether a glyph of `samples` samples in rows of `width`, drawn with its
/// first sample at `origin`, has a sample for the cell `(x, y)`.
pub open spec fn glyph_covers(origin: (int, int), width: int, samples: int, x: int, y: int) -> bool {
    &&& origin.0 <= x < origin.0 + width
    &&& origin.1 <= y
    &&& region_rank(origin, width, x, y) < samples
}

/// A pixel buffer of the display's dimensions, drawn into and then
/// transferred to the display.
pub struct Screen {
    /// The width of the display in pixels.
    pub width: usize,
    /// The height of the display in pixels.
    pub height: usize,
    /// The pixels drawn so far.
    pub buffer: Buffer<Pixel>,
}

impl View for Screen {
    type V = Grid<Pixel>;

    open spec fn view(&self) -> Grid<Pixel> {
        self.buffer@
    }
}

impl Screen {
    /// The buffer is well-formed and has the screen's dimensions.
    pub open spec fn wf(&self) -> bool {
        &&& self@.wf()
        &&& self@.width == self.width
        &&& self@.height == self.height
    }

    /// Creates a black screen of the given dimensions.
    pub fn new(width: usize, height: usize) -> (screen: Self)
        requires
            width * height <= usize::MAX,
        ensures
            screen.wf(),
            screen.width == width,
            screen.height == height,
            screen@ == Grid::filled(width as nat, height as nat, Pixel::black()),
            forall|x: int, y: int|
                screen@.contains(x, y) ==> #[trigger] screen@.at(x, y) == Pixel::black(),
    {
        let buffer = Buffer::new(width, height, Pixel::new(0, 0, 0));
        Self { width, height, buffer }
    }

    /// Gives the screen new dimensions. A cell that both the old and the
    /// new screen have keeps its pixel; every other cell is black.
    pub fn resize(&mut self, width: usize, height: usize)
        requires
            old(self).wf(),
            width * height <= usize::MAX,
        ensures
            final(self).wf(),
            final(self).width == width,
            final(self).height == height,
            final(self)@ == old(self)@.resized(width as nat, height as nat, Pixel::black()),
            forall|x: int, y: int|
                final(self)@.contains(x, y) ==> #[trigger] final(self)@.at(x, y) == if old(
                    self,
                )@.contains(x, y) {
                    old(self)@.at(x, y)
                } else {
                    Pixel::black()
                },
    {
        self.width = width;
        self.height = height;
        self.buffer.resize(width, height, Pixel::new(0, 0, 0));
    }

    /// The transfer of the whole screen.
    #[inline]
    pub fn blit(&self) -> (blit: Blit)
        ensures
            blit == (Blit {
                src: BlitSource::Full,
                dest: (0usize, 0usize),
                dims: (self.width, self.height),
            }),
    {
        Blit { src: BlitSource::Full, dest: (0, 0), dims: (self.width, self.height) }
    }

    /// The transfer of the single pixel at `coords`.
    #[inline]
    pub fn blit_pixel(&self, coords: (usize, usize)) -> (blit: Blit)
        ensures
            blit == region_blit(coords, (1usize, 1usize), self.width),
    {
        Blit {
            src: BlitSource::SubRectangle { coords, px_stride: self.width },
            dest: coords,
            dims: (1, 1),
        }
    }

    /// The transfer of the rectangle at `coords` with extent `dims`. The
    /// screen is not changed.
    #[inline]
    pub fn blit_region(&mut self, coords: (usize, usize), dims: (usize, usize)) -> (blit: Blit)
        ensures
            *final(self) == *old(self),
            blit == region_blit(coords, dims, old(self).width),
    {
        Blit { src: BlitSource::SubRectangle { coords, px_stride: self.width }, dest: coords, dims }
    }

    /// Sets every pixel of the rectangle at `coords` with extent `dims`,
    /// which must lie inside the screen, to `color`, leaves every other
    /// pixel as it was, and returns the transfer of that rectangle.
    #[inline]
    pub fn draw_rect(&mut self, coords: (usize, usize), dims: (usize, usize), color: Pixel) -> (blit:
        Blit)
        requires
            old(self).wf(),
            old(self)@.contains_region(point(coords), point(dims)),
        ensures
            final(self).wf(),
            final(self).width == old(self).width,
            final(self).height == old(self).height,
            forall|x: int, y: int|
                final(self)@.contains(x, y) ==> #[trigger] final(self)@.at(x, y) == if in_region(
                    point(coords),
                    point(dims),
                    x,
                    y,
                ) {
                    color
                } else {
                    old(self)@.at(x, y)
                },
            final(self)@ == old(self)@.painted(
                point(coords),
                point(dims),
                color,
                (dims.0 * dims.1) as nat,
            ),
            blit == region_blit(coords, dims, old(self).width),
    {
        self.buffer.draw_rect(coords, dims, color);
        self.blit_region(coords, dims)
    }

    /// Draws a glyph given as intensity samples in rows of `dims.0`, its
    /// first sample at `coords`. A cell of the screen that the glyph has a
    /// sample for becomes the gray pixel of that intensity; a sample whose
    /// cell lies outside the screen is dropped; every other pixel stays as
    /// it was. Returns the transfer of the glyph's rectangle.
    pub fn draw_char(&mut self, bitmap: Vec<u8>, coords: (usize, usize), dims: (usize, usize)) -> (blit:
        Blit)
        requires
            old(self).wf(),
            dims.0 > 0 || bitmap@.len() == 0,
        ensures
            final(self).wf(),
            final(self).width == old(self).width,
            final(self).height == old(self).height,
            forall|x: int, y: int|
                final(self)@.contains(x, y) ==> #[trigger] final(self)@.at(x, y) == if glyph_covers(
                    point(coords),
                    dims.0 as int,
                    bitmap@.len() as int,
                    x,
                    y,
                ) {
                    Pixel::gray(bitmap@[region_rank(point(coords), dims.0 as int, x, y)])
                } else {
                    old(self)@.at(x, y)
                },
            blit == region_blit(coords, dims, old(self).width),
    {
        let (x, y) = coords;
        let (width, _height) = dims;
        let ghost origin = point(coords);
        let mut i: usize = 0;
        while i < bitmap.len()
            invariant
                i <= bitmap@.len(),
                width > 0 || bitmap@.len() == 0,
                origin == (x as int, y as int),
                self.wf(),
                self.width == old(self).width,
                self.height == old(self).height,
                forall|cx: int, cy: int|
                    self@.contains(cx, cy) ==> #[trigger] self@.at(cx, cy) == if glyph_covers(
                        origin,
                        width as int,
                        i as int,
                        cx,
                        cy,
                    ) {
                        Pixel::gray(bitmap@[region_rank(origin, width as int, cx, cy)])
                    } else {
                        old(self)@.at(cx, cy)
                    },
            decreases bitmap@.len() - i,
        {
            let intensity: u8 = bitmap[i];
            let column: usize = i % width;
            let row: usize = i / width;
            let ghost before = self@;
            proof {
                lemma_fundamental_div_mod(i as int, width as int);
                assert(width * (i as int / width as int) == (i as int / width as int) * width)
                    by (nonlinear_arith);
            }
            if x < self.width && column < self.width - x && y < self.height && row < self.height
                - y {
                let char_x: usize = x + column;
                let char_y: usize = y + row;
                match self.buffer.pixel_mut(char_x, char_y) {
                    Some(blt) => {
                        *blt = Pixel::new(intensity, intensity, intensity);
                    },
                    None => {},
                }
                proof {
                    assert(self@ == before.set(char_x as int, char_y as int, Pixel::gray(intensity)));
                    before.lemma_set_at(
                        char_x as int,
                        char_y as int,
                        Pixel::gray(intensity),
                        char_x as int,
                        char_y as int,
                    );
                    assert forall|cx: int, cy: int| self@.contains(cx, cy) implies #[trigger] self@.at(
                        cx,
                        cy,
                    ) == if glyph_covers(origin, width as int, i + 1, cx, cy) {
                        Pixel::gray(bitmap@[region_rank(origin, width as int, cx, cy)])
                    } else {
                        old(self)@.at(cx, cy)
                    } by {
                        before.lemma_set_at(
                            char_x as int,
                            char_y as int,
                            Pixel::gray(intensity),
                            cx,
                            cy,
                        );
                        if x <= cx < x + width && region_rank(origin, width as int, cx, cy) == i {
                            lemma_fundamental_div_mod_converse(
                                i as int,
                                width as int,
                                cy - y,
                                cx - x,
                            );
                        }
                    }
                }
            } else {
                proof {
                    assert forall|cx: int, cy: int| self@.contains(cx, cy) implies !(x <= cx < x
                        + width && #[trigger] region_rank(origin, width as int, cx, cy) == i) by {
                        if x <= cx < x + width && region_rank(origin, width as int, cx, cy) == i {
                            lemma_fundamental_div_mod_converse(
                                i as int,
                                width as int,
                                cy - y,
                                cx - x,
                            );
                        }
                    }
                }
            }
            i += 1;
        }
        self.blit_region(coords, dims)
    }
}

impl core::ops::Deref for Screen {
    type Target = Buffer<Pixel>;

    fn deref(&self) -> (buffer: &Buffer<Pixel>)
        ensures
            *buffer == self.buffer,
    {
        &self.buffer
    }
}

impl core::ops::DerefMut for Screen {
    fn deref_mut(&mut self) -> (buffer: &mut Buffer<Pixel>)
        ensures
            *buffer == old(self).buffer,
            final(self).buffer == *final(buffer),
            final(self).width == old(self).width,
            final(self).height == old(self).height,
    {
        &mut self.buffer
    }
}

} // verus!
