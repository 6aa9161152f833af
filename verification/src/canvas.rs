//! The pixel canvas: an RGBA surface owned by one conversion pass.
//! Four bytes per pixel, rows stored top to bottom, pixels left to
//! right within a row.

use vstd::prelude::*;

use vstd::arithmetic::div_mod::{
    lemma_fundamental_div_mod, lemma_fundamental_div_mod_converse_div,
    lemma_fundamental_div_mod_converse_mod,
};

verus! {

/// An RGBA pixel surface.
pub struct Canvas {
    pub width: u32,
    pub height: u32,
    pub pixels: Vec<u8>,
}

impl View for Canvas {
    type V = Seq<u8>;

    open spec fn view(&self) -> Seq<u8> {
        self.pixels@
    }
}

/// The surface holds exactly four bytes for every pixel.
pub open spec fn canvas_wf(c: Canvas) -> bool {
    c@.len() == c.width as int * c.height as int * 4
}

/// The byte index of one channel of one pixel.
pub open spec fn pix_index(width: int, x: int, y: int, c: int) -> int {
    (y * width + x) * 4 + c
}

/// The canvas byte index that the j-th byte of a frame lands on when
/// the frame's top-left corner sits at (x0, y0).
pub open spec fn frame_byte_dst(width: int, x0: int, y0: int, fw: int, j: int) -> int {
    ((y0 + (j / 4) / fw) * width + (x0 + (j / 4) % fw)) * 4 + j % 4
}

/// The frame byte index that feeds the canvas byte at index `i`, for a
/// frame whose top-left corner sits at (x0, y0).
pub open spec fn frame_byte_src(width: int, x0: int, y0: int, fw: int, i: int) -> int {
    (((i / 4) / width - y0) * fw + ((i / 4) % width - x0)) * 4 + i % 4
}

/// Whether the canvas byte at index `i` lies inside the rectangle of a
/// fw-by-fh frame whose top-left corner sits at (x0, y0).
pub open spec fn in_rect(width: int, x0: int, y0: int, fw: int, fh: int, i: int) -> bool {
    let px = (i / 4) % width;
    let py = (i / 4) / width;
    x0 <= px < x0 + fw && y0 <= py < y0 + fh
}

/// The canvas bytes after the first `upto` bytes of one frame are
/// written over its rectangle; the rest of the rectangle and every
/// byte outside it are untouched.
pub open spec fn blit_partial(
    cv: Seq<u8>,
    width: int,
    x0: int,
    y0: int,
    fw: int,
    fh: int,
    data: Seq<u8>,
    upto: int,
) -> Seq<u8> {
    Seq::new(
        cv.len(),
        |i: int|
            if in_rect(width, x0, y0, fw, fh, i) && frame_byte_src(width, x0, y0, fw, i) < upto {
                data[frame_byte_src(width, x0, y0, fw, i)]
            } else {
                cv[i]
            },
    )
}

/// The canvas bytes after one frame's bytes are written over the
/// rectangle with top-left corner (x0, y0).
pub open spec fn blit_spec(
    cv: Seq<u8>,
    width: int,
    x0: int,
    y0: int,
    fw: int,
    fh: int,
    data: Seq<u8>,
) -> Seq<u8> {
    blit_partial(cv, width, x0, y0, fw, fh, data, fw * fh * 4)
}

/// The bytes of the fw-by-fh rectangle with top-left corner (x0, y0),
/// row-major within the rectangle.
pub open spec fn extract_spec(
    cv: Seq<u8>,
    width: int,
    x0: int,
    y0: int,
    fw: int,
    fh: int,
) -> Seq<u8> {
    Seq::new(
        (fw * fh * 4) as nat,
        |j: int| cv[pix_index(width, x0 + (j / 4) % fw, y0 + (j / 4) / fw, j % 4)],
    )
}

/// The destination of frame byte `j` decomposes back to `j`: the walk
/// from frame bytes to canvas bytes loses nothing.
pub proof fn lemma_frame_byte_forward(
    width: int,
    height: int,
    x0: int,
    y0: int,
    fw: int,
    fh: int,
    j: int,
)
    requires
        fw >= 1,
        fh >= 1,
        x0 >= 0,
        y0 >= 0,
        x0 + fw <= width,
        y0 + fh <= height,
        0 <= j < fw * fh * 4,
    ensures
        0 <= (j / 4) % fw < fw,
        0 <= (j / 4) / fw < fh,
        ({
            let dst = frame_byte_dst(width, x0, y0, fw, j);
            &&& 0 <= dst < width * height * 4
            &&& in_rect(width, x0, y0, fw, fh, dst)
            &&& frame_byte_src(width, x0, y0, fw, dst) == j
        }),
{
    let c = j % 4;
    let q = j / 4;
    lemma_fundamental_div_mod(j, 4);
    assert(q < fw * fh) by (nonlinear_arith)
        requires
            j < fw * fh * 4,
            j == 4 * q + c,
            0 <= c < 4,
            fw * fh >= 0,
    ;
    let lx = q % fw;
    let ly = q / fw;
    lemma_fundamental_div_mod(q, fw);
    assert(0 <= lx < fw);
    assert(0 <= ly < fh) by (nonlinear_arith)
        requires
            q == fw * ly + lx,
            0 <= lx < fw,
            0 <= q < fw * fh,
            fw >= 1,
            fh >= 1,
    ;
    let row = y0 + ly;
    let col = x0 + lx;
    let p = row * width + col;
    let dst = frame_byte_dst(width, x0, y0, fw, j);
    assert(dst == p * 4 + c);
    lemma_fundamental_div_mod_converse_mod(dst, 4, p, c);
    lemma_fundamental_div_mod_converse_div(dst, 4, p, c);
    assert(0 <= col < width);
    assert(p >= 0) by (nonlinear_arith)
        requires
            p == row * width + col,
            row >= 0,
            width >= 1,
            col >= 0,
    ;
    lemma_fundamental_div_mod_converse_mod(p, width, row, col);
    lemma_fundamental_div_mod_converse_div(p, width, row, col);
    assert(frame_byte_src(width, x0, y0, fw, dst) == (ly * fw + lx) * 4 + c);
    assert((ly * fw + lx) * 4 + c == j) by (nonlinear_arith)
        requires
            j == 4 * q + c,
            q == fw * ly + lx,
    ;
    assert(p < width * height) by (nonlinear_arith)
        requires
            p == row * width + col,
            0 <= col < width,
            0 <= row < height,
    ;
    assert(dst < width * height * 4) by (nonlinear_arith)
        requires
            dst == p * 4 + c,
            c < 4,
            p < width * height,
    ;
}

/// A canvas byte inside the frame's rectangle is fed by exactly one
/// frame byte, and that byte's destination is the canvas byte itself.
proof fn lemma_frame_byte_backward(
    width: int,
    height: int,
    x0: int,
    y0: int,
    fw: int,
    fh: int,
    i: int,
)
    requires
        fw >= 1,
        fh >= 1,
        width >= 1,
        x0 >= 0,
        y0 >= 0,
        x0 + fw <= width,
        y0 + fh <= height,
        0 <= i < width * height * 4,
        in_rect(width, x0, y0, fw, fh, i),
    ensures
        ({
            let src = frame_byte_src(width, x0, y0, fw, i);
            &&& 0 <= src < fw * fh * 4
            &&& frame_byte_dst(width, x0, y0, fw, src) == i
        }),
{
    let c = i % 4;
    let p = i / 4;
    lemma_fundamental_div_mod(i, 4);
    let px = p % width;
    let py = p / width;
    lemma_fundamental_div_mod(p, width);
    let q = (py - y0) * fw + (px - x0);
    let src = frame_byte_src(width, x0, y0, fw, i);
    assert(src == q * 4 + c);
    assert(q >= 0) by (nonlinear_arith)
        requires
            q == (py - y0) * fw + (px - x0),
            0 <= px - x0,
            0 <= py - y0,
            fw >= 1,
    ;
    lemma_fundamental_div_mod_converse_mod(src, 4, q, c);
    lemma_fundamental_div_mod_converse_div(src, 4, q, c);
    lemma_fundamental_div_mod_converse_mod(q, fw, py - y0, px - x0);
    lemma_fundamental_div_mod_converse_div(q, fw, py - y0, px - x0);
    assert(frame_byte_dst(width, x0, y0, fw, src) == (py * width + px) * 4 + c);
    assert((py * width + px) * 4 + c == i) by (nonlinear_arith)
        requires
            i == 4 * p + c,
            p == width * py + px,
    ;
    assert(q < fw * fh) by (nonlinear_arith)
        requires
            q == (py - y0) * fw + (px - x0),
            0 <= px - x0 < fw,
            0 <= py - y0 < fh,
            fw >= 1,
    ;
    assert(src < fw * fh * 4) by (nonlinear_arith)
        requires
            src == q * 4 + c,
            c < 4,
            q < fw * fh,
    ;
}

/// Round-trip law: reading a frame's rectangle back out of a canvas it
/// was just written to yields the frame's bytes exactly, so the packer
/// and the unpacker agree on every pixel as long as both use the same
/// slot.
pub proof fn lemma_extract_put_frame(
    cv: Seq<u8>,
    width: int,
    height: int,
    x0: int,
    y0: int,
    fw: int,
    fh: int,
    data: Seq<u8>,
)
    requires
        cv.len() == width * height * 4,
        fw >= 1,
        fh >= 1,
        x0 >= 0,
        y0 >= 0,
        x0 + fw <= width,
        y0 + fh <= height,
        data.len() == fw * fh * 4,
    ensures
        extract_spec(blit_spec(cv, width, x0, y0, fw, fh, data), width, x0, y0, fw, fh)
            == data,
{
    let bl = blit_spec(cv, width, x0, y0, fw, fh, data);
    assert(bl.len() == cv.len());
    assert forall|j: int|
        0 <= j < fw * fh * 4 implies extract_spec(bl, width, x0, y0, fw, fh)[j] == data[j] by {
        lemma_frame_byte_forward(width, height, x0, y0, fw, fh, j);
        let dst = frame_byte_dst(width, x0, y0, fw, j);
        assert(pix_index(width, x0 + (j / 4) % fw, y0 + (j / 4) / fw, j % 4) == dst);
        assert(bl[dst] == data[j]);
    }
    assert(extract_spec(bl, width, x0, y0, fw, fh) =~= data);
}

impl Canvas {
    /// A fresh, fully transparent canvas: every byte zero.
    pub fn new(width: u32, height: u32) -> (r: Canvas)
        requires
            width as int * height as int * 4 <= usize::MAX,
        ensures
            canvas_wf(r),
            r.width == width,
            r.height == height,
            forall|i: int| 0 <= i < r@.len() ==> r@[i] == 0u8,
    {
        proof {
            assert((width as int) * (height as int) >= 0 && (width as int) * (height as int)
                <= (width as int) * (height as int) * 4) by (nonlinear_arith)
                requires
                    width >= 0,
                    height >= 0,
            ;
        }
        let total: usize = (width as usize) * (height as usize) * 4;
        let mut pixels: Vec<u8> = Vec::new();
        while pixels.len() < total
            invariant
                pixels@.len() <= total,
                forall|i: int| 0 <= i < pixels@.len() ==> pixels@[i] == 0u8,
            decreases total - pixels@.len(),
        {
            pixels.push(0u8);
        }
        Canvas { width, height, pixels }
    }

    /// Rebuilds a canvas around existing pixel bytes, when they have
    /// exactly the surface's size.
    pub fn from_bytes(width: u32, height: u32, pixels: Vec<u8>) -> (r: Option<Canvas>)
        ensures
            match r {
                Some(c) => canvas_wf(c) && c.width == width && c.height == height && c@
                    == pixels@,
                None => pixels@.len() != width as int * height as int * 4,
            },
    {
        proof {
            assert((width as u128) * (height as u128) <= 0xffff_fffe_0000_0001u128)
                by (nonlinear_arith)
                requires
                    width as u128 <= 0xffff_ffffu128,
                    height as u128 <= 0xffff_ffffu128,
            ;
        }
        let expected: u128 = (width as u128) * (height as u128) * 4;
        if (pixels.len() as u128) == expected {
            Some(Canvas { width, height, pixels })
        } else {
            None
        }
    }

    /// The raw bytes of the surface.
    pub fn bytes(&self) -> (r: &Vec<u8>)
        ensures
            r@ == self@,
    {
        &self.pixels
    }

    /// Writes one frame's bytes over the rectangle with top-left
    /// corner (x0, y0); every byte outside the rectangle is untouched.
    pub fn put_frame(&mut self, x0: u32, y0: u32, fw: u32, fh: u32, data: &Vec<u8>)
        requires
            canvas_wf(*old(self)),
            fw >= 1,
            fh >= 1,
            x0 + fw <= old(self).width,
            y0 + fh <= old(self).height,
            data@.len() == fw as int * fh as int * 4,
        ensures
            canvas_wf(*final(self)),
            final(self).width == old(self).width,
            final(self).height == old(self).height,
            final(self)@ == blit_spec(
                old(self)@,
                old(self).width as int,
                x0 as int,
                y0 as int,
                fw as int,
                fh as int,
                data@,
            ),
    {
        let ghost cv0 = self@;
        let ghost w = self.width as int;
        let ghost h = self.height as int;
        let n_bytes: usize = self.pixels.len();
        proof {
            assert(self@ =~= blit_partial(
                cv0,
                w,
                x0 as int,
                y0 as int,
                fw as int,
                fh as int,
                data@,
                0,
            ));
        }
        let mut j: usize = 0;
        while j < data.len()
            invariant
                canvas_wf(*self),
                self.width == old(self).width,
                self.height == old(self).height,
                cv0 == old(self)@,
                w == self.width as int,
                h == self.height as int,
                cv0.len() == self@.len(),
                self@.len() <= usize::MAX,
                fw >= 1,
                fh >= 1,
                x0 + fw <= self.width,
                y0 + fh <= self.height,
                data@.len() == fw as int * fh as int * 4,
                0 <= j <= data@.len(),
                self@ == blit_partial(
                    cv0,
                    w,
                    x0 as int,
                    y0 as int,
                    fw as int,
                    fh as int,
                    data@,
                    j as int,
                ),
            decreases data@.len() - j,
        {
            let c: usize = j % 4;
            let p: usize = j / 4;
            let lx: usize = p % (fw as usize);
            let ly: usize = p / (fw as usize);
            proof {
                lemma_frame_byte_forward(
                    w,
                    h,
                    x0 as int,
                    y0 as int,
                    fw as int,
                    fh as int,
                    j as int,
                );
                assert((y0 as int + ly as int) * w + (x0 as int + lx as int) < w * h && w * h
                    <= w * h * 4) by (nonlinear_arith)
                    requires
                        0 <= (y0 as int + ly as int) < h,
                        0 <= (x0 as int + lx as int) < w,
                        w >= 1,
                        h >= 1,
                ;
            }
            let dst: usize = ((y0 as usize + ly) * (self.width as usize) + (x0 as usize + lx)) * 4
                + c;
            proof {
                assert(dst as int == frame_byte_dst(w, x0 as int, y0 as int, fw as int, j as int));
                assert(0 <= dst < self@.len());
            }
            self.pixels[dst] = data[j];
            proof {
                let x0i = x0 as int;
                let y0i = y0 as int;
                let fwi = fw as int;
                let fhi = fh as int;
                let ji = j as int;
                let dsti = dst as int;
                assert forall|i: int| 0 <= i < self@.len() implies self@[i] == blit_partial(
                    cv0,
                    w,
                    x0i,
                    y0i,
                    fwi,
                    fhi,
                    data@,
                    ji + 1,
                )[i] by {
                    if i == dsti {
                        assert(in_rect(w, x0i, y0i, fwi, fhi, i) && frame_byte_src(
                            w,
                            x0i,
                            y0i,
                            fwi,
                            i,
                        ) == ji);
                    } else {
                        if in_rect(w, x0i, y0i, fwi, fhi, i) {
                            lemma_frame_byte_backward(w, h, x0i, y0i, fwi, fhi, i);
                            assert(frame_byte_src(w, x0i, y0i, fwi, i) != ji);
                        }
                    }
                }
                assert(self@ =~= blit_partial(cv0, w, x0i, y0i, fwi, fhi, data@, ji + 1));
            }
            j = j + 1;
        }
        proof {
            assert(self@ =~= blit_spec(
                cv0,
                w,
                x0 as int,
                y0 as int,
                fw as int,
                fh as int,
                data@,
            ));
        }
    }

    /// Reads the bytes of the rectangle with top-left corner
    /// (tile_x, tile_y), row-major within the rectangle.
    pub fn extract_pixel_data(
        &self,
        tile_x: u32,
        tile_y: u32,
        tile_width: u32,
        tile_height: u32,
    ) -> (r: Vec<u8>)
        requires
            canvas_wf(*self),
            tile_width >= 1,
            tile_height >= 1,
            tile_x + tile_width <= self.width,
            tile_y + tile_height <= self.height,
        ensures
            r@ == extract_spec(
                self@,
                self.width as int,
                tile_x as int,
                tile_y as int,
                tile_width as int,
                tile_height as int,
            ),
    {
        let ghost w = self.width as int;
        let ghost h = self.height as int;
        let ghost x0i = tile_x as int;
        let ghost y0i = tile_y as int;
        let ghost fwi = tile_width as int;
        let ghost fhi = tile_height as int;
        let n_bytes: usize = self.pixels.len();
        proof {
            assert(fwi * fhi * 4 <= w * h * 4) by (nonlinear_arith)
                requires
                    1 <= fwi <= w,
                    1 <= fhi <= h,
            ;
        }
        let total: usize = (tile_width as usize) * (tile_height as usize) * 4;
        let mut r: Vec<u8> = Vec::new();
        let mut j: usize = 0;
        while j < total
            invariant
                canvas_wf(*self),
                self@.len() <= usize::MAX,
                w == self.width as int,
                h == self.height as int,
                x0i == tile_x as int,
                y0i == tile_y as int,
                fwi == tile_width as int,
                fhi == tile_height as int,
                tile_width >= 1,
                tile_height >= 1,
                tile_x + tile_width <= self.width,
                tile_y + tile_height <= self.height,
                total == fwi * fhi * 4,
                0 <= j <= total,
                r@.len() == j,
                forall|g: int|
                    0 <= g < j ==> r@[g] == extract_spec(self@, w, x0i, y0i, fwi, fhi)[g],
            decreases total - j,
        {
            let c: usize = j % 4;
            let p: usize = j / 4;
            let lx: usize = p % (tile_width as usize);
            let ly: usize = p / (tile_width as usize);
            proof {
                lemma_frame_byte_forward(w, h, x0i, y0i, fwi, fhi, j as int);
                assert((y0i + ly as int) * w + (x0i + lx as int) < w * h && w * h <= w * h * 4)
                    by (nonlinear_arith)
                    requires
                        0 <= (y0i + ly as int) < h,
                        0 <= (x0i + lx as int) < w,
                        w >= 1,
                        h >= 1,
                ;
            }
            let src: usize = ((tile_y as usize + ly) * (self.width as usize) + (tile_x as usize
                + lx)) * 4 + c;
            proof {
                assert(src as int == frame_byte_dst(w, x0i, y0i, fwi, j as int));
                assert(0 <= src < self@.len());
                assert(src as int == pix_index(
                    w,
                    x0i + (j as int / 4) % fwi,
                    y0i + (j as int / 4) / fwi,
                    j as int % 4,
                ));
            }
            let b = self.pixels[src];
            r.push(b);
            j = j + 1;
        }
        proof {
            assert(r@ =~= extract_spec(self@, w, x0i, y0i, fwi, fhi));
        }
        r
    }
}

} // verus!
