//! Rendering an image band by band.
//!
//! Each worker renders one band of rows into a buffer of its own, pixel by
//! pixel, with a function that gives the colour of the pixel at a column and
//! a row. The bands' buffers are then put together, from the top of the image
//! down, into the buffer of the whole image. A worker that failed has no
//! buffer to give; its band stays black and the other bands are not affected.

use crate::pixel::{
    buffer_len, image_pixel, lemma_pixel_in_buffer, lemma_pixels_in_order, pixel_offset, rgb_at,
    Rgb,
};
use crate::tiling::{
    band, band_end, band_of_row, band_rows, band_start, in_band, lemma_bands_are_consecutive,
    lemma_row_has_band, Band,
};
use vstd::prelude::*;

verus! {

/// The colour of the pixel in column `x` of row `y` of the image, as it
/// stands in the buffer of a band that begins with row `start`.
pub open spec fn band_pixel(local: Seq<u8>, width: usize, start: usize, x: usize, y: usize) -> Rgb {
    rgb_at(local, pixel_offset(width as nat, x as nat, (y - start) as nat) as int)
}

/// Renders one band of an image `width` pixels wide. `pixel` is called once
/// for each pixel of the band, with the pixel's column and its row in the
/// image, row after row and in each row from left to right. The result is
/// the band's buffer: its rows in that order, three bytes to the pixel.
pub fn render_band<F: Fn(usize, usize) -> Rgb>(width: usize, band: Band, pixel: &F) -> (local: Vec<
    u8,
>)
    requires
        band.wf(),
        band.rows() * width * 3 <= usize::MAX,
        forall|x: usize, y: usize|
            x < width && band.start <= y < band.end ==> call_requires(pixel, (x, y)),
    ensures
        local.len() == band.rows() * width * 3,
        forall|x: usize, y: usize|
            x < width && band.start <= y < band.end ==> call_ensures(
                pixel,
                (x, y),
                #[trigger] band_pixel(local@, width, band.start, x, y),
            ),
{
    let mut local: Vec<u8> = Vec::new();
    let mut y: usize = band.start;
    while y < band.end
        invariant
            band.start <= y <= band.end,
            local.len() == (y - band.start) * width * 3,
            forall|x: usize, y: usize|
                x < width && band.start <= y < band.end ==> call_requires(pixel, (x, y)),
            forall|x1: usize, y1: usize|
                x1 < width && band.start <= y1 < y ==> call_ensures(
                    pixel,
                    (x1, y1),
                    #[trigger] band_pixel(local@, width, band.start, x1, y1),
                ),
        decreases band.end - y,
    {
        let mut x: usize = 0;
        while x < width
            invariant
                band.start <= y < band.end,
                x <= width,
                local.len() == ((y - band.start) * width + x) * 3,
                forall|x: usize, y: usize|
                    x < width && band.start <= y < band.end ==> call_requires(pixel, (x, y)),
                forall|x1: usize, y1: usize|
                    x1 < width && (band.start <= y1 < y || (y1 == y && x1 < x)) ==> call_ensures(
                        pixel,
                        (x1, y1),
                        #[trigger] band_pixel(local@, width, band.start, x1, y1),
                    ),
            decreases width - x,
        {
            let ghost before = local@;
            let colour = pixel(x, y);
            local.push(colour.r);
            local.push(colour.g);
            local.push(colour.b);
            proof {
                assert forall|x1: usize, y1: usize|
                    x1 < width && (band.start <= y1 < y || (y1 == y && x1 < x)) implies call_ensures(
                    pixel,
                    (x1, y1),
                    #[trigger] band_pixel(local@, width, band.start, x1, y1),
                ) by {
                    lemma_pixels_in_order(
                        width as nat,
                        x1 as nat,
                        (y1 - band.start) as nat,
                        x as nat,
                        (y - band.start) as nat,
                    );
                    assert(band_pixel(local@, width, band.start, x1, y1) == band_pixel(
                        before,
                        width,
                        band.start,
                        x1,
                        y1,
                    ));
                }
            }
            x += 1;
        }
        proof {
            assert(((y - band.start) * width + width) * 3 == (y + 1 - band.start) * width * 3)
                by (nonlinear_arith);
        }
        y += 1;
    }
    local
}

/// The number of bytes in the buffer of band `i`.
pub open spec fn band_len(width: nat, height: nat, workers: nat, i: nat) -> nat {
    band_rows(height, workers, i) * width * 3
}

/// The stretch of an image's buffer that holds band `i`.
pub open spec fn band_bytes(buffer: Seq<u8>, width: nat, height: nat, workers: nat, i: nat) -> Seq<
    u8,
> {
    buffer.subrange(
        (band_start(height, workers, i) * width * 3) as int,
        (band_end(height, workers, i) * width * 3) as int,
    )
}

/// What a worker contributes to the image: the buffer that it handed in,
/// or, where it failed, `len` bytes of black.
pub open spec fn delivered(output: Option<Vec<u8>>, len: nat) -> Seq<u8> {
    match output {
        Some(local) => local@,
        None => Seq::new(len, |k: int| 0u8),
    }
}

/// The number of rows that lie before band `i`, where the band after the
/// last one begins at the bottom of the image.
spec fn rows_before(height: nat, workers: nat, i: nat) -> nat {
    if i >= workers {
        height
    } else {
        band_start(height, workers, i)
    }
}

/// Band `j` lies in the buffer before the beginning of every later band,
/// and fills as many bytes as its own buffer holds.
proof fn lemma_band_stretch(width: nat, height: nat, workers: nat, j: nat, i: nat)
    requires
        workers > 0,
        j < i <= workers,
    ensures
        band_start(height, workers, j) == rows_before(height, workers, j),
        band_end(height, workers, j) == rows_before(height, workers, j + 1),
        band_start(height, workers, j) * width * 3 + band_len(width, height, workers, j)
            == band_end(height, workers, j) * width * 3,
        band_end(height, workers, j) * width * 3 <= rows_before(height, workers, i) * width * 3,
        rows_before(height, workers, i) * width * 3 <= buffer_len(width, height),
{
    lemma_bands_are_consecutive(height, workers, j);
    let a = band_start(height, workers, j);
    let b = band_end(height, workers, j);
    let c = rows_before(height, workers, i);
    assert(a * width * 3 + (b - a) * width * 3 == b * width * 3) by (nonlinear_arith);
    assert(b <= c <= height) by {
        if i < workers {
            lemma_bands_are_consecutive(height, workers, i);
            let rows = height / workers;
            assert((j + 1) * rows <= i * rows) by (nonlinear_arith)
                requires
                    j + 1 <= i,
            ;
        }
    }
    assert(b * width * 3 <= c * width * 3 <= width * height * 3) by (nonlinear_arith)
        requires
            b <= c <= height,
    ;
}

/// Puts the buffers of the bands together into the buffer of the image.
///
/// `outputs[i]` is what the worker of band `i` handed in: the band's buffer,
/// or `None` where the worker failed. There are as many bands as `outputs`
/// has entries. In the image's buffer each band fills its own stretch, with
/// the bytes of its buffer or, where there is none, with zeros.
pub fn assemble(width: usize, height: usize, outputs: &Vec<Option<Vec<u8>>>) -> (buffer: Vec<u8>)
    requires
        outputs.len() > 0,
        buffer_len(width as nat, height as nat) <= usize::MAX,
        forall|i: nat|
            i < outputs.len() ==> (#[trigger] outputs[i as int] matches Some(local)
                ==> local.len() == band_len(
                width as nat,
                height as nat,
                outputs.len() as nat,
                i,
            )),
    ensures
        buffer.len() == buffer_len(width as nat, height as nat),
        forall|i: nat|
            i < outputs.len() ==> #[trigger] band_bytes(
                buffer@,
                width as nat,
                height as nat,
                outputs.len() as nat,
                i,
            ) == delivered(
                outputs[i as int],
                band_len(width as nat, height as nat, outputs.len() as nat, i),
            ),
{
    let workers = outputs.len();
    let mut buffer: Vec<u8> = Vec::new();
    let mut i: usize = 0;
    proof {
        lemma_bands_are_consecutive(height as nat, workers as nat, 0);
        let none = rows_before(height as nat, workers as nat, 0);
        assert(none * width * 3 == 0) by (nonlinear_arith)
            requires
                none == 0,
        ;
    }
    while i < workers
        invariant
            workers == outputs.len(),
            0 < workers,
            i <= workers,
            buffer_len(width as nat, height as nat) <= usize::MAX,
            forall|j: nat|
                j < outputs.len() ==> (#[trigger] outputs[j as int] matches Some(local)
                    ==> local.len() == band_len(width as nat, height as nat, workers as nat, j)),
            buffer.len() == rows_before(height as nat, workers as nat, i as nat) * width * 3,
            forall|j: nat|
                j < i ==> #[trigger] band_bytes(
                    buffer@,
                    width as nat,
                    height as nat,
                    workers as nat,
                    j,
                ) == delivered(
                    outputs[j as int],
                    band_len(width as nat, height as nat, workers as nat, j),
                ),
        decreases workers - i,
    {
        let rows = band(height, workers, i);
        let ghost before = buffer@;
        let ghost len = band_len(width as nat, height as nat, workers as nat, i as nat);
        proof {
            lemma_band_stretch(
                width as nat,
                height as nat,
                workers as nat,
                i as nat,
                (i + 1) as nat,
            );
        }
        match &outputs[i] {
            Some(local) => {
                let mut k: usize = 0;
                while k < local.len()
                    invariant
                        k <= local.len(),
                        buffer@ == before + local@.subrange(0, k as int),
                    decreases local.len() - k,
                {
                    buffer.push(local[k]);
                    k += 1;
                }
            },
            None => {
                assert((rows.end - rows.start) * width * 3 == len && (rows.end - rows.start)
                    * width <= len) by (nonlinear_arith)
                    requires
                        len == (rows.end - rows.start) * width * 3,
                        rows.start <= rows.end,
                ;
                let count: usize = (rows.end - rows.start) * width * 3;
                let mut k: usize = 0;
                while k < count
                    invariant
                        k <= count,
                        buffer@ == before + Seq::new(k as nat, |k: int| 0u8),
                    decreases count - k,
                {
                    buffer.push(0);
                    k += 1;
                }
            },
        }
        proof {
            let chunk = delivered(outputs[i as int], len);
            assert(band_bytes(buffer@, width as nat, height as nat, workers as nat, i as nat)
                == chunk);
            assert forall|j: nat| j < i implies #[trigger] band_bytes(
                buffer@,
                width as nat,
                height as nat,
                workers as nat,
                j,
            ) == delivered(
                outputs[j as int],
                band_len(width as nat, height as nat, workers as nat, j),
            ) by {
                lemma_band_stretch(width as nat, height as nat, workers as nat, j, i as nat);
                assert(band_bytes(buffer@, width as nat, height as nat, workers as nat, j)
                    == band_bytes(before, width as nat, height as nat, workers as nat, j));
            }
        }
        i += 1;
    }
    proof {
        assert(height * width * 3 == width * height * 3) by (nonlinear_arith);
    }
    buffer
}

/// A pixel of a band is the same in the band's stretch of the image's
/// buffer as in the image: what a worker wrote for column `x` of row `y` is
/// what the image shows there.
pub proof fn lemma_band_pixel_is_image_pixel(
    buffer: Seq<u8>,
    width: usize,
    height: usize,
    workers: usize,
    i: usize,
    x: usize,
    y: usize,
)
    requires
        workers > 0,
        i < workers,
        buffer.len() == buffer_len(width as nat, height as nat),
        x < width,
        in_band(height as nat, workers as nat, i as nat, y as nat),
    ensures
        band_start(height as nat, workers as nat, i as nat) <= y < height,
        image_pixel(buffer, width, x, y) == band_pixel(
            band_bytes(buffer, width as nat, height as nat, workers as nat, i as nat),
            width,
            band_start(height as nat, workers as nat, i as nat) as usize,
            x,
            y,
        ),
{
    let start = band_start(height as nat, workers as nat, i as nat);
    let end = band_end(height as nat, workers as nat, i as nat);
    lemma_band_stretch(width as nat, height as nat, workers as nat, i as nat, (i + 1) as nat);
    lemma_bands_are_consecutive(height as nat, workers as nat, i as nat);
    let inner = pixel_offset(width as nat, x as nat, (y - start) as nat);
    assert(pixel_offset(width as nat, x as nat, y as nat) == start * width * 3 + inner)
        by (nonlinear_arith)
        requires
            start <= y,
            inner == ((y - start) * width + x) * 3,
    ;
    lemma_pixel_in_buffer(width as nat, (end - start) as nat, x as nat, (y - start) as nat);
    assert(buffer_len(width as nat, (end - start) as nat) == band_len(
        width as nat,
        height as nat,
        workers as nat,
        i as nat,
    )) by (nonlinear_arith)
        requires
            band_len(width as nat, height as nat, workers as nat, i as nat) == (end - start)
                * width * 3,
            buffer_len(width as nat, (end - start) as nat) == width * (end - start) * 3,
    ;
}

/// The bands' stretches make up the whole buffer: two buffers of an image
/// that agree on every band are the same. So what `assemble` says of each
/// band leaves no byte of its result open.
pub proof fn lemma_bands_determine_buffer(
    a: Seq<u8>,
    b: Seq<u8>,
    width: nat,
    height: nat,
    workers: nat,
)
    requires
        workers > 0,
        a.len() == buffer_len(width, height),
        b.len() == buffer_len(width, height),
        forall|i: nat|
            i < workers ==> #[trigger] band_bytes(a, width, height, workers, i) == band_bytes(
                b,
                width,
                height,
                workers,
                i,
            ),
    ensures
        a == b,
{
    assert forall|p: int| 0 <= p < a.len() implies a[p] == b[p] by {
        let stride = width * 3;
        assert(stride > 0 && p < height * stride) by (nonlinear_arith)
            requires
                0 <= p < width * height * 3,
                stride == width * 3,
        ;
        let row = (p / stride as int) as nat;
        assert(row * stride <= p < (row + 1) * stride && row < height) by (nonlinear_arith)
            requires
                stride > 0,
                0 <= p < height * stride,
                row == p / stride as int,
        ;
        lemma_row_has_band(height, workers, row);
        let i = band_of_row(height, workers, row);
        lemma_band_stretch(width, height, workers, i, i + 1);
        let start = band_start(height, workers, i);
        let end = band_end(height, workers, i);
        assert(start * width * 3 <= p < end * width * 3) by (nonlinear_arith)
            requires
                start <= row < end,
                row * stride <= p < (row + 1) * stride,
                stride == width * 3,
        ;
        let k = p - start * width * 3;
        assert(a[p] == band_bytes(a, width, height, workers, i)[k]);
        assert(b[p] == band_bytes(b, width, height, workers, i)[k]);
    }
    assert(a =~= b);
}

/// Renders a whole image: cuts it into as many bands as there are workers,
/// renders the bands one after the other and puts them together. Every pixel
/// of the image then shows what `pixel` gave for its column and row, as it
/// would with any other number of workers.
pub fn render<F: Fn(usize, usize) -> Rgb>(
    width: usize,
    height: usize,
    workers: usize,
    pixel: &F,
) -> (buffer: Vec<u8>)
    requires
        workers > 0,
        buffer_len(width as nat, height as nat) <= usize::MAX,
        forall|x: usize, y: usize| x < width && y < height ==> call_requires(pixel, (x, y)),
    ensures
        buffer.len() == buffer_len(width as nat, height as nat),
        forall|x: usize, y: usize|
            x < width && y < height ==> call_ensures(
                pixel,
                (x, y),
                #[trigger] image_pixel(buffer@, width, x, y),
            ),
{
    let mut outputs: Vec<Option<Vec<u8>>> = Vec::new();
    let mut i: usize = 0;
    while i < workers
        invariant
            0 < workers,
            i <= workers,
            outputs.len() == i,
            buffer_len(width as nat, height as nat) <= usize::MAX,
            forall|x: usize, y: usize| x < width && y < height ==> call_requires(pixel, (x, y)),
            forall|j: nat|
                j < i ==> (#[trigger] outputs[j as int] matches Some(local) && local.len()
                    == band_len(width as nat, height as nat, workers as nat, j)),
            forall|j: int, x: usize, y: usize|
                0 <= j < i && x < width && in_band(
                    height as nat,
                    workers as nat,
                    j as nat,
                    y as nat,
                ) ==> call_ensures(
                    pixel,
                    (x, y),
                    #[trigger] band_pixel(
                        outputs[j]->0@,
                        width,
                        band_start(height as nat, workers as nat, j as nat) as usize,
                        x,
                        y,
                    ),
                ),
        decreases workers - i,
    {
        let rows = band(height, workers, i);
        proof {
            lemma_band_stretch(
                width as nat,
                height as nat,
                workers as nat,
                i as nat,
                (i + 1) as nat,
            );
        }
        let local = render_band(width, rows, pixel);
        let ghost before = outputs@;
        outputs.push(Some(local));
        proof {
            assert forall|j: int, x: usize, y: usize|
                0 <= j < i + 1 && x < width && in_band(
                    height as nat,
                    workers as nat,
                    j as nat,
                    y as nat,
                ) implies call_ensures(
                pixel,
                (x, y),
                #[trigger] band_pixel(
                    outputs[j]->0@,
                    width,
                    band_start(height as nat, workers as nat, j as nat) as usize,
                    x,
                    y,
                ),
            ) by {
                if j < i {
                    let old_pixel = band_pixel(
                        before[j]->0@,
                        width,
                        band_start(height as nat, workers as nat, j as nat) as usize,
                        x,
                        y,
                    );
                    assert(call_ensures(pixel, (x, y), old_pixel));
                } else {
                    let new_pixel = band_pixel(local@, width, rows.start, x, y);
                    assert(call_ensures(pixel, (x, y), new_pixel));
                }
            }
        }
        i += 1;
    }
    let buffer = assemble(width, height, &outputs);
    proof {
        assert forall|x: usize, y: usize| x < width && y < height implies call_ensures(
            pixel,
            (x, y),
            #[trigger] image_pixel(buffer@, width, x, y),
        ) by {
            lemma_row_has_band(height as nat, workers as nat, y as nat);
            let j = band_of_row(height as nat, workers as nat, y as nat);
            lemma_band_pixel_is_image_pixel(buffer@, width, height, workers, j as usize, x, y);
            let stretch = band_bytes(buffer@, width as nat, height as nat, workers as nat, j);
            assert(stretch == outputs[j as int]->0@);
            let at: int = j as int;
            assert(in_band(height as nat, workers as nat, at as nat, y as nat));
            let shown = band_pixel(
                outputs[at]->0@,
                width,
                band_start(height as nat, workers as nat, at as nat) as usize,
                x,
                y,
            );
            assert(call_ensures(pixel, (x, y), shown));
        }
    }
    buffer
}

} // verus!
