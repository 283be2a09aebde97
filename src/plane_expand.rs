//! Expansion of a frame into three side-by-side thirds, one per component.

use vstd::prelude::*;

use crate::frame::{
    lemma_row_bounds, lemma_wf_same_layout, lemma_width_fits, PixelFormat, PlaneLayout,
    TransformError, VideoFrame,
};

verus! {

/// A row of `out_len` bytes holding `background`, except that the first `len`
/// bytes of `src` stand from byte `at` on.
pub open spec fn placed_row(src: Seq<u8>, len: int, at: int, out_len: int, background: u8) -> Seq<
    u8,
> {
    Seq::new(out_len as nat, |j: int| if at <= j < at + len { src[j - at] } else { background })
}

/// Where plane `p` of a planar input starts in its output row: the first
/// plane at the left edge, each chroma plane after the chroma widths before it.
pub open spec fn planar_shift(input: VideoFrame, p: int) -> int {
    if p == 0 {
        0
    } else if p == 1 {
        input.plane(1).width as int
    } else {
        input.plane(1).width + input.plane(2).width
    }
}

/// Every plane of the output has the input plane's rows, and each output row
/// has room for the input samples at the plane's place.
pub open spec fn planar_fits(input: VideoFrame, output: VideoFrame) -> bool {
    forall|p: int|
        0 <= p < 3 ==> {
            &&& (#[trigger] output.plane(p)).rows == input.plane(p).rows
            &&& planar_shift(input, p) + input.plane(p).width <= output.plane(p).stride
        }
}

/// `after` is `before` with each row of plane `p` written as the planar
/// expansion of the input row asks.
pub open spec fn planar_plane_done(
    input: VideoFrame,
    after: VideoFrame,
    p: int,
    background: u8,
) -> bool {
    forall|r: int|
        0 <= r < after.plane(p).rows ==> #[trigger] after.row(p, r) == placed_row(
            input.row(p, r),
            input.plane(p).width as int,
            planar_shift(input, p),
            after.plane(p).stride as int,
            background,
        )
}

/// The planar expansion of `input`, written over `before`, gives `after`.
pub open spec fn planar_expanded(
    input: VideoFrame,
    before: VideoFrame,
    after: VideoFrame,
    background: u8,
) -> bool {
    &&& after.differs_only_in_planes(before)
    &&& forall|p: int| 0 <= p < 3 ==> #[trigger] planar_plane_done(input, after, p, background)
}

/// Fills row `r` of plane `p` of the output with `background`, then copies
/// the samples of the input row into it from byte `shift` on.
fn planar_row(
    input: &VideoFrame,
    output: &mut VideoFrame,
    p: usize,
    r: usize,
    shift: usize,
    background: u8,
)
    requires
        input.wf(),
        old(output).wf(),
        p < input.n_planes(),
        p < old(output).n_planes(),
        r < input.plane(p as int).rows,
        r < old(output).plane(p as int).rows,
        shift + input.plane(p as int).width <= old(output).plane(p as int).stride,
    ensures
        final(output).same_layout(*old(output)),
        final(output).data@.len() == old(output).data@.len(),
        final(output).row(p as int, r as int) == placed_row(
            input.row(p as int, r as int),
            input.plane(p as int).width as int,
            shift as int,
            old(output).plane(p as int).stride as int,
            background,
        ),
        forall|k: int|
            0 <= k < old(output).data@.len() && !(old(output).plane(p as int).row_start(r as int)
                <= k < old(output).plane(p as int).row_start(r as int) + old(
                output,
            ).plane(p as int).stride) ==> #[trigger] final(output).data@[k] == old(output).data@[k],
{
    let ilen: usize = input.data.len();
    let olen: usize = output.data.len();
    let ipl: PlaneLayout = input.planes[p];
    let opl: PlaneLayout = output.planes[p];
    proof {
        lemma_width_fits(*input, p as int);
        lemma_width_fits(*old(output), p as int);
        lemma_row_bounds(ipl, r as int, r as int + 1);
        lemma_row_bounds(opl, r as int, r as int + 1);
    }
    let istart: usize = ipl.offset + r * ipl.stride;
    let ostart: usize = opl.offset + r * opl.stride;
    let ostride: usize = opl.stride;
    let width: usize = ipl.width;
    let mut j: usize = 0;
    while j < ostride
        invariant
            0 <= j <= ostride,
            ostart + ostride <= olen,
            output.data@.len() == olen,
            output.same_layout(*old(output)),
            output.data@.len() == old(output).data@.len(),
            forall|jj: int| 0 <= jj < j ==> #[trigger] output.data@[ostart + jj] == background,
            forall|k: int|
                0 <= k < output.data@.len() && !(ostart <= k < ostart + j) ==> #[trigger] output.data@[k]
                    == old(output).data@[k],
        decreases ostride - j,
    {
        output.data.set(ostart + j, background);
        j = j + 1;
    }
    let mut i: usize = 0;
    while i < width
        invariant
            0 <= i <= width,
            width == input.plane(p as int).width,
            istart + width <= ilen,
            input.data@.len() == ilen,
            shift + width <= ostride,
            ostart + ostride <= olen,
            output.data@.len() == olen,
            output.same_layout(*old(output)),
            output.data@.len() == old(output).data@.len(),
            forall|jj: int|
                0 <= jj < ostride ==> #[trigger] output.data@[ostart + jj] == if shift <= jj < shift
                    + i {
                    input.data@[istart + jj - shift]
                } else {
                    background
                },
            forall|k: int|
                0 <= k < output.data@.len() && !(ostart <= k < ostart + ostride)
                    ==> #[trigger] output.data@[k] == old(output).data@[k],
        decreases width - i,
    {
        let b: u8 = input.data[istart + i];
        output.data.set(ostart + shift + i, b);
        proof {
            assert(output.data@[ostart + (shift + i)] == b);
        }
        i = i + 1;
    }
    assert(istart == input.plane(p as int).row_start(r as int));
    assert(ostart == old(output).plane(p as int).row_start(r as int));
    assert forall|jj: int| 0 <= jj < ostride implies #[trigger] output.row(p as int, r as int)[jj]
        == placed_row(
        input.row(p as int, r as int),
        width as int,
        shift as int,
        ostride as int,
        background,
    )[jj] by {
        assert(output.data@[ostart + jj] == output.row(p as int, r as int)[jj]);
    }
    assert(output.row(p as int, r as int) =~= placed_row(
        input.row(p as int, r as int),
        input.plane(p as int).width as int,
        shift as int,
        old(output).plane(p as int).stride as int,
        background,
    ));
}

/// Writes every row of plane `p` of the output as the planar expansion asks,
/// with the input samples from byte `shift` on.
fn planar_plane(input: &VideoFrame, output: &mut VideoFrame, p: usize, shift: usize, background: u8)
    requires
        input.wf(),
        old(output).wf(),
        p < input.n_planes(),
        p < old(output).n_planes(),
        input.plane(p as int).rows == old(output).plane(p as int).rows,
        shift + input.plane(p as int).width <= old(output).plane(p as int).stride,
    ensures
        final(output).same_layout(*old(output)),
        final(output).data@.len() == old(output).data@.len(),
        forall|r: int|
            0 <= r < old(output).plane(p as int).rows ==> #[trigger] final(output).row(p as int, r)
                == placed_row(
                input.row(p as int, r),
                input.plane(p as int).width as int,
                shift as int,
                old(output).plane(p as int).stride as int,
                background,
            ),
        forall|k: int|
            0 <= k < old(output).data@.len() && !old(output).plane(p as int).contains(k)
                ==> #[trigger] final(output).data@[k] == old(output).data@[k],
{
    let opl: PlaneLayout = output.planes[p];
    let rows: usize = opl.rows;
    let mut r: usize = 0;
    while r < rows
        invariant
            0 <= r <= rows,
            rows == opl.rows,
            opl == old(output).plane(p as int),
            input.wf(),
            old(output).wf(),
            output.wf(),
            p < input.n_planes(),
            p < output.n_planes(),
            input.plane(p as int).rows == opl.rows,
            shift + input.plane(p as int).width <= opl.stride,
            output.same_layout(*old(output)),
            output.data@.len() == old(output).data@.len(),
            forall|rr: int|
                0 <= rr < r ==> #[trigger] output.row(p as int, rr) == placed_row(
                    input.row(p as int, rr),
                    input.plane(p as int).width as int,
                    shift as int,
                    opl.stride as int,
                    background,
                ),
            forall|k: int|
                0 <= k < output.data@.len() && !(opl.offset <= k < opl.row_start(r as int))
                    ==> #[trigger] output.data@[k] == old(output).data@[k],
        decreases rows - r,
    {
        let ghost prev: VideoFrame = *output;
        planar_row(input, output, p, r, shift, background);
        proof {
            lemma_wf_same_layout(*old(output), *output);
            lemma_row_bounds(opl, r as int, r as int + 1);
            assert forall|rr: int| 0 <= rr < r + 1 implies #[trigger] output.row(p as int, rr)
                == placed_row(
                input.row(p as int, rr),
                input.plane(p as int).width as int,
                shift as int,
                opl.stride as int,
                background,
            ) by {
                if rr < r {
                    lemma_row_bounds(opl, rr, r as int);
                    assert(output.row(p as int, rr) =~= prev.row(p as int, rr));
                }
            }
        }
        r = r + 1;
    }
}

/// Planar expansion: row by row, each output plane is filled with
/// `background` and the input plane's samples are copied in at the plane's
/// place, so that the three planes come to stand side by side.
pub fn three_plane_split(input: &VideoFrame, output: &mut VideoFrame, background: u8)
    requires
        input.wf(),
        old(output).wf(),
        input.format == PixelFormat::PlanarYuv,
        old(output).format == PixelFormat::PlanarYuv,
        planar_fits(*input, *old(output)),
    ensures
        planar_expanded(*input, *old(output), *final(output), background),
{
    let w1: usize = input.planes[1].width;
    let w2: usize = input.planes[2].width;
    let mut p: usize = 0;
    while p < 3
        invariant
            0 <= p <= 3,
            input.wf(),
            old(output).wf(),
            output.wf(),
            input.format == PixelFormat::PlanarYuv,
            output.format == PixelFormat::PlanarYuv,
            output.same_layout(*old(output)),
            output.data@.len() == old(output).data@.len(),
            planar_fits(*input, *output),
            w1 == input.plane(1).width,
            w2 == input.plane(2).width,
            forall|q: int| 0 <= q < p ==> #[trigger] planar_plane_done(*input, *output, q, background),
            forall|k: int|
                0 <= k < output.data@.len() && (forall|q: int|
                    0 <= q < p ==> !(#[trigger] output.plane(q)).contains(k))
                    ==> #[trigger] output.data@[k] == old(output).data@[k],
        decreases 3 - p,
    {
        let shift: usize = if p == 0 {
            0
        } else if p == 1 {
            w1
        } else {
            assert(planar_shift(*input, 2) + input.plane(2).width <= output.plane(2).stride);
            w1 + w2
        };
        assert(shift == planar_shift(*input, p as int));
        assert(planar_shift(*input, p as int) + input.plane(p as int).width <= output.plane(
            p as int,
        ).stride);
        let ghost prev: VideoFrame = *output;
        planar_plane(input, output, p, shift, background);
        proof {
            lemma_wf_same_layout(*old(output), *output);
            assert forall|q: int| 0 <= q < p + 1 implies #[trigger] planar_plane_done(
                *input,
                *output,
                q,
                background,
            ) by {
                if q < p {
                    assert(planar_plane_done(*input, prev, q, background));
                    assert forall|r: int| 0 <= r < output.plane(q).rows implies #[trigger] output.row(
                        q,
                        r,
                    ) == placed_row(
                        input.row(q, r),
                        input.plane(q).width as int,
                        planar_shift(*input, q),
                        output.plane(q).stride as int,
                        background,
                    ) by {
                        lemma_row_bounds(prev.plane(q), r, prev.plane(q).rows as int);
                        assert(prev.plane(q).end() <= prev.plane(p as int).offset);
                        assert(output.row(q, r) =~= prev.row(q, r));
                    }
                }
            }
        }
        p = p + 1;
    }
}

/// Byte `j` of a packed output row: in third `t` (of `3 * w` bytes each),
/// component slot `t` of each pixel holds that component of the input pixel;
/// every other byte holds `background`.
pub open spec fn packed_sample(src: Seq<u8>, w: int, j: int, background: u8) -> u8 {
    if 0 <= j < 3 * w && j % 3 == 0 {
        src[j]
    } else if 3 * w <= j < 6 * w && (j - 3 * w) % 3 == 1 {
        src[j - 3 * w]
    } else if 6 * w <= j < 9 * w && (j - 6 * w) % 3 == 2 {
        src[j - 6 * w]
    } else {
        background
    }
}

/// A packed output row of `out_len` bytes made from the input row `src` of
/// `w` three-component pixels.
pub open spec fn packed_row(src: Seq<u8>, w: int, out_len: int, background: u8) -> Seq<u8> {
    Seq::new(out_len as nat, |j: int| packed_sample(src, w, j, background))
}

/// The packed expansion of `input`, written over `before`, gives `after`.
pub open spec fn packed_expanded(
    input: VideoFrame,
    before: VideoFrame,
    after: VideoFrame,
    background: u8,
) -> bool {
    &&& after.differs_only_in_planes(before)
    &&& forall|r: int|
        0 <= r < after.plane(0).rows ==> #[trigger] after.row(0, r) == packed_row(
            input.row(0, r),
            input.width as int,
            after.plane(0).stride as int,
            background,
        )
}

/// The output of a packed expansion has three times the input's width, its
/// rows and its format of three components per pixel.
pub open spec fn packed_fits(input: VideoFrame, output: VideoFrame) -> bool {
    &&& input.format == (PixelFormat::Packed { components: 3 })
    &&& output.format == input.format
    &&& output.width == 3 * input.width
    &&& output.plane(0).rows == input.plane(0).rows
}

/// Fills row `r` of the single output plane with `background`, then writes
/// each component of each input pixel into its own third of the row.
fn packed_row_write(input: &VideoFrame, output: &mut VideoFrame, r: usize, background: u8)
    requires
        input.wf(),
        old(output).wf(),
        packed_fits(*input, *old(output)),
        r < input.plane(0).rows,
    ensures
        final(output).same_layout(*old(output)),
        final(output).data@.len() == old(output).data@.len(),
        final(output).row(0, r as int) == packed_row(
            input.row(0, r as int),
            input.width as int,
            old(output).plane(0).stride as int,
            background,
        ),
        forall|k: int|
            0 <= k < old(output).data@.len() && !(old(output).plane(0).row_start(r as int) <= k
                < old(output).plane(0).row_start(r as int) + old(output).plane(0).stride)
                ==> #[trigger] final(output).data@[k] == old(output).data@[k],
{
    let ilen: usize = input.data.len();
    let olen: usize = output.data.len();
    let ipl: PlaneLayout = input.planes[0];
    let opl: PlaneLayout = output.planes[0];
    proof {
        assert(ipl == input.plane(0) && opl == old(output).plane(0));
        assert(ipl.end() <= ilen && opl.end() <= olen);

        lemma_row_bounds(ipl, r as int, ipl.rows as int);
        lemma_row_bounds(opl, r as int, opl.rows as int);
    }
    let istart: usize = ipl.offset + r * ipl.stride;
    let ostart: usize = opl.offset + r * opl.stride;
    let ostride: usize = opl.stride;
    let w: usize = ipl.width;
    let third: usize = 3 * w;
    let mut j: usize = 0;
    while j < ostride
        invariant
            0 <= j <= ostride,
            ostart + ostride <= olen,
            output.data@.len() == olen,
            output.same_layout(*old(output)),
            forall|jj: int| 0 <= jj < j ==> #[trigger] output.data@[ostart + jj] == background,
            forall|k: int|
                0 <= k < output.data@.len() && !(ostart <= k < ostart + j) ==> #[trigger] output.data@[k]
                    == old(output).data@[k],
        decreases ostride - j,
    {
        output.data.set(ostart + j, background);
        j = j + 1;
    }
    proof {
        assert(old(output).format.spec_sample_bytes() == 3);
        assert(old(output).plane(0).width * 3 <= old(output).plane(0).stride);
        assert(input.plane(0).width * 3 <= input.plane(0).stride);
    }
    let ghost src: Seq<u8> = input.row(0, r as int);
    let mut x: usize = 0;
    while x < w
        invariant
            0 <= x <= w,
            w == input.width,
            third == 3 * w,
            src == input.row(0, r as int),
            istart == input.plane(0).row_start(r as int),
            istart + input.plane(0).stride <= ilen,
            third <= input.plane(0).stride,
            input.data@.len() == ilen,
            3 * third <= ostride,
            ostart + ostride <= olen,
            output.data@.len() == olen,
            output.same_layout(*old(output)),
            forall|jj: int|
                0 <= jj < ostride ==> #[trigger] output.data@[ostart + jj] == if jj < 3 * x || (
                third <= jj < third + 3 * x) || (2 * third <= jj < 2 * third + 3 * x) {
                    packed_sample(src, w as int, jj, background)
                } else {
                    background
                },
            forall|k: int|
                0 <= k < output.data@.len() && !(ostart <= k < ostart + ostride)
                    ==> #[trigger] output.data@[k] == old(output).data@[k],
        decreases w - x,
    {
        let at: usize = 3 * x;
        let c0: u8 = input.data[istart + at];
        let c1: u8 = input.data[istart + at + 1];
        let c2: u8 = input.data[istart + at + 2];
        output.data.set(ostart + at, c0);
        output.data.set(ostart + third + at + 1, c1);
        output.data.set(ostart + 2 * third + at + 2, c2);
        proof {
            assert(at + 2 < input.plane(0).stride);
            assert(src[at as int] == input.data@[istart + at]);
            assert(src[at + 1] == input.data@[istart + at + 1]);
            assert(src[at + 2] == input.data@[istart + at + 2]);
            assert(output.data@[ostart + at] == c0);
            assert(output.data@[ostart + (third + at + 1)] == c1);
            assert(output.data@[ostart + (2 * third + at + 2)] == c2);
        }
        x = x + 1;
    }
    assert forall|jj: int| 0 <= jj < ostride implies #[trigger] output.row(0, r as int)[jj]
        == packed_row(src, w as int, ostride as int, background)[jj] by {
        assert(output.data@[ostart + jj] == output.row(0, r as int)[jj]);
    }
    assert(output.row(0, r as int) =~= packed_row(src, w as int, ostride as int, background));
}

/// Packed expansion: each row of the single output plane is filled with
/// `background`, and the three components of each input pixel at column `x`
/// go to column `x` of the first third (slot 0), of the second third (slot 1)
/// and of the last third (slot 2).
pub fn single_plane_split(input: &VideoFrame, output: &mut VideoFrame, background: u8)
    requires
        input.wf(),
        old(output).wf(),
        packed_fits(*input, *old(output)),
    ensures
        packed_expanded(*input, *old(output), *final(output), background),
{
    let opl: PlaneLayout = output.planes[0];
    let rows: usize = opl.rows;
    let mut r: usize = 0;
    while r < rows
        invariant
            0 <= r <= rows,
            rows == opl.rows,
            opl == old(output).plane(0),
            input.wf(),
            old(output).wf(),
            output.wf(),
            packed_fits(*input, *output),
            output.same_layout(*old(output)),
            output.data@.len() == old(output).data@.len(),
            forall|rr: int|
                0 <= rr < r ==> #[trigger] output.row(0, rr) == packed_row(
                    input.row(0, rr),
                    input.width as int,
                    opl.stride as int,
                    background,
                ),
            forall|k: int|
                0 <= k < output.data@.len() && !(opl.offset <= k < opl.row_start(r as int))
                    ==> #[trigger] output.data@[k] == old(output).data@[k],
        decreases rows - r,
    {
        let ghost prev: VideoFrame = *output;
        packed_row_write(input, output, r, background);
        proof {
            lemma_wf_same_layout(*old(output), *output);
            lemma_row_bounds(opl, r as int, r as int + 1);
            assert forall|rr: int| 0 <= rr < r + 1 implies #[trigger] output.row(0, rr)
                == packed_row(input.row(0, rr), input.width as int, opl.stride as int, background) by {
                if rr < r {
                    lemma_row_bounds(opl, rr, r as int);
                    assert(output.row(0, rr) =~= prev.row(0, rr));
                }
            }
        }
        r = r + 1;
    }
}

/// Which way a width is mapped across the expansion.
#[derive(Clone, Copy, Debug, PartialEq, Eq, Structural)]
pub enum PadDirection {
    /// From an input width to the output width.
    Sink,
    /// From an output width back to the input width.
    Src,
}

/// The width on the other side of the expansion: three times an input
/// width, or a third of an output width rounded down (so a width that is not
/// a multiple of three does not come back unchanged).
pub fn transform_width(direction: PadDirection, width: u32) -> (r: u64)
    ensures
        direction == PadDirection::Sink ==> r == 3 * width,
        direction == PadDirection::Src ==> r == width / 3,
{
    match direction {
        PadDirection::Sink => 3 * (width as u64),
        PadDirection::Src => (width / 3) as u64,
    }
}

/// Fill value of the planar expansion: mid-grey marks where no plane data stands.
pub const PLANAR_BACKGROUND: u8 = 125;

/// Fill value of the packed expansion.
pub const PACKED_BACKGROUND: u8 = 0;

pub open spec fn spec_default_background(format: PixelFormat) -> u8 {
    if format == PixelFormat::PlanarYuv {
        PLANAR_BACKGROUND
    } else {
        PACKED_BACKGROUND
    }
}

/// The fill value that `transform_frame` uses for a layout.
pub fn default_background(format: PixelFormat) -> (r: u8)
    ensures
        r == spec_default_background(format),
{
    match format {
        PixelFormat::PlanarYuv => PLANAR_BACKGROUND,
        _ => PACKED_BACKGROUND,
    }
}

/// The layouts that the expansion handles: three planes, or one plane of
/// three-component pixels.
pub open spec fn expandable(format: PixelFormat) -> bool {
    format == PixelFormat::PlanarYuv || format == (PixelFormat::Packed { components: 3 })
}

/// Why the expansion refuses `input` and `output`, checked in this order;
/// `None` when it accepts them.
pub open spec fn expand_error(input: VideoFrame, output: VideoFrame) -> Option<TransformError> {
    if output.width != 3 * input.width {
        Some(TransformError::WidthMismatch)
    } else if !expandable(input.format) {
        Some(TransformError::UnsupportedFormat)
    } else if output.format != input.format || output.height != input.height {
        Some(TransformError::DimensionMismatch)
    } else if input.format == PixelFormat::PlanarYuv && !planar_fits(input, output) {
        Some(TransformError::DimensionMismatch)
    } else {
        None
    }
}

/// Whether plane `p` of the output has the input plane's rows and room for
/// its samples from byte `shift` on.
fn plane_fits(input: &VideoFrame, output: &VideoFrame, p: usize, shift: Option<usize>) -> (r: bool)
    requires
        input.wf(),
        output.wf(),
        input.format == PixelFormat::PlanarYuv,
        output.format == PixelFormat::PlanarYuv,
        p < 3,
        shift is Some ==> shift->0 == planar_shift(*input, p as int),
        shift is None ==> planar_shift(*input, p as int) > usize::MAX,
    ensures
        r == (output.plane(p as int).rows == input.plane(p as int).rows
            && planar_shift(*input, p as int) + input.plane(p as int).width <= output.plane(
            p as int,
        ).stride),
{
    let ipl: PlaneLayout = input.planes[p];
    let opl: PlaneLayout = output.planes[p];
    match shift {
        Some(s) => ipl.rows == opl.rows && s <= opl.stride && ipl.width <= opl.stride - s,
        None => false,
    }
}

/// Whether a planar output has the rows and the room the planar expansion needs.
fn check_planar_fits(input: &VideoFrame, output: &VideoFrame) -> (r: bool)
    requires
        input.wf(),
        output.wf(),
        input.format == PixelFormat::PlanarYuv,
        output.format == PixelFormat::PlanarYuv,
    ensures
        r == planar_fits(*input, *output),
{
    let w1: usize = input.planes[1].width;
    let w2: usize = input.planes[2].width;
    let f0 = plane_fits(input, output, 0, Some(0));
    let f1 = plane_fits(input, output, 1, Some(w1));
    let f2 = plane_fits(input, output, 2, w1.checked_add(w2));
    assert(planar_fits(*input, *output) <==> (f0 && f1 && f2)) by {
        if f0 && f1 && f2 {
            assert forall|p: int| 0 <= p < 3 implies {
                &&& (#[trigger] output.plane(p)).rows == input.plane(p).rows
                &&& planar_shift(*input, p) + input.plane(p).width <= output.plane(p).stride
            } by {}
        }
    }
    f0 && f1 && f2
}

/// Expands `input` into `output` with the given fill value: the planar
/// layout by `three_plane_split`, the packed one by `single_plane_split`.
/// The pair is checked first; on a refusal the output is left untouched.
pub fn expand(input: &VideoFrame, output: &mut VideoFrame, background: u8) -> (r: Result<
    (),
    TransformError,
>)
    requires
        input.wf(),
        old(output).wf(),
    ensures
        r is Err <==> expand_error(*input, *old(output)) is Some,
        r is Err ==> r == Err::<(), TransformError>(expand_error(*input, *old(output))->0),
        r is Err ==> *final(output) == *old(output),
        r is Ok && input.format == PixelFormat::PlanarYuv ==> planar_expanded(
            *input,
            *old(output),
            *final(output),
            background,
        ),
        r is Ok && input.format != PixelFormat::PlanarYuv ==> packed_expanded(
            *input,
            *old(output),
            *final(output),
            background,
        ),
{
    if output.width as u64 != 3 * (input.width as u64) {
        return Err(TransformError::WidthMismatch);
    }
    let supported: bool = match input.format {
        PixelFormat::PlanarYuv => true,
        PixelFormat::Packed { components } => components == 3,
        PixelFormat::PlanarYuva => false,
    };
    if !supported {
        return Err(TransformError::UnsupportedFormat);
    }
    if output.format != input.format || output.height != input.height {
        return Err(TransformError::DimensionMismatch);
    }
    if input.format == PixelFormat::PlanarYuv {
        if !check_planar_fits(input, output) {
            return Err(TransformError::DimensionMismatch);
        }
        three_plane_split(input, output, background);
    } else {
        single_plane_split(input, output, background);
    }
    Ok(())
}

/// Expands `input` into `output`, filling the rest of each output row with
/// the layout's fill value: `PLANAR_BACKGROUND` for three planes,
/// `PACKED_BACKGROUND` for packed pixels.
pub fn transform_frame(input: &VideoFrame, output: &mut VideoFrame) -> (r: Result<
    (),
    TransformError,
>)
    requires
        input.wf(),
        old(output).wf(),
    ensures
        r is Err <==> expand_error(*input, *old(output)) is Some,
        r is Err ==> r == Err::<(), TransformError>(expand_error(*input, *old(output))->0),
        r is Err ==> *final(output) == *old(output),
        r is Ok && input.format == PixelFormat::PlanarYuv ==> planar_expanded(
            *input,
            *old(output),
            *final(output),
            PLANAR_BACKGROUND,
        ),
        r is Ok && input.format != PixelFormat::PlanarYuv ==> packed_expanded(
            *input,
            *old(output),
            *final(output),
            PACKED_BACKGROUND,
        ),
{
    let background: u8 = default_background(input.format);
    expand(input, output, background)
}

/// The expansion accepts an output only at three times the input's width:
/// any other width is refused as a width mismatch, before any other check.
pub proof fn lemma_width_law(input: VideoFrame, output: VideoFrame)
    ensures
        expand_error(input, output) == Some(TransformError::WidthMismatch) <==> output.width != 3
            * input.width,
        expand_error(input, output) is None ==> output.width == 3 * input.width,
{
}

/// After a planar expansion, every byte of an output row outside the copied
/// input samples holds the fill value.
pub proof fn lemma_planar_background(
    input: VideoFrame,
    before: VideoFrame,
    after: VideoFrame,
    background: u8,
    p: int,
    r: int,
    j: int,
)
    requires
        planar_expanded(input, before, after, background),
        0 <= p < 3,
        0 <= r < after.plane(p).rows,
        0 <= j < after.plane(p).stride,
        !(planar_shift(input, p) <= j < planar_shift(input, p) + input.plane(p).width),
    ensures
        after.row(p, r)[j] == background,
{
    assert(planar_plane_done(input, after, p, background));
}

/// A four-plane layout, or one of four components per pixel, is refused as
/// unsupported once the width is right, and the output is then left as it
/// was (see `expand`).
pub proof fn lemma_four_components_refused(input: VideoFrame, output: VideoFrame)
    requires
        input.format == PixelFormat::PlanarYuva || input.format == (PixelFormat::Packed {
            components: 4,
        }),
        output.width == 3 * input.width,
    ensures
        expand_error(input, output) == Some(TransformError::UnsupportedFormat),
{
}

} // verus!
