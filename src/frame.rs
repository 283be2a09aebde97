//! A video frame as one byte buffer with a layout for each of its planes.

use vstd::prelude::*;

verus! {

/// How the samples of a frame are laid out.
#[derive(Clone, Copy, Debug, PartialEq, Eq, Structural)]
pub enum PixelFormat {
    /// Three planes (luma and two chroma planes), one byte per sample.
    PlanarYuv,
    /// Four planes (luma, two chroma planes and alpha), one byte per sample.
    PlanarYuva,
    /// One plane, each pixel stored as `components` consecutive bytes.
    Packed { components: usize },
}

impl PixelFormat {
    pub open spec fn spec_plane_count(self) -> nat {
        match self {
            PixelFormat::PlanarYuv => 3,
            PixelFormat::PlanarYuva => 4,
            PixelFormat::Packed { .. } => 1,
        }
    }

    pub open spec fn spec_sample_bytes(self) -> nat {
        match self {
            PixelFormat::Packed { components } => components as nat,
            _ => 1,
        }
    }

    /// Number of planes a frame of this format has.
    pub fn plane_count(&self) -> (r: usize)
        ensures
            r == self.spec_plane_count(),
    {
        match self {
            PixelFormat::PlanarYuv => 3,
            PixelFormat::PlanarYuva => 4,
            PixelFormat::Packed { .. } => 1,
        }
    }

    /// Number of bytes one horizontal sample position takes in a plane row.
    pub fn sample_bytes(&self) -> (r: usize)
        ensures
            r == self.spec_sample_bytes(),
    {
        match self {
            PixelFormat::Packed { components } => *components,
            _ => 1,
        }
    }
}

/// Where one plane lies in the frame's buffer.
#[derive(Clone, Copy, Debug, PartialEq, Eq, Structural)]
pub struct PlaneLayout {
    /// Index of the plane's first byte in the buffer.
    pub offset: usize,
    /// Bytes from the start of one row to the start of the next.
    pub stride: usize,
    /// Samples per row (the component width of the plane).
    pub width: usize,
    /// Number of rows.
    pub rows: usize,
}

impl PlaneLayout {
    pub open spec fn size(self) -> int {
        self.rows * self.stride
    }

    pub open spec fn end(self) -> int {
        self.offset + self.size()
    }

    pub open spec fn row_start(self, r: int) -> int {
        self.offset + r * self.stride
    }

    pub open spec fn contains(self, k: int) -> bool {
        self.offset <= k < self.end()
    }
}

/// A row that a plane holds lies inside the plane, after the rows above it.
pub proof fn lemma_row_bounds(pl: PlaneLayout, r1: int, r2: int)
    requires
        0 <= r1 < r2 <= pl.rows,
    ensures
        pl.offset <= pl.row_start(r1),
        pl.row_start(r1) + pl.stride == pl.row_start(r1 + 1),
        pl.row_start(r1) + pl.stride <= pl.row_start(r2),
        pl.row_start(r2) <= pl.end(),
{
    assert(r1 * pl.stride >= 0) by (nonlinear_arith)
        requires
            r1 >= 0,
    ;
    assert((r1 + 1) * pl.stride == r1 * pl.stride + pl.stride) by (nonlinear_arith);
    assert(r1 * pl.stride + pl.stride <= r2 * pl.stride) by (nonlinear_arith)
        requires
            r1 + 1 <= r2,
    ;
    assert(r2 * pl.stride <= pl.rows * pl.stride) by (nonlinear_arith)
        requires
            r2 <= pl.rows,
    ;
}

/// In a well-formed frame each row of a plane holds the plane's samples.
pub proof fn lemma_width_fits(f: VideoFrame, p: int)
    requires
        f.wf(),
        0 <= p < f.n_planes(),
    ensures
        f.plane(p).width <= f.plane(p).stride,
        f.plane(p).end() <= f.data@.len(),
{
    let w = f.plane(p).width as int;
    let s = f.format.spec_sample_bytes() as int;
    assert(w <= w * s) by (nonlinear_arith)
        requires
            s >= 1,
            w >= 0,
    ;
}

/// Well-formedness depends only on the layout and the buffer's length.
pub proof fn lemma_wf_same_layout(a: VideoFrame, b: VideoFrame)
    requires
        a.wf(),
        b.same_layout(a),
        b.data@.len() == a.data@.len(),
    ensures
        b.wf(),
{
    assert forall|p: int| 0 <= p < b.n_planes() implies #[trigger] b.plane(p) == a.plane(p) by {}
}

/// A frame: its geometry, its format, the layout of each plane, and the
/// buffer that holds the planes.
pub struct VideoFrame {
    pub width: u32,
    pub height: u32,
    pub format: PixelFormat,
    pub planes: Vec<PlaneLayout>,
    pub data: Vec<u8>,
}

/// Why a transform refused a pair of frames.
#[derive(Clone, Copy, Debug, PartialEq, Eq, Structural)]
pub enum TransformError {
    /// Input and output geometries disagree.
    DimensionMismatch,
    /// The output width is not three times the input width.
    WidthMismatch,
    /// The frame has a number of planes the transform does not handle.
    UnsupportedPlaneCount,
    /// The layout is recognised but the transform does not handle it.
    UnsupportedFormat,
}

impl VideoFrame {
    pub open spec fn plane(self, p: int) -> PlaneLayout {
        self.planes@[p]
    }

    pub open spec fn n_planes(self) -> int {
        self.planes@.len() as int
    }

    /// The layout fits the buffer: each plane's rows hold its samples, and
    /// the planes lie in the buffer in order without overlapping.
    pub open spec fn wf(self) -> bool {
        &&& self.n_planes() == self.format.spec_plane_count()
        &&& self.format.spec_sample_bytes() >= 1
        &&& self.plane(0).width == self.width
        &&& self.plane(0).rows == self.height
        &&& forall|p: int|
            0 <= p < self.n_planes() ==> {
                &&& (#[trigger] self.plane(p)).width * self.format.spec_sample_bytes()
                    <= self.plane(p).stride
                &&& self.plane(p).end() <= self.data@.len()
            }
        &&& forall|p: int, q: int|
            0 <= p < q < self.n_planes() ==> #[trigger] self.plane(p).end()
                <= #[trigger] self.plane(q).offset
        &&& self.format == PixelFormat::PlanarYuv ==> {
            &&& self.plane(1).width <= self.plane(0).width
            &&& self.plane(1).width == self.plane(2).width
        }
    }

    /// Bytes of row `r` of plane `p`, padding included.
    pub open spec fn row(self, p: int, r: int) -> Seq<u8> {
        self.data@.subrange(
            self.plane(p).row_start(r),
            self.plane(p).row_start(r) + self.plane(p).stride,
        )
    }

    /// All bytes of plane `p`.
    pub open spec fn plane_bytes(self, p: int) -> Seq<u8> {
        self.data@.subrange(self.plane(p).offset as int, self.plane(p).end())
    }

    /// Byte `k` of the buffer lies in none of the planes.
    pub open spec fn outside_planes(self, k: int) -> bool {
        forall|p: int| 0 <= p < self.n_planes() ==> !(#[trigger] self.plane(p)).contains(k)
    }

    /// Both frames have the same geometry, format and plane layouts.
    pub open spec fn same_layout(self, other: VideoFrame) -> bool {
        &&& self.width == other.width
        &&& self.height == other.height
        &&& self.format == other.format
        &&& self.planes@ == other.planes@
    }

    /// Whether the layout fits the buffer (see `wf`).
    pub fn is_well_formed(&self) -> (r: bool)
        ensures
            r == self.wf(),
    {
        let n: usize = self.planes.len();
        let sb: usize = self.format.sample_bytes();
        if n != self.format.plane_count() || sb < 1 {
            return false;
        }
        if self.planes[0].width != self.width as usize || self.planes[0].rows != self.height as usize {
            return false;
        }
        if self.format == PixelFormat::PlanarYuv {
            if !(self.planes[1].width <= self.planes[0].width && self.planes[1].width
                == self.planes[2].width) {
                return false;
            }
        }
        let len: usize = self.data.len();
        let mut prev_end: usize = 0;
        let mut i: usize = 0;
        while i < n
            invariant
                0 <= i <= n,
                n == self.n_planes(),
                sb == self.format.spec_sample_bytes(),
                len == self.data@.len(),
                i > 0 ==> prev_end == self.plane(i - 1).end(),
                forall|q: int|
                    0 <= q < i ==> {
                        &&& (#[trigger] self.plane(q)).width * sb <= self.plane(q).stride
                        &&& self.plane(q).end() <= len
                    },
                forall|a: int, b: int|
                    0 <= a < b < i ==> #[trigger] self.plane(a).end()
                        <= #[trigger] self.plane(b).offset,
            decreases n - i,
        {
            let pl: PlaneLayout = self.planes[i];
            assert(pl == self.plane(i as int) && pl.offset == self.plane(i as int).offset);
            assert(pl.end() == self.plane(i as int).end());
            let row_bytes: Option<usize> = pl.width.checked_mul(sb);
            match row_bytes {
                Some(b) => {
                    if b > pl.stride {
                        return false;
                    }
                },
                None => {
                    return false;
                },
            }
            let size: Option<usize> = pl.rows.checked_mul(pl.stride);
            let end: usize = match size {
                Some(sz) => match pl.offset.checked_add(sz) {
                    Some(e) => e,
                    None => {
                        return false;
                    },
                },
                None => {
                    return false;
                },
            };
            if end > len {
                return false;
            }
            if i > 0 && prev_end > pl.offset {
                return false;
            }
            proof {
                assert forall|a: int, b: int| 0 <= a < b < i + 1 implies #[trigger] self.plane(
                    a,
                ).end() <= #[trigger] self.plane(b).offset by {
                    if b == i && a < i - 1 {
                        assert(self.plane(a).end() <= self.plane(i - 1).offset);
                        assert(self.plane(i - 1).offset <= self.plane(i - 1).end());
                    }
                }
            }
            prev_end = end;
            i = i + 1;
        }
        true
    }

    /// Whether both frames have the same geometry, format and plane layouts.
    pub fn has_same_layout(&self, other: &VideoFrame) -> (r: bool)
        ensures
            r == self.same_layout(*other),
    {
        if self.width != other.width || self.height != other.height || self.format != other.format
            || self.planes.len() != other.planes.len() {
            return false;
        }
        let mut i: usize = 0;
        while i < self.planes.len()
            invariant
                0 <= i <= self.planes@.len(),
                self.planes@.len() == other.planes@.len(),
                forall|q: int| 0 <= q < i ==> self.planes@[q] == other.planes@[q],
            decreases self.planes@.len() - i,
        {
            if self.planes[i] != other.planes[i] {
                return false;
            }
            i = i + 1;
        }
        assert(self.planes@ =~= other.planes@);
        true
    }

    /// Only the planes of `self` may differ from `before`.
    pub open spec fn differs_only_in_planes(self, before: VideoFrame) -> bool {
        &&& self.same_layout(before)
        &&& self.data@.len() == before.data@.len()
        &&& forall|k: int|
            0 <= k < self.data@.len() && self.outside_planes(k) ==> #[trigger] self.data@[k]
                == before.data@[k]
    }
}

} // verus!
