//! Wrap-around offset of every sample of each plane.

use vstd::prelude::*;

use crate::frame::{lemma_wf_same_layout, lemma_width_fits, PlaneLayout, TransformError, VideoFrame};

verus! {

/// Adds `o` to the sample `b`, wrapping modulo 256.
pub open spec fn wrap_add(b: u8, o: u8) -> u8 {
    ((b as int + o as int) % 256) as u8
}

/// Adds `o` to the sample `b`, wrapping modulo 256 (`255 + 10` gives `9`).
pub fn offset_sample(b: u8, o: u8) -> (r: u8)
    ensures
        r == wrap_add(b, o),
        r as int == (b as int + o as int) % 256,
{
    b.wrapping_add(o)
}

/// Offset of each plane when nothing has been set.
pub const DEFAULT_SHIFT: u8 = 0;

/// The offsets added to the samples of the Y (first), U (second) and V
/// (third) planes.
#[derive(Clone, Copy, Debug, PartialEq, Eq, Structural)]
pub struct Settings {
    pub y: u8,
    pub u: u8,
    pub v: u8,
}

impl Default for Settings {
    /// All offsets zero: the transform copies the frame.
    fn default() -> (r: Self)
        ensures
            r.y == DEFAULT_SHIFT,
            r.u == DEFAULT_SHIFT,
            r.v == DEFAULT_SHIFT,
    {
        Settings { y: DEFAULT_SHIFT, u: DEFAULT_SHIFT, v: DEFAULT_SHIFT }
    }
}

impl Settings {
    pub open spec fn spec_offset(self, p: int) -> u8 {
        if p == 0 {
            self.y
        } else if p == 1 {
            self.u
        } else {
            self.v
        }
    }

    /// The offset of plane `p`.
    pub fn offset(&self, p: usize) -> (r: u8)
        requires
            p < 3,
        ensures
            r == self.spec_offset(p as int),
    {
        if p == 0 {
            self.y
        } else if p == 1 {
            self.u
        } else {
            self.v
        }
    }
}

/// Each byte of `s` with `o` added, wrapping modulo 256.
pub open spec fn offset_bytes(s: Seq<u8>, o: u8) -> Seq<u8> {
    s.map_values(|b: u8| wrap_add(b, o))
}

/// Each plane of `after` is the same plane of `input` offset by the plane's
/// setting; nothing else differs from `before`.
pub open spec fn offset_applied(
    settings: Settings,
    input: VideoFrame,
    before: VideoFrame,
    after: VideoFrame,
) -> bool {
    &&& after.differs_only_in_planes(before)
    &&& forall|p: int|
        0 <= p < after.n_planes() ==> #[trigger] after.plane_bytes(p) == offset_bytes(
            input.plane_bytes(p),
            settings.spec_offset(p),
        )
}

/// Why the offset transform refuses `input` and `output`, checked in this
/// order; `None` when it accepts them.
pub open spec fn offset_error(input: VideoFrame, output: VideoFrame) -> Option<TransformError> {
    if !input.same_layout(output) {
        Some(TransformError::DimensionMismatch)
    } else if !(1 <= input.n_planes() <= 3) {
        Some(TransformError::UnsupportedPlaneCount)
    } else {
        None
    }
}

/// Writes plane `p` of the output as the same plane of the input offset by
/// `shift`.
fn offset_plane(input: &VideoFrame, output: &mut VideoFrame, p: usize, shift: u8)
    requires
        input.wf(),
        old(output).wf(),
        input.same_layout(*old(output)),
        p < input.n_planes(),
    ensures
        final(output).same_layout(*old(output)),
        final(output).data@.len() == old(output).data@.len(),
        final(output).plane_bytes(p as int) == offset_bytes(input.plane_bytes(p as int), shift),
        forall|k: int|
            0 <= k < old(output).data@.len() && !old(output).plane(p as int).contains(k)
                ==> #[trigger] final(output).data@[k] == old(output).data@[k],
{
    let ilen: usize = input.data.len();
    let olen: usize = output.data.len();
    let pl: PlaneLayout = input.planes[p];
    proof {
        lemma_width_fits(*input, p as int);
        lemma_width_fits(*old(output), p as int);
        assert(pl == old(output).plane(p as int));
    }
    let start: usize = pl.offset;
    let size: usize = pl.rows * pl.stride;
    let mut i: usize = 0;
    while i < size
        invariant
            0 <= i <= size,
            start == pl.offset,
            size == pl.size(),
            pl == input.plane(p as int),
            pl == old(output).plane(p as int),
            start + size <= ilen,
            start + size <= olen,
            input.data@.len() == ilen,
            output.data@.len() == olen,
            output.same_layout(*old(output)),
            forall|j: int|
                0 <= j < i ==> #[trigger] output.data@[start + j] == wrap_add(
                    input.data@[start + j],
                    shift,
                ),
            forall|k: int|
                0 <= k < output.data@.len() && !(start <= k < start + i) ==> #[trigger] output.data@[k]
                    == old(output).data@[k],
        decreases size - i,
    {
        let b: u8 = offset_sample(input.data[start + i], shift);
        output.data.set(start + i, b);
        i = i + 1;
    }
    assert forall|j: int| 0 <= j < size implies #[trigger] output.plane_bytes(p as int)[j]
        == offset_bytes(input.plane_bytes(p as int), shift)[j] by {
        assert(output.data@[start + j] == output.plane_bytes(p as int)[j]);
    }
    assert(output.plane_bytes(p as int) =~= offset_bytes(input.plane_bytes(p as int), shift));
}

/// Adds to each sample of each plane the plane's offset from `settings`,
/// wrapping modulo 256. The layouts are checked first; on a refusal the
/// output is left untouched.
pub fn transform_frame(settings: Settings, input: &VideoFrame, output: &mut VideoFrame) -> (r:
    Result<(), TransformError>)
    requires
        input.wf(),
        old(output).wf(),
    ensures
        r is Err <==> offset_error(*input, *old(output)) is Some,
        r is Err ==> r == Err::<(), TransformError>(offset_error(*input, *old(output))->0),
        r is Err ==> *final(output) == *old(output),
        r is Ok ==> offset_applied(settings, *input, *old(output), *final(output)),
{
    if !input.has_same_layout(output) {
        return Err(TransformError::DimensionMismatch);
    }
    let n: usize = input.planes.len();
    if n < 1 || n > 3 {
        return Err(TransformError::UnsupportedPlaneCount);
    }
    let mut p: usize = 0;
    while p < n
        invariant
            0 <= p <= n,
            n == input.n_planes(),
            n <= 3,
            input.wf(),
            old(output).wf(),
            output.wf(),
            input.same_layout(*output),
            output.same_layout(*old(output)),
            output.data@.len() == old(output).data@.len(),
            forall|q: int|
                0 <= q < p ==> #[trigger] output.plane_bytes(q) == offset_bytes(
                    input.plane_bytes(q),
                    settings.spec_offset(q),
                ),
            forall|k: int|
                0 <= k < output.data@.len() && (forall|q: int|
                    0 <= q < p ==> !(#[trigger] output.plane(q)).contains(k))
                    ==> #[trigger] output.data@[k] == old(output).data@[k],
        decreases n - p,
    {
        let shift: u8 = settings.offset(p);
        let ghost prev: VideoFrame = *output;
        offset_plane(input, output, p, shift);
        proof {
            lemma_wf_same_layout(*old(output), *output);
            assert forall|q: int| 0 <= q < p + 1 implies #[trigger] output.plane_bytes(q)
                == offset_bytes(input.plane_bytes(q), settings.spec_offset(q)) by {
                if q < p {
                    assert(prev.plane(q).end() <= prev.plane(p as int).offset);
                    assert(output.plane_bytes(q) =~= prev.plane_bytes(q));
                }
            }
        }
        p = p + 1;
    }
    Ok(())
}

/// With all three offsets zero the transform copies: each plane of the
/// output equals the same plane of the input, byte for byte.
pub proof fn lemma_zero_offset_copies(
    settings: Settings,
    input: VideoFrame,
    before: VideoFrame,
    after: VideoFrame,
)
    requires
        settings.y == 0,
        settings.u == 0,
        settings.v == 0,
        offset_applied(settings, input, before, after),
        input.wf(),
        input.same_layout(before),
    ensures
        forall|p: int| 0 <= p < after.n_planes() ==> #[trigger] after.plane_bytes(p) == input.plane_bytes(p),
{
    assert forall|p: int| 0 <= p < after.n_planes() implies #[trigger] after.plane_bytes(p)
        == input.plane_bytes(p) by {
        assert(after.plane_bytes(p) == offset_bytes(input.plane_bytes(p), settings.spec_offset(p)));
        assert(offset_bytes(input.plane_bytes(p), 0) =~= input.plane_bytes(p));
    }
}

/// Each byte of a plane of the output is the input byte plus the plane's
/// offset, modulo 256: no clamping, no saturation.
pub proof fn lemma_offset_wraps(
    settings: Settings,
    input: VideoFrame,
    before: VideoFrame,
    after: VideoFrame,
    p: int,
    i: int,
)
    requires
        offset_applied(settings, input, before, after),
        input.wf(),
        before.wf(),
        input.same_layout(before),
        0 <= p < after.n_planes(),
        0 <= i < after.plane(p).size(),
    ensures
        after.data@[after.plane(p).offset + i] as int == (input.data@[input.plane(p).offset + i]
            + settings.spec_offset(p)) % 256,
{
    assert(after.plane_bytes(p) == offset_bytes(input.plane_bytes(p), settings.spec_offset(p)));
    assert(after.plane(p) == input.plane(p));
    lemma_width_fits(input, p);
    lemma_width_fits(before, p);
    assert(after.plane_bytes(p)[i] == after.data@[after.plane(p).offset + i]);
    assert(input.plane_bytes(p)[i] == input.data@[input.plane(p).offset + i]);
}

/// A frame of four planes is refused by the offset transform, and the output
/// is then left as it was (see `transform_frame`).
pub proof fn lemma_four_planes_refused(input: VideoFrame, output: VideoFrame)
    requires
        input.n_planes() == 4,
    ensures
        offset_error(input, output) is Some,
        input.same_layout(output) ==> offset_error(input, output) == Some(
            TransformError::UnsupportedPlaneCount,
        ),
{
}

} // verus!
