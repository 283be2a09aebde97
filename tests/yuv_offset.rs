use stream_test_tools::frame::{PixelFormat, PlaneLayout, TransformError, VideoFrame};
use stream_test_tools::yuv_offset::{offset_sample, transform_frame, Settings, DEFAULT_SHIFT};

fn plane(offset: usize, stride: usize, width: usize, rows: usize) -> PlaneLayout {
    PlaneLayout { offset, stride, width, rows }
}

/// A 2x2 frame of three planes with padded rows, and one byte past the planes.
fn i420(data: Vec<u8>) -> VideoFrame {
    VideoFrame {
        width: 2,
        height: 2,
        format: PixelFormat::PlanarYuv,
        planes: vec![plane(0, 3, 2, 2), plane(6, 2, 1, 1), plane(8, 2, 1, 1)],
        data,
    }
}

fn input_bytes() -> Vec<u8> {
    vec![0, 100, 250, 255, 1, 2, 128, 7, 200, 9, 42]
}

#[test]
fn sample_offset_wraps_around() {
    assert_eq!(offset_sample(255, 10), 9);
    assert_eq!(offset_sample(255, 1), 0);
    assert_eq!(offset_sample(100, 27), 127);
    assert_eq!(offset_sample(0, 0), 0);
}

#[test]
fn each_plane_gets_its_own_offset() {
    let input = i420(input_bytes());
    let mut output = i420(vec![0; 11]);
    assert!(input.is_well_formed() && output.is_well_formed());
    let settings = Settings { y: 10, u: 128, v: 56 };
    assert_eq!(transform_frame(settings, &input, &mut output), Ok(()));
    assert_eq!(
        output.data,
        vec![10, 110, 4, 9, 11, 12, 0, 135, 0, 65, 0]
    );
}

#[test]
fn zero_offsets_copy_the_planes() {
    let input = i420(input_bytes());
    let mut output = i420(vec![3; 11]);
    assert_eq!(transform_frame(Settings::default(), &input, &mut output), Ok(()));
    assert_eq!(&output.data[0..10], &input.data[0..10]);
    assert_eq!(output.data[10], 3);
}

#[test]
fn packed_frame_is_one_plane() {
    let mut output = VideoFrame {
        width: 1,
        height: 1,
        format: PixelFormat::Packed { components: 3 },
        planes: vec![plane(0, 4, 1, 1)],
        data: vec![0; 4],
    };
    let input = VideoFrame {
        width: 1,
        height: 1,
        format: PixelFormat::Packed { components: 3 },
        planes: vec![plane(0, 4, 1, 1)],
        data: vec![250, 1, 2, 3],
    };
    let settings = Settings { y: 6, u: 99, v: 99 };
    assert_eq!(transform_frame(settings, &input, &mut output), Ok(()));
    assert_eq!(output.data, vec![0, 7, 8, 9]);
}

#[test]
fn different_layouts_are_a_dimension_mismatch() {
    let input = i420(input_bytes());
    let mut output = i420(vec![5; 11]);
    output.width = 4;
    assert_eq!(
        transform_frame(Settings::default(), &input, &mut output),
        Err(TransformError::DimensionMismatch)
    );
    assert_eq!(output.data, vec![5; 11]);
    let mut strided = i420(vec![5; 11]);
    strided.planes[1] = plane(6, 1, 1, 2);
    assert_eq!(
        transform_frame(Settings::default(), &input, &mut strided),
        Err(TransformError::DimensionMismatch)
    );
}

#[test]
fn four_planes_are_an_unsupported_plane_count() {
    let frame = || VideoFrame {
        width: 1,
        height: 1,
        format: PixelFormat::PlanarYuva,
        planes: vec![plane(0, 1, 1, 1), plane(1, 1, 1, 1), plane(2, 1, 1, 1), plane(3, 1, 1, 1)],
        data: vec![4; 4],
    };
    let input = frame();
    let mut output = frame();
    output.data = vec![6; 4];
    assert!(input.is_well_formed());
    assert_eq!(
        transform_frame(Settings { y: 1, u: 1, v: 1 }, &input, &mut output),
        Err(TransformError::UnsupportedPlaneCount)
    );
    assert_eq!(output.data, vec![6; 4]);
}

#[test]
fn settings_default_to_zero() {
    let s = Settings::default();
    assert_eq!((s.y, s.u, s.v), (DEFAULT_SHIFT, DEFAULT_SHIFT, DEFAULT_SHIFT));
    assert_eq!(DEFAULT_SHIFT, 0);
    let s = Settings { y: 1, u: 2, v: 3 };
    assert_eq!((s.offset(0), s.offset(1), s.offset(2)), (1, 2, 3));
}
