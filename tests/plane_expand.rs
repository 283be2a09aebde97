use stream_test_tools::frame::{PixelFormat, PlaneLayout, TransformError, VideoFrame};
use stream_test_tools::plane_expand::{
    default_background, expand, single_plane_split, three_plane_split, transform_frame,
    transform_width, PadDirection, PACKED_BACKGROUND, PLANAR_BACKGROUND,
};

fn plane(offset: usize, stride: usize, width: usize, rows: usize) -> PlaneLayout {
    PlaneLayout { offset, stride, width, rows }
}

/// An RGB frame with rows padded to four bytes, as a video buffer lays it out.
fn rgb_frame(width: u32, height: u32, data: Vec<u8>) -> VideoFrame {
    let stride = ((width as usize * 3) + 3) / 4 * 4;
    VideoFrame {
        width,
        height,
        format: PixelFormat::Packed { components: 3 },
        planes: vec![plane(0, stride, width as usize, height as usize)],
        data,
    }
}

fn run_plugin_rgb_tests(data_inframe: [u8; 8]) -> Vec<u8> {
    let width: u32 = 1;
    let height: u32 = 2;
    let inframe = rgb_frame(width, height, data_inframe.to_vec());
    let mut outframe = rgb_frame(width * 3, height, vec![0; (width * height * 4 * 3) as usize]);
    assert!(inframe.is_well_formed() && outframe.is_well_formed());
    let r = transform_frame(&inframe, &mut outframe);
    assert_eq!(r, Ok(()));
    outframe.data
}

#[test]
fn test_rgb_transform_red() {
    let data_inframe = [255, 0, 0, 0, 255, 0, 0, 0];
    let outframe = run_plugin_rgb_tests(data_inframe);
    assert_eq!(
        outframe,
        [255, 0, 0, 0, 0, 0, 0, 0, 0, 0, 0, 0, 255, 0, 0, 0, 0, 0, 0, 0, 0, 0, 0, 0,]
    );
}

#[test]
fn test_rgb_transform_green() {
    let data_inframe = [0, 255, 0, 0, 0, 255, 0, 0];
    let outframe = run_plugin_rgb_tests(data_inframe);
    assert_eq!(
        outframe,
        [0, 0, 0, 0, 255, 0, 0, 0, 0, 0, 0, 0, 0, 0, 0, 0, 255, 0, 0, 0, 0, 0, 0, 0,]
    );
}

#[test]
fn test_rgb_transform_blue() {
    let data_inframe = [0, 0, 255, 0, 0, 0, 255, 0];
    let outframe = run_plugin_rgb_tests(data_inframe);
    assert_eq!(
        outframe,
        [0, 0, 0, 0, 0, 0, 0, 0, 255, 0, 0, 0, 0, 0, 0, 0, 0, 0, 0, 0, 255, 0, 0, 0,]
    );
}

#[test]
fn red_and_green_rows_isolate_their_channels() {
    let outframe = run_plugin_rgb_tests([255, 0, 0, 0, 0, 255, 0, 0]);
    assert_eq!(
        outframe,
        [255, 0, 0, 0, 0, 0, 0, 0, 0, 0, 0, 0, 0, 0, 0, 0, 255, 0, 0, 0, 0, 0, 0, 0]
    );
}

#[test]
fn packed_two_pixels_go_to_three_thirds() {
    // One row of two pixels (1,2,3) and (4,5,6); no row padding.
    let input = VideoFrame {
        width: 2,
        height: 1,
        format: PixelFormat::Packed { components: 3 },
        planes: vec![plane(0, 6, 2, 1)],
        data: vec![1, 2, 3, 4, 5, 6],
    };
    let mut output = VideoFrame {
        width: 6,
        height: 1,
        format: PixelFormat::Packed { components: 3 },
        planes: vec![plane(0, 18, 6, 1)],
        data: vec![77; 18],
    };
    single_plane_split(&input, &mut output, 9);
    assert_eq!(
        output.data,
        vec![1, 9, 9, 4, 9, 9, 9, 2, 9, 9, 5, 9, 9, 9, 3, 9, 9, 6]
    );
}

/// A 2x2 frame of three planes: a 2x2 luma plane and two 1x1 chroma planes,
/// each row padded to four bytes.
fn i420_input() -> VideoFrame {
    VideoFrame {
        width: 2,
        height: 2,
        format: PixelFormat::PlanarYuv,
        planes: vec![plane(0, 4, 2, 2), plane(8, 4, 1, 1), plane(12, 4, 1, 1)],
        data: vec![10, 11, 90, 91, 12, 13, 92, 93, 20, 94, 95, 96, 30, 97, 98, 99],
    }
}

/// The 6x2 output of `i420_input`: luma rows of eight bytes, chroma rows of four.
fn i420_output(width: u32) -> VideoFrame {
    VideoFrame {
        width,
        height: 2,
        format: PixelFormat::PlanarYuv,
        planes: vec![plane(0, 8, width as usize, 2), plane(16, 4, 3, 1), plane(20, 4, 3, 1)],
        data: vec![1; 25],
    }
}

#[test]
fn planar_expansion_places_planes_side_by_side() {
    let input = i420_input();
    let mut output = i420_output(6);
    assert!(input.is_well_formed() && output.is_well_formed());
    assert_eq!(transform_frame(&input, &mut output), Ok(()));
    let g = PLANAR_BACKGROUND;
    assert_eq!(
        output.data,
        vec![
            10, 11, g, g, g, g, g, g, // luma row 0
            12, 13, g, g, g, g, g, g, // luma row 1
            g, 20, g, g, // first chroma plane after one chroma width
            g, g, 30, g, // second chroma plane after two chroma widths
            1, // past the planes: untouched
        ]
    );
}

#[test]
fn planar_background_fills_all_but_the_copied_samples() {
    let input = i420_input();
    let mut output = i420_output(6);
    three_plane_split(&input, &mut output, 7);
    let copied = [0usize, 1, 8, 9, 17, 22];
    for (k, b) in output.data.iter().enumerate().take(24) {
        if !copied.contains(&k) {
            assert_eq!(*b, 7, "byte {}", k);
        }
    }
}

#[test]
fn expand_uses_the_given_background() {
    let input = i420_input();
    let mut output = i420_output(6);
    assert_eq!(expand(&input, &mut output, 0), Ok(()));
    assert_eq!(&output.data[0..8], &[10, 11, 0, 0, 0, 0, 0, 0]);
}

#[test]
fn wrong_output_width_is_a_width_mismatch() {
    let input = i420_input();
    for width in [5u32, 7, 2, 0] {
        let mut output = i420_output(width);
        let before = output.data.clone();
        assert_eq!(
            transform_frame(&input, &mut output),
            Err(TransformError::WidthMismatch)
        );
        assert_eq!(output.data, before);
    }
}

#[test]
fn four_components_are_unsupported() {
    let input = VideoFrame {
        width: 1,
        height: 1,
        format: PixelFormat::Packed { components: 4 },
        planes: vec![plane(0, 4, 1, 1)],
        data: vec![1, 2, 3, 4],
    };
    let mut output = VideoFrame {
        width: 3,
        height: 1,
        format: PixelFormat::Packed { components: 4 },
        planes: vec![plane(0, 12, 3, 1)],
        data: vec![5; 12],
    };
    assert!(input.is_well_formed() && output.is_well_formed());
    assert_eq!(
        transform_frame(&input, &mut output),
        Err(TransformError::UnsupportedFormat)
    );
    assert_eq!(output.data, vec![5; 12]);
}

#[test]
fn four_planes_are_unsupported() {
    let input = VideoFrame {
        width: 2,
        height: 1,
        format: PixelFormat::PlanarYuva,
        planes: vec![plane(0, 2, 2, 1), plane(2, 1, 1, 1), plane(3, 1, 1, 1), plane(4, 2, 2, 1)],
        data: vec![1, 2, 3, 4, 5, 6],
    };
    let mut output = VideoFrame {
        width: 6,
        height: 1,
        format: PixelFormat::PlanarYuva,
        planes: vec![plane(0, 6, 6, 1), plane(6, 3, 3, 1), plane(9, 3, 3, 1), plane(12, 6, 6, 1)],
        data: vec![8; 18],
    };
    assert!(input.is_well_formed() && output.is_well_formed());
    assert_eq!(
        transform_frame(&input, &mut output),
        Err(TransformError::UnsupportedFormat)
    );
    assert_eq!(output.data, vec![8; 18]);
}

#[test]
fn height_or_format_change_is_a_dimension_mismatch() {
    let input = rgb_frame(1, 2, vec![0; 8]);
    let mut shorter = rgb_frame(3, 1, vec![3; 12]);
    assert_eq!(
        transform_frame(&input, &mut shorter),
        Err(TransformError::DimensionMismatch)
    );
    assert_eq!(shorter.data, vec![3; 12]);
    let mut planar = i420_output(3);
    assert_eq!(
        transform_frame(&input, &mut planar),
        Err(TransformError::DimensionMismatch)
    );
}

#[test]
fn planar_output_without_room_is_a_dimension_mismatch() {
    let input = i420_input();
    let mut output = i420_output(6);
    // The chroma rows hold only two bytes: no room for a sample at byte two.
    output.planes[1] = plane(16, 2, 2, 1);
    output.planes[2] = plane(20, 2, 2, 1);
    assert!(output.is_well_formed());
    assert_eq!(
        transform_frame(&input, &mut output),
        Err(TransformError::DimensionMismatch)
    );
    assert_eq!(output.data, vec![1; 25]);
}

#[test]
fn widths_map_across_the_expansion() {
    assert_eq!(transform_width(PadDirection::Sink, 640), 1920);
    assert_eq!(transform_width(PadDirection::Src, 1920), 640);
    assert_eq!(transform_width(PadDirection::Src, 1000), 333);
    assert_eq!(transform_width(PadDirection::Sink, u32::MAX), 3 * u32::MAX as u64);
}

#[test]
fn each_layout_has_its_fill_value() {
    assert_eq!(PLANAR_BACKGROUND, 125);
    assert_eq!(PACKED_BACKGROUND, 0);
    assert_eq!(default_background(PixelFormat::PlanarYuv), 125);
    assert_eq!(default_background(PixelFormat::Packed { components: 3 }), 0);
}
