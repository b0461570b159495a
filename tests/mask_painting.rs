use scratch_mask::input::{pixel_of, BRUSH_RADIUS};
use scratch_mask::{DirtyRegion, MaskBuffer, PointerInput, UvPoint, UV_ONE};

fn in_disk(x: i64, y: i64, cx: i64, cy: i64, r: i64) -> bool {
    (x - cx) * (x - cx) + (y - cy) * (y - cy) <= r * r
}

fn revealed_count(m: &MaskBuffer) -> usize {
    m.samples().iter().filter(|s| **s == 255).count()
}

#[test]
fn new_mask_is_fully_covered() {
    let m = MaskBuffer::new(512);
    assert_eq!(m.size(), 512);
    assert_eq!(m.samples().len(), 512 * 512);
    assert!(m.samples().iter().all(|s| *s == 0));
}

#[test]
fn empty_mask_has_no_samples() {
    let mut m = MaskBuffer::new(0);
    assert_eq!(m.samples().len(), 0);
    assert_eq!(m.stroke(0, 0, 5), None);
}

#[test]
fn centre_stroke_then_corner_stroke() {
    let mut m = MaskBuffer::new(512);
    let first = m.stroke(256, 256, 20);
    assert_eq!(
        first,
        Some(DirtyRegion { x_min: 236, y_min: 236, x_max: 276, y_max: 276 })
    );
    for y in 0..512usize {
        for x in 0..512usize {
            let expected = if in_disk(x as i64, y as i64, 256, 256, 20) { 255 } else { 0 };
            assert_eq!(m.get(x, y), expected, "pixel ({}, {})", x, y);
        }
    }
    let second = m.stroke(0, 0, 20);
    assert_eq!(second, Some(DirtyRegion { x_min: 0, y_min: 0, x_max: 20, y_max: 20 }));
    for y in 0..512usize {
        for x in 0..512usize {
            let inside = in_disk(x as i64, y as i64, 256, 256, 20)
                || in_disk(x as i64, y as i64, 0, 0, 20);
            assert_eq!(m.get(x, y), if inside { 255 } else { 0 }, "pixel ({}, {})", x, y);
        }
    }
}

#[test]
fn corner_stroke_writes_only_the_quarter_disk() {
    let mut m = MaskBuffer::new(512);
    m.stroke(0, 0, 20);
    let mut quarter = 0usize;
    for y in 0..=20i64 {
        for x in 0..=20i64 {
            if in_disk(x, y, 0, 0, 20) {
                quarter += 1;
            }
        }
    }
    assert_eq!(revealed_count(&m), quarter);
    assert_eq!(m.get(20, 0), 255);
    assert_eq!(m.get(0, 20), 255);
    assert_eq!(m.get(15, 15), 0);
    assert_eq!(m.get(21, 0), 0);
}

#[test]
fn stroke_centred_outside_the_mask() {
    let mut m = MaskBuffer::new(64);
    assert_eq!(m.stroke(-100, -100, 20), None);
    assert_eq!(m.stroke(i64::MIN, i64::MAX, 20), None);
    assert_eq!(revealed_count(&m), 0);
    let d = m.stroke(-5, 68, 8);
    assert_eq!(d, Some(DirtyRegion { x_min: 0, y_min: 62, x_max: 1, y_max: 63 }));
    assert_eq!(m.get(0, 62), 255);
    assert_eq!(m.get(0, 63), 255);
    assert_eq!(m.get(1, 63), 255);
    assert_eq!(revealed_count(&m), 3);
}

#[test]
fn radius_zero_reveals_one_pixel() {
    let mut m = MaskBuffer::new(8);
    assert_eq!(m.stroke(3, 5, 0), Some(DirtyRegion { x_min: 3, y_min: 5, x_max: 3, y_max: 5 }));
    assert_eq!(revealed_count(&m), 1);
    assert_eq!(m.get(3, 5), 255);
}

#[test]
fn huge_radius_reveals_everything() {
    let mut m = MaskBuffer::new(16);
    let d = m.stroke(3, 4, u32::MAX);
    assert_eq!(d, Some(DirtyRegion { x_min: 0, y_min: 0, x_max: 15, y_max: 15 }));
    assert_eq!(revealed_count(&m), 256);
}

#[test]
fn repeated_stroke_changes_nothing() {
    let mut m = MaskBuffer::new(128);
    m.stroke(40, 90, 7);
    let once: Vec<u8> = m.samples().to_vec();
    assert_eq!(m.stroke(40, 90, 7), None);
    assert_eq!(m.samples(), &once[..]);
}

#[test]
fn dirty_region_covers_only_changed_pixels() {
    let mut m = MaskBuffer::new(100);
    m.stroke(50, 50, 10);
    // Overlapping stroke: only its right part is new.
    let d = m.stroke(55, 50, 10).unwrap();
    assert_eq!(d, DirtyRegion { x_min: 55, y_min: 40, x_max: 65, y_max: 60 });
}

#[test]
fn samples_never_decrease_over_strokes() {
    let mut m = MaskBuffer::new(96);
    let strokes: [(i64, i64, u32); 6] =
        [(10, 10, 5), (90, 3, 9), (48, 48, 30), (-4, 50, 8), (48, 48, 30), (95, 95, 1)];
    let mut before: Vec<u8> = m.samples().to_vec();
    for (cx, cy, r) in strokes {
        m.stroke(cx, cy, r);
        let after = m.samples().to_vec();
        for i in 0..after.len() {
            assert!(after[i] >= before[i]);
            assert!(after[i] == 0 || after[i] == 255);
        }
        before = after;
    }
}

#[test]
fn released_button_is_a_no_op() {
    let mut m = MaskBuffer::new(512);
    let input = PointerInput { pressed: false, position: Some(UvPoint { x: UV_ONE / 2, y: UV_ONE / 2 }) };
    assert_eq!(m.apply_input(input, 20), None);
    assert_eq!(revealed_count(&m), 0);
}

#[test]
fn out_of_range_projection_is_a_no_op() {
    let mut m = MaskBuffer::new(512);
    let outside = [
        Some(UvPoint { x: -1, y: 100 }),
        Some(UvPoint { x: UV_ONE + 1, y: 100 }),
        Some(UvPoint { x: 100, y: -1 }),
        Some(UvPoint { x: 100, y: UV_ONE + 1 }),
        None,
    ];
    for position in outside {
        let input = PointerInput { pressed: true, position };
        assert_eq!(m.apply_input(input, 20), None);
    }
    assert_eq!(revealed_count(&m), 0);
}

#[test]
fn pressed_pointer_paints_under_the_pointer() {
    let mut m = MaskBuffer::new(512);
    // x = 0.5 maps to column 256; y = 255/512 maps to row 511 - 255 = 256.
    let input = PointerInput { pressed: true, position: Some(UvPoint { x: 32768, y: 32640 }) };
    let d = m.apply_input(input, 20);
    assert_eq!(d, Some(DirtyRegion { x_min: 236, y_min: 236, x_max: 276, y_max: 276 }));
    assert_eq!(m.get(256, 256), 255);
    assert_eq!(m.get(256, 277), 0);
}

#[test]
fn pointer_on_the_top_edge_paints_row_zero() {
    let mut m = MaskBuffer::new(512);
    let input = PointerInput { pressed: true, position: Some(UvPoint { x: 0, y: UV_ONE }) };
    let d = m.apply_input(input, 3);
    // Centre (0, -1): the rows below the top edge that the disk reaches.
    assert_eq!(d, Some(DirtyRegion { x_min: 0, y_min: 0, x_max: 2, y_max: 2 }));
    assert_eq!(m.get(0, 2), 255);
    assert_eq!(m.get(2, 2), 0);
}

#[test]
fn pixel_mapping_flips_the_vertical_axis() {
    assert_eq!(pixel_of(UvPoint { x: 0, y: 0 }, 512), (0, 511));
    assert_eq!(pixel_of(UvPoint { x: UV_ONE, y: UV_ONE }, 512), (512, -1));
    assert_eq!(pixel_of(UvPoint { x: 32768, y: 32768 }, 512), (256, 255));
    assert_eq!(pixel_of(UvPoint { x: 127, y: 128 }, 512), (0, 510));
    assert_eq!(pixel_of(UvPoint { x: 100, y: 65000 }, 100), (0, 0));
}

#[test]
fn unit_square_test() {
    assert!(UvPoint { x: 0, y: UV_ONE }.is_in_unit_square());
    assert!(!UvPoint { x: 0, y: UV_ONE + 1 }.is_in_unit_square());
    assert!(!UvPoint { x: -1, y: 0 }.is_in_unit_square());
}

#[test]
fn default_brush_radius_stroke() {
    let mut m = MaskBuffer::new(512);
    let input = PointerInput { pressed: true, position: Some(UvPoint { x: 32768, y: 32640 }) };
    let d = m.apply_input(input, BRUSH_RADIUS).unwrap();
    assert_eq!(d, DirtyRegion { x_min: 206, y_min: 206, x_max: 306, y_max: 306 });
}
