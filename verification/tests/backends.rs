use rust_ocr_transformer::backends::{
    best_rotation, class_label, needs_rotation_search, parse_lines, pinned_input_dims, round32,
};
use rust_ocr_transformer::{BBox, VisionError};

#[test]
fn round32_rounds_to_stride() {
    assert_eq!(round32(0), 32);
    assert_eq!(round32(15), 32);
    assert_eq!(round32(47), 32);
    assert_eq!(round32(48), 64);
    assert_eq!(round32(1600), 1600);
    assert_eq!(round32(1615), 1600);
    assert_eq!(round32(1616), 1632);
}

#[test]
fn rotation_search_only_when_upright_reads_poorly() {
    assert!(!needs_rotation_search(false, 0));
    assert!(needs_rotation_search(true, 7));
    assert!(!needs_rotation_search(true, 8));
}

#[test]
fn best_rotation_prefers_earlier_on_ties() {
    assert_eq!(best_rotation([3, 3, 3, 3]), 0);
    assert_eq!(best_rotation([1, 5, 5, 2]), 90);
    assert_eq!(best_rotation([1, 2, 9, 2]), 180);
    assert_eq!(best_rotation([0, 0, 0, 1]), 270);
}

#[test]
fn class_label_falls_back_to_index() {
    let labels = vec!["cat".to_string(), "dog".to_string()];
    assert_eq!(class_label(&labels, 1), "dog");
    assert_eq!(class_label(&labels, 2), "class_2");
    assert_eq!(class_label(&vec![], 105), "class_105");
}

#[test]
fn pinned_input_dims_fixes_dynamic_rank4_only() {
    assert_eq!(
        pinned_input_dims(&vec![None, Some(3), None, None], 48, 320),
        Some(vec![1, 3, 48, 320])
    );
    assert_eq!(pinned_input_dims(&vec![Some(1), Some(3), Some(48), Some(320)], 64, 64), None);
    assert_eq!(pinned_input_dims(&vec![None, Some(3), None], 48, 320), None);
}

#[test]
fn parse_lines_keeps_blank_entries_and_drops_final_newline() {
    assert_eq!(parse_lines("a\nb\n"), vec!["a", "b"]);
    assert_eq!(parse_lines("a\r\n\nb"), vec!["a", "", "b"]);
    assert_eq!(parse_lines(""), Vec::<String>::new());
    assert_eq!(parse_lines("\n"), vec![""]);
    assert_eq!(parse_lines("x\r\r\n"), vec!["x"]);
    assert_eq!(parse_lines("가\n나"), vec!["가", "나"]);
}

#[test]
fn error_helpers_carry_detail() {
    assert!(matches!(VisionError::backend("boom".to_string()), VisionError::Backend(d) if d == "boom"));
    assert!(matches!(VisionError::decode("bad".to_string()), VisionError::Decode(d) if d == "bad"));
}

#[test]
fn bbox_area_is_exact() {
    assert_eq!(BBox::new(1, 2, 3, 4).area(), 12);
    assert_eq!(BBox::new(0, 0, u32::MAX, u32::MAX).area(), (u32::MAX as u64) * (u32::MAX as u64));
    assert_eq!(BBox::new(0, 0, 0, 9).area(), 0);
}

#[test]
fn error_messages_name_the_stage() {
    assert_eq!(VisionError::backend("boom".to_string()).message(), "backend error: boom");
    assert_eq!(VisionError::decode("bad".to_string()).message(), "decode error: bad");
    assert_eq!(VisionError::NotWired("video").message(), "not wired yet: video");
    assert_eq!(VisionError::Unsupported("x".to_string()).message(), "unsupported: x");
    let io = std::io::Error::new(std::io::ErrorKind::Other, "disk gone");
    assert_eq!(VisionError::Io(io).message(), "disk gone");
}
