use face_auth_core::capture::{
    check_capture_format, detect_ir_camera, device_node, fourcc_string, frame_from_buffer,
    lowercase_name_has_ir_word, name_suggests_ir, rank_ir_candidates, sysfs_name_suggests_ir,
    FormatError, FrameError, V4L2_PIX_FMT_GREY,
};

#[test]
fn recognises_ir_camera_names() {
    assert!(name_suggests_ir("Integrated IR Camera"));
    assert!(name_suggests_ir("Chicony USB2.0 Camera: Infrared"));
    assert!(name_suggests_ir("ir-camera"));
    assert!(name_suggests_ir("IR"));
}

#[test]
fn does_not_match_ir_inside_unrelated_words() {
    assert!(!name_suggests_ir("Virtual Camera"));
    assert!(!name_suggests_ir("Logitech BRIO"));
    assert!(!name_suggests_ir("Integrated Webcam"));
    assert!(!name_suggests_ir("Mirror Cam"));
}

#[test]
fn lowercase_words_are_matched_exactly() {
    assert!(lowercase_name_has_ir_word("ir"));
    assert!(lowercase_name_has_ir_word("usb infrared sensor"));
    assert!(lowercase_name_has_ir_word("cam_ir"));
    assert!(!lowercase_name_has_ir_word("IR"));
    assert!(!lowercase_name_has_ir_word("infrareds"));
    assert!(!lowercase_name_has_ir_word(""));
    assert!(!lowercase_name_has_ir_word("irir"));
}

#[test]
fn lowercasing_happens_before_matching() {
    // If the lowercasing step handed its argument back unchanged, these
    // would not match.
    assert!(name_suggests_ir("INFRARED"));
    assert!(name_suggests_ir("Ir Sensor"));
}

#[test]
fn sysfs_names_are_trimmed() {
    assert!(sysfs_name_suggests_ir("Integrated IR Camera\n"));
    assert!(!sysfs_name_suggests_ir("Integrated Webcam\n"));
}

#[test]
fn grey_with_sane_geometry_is_accepted() {
    assert_eq!(check_capture_format(V4L2_PIX_FMT_GREY, 640, 400), Ok(()));
    assert_eq!(check_capture_format(V4L2_PIX_FMT_GREY, 8192, 1), Ok(()));
}

#[test]
fn other_formats_and_geometry_are_refused() {
    let yuyv = u32::from_le_bytes(*b"YUYV");
    assert_eq!(
        check_capture_format(yuyv, 640, 480),
        Err(FormatError::NotGrey { pixelformat: yuyv })
    );
    assert_eq!(
        check_capture_format(V4L2_PIX_FMT_GREY, 0, 480),
        Err(FormatError::ImplausibleGeometry { width: 0, height: 480 })
    );
    assert_eq!(
        check_capture_format(V4L2_PIX_FMT_GREY, 640, 8193),
        Err(FormatError::ImplausibleGeometry { width: 640, height: 8193 })
    );
}

#[test]
fn fourcc_is_spelled_lowest_byte_first() {
    assert_eq!(fourcc_string(V4L2_PIX_FMT_GREY), "GREY");
    assert_eq!(fourcc_string(u32::from_le_bytes(*b"MJPG")), "MJPG");
    assert_eq!(fourcc_string(0x0001_2041), "A???");
    assert_eq!(fourcc_string(0), "????");
}

#[test]
fn buffer_becomes_widened_frame() {
    let mapped = [0u8, 1, 2, 255, 9, 9];
    let f = frame_from_buffer(&mapped, 4, 2, 2).unwrap();
    assert_eq!(f.data, vec![0, 257, 514, 65535]);
    assert_eq!((f.width, f.height), (2, 2));
}

#[test]
fn oversized_bytesused_is_clamped_to_the_mapping() {
    let mapped = [7u8; 6];
    let f = frame_from_buffer(&mapped, 1000, 2, 3).unwrap();
    assert_eq!(f.data.len(), 6);
    assert!(f.data.iter().all(|&v| v == 7 * 257));
}

#[test]
fn short_buffer_is_refused() {
    let mapped = [7u8; 10];
    assert_eq!(
        frame_from_buffer(&mapped, 10, 4, 4).err(),
        Some(FrameError::ShortFrame { got: 10, expected: 16 })
    );
}

#[test]
fn device_paths_must_be_plain_dev_nodes() {
    assert_eq!(device_node("/dev/video2").as_deref(), Some("video2"));
    assert_eq!(device_node("/dev/video99").as_deref(), Some("video99"));
    for bogus in ["/etc/passwd", "../dev/video0", "/dev/../etc/passwd", "video0", "/dev/", "/dev/a/b", "/dev/x..y"] {
        assert_eq!(device_node(bogus), None, "accepted {bogus}");
    }
}

#[test]
fn candidates_sort_numerically_then_by_path() {
    let entries = vec![
        ("video10".to_string(), "Integrated IR Camera\n".to_string()),
        ("video0".to_string(), "Integrated Webcam\n".to_string()),
        ("video9".to_string(), "Integrated IR Camera\n".to_string()),
        ("video2".to_string(), "Chicony: Infrared\n".to_string()),
        ("media0".to_string(), "IR metadata\n".to_string()),
    ];
    let ranked = rank_ir_candidates(&entries);
    let paths: Vec<&str> = ranked.iter().map(|(p, _)| p.as_str()).collect();
    assert_eq!(paths, vec!["/dev/video2", "/dev/video9", "/dev/video10", "/dev/media0"]);
    assert_eq!(ranked[0].1, "Chicony: Infrared");
    assert_eq!(detect_ir_camera(&ranked).as_deref(), Some("/dev/video2"));
    assert_eq!(detect_ir_camera(&Vec::new()), None);
}

#[test]
fn candidates_with_equal_keys_keep_their_listing_order() {
    let entries = vec![
        ("video4".to_string(), "IR front\n".to_string()),
        ("video3".to_string(), "IR side".to_string()),
        ("video4".to_string(), "IR back".to_string()),
    ];
    let ranked = rank_ir_candidates(&entries);
    let names: Vec<&str> = ranked.iter().map(|(_, n)| n.as_str()).collect();
    assert_eq!(names, vec!["IR side", "IR front", "IR back"]);
}
