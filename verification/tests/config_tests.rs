use face_auth_core::config::{ConfigError, FaceAuthConfig};

fn system_baseline() -> FaceAuthConfig {
    FaceAuthConfig {
        embeddings_dir: Some("/var/lib/face-auth".to_string()),
        device: Some("/dev/video3".to_string()),
        model_path: Some("/usr/local/share/face-auth/w600k_mbf.onnx".to_string()),
        ..FaceAuthConfig::default()
    }
}

#[test]
fn user_overlay_cannot_redirect_lookups() {
    let mut cfg = system_baseline();
    let overlay = FaceAuthConfig {
        embeddings_dir: Some("/home/mallory/faces".to_string()),
        model_path: Some("/home/mallory/evil.onnx".to_string()),
        detector_model_path: Some("/home/mallory/evil2.onnx".to_string()),
        ..FaceAuthConfig::default()
    };
    cfg.apply_user_overlay(&overlay, false);
    assert_eq!(cfg.embeddings_dir(), "/var/lib/face-auth");
    assert!(cfg.model_path().starts_with("/usr/local/share"));
    assert!(cfg.detector_model_path().starts_with("/usr/local/share"));
}

#[test]
fn user_overlay_rejects_a_camera_that_is_not_an_ir_device() {
    // No such node exists here, so the device check reports it unconfirmed.
    let mut cfg = system_baseline();
    let overlay = FaceAuthConfig {
        device: Some("/dev/video99".to_string()),
        ..FaceAuthConfig::default()
    };
    cfg.apply_user_overlay(&overlay, false);
    assert_eq!(cfg.device, Some("/dev/video3".to_string()));

    for bogus in ["/etc/passwd", "../dev/video0", "/dev/../etc/passwd", "video0"] {
        let mut cfg = system_baseline();
        cfg.apply_user_overlay(
            &FaceAuthConfig {
                device: Some(bogus.to_string()),
                ..FaceAuthConfig::default()
            },
            false,
        );
        assert_eq!(cfg.device, Some("/dev/video3".to_string()), "accepted {bogus}");
    }
}

#[test]
fn a_malformed_camera_path_is_refused_even_if_confirmed() {
    for bogus in ["/etc/passwd", "../dev/video0", "/dev/../etc/passwd", "video0"] {
        let mut cfg = system_baseline();
        cfg.apply_user_overlay(
            &FaceAuthConfig {
                device: Some(bogus.to_string()),
                ..FaceAuthConfig::default()
            },
            true,
        );
        assert_eq!(cfg.device, Some("/dev/video3".to_string()), "accepted {bogus}");
    }
    let mut cfg = system_baseline();
    cfg.apply_user_overlay(
        &FaceAuthConfig { device: Some("/dev/video2".to_string()), ..FaceAuthConfig::default() },
        true,
    );
    assert_eq!(cfg.device, Some("/dev/video2".to_string()));
}

#[test]
fn user_overlay_honours_timing_within_bounds() {
    let mut cfg = system_baseline();
    let overlay = FaceAuthConfig {
        scan_duration_ms: Some(8000),
        scan_interval_ms: Some(999_999),
        ..FaceAuthConfig::default()
    };
    cfg.apply_user_overlay(&overlay, false);
    assert_eq!(cfg.scan_duration_ms(), 8000);
    assert_eq!(cfg.scan_interval_ms(), 0, "out-of-range value ignored");
}

#[test]
fn validate_rejects_relative_embeddings_dir() {
    let cfg = FaceAuthConfig {
        embeddings_dir: Some("relative/path".to_string()),
        ..FaceAuthConfig::default()
    };
    assert!(cfg.validate().is_err());
    assert_eq!(cfg.validate(), Err(ConfigError::RelativeEmbeddingsDir));
}

#[test]
fn defaults_are_valid() {
    assert!(FaceAuthConfig::default().validate().is_ok());
}

#[test]
fn getters_fall_back_to_defaults_and_clamp() {
    let cfg = FaceAuthConfig::default();
    assert_eq!(cfg.device(None), "/dev/video0");
    assert_eq!(cfg.device(Some("/dev/video2".to_string())), "/dev/video2");
    assert_eq!(cfg.model_path(), "/usr/local/share/face-auth/w600k_mbf.onnx");
    assert_eq!(cfg.detector_model_path(), "/usr/local/share/face-auth/version-slim-320.onnx");
    assert_eq!(cfg.embeddings_dir(), "/var/lib/face-auth");
    assert_eq!(cfg.capture_timeout_ms(), 5000);
    assert_eq!(cfg.scan_duration_ms(), 5000);
    assert_eq!(cfg.scan_interval_ms(), 0);

    let cfg = FaceAuthConfig {
        device: Some("/dev/video7".to_string()),
        capture_timeout_ms: Some(1),
        scan_duration_ms: Some(1_000_000),
        scan_interval_ms: Some(6000),
        ..FaceAuthConfig::default()
    };
    assert_eq!(cfg.device(Some("/dev/video2".to_string())), "/dev/video7");
    assert_eq!(cfg.capture_timeout_ms(), 100);
    assert_eq!(cfg.scan_duration_ms(), 30_000);
    assert_eq!(cfg.scan_interval_ms(), 5000);
}

#[test]
fn timing_out_of_bounds_in_an_overlay_is_ignored() {
    let mut cfg = system_baseline();
    cfg.apply_user_overlay(
        &FaceAuthConfig {
            capture_timeout_ms: Some(50),
            scan_duration_ms: Some(499),
            scan_interval_ms: Some(5000),
            ..FaceAuthConfig::default()
        },
        false,
    );
    assert_eq!(cfg.capture_timeout_ms, Some(5000));
    assert_eq!(cfg.scan_duration_ms, Some(5000));
    assert_eq!(cfg.scan_interval_ms, Some(5000));
}
