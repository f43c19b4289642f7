use pic_library::formats::{
    all, enabled_from_setting, enabled_setting_value, for_path, path_is_enabled_in, setting_key,
    supported, uses, DecoderKind,
};

#[test]
fn registry_recognizes_all_declared_extensions_case_insensitively() {
    for format in all() {
        for extension in format.extensions {
            assert_eq!(for_path(&format!("photo.{extension}")), Some(format));
            assert_eq!(
                for_path(&format!("photo.{}", extension.to_ascii_uppercase())),
                Some(format)
            );
        }
    }
    assert_eq!(for_path("photo.txt"), None);
}

#[test]
fn registry_lists_eighteen_formats_in_order() {
    let formats = all();
    assert_eq!(formats.len(), 18);
    assert_eq!(formats[0].id, "jpeg");
    assert_eq!(formats[6].id, "heif");
    assert_eq!(formats[17].id, "generic_raw");
}

#[test]
fn extension_follows_path_rules() {
    assert_eq!(for_path("/photos/2024/IMG_0001.JPG").unwrap().id, "jpeg");
    assert_eq!(for_path("dir.jpg/file"), None);
    assert_eq!(for_path(".jpg"), None);
    assert_eq!(for_path("photo.jpg/."), for_path("photo.jpg"));
    assert_eq!(for_path("photo.jpg/.."), None);
    assert_eq!(for_path("archive.tar.nef").unwrap().id, "nikon_raw");
    assert_eq!(for_path("noextension"), None);
    assert_eq!(for_path(""), None);
}

#[test]
fn supported_and_decoder_use() {
    assert!(supported("a.heic"));
    assert!(!supported("a.txt"));
    assert!(uses("a.NEF", DecoderKind::Raw));
    assert!(!uses("a.png", DecoderKind::Raw));
    assert!(uses("a.jpeg", DecoderKind::TurboJpeg));
    assert!(uses("a.HEIF", DecoderKind::Heif));
    assert!(!uses("a.txt", DecoderKind::Image));
}

#[test]
fn settings_key_and_stored_values() {
    let heif = for_path("photo.heic").unwrap();
    assert_eq!(setting_key(&heif), "format-enabled-heif");
    assert!(enabled_from_setting(None));
    assert!(enabled_from_setting(Some("true")));
    assert!(!enabled_from_setting(Some("false")));
    assert!(enabled_from_setting(Some("False")));
    assert_eq!(enabled_setting_value(true), "true");
    assert_eq!(enabled_setting_value(false), "false");
}

#[test]
fn enabled_formats_filter_paths() {
    let enabled = vec!["jpeg".to_string(), "png".to_string()];
    assert!(path_is_enabled_in(&enabled, "a.JPG"));
    assert!(path_is_enabled_in(&enabled, "b.png"));
    assert!(!path_is_enabled_in(&enabled, "c.heic"));
    assert!(!path_is_enabled_in(&enabled, "d.txt"));
    assert!(!path_is_enabled_in(&[], "a.jpg"));
}
