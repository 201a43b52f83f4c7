use accessibility_daemon::desktop::{
    applications_dir, capture_dir, is_image_extension, is_ocr_line_sample, capture_error_message, desktop_entry_contents, is_stale_capture,
    resolve_asset_path, shortcut_instructions, socket_path, CAPTURE_PREFIX,
};

#[test]
fn asset_paths_join_with_a_slash() {
    assert_eq!(resolve_asset_path("./assets", "deinflect.json"), "./assets/deinflect.json");
    assert_eq!(resolve_asset_path("", "x"), "/x");
}

#[test]
fn shortcut_instructions_name_the_executable() {
    let text = shortcut_instructions("/usr/bin/accessibility_daemon");
    assert!(text.starts_with("Bind a global shortcut (KDE Plasma):\n"));
    assert!(text.contains("  Command: /usr/bin/accessibility_daemon --capture\n"));
    assert!(text.ends_with("fires a second viewer for the same image."));
    assert!(text.contains("Suggested keys: Meta+Print, or Ctrl+Alt+S.\n"));
}

#[test]
fn usage_names_the_program_everywhere() {
    let text = accessibility_daemon::desktop::usage_text("jd");
    assert!(text.starts_with("InstantJPDict accessibility overlay — OCR and dictionary daemon\n\nUSAGE:\n  jd [OPTIONS] <IMAGE_PATH>\n"));
    assert_eq!(text.matches("jd ").count() + text.matches("jd\n").count(), 15);
    assert!(text.contains("  jd --capture --vert\n"));
    assert!(text.ends_with("  F1                         Show/hide the detection tuning HUD\n"));
}

#[test]
fn refused_screenshots_get_advice() {
    let denied = capture_error_message("org.kde.KWin.ScreenShot2.Error.NoAuthorized", "/bin/jd").unwrap();
    assert!(denied.contains("Try `/bin/jd --setup-capture` again"));
    assert!(denied.starts_with("KWin still refuses the screenshot"));
    let missing = capture_error_message("org.freedesktop.DBus.Error.ServiceUnknown", "x").unwrap();
    assert!(missing.starts_with("KWin's ScreenShot2 D-Bus service is not available.\n"));
    assert_eq!(
        capture_error_message("org.kde.KWin.ScreenShot2.Error.NoActiveWindow", "x").as_deref(),
        Some("no window is focused, so there is nothing to capture")
    );
    assert_eq!(capture_error_message("org.example.Other", "x"), None);
}

#[test]
fn captures_prefer_the_runtime_directory() {
    assert_eq!(capture_dir(Some("/run/user/1000"), "/data"), "/run/user/1000/accessibility_daemon/captures");
    assert_eq!(capture_dir(Some("/run/user/1000/"), "/data"), "/run/user/1000/accessibility_daemon/captures");
    assert_eq!(capture_dir(Some(""), "/data"), "/data/captures");
    assert_eq!(capture_dir(None, "/data/"), "/data/captures");
    assert_eq!(capture_dir(None, ""), "captures");
}

#[test]
fn only_day_old_captures_are_pruned() {
    let day: u128 = 86_400_000_000_000;
    let name = format!("{CAPTURE_PREFIX}1700000000000.png");
    assert!(is_stale_capture(&name, Some(day + 1)));
    assert!(!is_stale_capture(&name, Some(day)));
    assert!(!is_stale_capture(&name, None));
    assert!(!is_stale_capture("screenshot.png", Some(day * 2)));
    assert!(!is_stale_capture("instantjp_capture", Some(day * 2)));
}

#[test]
fn the_desktop_entry_runs_capture_mode() {
    let text = desktop_entry_contents("/opt/jd");
    assert_eq!(
        text,
        "[Desktop Entry]\nType=Application\nName=InstantJPDict Capture\nComment=Authorizes the InstantJPDict daemon to take screenshots with KWin\nExec=/opt/jd --capture\nTerminal=false\nStartupNotify=false\nNoDisplay=true\nX-KDE-DBUS-Restricted-Interfaces=org.kde.KWin.ScreenShot2\n"
    );
}

#[test]
fn desktop_files_go_under_the_data_home() {
    assert_eq!(applications_dir(Some("/x/share"), Some("/home/u")).as_deref(), Some("/x/share/applications"));
    assert_eq!(applications_dir(Some(""), Some("/home/u")).as_deref(), Some("/home/u/.local/share/applications"));
    assert_eq!(applications_dir(None, Some("/home/u")).as_deref(), Some("/home/u/.local/share/applications"));
    assert_eq!(applications_dir(None, None), None);
}

#[test]
fn the_pipeline_socket_lives_in_the_home_directory() {
    assert_eq!(socket_path(Some("/home/u")), "/home/u/.local/share/accessibility_daemon/booocr.sock");
    assert_eq!(socket_path(None), "/tmp/booocr.sock");
}

#[test]
fn batch_mode_reads_images_but_not_its_own_samples() {
    for ext in ["png", "PNG", "jpg", "Jpeg", "bmp", "WebP"] {
        assert!(is_image_extension(ext), "{ext}");
    }
    for ext in ["gif", "png ", "", "jpe", "txt"] {
        assert!(!is_image_extension(ext), "{ext}");
    }
    assert!(is_ocr_line_sample("ocr_line_1700000000_3.png"));
    assert!(!is_ocr_line_sample("my_ocr_line_3.png"));
    assert!(!is_ocr_line_sample("ocr_lin"));
}
