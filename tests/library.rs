use tasktray_chime::audio::generate_test_audio;
use tasktray_chime::audio::SoundCache;
use tasktray_chime::config::Config;
use tasktray_chime::logging::level_from_folded;
use tasktray_chime::logging::parse_level;
use tasktray_chime::logging::stale_logs;
use tasktray_chime::logging::LogFile;
use tasktray_chime::logging::LogLevel;
use tasktray_chime::tray::action_for;
use tasktray_chime::tray::event_for_menu_id;
use tasktray_chime::tray::fallback_icon_rgba;
use tasktray_chime::tray::menu_id;
use tasktray_chime::tray::menu_label;
use tasktray_chime::tray::plain_icon_rgba;
use tasktray_chime::tray::TrayAction;
use tasktray_chime::tray::TrayMenuEvent;

#[test]
fn default_config_values() {
    let c = Config::default_in("/var/log/chime".to_string());
    assert_eq!(c.logging.level, "info");
    assert_eq!(c.logging.directory, "/var/log/chime");
    assert!(c.logging.rotate);
    assert_eq!(c.logging.max_files, 7);
    assert_eq!(c.audio.global_volume, 80);
    assert_eq!(c.schedules.len(), 1);
    assert_eq!(c.schedules[0].id, "hourly_chime");
    assert_eq!(c.schedules[0].cron, "0 * * * *");
    assert_eq!(c.schedules[0].file, "./audios/chime.wav");
    assert!(c.schedules[0].enabled);
    assert_eq!(c.behavior.retry_on_fail, 0);
    assert_eq!(c.behavior.retry_delay_seconds, 5);
}

#[test]
fn load_or_create_default_prefers_existing() {
    let mut existing = Config::default_in("./logs".to_string());
    existing.audio.global_volume = 20;
    let (c, create) = Config::load_or_create_default(Some(existing), "./other".to_string());
    assert!(!create);
    assert_eq!(c.audio.global_volume, 20);
    assert_eq!(c.logging.directory, "./logs");
    let (d, create) = Config::load_or_create_default(None, "./other".to_string());
    assert!(create);
    assert_eq!(d.logging.directory, "./other");
    assert_eq!(d.audio.global_volume, 80);
}

#[test]
fn level_names_in_any_case() {
    assert_eq!(parse_level("DEBUG"), LogLevel::Debug);
    assert_eq!(parse_level("Warn"), LogLevel::Warn);
    assert_eq!(parse_level("trace"), LogLevel::Trace);
    assert_eq!(parse_level("ERROR"), LogLevel::Error);
    assert_eq!(parse_level("verbose"), LogLevel::Info);
    assert_eq!(level_from_folded("error"), LogLevel::Error);
    assert_eq!(level_from_folded("ERROR"), LogLevel::Info);
}

fn file(name: &str, modified: u128, is_log: bool) -> LogFile {
    LogFile { name: name.to_string(), modified, is_log }
}

#[test]
fn stale_logs_keep_the_newest() {
    let files = vec![
        file("a.log", 10, true),
        file("b.log", 30, true),
        file("notes.txt", 1, false),
        file("c.log", 20, true),
        file("d.log", 5, true),
    ];
    assert_eq!(stale_logs(&files, 2), vec!["a.log".to_string(), "d.log".to_string()]);
    assert!(stale_logs(&files, 4).is_empty());
    assert_eq!(stale_logs(&files, 0).len(), 4);
}

#[test]
fn stale_logs_ties_keep_the_later_listed() {
    let files = vec![file("x.log", 7, true), file("y.log", 7, true)];
    assert_eq!(stale_logs(&files, 1), vec!["x.log".to_string()]);
}

#[test]
fn wav_header_and_samples() {
    let b = generate_test_audio(&vec![0i16, -1, 256], 44100).unwrap();
    assert_eq!(b.len(), 44 + 6);
    assert_eq!(&b[0..4], b"RIFF");
    assert_eq!(&b[4..8], &(36u32 + 6).to_le_bytes());
    assert_eq!(&b[8..16], b"WAVEfmt ");
    assert_eq!(&b[16..20], &16u32.to_le_bytes());
    assert_eq!(&b[20..24], &[1, 0, 1, 0]);
    assert_eq!(&b[24..28], &44100u32.to_le_bytes());
    assert_eq!(&b[28..32], &88200u32.to_le_bytes());
    assert_eq!(&b[32..36], &[2, 0, 16, 0]);
    assert_eq!(&b[36..40], b"data");
    assert_eq!(&b[40..44], &6u32.to_le_bytes());
    assert_eq!(&b[44..], &[0, 0, 0xff, 0xff, 0, 1]);
}

#[test]
fn wav_rate_too_high_is_refused() {
    assert!(generate_test_audio(&vec![], 3_000_000_000).is_none());
    assert_eq!(generate_test_audio(&vec![], 8000).unwrap().len(), 44);
}

#[test]
fn menu_ids_round_trip() {
    for e in [
        TrayMenuEvent::ToggleAutoStart,
        TrayMenuEvent::OpenConfig,
        TrayMenuEvent::OpenLogsDir,
        TrayMenuEvent::Exit,
    ] {
        assert_eq!(event_for_menu_id(menu_id(e)), Some(e));
    }
    assert_eq!(event_for_menu_id("open_logs"), Some(TrayMenuEvent::OpenLogsDir));
    assert_eq!(event_for_menu_id("unknown"), None);
}

#[test]
fn menu_labels_follow_autostart_state() {
    assert_eq!(menu_label(TrayMenuEvent::ToggleAutoStart, true), "自動起動を無効化 (現在: 有効)");
    assert_eq!(menu_label(TrayMenuEvent::ToggleAutoStart, false), "自動起動を有効化 (現在: 無効)");
    assert_eq!(menu_label(TrayMenuEvent::Exit, false), "終了");
}

#[test]
fn toggle_flips_autostart() {
    assert_eq!(action_for(TrayMenuEvent::ToggleAutoStart, true), TrayAction::SetAutoStart(false));
    assert_eq!(action_for(TrayMenuEvent::ToggleAutoStart, false), TrayAction::SetAutoStart(true));
    assert_eq!(action_for(TrayMenuEvent::Exit, false), TrayAction::Exit);
    assert_eq!(action_for(TrayMenuEvent::OpenConfig, true), TrayAction::OpenConfig);
}

#[test]
fn bell_icon_pixels() {
    let px = fallback_icon_rgba();
    assert_eq!(px.len(), 1024);
    let at = |x: usize, y: usize| &px[(y * 16 + x) * 4..(y * 16 + x) * 4 + 4];
    assert_eq!(at(8, 8), &[255, 200, 100, 255]);
    assert_eq!(at(9, 9), &[255, 200, 100, 255]);
    assert_eq!(at(8, 5), &[255, 255, 255, 255]);
    assert_eq!(at(8, 2), &[255, 255, 255, 255]);
    assert_eq!(at(8, 1), &[200, 200, 200, 180]);
    assert_eq!(at(10, 9), &[0, 0, 0, 0]);
    assert_eq!(at(0, 0), &[0, 0, 0, 0]);
}

#[test]
fn sound_cache_load_replace_unload() {
    let mut c = SoundCache::new(80);
    assert_eq!(c.get_global_volume(), 80);
    c.preload_sound("a.wav".to_string(), vec![1, 2]);
    c.preload_sound("b.wav".to_string(), vec![3]);
    c.preload_sound("a.wav".to_string(), vec![9]);
    assert_eq!(c.get_preloaded_sounds(), vec!["a.wav".to_string(), "b.wav".to_string()]);
    assert_eq!(c.sound("a.wav"), Some(&vec![9u8]));
    assert_eq!(c.sound("c.wav"), None);
    c.unload_sound("a.wav");
    assert_eq!(c.get_preloaded_sounds(), vec!["b.wav".to_string()]);
    c.unload_sound("missing.wav");
    assert_eq!(c.get_preloaded_sounds().len(), 1);
    c.clear_preloaded_sounds();
    assert!(c.get_preloaded_sounds().is_empty());
}

#[test]
fn volume_is_capped_at_one_hundred() {
    let mut c = SoundCache::new(50);
    c.set_global_volume(150);
    assert_eq!(c.get_global_volume(), 100);
    c.set_global_volume(30);
    assert_eq!(c.get_global_volume(), 30);
}

#[test]
fn plain_icon_is_half_white() {
    let px = plain_icon_rgba();
    assert_eq!(px.len(), 1024);
    assert_eq!(&px[0..8], &[255, 255, 255, 128, 255, 255, 255, 128]);
    assert_eq!(&px[1020..], &[255, 255, 255, 128]);
}
