use pickture::browse::{
    cell_look, counts, judgement_label, switcher_rows, BrowseEvent, BrowseState, Tone,
};
use pickture::chrome::{InfoBar, Status};
use pickture::control::{
    canvas_shows, decode_window, plan_keys, scan_progress, CanvasShows, Command, KeyContext, KeyInput,
};
use pickture::enhance::{
    bar_sums, erase_last, levels_touched, panel_outcome, quarter_turned, type_into, EnhanceEvent, BARS,
};
use pickture::mark::{app_icon, rgba_icon};
use pickture::model::{Destination, EffectSpec, ExifSummary, Frame, Judgement};
use pickture::paths::{sessions_file, thumbnail_cache_dir};
use pickture::select::MenuInput;
use pickture::session::{PersistedSession, Session, SessionStore};
use pickture::table::FrameTable;
use pickture::tokens::{mode_for, Mode};

fn keys() -> KeyInput {
    KeyInput {
        next: false,
        prev: false,
        enter: false,
        escape: false,
        pass: false,
        e: false,
        o: false,
        s: false,
        rotate_left: false,
        rotate_right: false,
        slash: false,
        z_down: false,
        shift: false,
        ctrl: false,
    }
}

fn gallery() -> KeyContext {
    KeyContext { popover_open: false, enhance_open: false, editing: false, has_session: true }
}

fn no_input() -> MenuInput {
    MenuInput {
        clicked_row: None,
        browse_clicked: false,
        down: false,
        up: false,
        escape: false,
        enter: false,
        click_outside: false,
    }
}

fn session_of(n: usize) -> Session {
    Session {
        folder: "/x".to_string(),
        frames: (0..n).map(|i| Frame::new(format!("/x/{i}.jpg"), 0, None)).collect(),
        cursor: 0,
        judgement: FrameTable::new(),
        edits: FrameTable::new(),
        destination: Destination::default(),
        remembered_destinations: Vec::new(),
        already_in_destination: Vec::new(),
    }
}

#[test]
fn enter_enhances_and_ctrl_enter_keeps_as_shot() {
    let plan = plan_keys(gallery(), KeyInput { enter: true, ..keys() });
    assert_eq!(plan.commands, vec![Command::OpenEnhance]);
    let plan = plan_keys(gallery(), KeyInput { enter: true, ctrl: true, ..keys() });
    assert_eq!(plan.commands, vec![Command::KeepAsShot]);
    let plan = plan_keys(gallery(), KeyInput { o: true, shift: true, rotate_left: true, z_down: true, ..keys() });
    assert_eq!(plan.commands, vec![Command::BrowseFolder, Command::Rotate(-1)]);
    assert_eq!(plan.zoom, Some(true));
}

#[test]
fn popovers_and_the_modal_own_the_keys() {
    let popover = KeyContext { popover_open: true, ..gallery() };
    let plan = plan_keys(popover, KeyInput { next: true, ..keys() });
    assert!(plan.commands.is_empty());
    assert_eq!(plan.zoom, None);
    let modal = KeyContext { enhance_open: true, ..gallery() };
    assert_eq!(plan_keys(modal, KeyInput { enter: true, ..keys() }).commands, vec![Command::ConfirmEnhance]);
    let typing = KeyContext { enhance_open: true, editing: true, ..gallery() };
    assert!(plan_keys(typing, KeyInput { enter: true, ..keys() }).commands.is_empty());
    assert_eq!(plan_keys(typing, KeyInput { escape: true, ..keys() }).commands, vec![Command::CloseEnhance]);
}

#[test]
fn decodes_walk_outwards_from_the_cursor() {
    assert_eq!(
        decode_window(2, 5, 3),
        vec![(2, 0), (3, 1), (1, 1), (4, 2), (0, 2)]
    );
    assert_eq!(decode_window(0, 0, 3), vec![]);
    assert_eq!(decode_window(9, 3, 8), vec![(2, 7), (1, 8)]);
}

#[test]
fn the_scan_total_stays_ahead_of_what_was_probed() {
    assert_eq!(scan_progress(None, 0), (0, 1));
    assert_eq!(scan_progress(Some((16, 40)), 32), (32, 40));
    assert_eq!(scan_progress(Some((16, 20)), 32), (32, 33));
}

#[test]
fn counts_and_cells_read_the_judgements() {
    let mut s = session_of(3);
    s.judgement.insert("1.jpg".to_string(), Judgement::Kept);
    s.judgement.insert("2.jpg".to_string(), Judgement::Passed);
    s.cursor = 0;
    assert_eq!(counts(&s), (1, 3, 1, 1));
    let f0 = s.frames[0].duplicate();
    let look = cell_look(&s, &f0, 0, false);
    assert_eq!(look.rail, Tone::RailCurrent);
    assert_eq!(look.state_text, "▸");
    let f1 = s.frames[1].duplicate();
    let look = cell_look(&s, &f1, 1, false);
    assert!(look.kept && look.notch_full);
    assert_eq!(look.rail, Tone::Sodium);
    assert_eq!(judgement_label(&s, &f1), ("KEPT", true));
    let f2 = s.frames[2].duplicate();
    assert_eq!(judgement_label(&s, &f2), ("passed", false));
    assert_eq!(cell_look(&s, &f2, 2, true).rail, Tone::Sodium);
}

#[test]
fn the_switcher_lists_recent_folders_and_marks_the_active_one() {
    let mut store = SessionStore::default();
    store.touch_recent("/a");
    store.touch_recent("/b");
    let mut p = PersistedSession::empty();
    p.frame_count = 3;
    store.put("/a".to_string(), p);
    let rows = switcher_rows(&store, Some("/a/"));
    assert_eq!(rows.len(), 2);
    assert_eq!(rows[0], ("/b".to_string(), "not started".to_string(), false));
    assert_eq!(rows[1], ("/a".to_string(), "3 frames · not started".to_string(), true));

    let names: Vec<String> = rows.iter().map(|r| r.0.clone()).collect();
    let mut state = BrowseState::default();
    state.open_switcher();
    let down = MenuInput { down: true, ..no_input() };
    assert_eq!(state.switcher_step(&names, down), None);
    let enter = MenuInput { enter: true, ..no_input() };
    assert_eq!(state.switcher_step(&names, enter), Some(BrowseEvent::OpenFolder("/a".to_string())));
    state.close_popovers();
    assert!(!state.switcher_open);
    state.open_switcher();
    assert_eq!(state.switcher_step(&vec![], no_input()), Some(BrowseEvent::BrowseForFolder));
    assert!(!state.switcher_open);
}

#[test]
fn the_picker_opens_recent_folders() {
    let recent: Vec<String> = (0..8).map(|i| format!("/r{i}")).collect();
    let mut state = BrowseState::default();
    state.recent_index = 9;
    assert_eq!(state.picker_clicks(&recent, None, false), None);
    assert_eq!(state.recent_index, 5);
    assert_eq!(state.picker_keys(&recent, false, true, false, true), Some(BrowseEvent::OpenFolder("/r4".to_string())));
    assert_eq!(state.picker_keys(&recent, false, false, true, false), Some(BrowseEvent::BrowseForFolder));
    assert_eq!(state.picker_clicks(&recent, Some(1), true), Some(BrowseEvent::OpenFolder("/r1".to_string())));
}

#[test]
fn the_status_bar_says_where_you_are() {
    let status = Status { position: 3, total: 40, kept: 2, passed: 1, decode_ms: 12, notice: None, show_all_shortcuts: false };
    assert_eq!(status.items(), vec!["3 / 40", "2 kept", "1 passed", "decode 12ms"]);
    assert_eq!(status.hints().len(), 5);
    let notice = Status { notice: Some("can't write"), show_all_shortcuts: true, ..status };
    assert_eq!(notice.items(), vec!["can't write"]);
    assert_eq!(notice.hints().len(), 8);
}

#[test]
fn the_info_bar_shows_the_exposure_line() {
    let exif = ExifSummary { shutter: Some("1/250".into()), aperture: None, iso: Some("ISO 200".into()), focal: None };
    let dest = Destination::default();
    let bar = InfoBar { filename: "a.jpg", exif: Some(&exif), already_kept: false, destination: &dest, destination_open: false };
    assert_eq!(bar.exif_text().as_deref(), Some("1/250 · ISO 200"));
    let empty = ExifSummary { shutter: None, aperture: None, iso: None, focal: None };
    let bar = InfoBar { exif: Some(&empty), ..bar };
    assert_eq!(bar.exif_text(), None);
}

#[test]
fn every_bin_is_gathered_into_one_bar() {
    let bins = vec![7u32; 256];
    let bars = bar_sums(&bins);
    assert_eq!(bars.len(), BARS);
    assert_eq!(bars.iter().map(|b| b.1).sum::<usize>(), 256);
    for (sum, width) in bars {
        assert_eq!(sum, 7 * width as u64);
    }
}

#[test]
fn exact_entry_keeps_digits_and_points() {
    let mut buffer = String::from("1");
    type_into(&mut buffer, "2a.5x");
    assert_eq!(buffer, "12.5");
    erase_last(&mut buffer);
    assert_eq!(buffer, "12.");
}

#[test]
fn a_change_wins_and_confirm_waits_for_the_write() {
    let spec = EffectSpec::default();
    assert_eq!(panel_outcome(spec, true, false, true, false), Some(EnhanceEvent::SpecChanged(spec)));
    assert_eq!(panel_outcome(spec, false, true, true, false), Some(EnhanceEvent::Confirm));
    assert_eq!(panel_outcome(spec, false, false, true, true), None);
    assert_eq!(panel_outcome(spec, false, true, true, true), Some(EnhanceEvent::Cancel));
    assert_eq!(panel_outcome(spec, false, true, false, false), Some(EnhanceEvent::Cancel));
    assert_eq!(panel_outcome(spec, false, false, false, false), None);
}

#[test]
fn the_icon_is_drawn_from_the_three_rectangles() {
    let size = 32u32;
    let icon = rgba_icon(size, [0, 0, 0, 255], [1, 1, 1, 255], [2, 2, 2, 255]);
    assert_eq!(icon.len(), 32 * 32 * 4);
    let px = |x: usize, y: usize| icon[(y * 32 + x) * 4];
    assert_eq!(px(0, 0), 0);
    assert_eq!(px(4, 5), 2);
    assert_eq!(px(21, 13), 2);
    assert_eq!(px(22, 13), 0);
    assert_eq!(px(4, 18), 1);
    assert_eq!(px(27, 26), 1);
    // Tiny sizes are drawn at eight pixels.
    assert_eq!(rgba_icon(2, [0; 4], [1; 4], [2; 4]).len(), 8 * 8 * 4);
    let app = app_icon(16);
    assert_eq!(&app[..4], &[0x17, 0x18, 0x1A, 0xFF]);
}

#[test]
fn light_only_when_chosen() {
    assert_eq!(mode_for(Some(true)), Mode::Light);
    assert_eq!(mode_for(Some(false)), Mode::Dark);
    assert_eq!(mode_for(None), Mode::Dark);
}

#[test]
fn the_record_and_the_cache_have_fixed_names() {
    assert!(sessions_file().ends_with("sessions.json"));
    if let Some(dir) = thumbnail_cache_dir() {
        assert!(dir.ends_with("thumbnails"));
    }
}

#[test]
fn touching_a_handle_selects_levels_and_turns_stay_in_range() {
    let spec = EffectSpec::default();
    let touched = levels_touched(spec);
    assert_eq!(touched.mode, pickture::model::EffectMode::Levels);
    assert_eq!(touched.low, spec.low);
    assert_eq!(quarter_turned(spec, 1).map(|s| s.quarter_turns), Some(spec.quarter_turns + 1));
    let mut far = spec;
    far.quarter_turns = i32::MAX;
    assert!(quarter_turned(far, 1).is_none());
    assert_eq!(quarter_turned(far, -1).map(|s| s.quarter_turns), Some(i32::MAX - 1));
}

#[test]
fn a_frame_keeps_its_identity_in_any_folder() {
    assert_eq!(pickture::frame_id("/a/b/IMG_1.jpg"), "IMG_1.jpg");
    assert_eq!(pickture::frame_id("/c/IMG_1.jpg"), "IMG_1.jpg");
    assert_eq!(pickture::frame_id("/"), "");
}

#[test]
fn the_canvas_says_empty_only_once_the_scan_is_over() {
    assert_eq!(canvas_shows(true, false, false, false, false), CanvasShows::EmptyFolder);
    assert_eq!(canvas_shows(true, true, false, false, false), CanvasShows::Decoding);
    assert_eq!(canvas_shows(false, false, true, true, true), CanvasShows::Unreadable);
    assert_eq!(canvas_shows(false, false, true, false, true), CanvasShows::Image);
    assert_eq!(canvas_shows(false, false, true, false, false), CanvasShows::Decoding);
}
