use pickture::model::{Destination, EffectSpec, Frame, Judgement};
use pickture::natural::natural_cmp;
use pickture::select::WriteOutcome;
use pickture::session::{
    age_label, output_extension, relative_age, PersistedSession, Session, SessionStore,
};
use pickture::table::FrameTable;
use std::cmp::Ordering;

fn session_with(frames: Vec<Frame>) -> Session {
    Session {
        folder: "/x".to_string(),
        frames,
        cursor: 0,
        judgement: FrameTable::new(),
        edits: FrameTable::new(),
        destination: Destination::default(),
        remembered_destinations: Vec::new(),
        already_in_destination: Vec::new(),
    }
}

fn frames(prefix: &str, n: usize) -> Vec<Frame> {
    (0..n).map(|i| Frame::new(format!("{prefix}/{i}.jpg"), 0, None)).collect()
}

#[test]
fn natural_order_puts_9_before_10() {
    let mut names = vec![
        "_DSC10.jpg".to_string(),
        "_DSC9.jpg".to_string(),
        "_DSC100.jpg".to_string(),
        "_DSC1.jpg".to_string(),
    ];
    names.sort_by(|a, b| natural_cmp(a, b));
    assert_eq!(names, vec!["_DSC1.jpg", "_DSC9.jpg", "_DSC10.jpg", "_DSC100.jpg"]);
}

#[test]
fn natural_order_ignores_leading_zeros_but_is_stable() {
    assert_eq!(natural_cmp("a007", "a7"), Ordering::Equal);
    assert_eq!(natural_cmp("a08", "a9"), Ordering::Less);
}

#[test]
fn natural_order_folds_case_and_is_antisymmetric() {
    assert_eq!(natural_cmp("B2.jpg", "a10.jpg"), Ordering::Greater);
    assert_eq!(natural_cmp("img.JPG", "IMG.jpg"), Ordering::Equal);
    assert_eq!(natural_cmp("a", "a1"), Ordering::Less);
    assert_eq!(natural_cmp("a1", "a"), Ordering::Greater);
}

#[test]
fn advance_clamps_at_both_ends() {
    let mut s = session_with(frames("/x", 3));
    s.advance(-1);
    assert_eq!(s.cursor, 0);
    s.advance(10);
    assert_eq!(s.cursor, 2);
    s.advance(-1);
    assert_eq!(s.cursor, 1);
}

#[test]
fn identity_effects_are_not_stored() {
    let mut s = session_with(vec![]);
    s.set_effect("a.jpg".into(), EffectSpec::default());
    assert!(s.edits.is_empty());
    let spec = EffectSpec { quarter_turns: 1, ..Default::default() };
    s.set_effect("a.jpg".into(), spec);
    assert_eq!(s.edits.len(), 1);
}

#[test]
fn recent_is_most_recent_first_and_deduped() {
    let mut store = SessionStore::default();
    store.touch_recent("/a");
    store.touch_recent("/b");
    store.touch_recent("/a");
    assert_eq!(store.recent, vec!["/a".to_string(), "/b".to_string()]);
}

#[test]
fn recent_list_holds_twelve_and_treats_a_trailing_slash_as_the_same_folder() {
    let mut store = SessionStore::default();
    for i in 0..20 {
        store.touch_recent(&format!("/shoots/{i}"));
    }
    assert_eq!(store.recent.len(), 12);
    assert_eq!(store.recent[0], "/shoots/19");
    store.touch_recent("/shoots/15/");
    assert_eq!(store.recent[0], "/shoots/15/");
    assert_eq!(store.recent.iter().filter(|p| p.starts_with("/shoots/15")).count(), 1);
}

#[test]
fn store_gives_back_what_was_put() {
    let mut store = SessionStore::default();
    assert_eq!(store.progress_line("/a"), "not started");
    let mut p = PersistedSession::empty();
    p.frame_count = 412;
    store.put("/a".to_string(), p);
    assert_eq!(store.progress_line("/a"), "412 frames · not started");
    let mut q = PersistedSession::empty();
    q.frame_count = 412;
    q.judgement.insert("x.jpg".to_string(), Judgement::Kept);
    q.judgement.insert("y.jpg".to_string(), Judgement::Passed);
    store.put("/a/".to_string(), q);
    assert_eq!(store.sessions.len(), 1);
    assert_eq!(store.progress_line("/a"), "412 frames · 2 seen · 1 kept");
    assert_eq!(store.get("/a").judgement.len(), 2);
    assert_eq!(store.get("/b").frame_count, 0);
}

#[test]
fn switching_folders_preserves_each_sessions_cursor_and_counts() {
    let mut store = SessionStore::default();
    let a = "/shoots/switch-a".to_string();
    let b = "/shoots/switch-b".to_string();
    let fa: Vec<Frame> = (0..5).map(|i| Frame::new(format!("{a}/a{i}.jpg"), 0, None)).collect();
    let fb: Vec<Frame> = (0..5).map(|i| Frame::new(format!("{b}/b{i}.jpg"), 0, None)).collect();

    // Work in A, land on the third frame, keep one.
    let mut sa = Session::open(a.clone(), store.get(&a), fa.clone(), None);
    sa.cursor = 2;
    sa.judgement.insert("a1.jpg".to_string(), Judgement::Kept);
    store.put(a.clone(), sa.to_persisted());
    store.touch_recent(&a);

    // Switch to B and work there.
    let mut sb = Session::open(b.clone(), store.get(&b), fb, None);
    sb.cursor = 4;
    store.put(b.clone(), sb.to_persisted());
    store.touch_recent(&b);

    // Coming back to A lands on the frame we left, with counts intact.
    let reopened = Session::open(a.clone(), store.get(&a), fa, None);
    assert_eq!(reopened.cursor, 2, "cursor was not restored");
    assert_eq!(reopened.kept_count(), 1, "keeps were lost");
    assert_eq!(store.recent.first(), Some(&b), "recent list should be most-recent-first");
    assert!(store.progress_line(&a).contains("1 kept"));
}

#[test]
fn already_kept_frames_are_detected_across_every_suffix() {
    let dir = "/shoots/kept".to_string();
    let names = ["a.jpg", "b.jpg", "c.jpg", "d.jpg", "e.jpg"];
    let fs: Vec<Frame> = names.iter().map(|n| Frame::new(format!("{dir}/{n}"), 0, None)).collect();
    let listing: Vec<String> = ["a_ORIG.jpg", "b_WBV.jpg", "c_WBRGB.jpg", "d_CUSTOM.jpg", "e_ORIG_2.jpg"]
        .iter()
        .map(|n| format!("{dir}/selection/{n}"))
        .collect();
    let session = Session::open(dir.clone(), PersistedSession::empty(), fs, Some(listing));
    for name in names {
        assert!(session.is_in_destination(name), "{name} was not recognised as already kept");
    }
    assert_eq!(session.kept_count(), 5);
}

#[test]
fn an_unreadable_destination_marks_nothing() {
    let session = Session::open("/d".to_string(), PersistedSession::empty(), frames("/d", 2), None);
    assert!(!session.is_in_destination("0.jpg"));
    assert_eq!(session.kept_count(), 0);
}

#[test]
fn judging_updates_the_counts() {
    let mut s = session_with(frames("/x", 3));
    assert!(s.pass_current());
    assert_eq!(s.cursor, 1);
    s.mark_kept("1.jpg".to_string(), EffectSpec::default());
    assert_eq!(s.kept_count(), 1);
    assert_eq!(s.passed_count(), 1);
    assert_eq!(s.seen_count(), 2);
    assert_eq!(s.judgement_of("0.jpg"), Some(Judgement::Passed));
}

#[test]
fn a_failed_write_unmarks_the_frame_and_a_renamed_one_says_so() {
    let mut s = session_with(frames("/x", 2));
    s.mark_kept("0.jpg".to_string(), EffectSpec::default());
    let failed = WriteOutcome {
        frame_id: "0.jpg".to_string(),
        written: None,
        renamed: false,
        error: Some("can't write".to_string()),
    };
    assert_eq!(s.record_write(&failed), Some("can't write".to_string()));
    assert_eq!(s.judgement_of("0.jpg"), None);
    let renamed = WriteOutcome {
        frame_id: "1.jpg".to_string(),
        written: Some("/x/selection/1_ORIG_2.jpg".to_string()),
        renamed: true,
        error: None,
    };
    assert_eq!(
        s.record_write(&renamed),
        Some("a different file had that name — wrote 1_ORIG_2.jpg".to_string())
    );
    assert!(s.is_in_destination("1.jpg"));
}

#[test]
fn rotating_and_selecting_follow_the_cursor() {
    let mut s = session_with(frames("/x", 4));
    s.select_frame(10);
    assert_eq!(s.cursor, 3);
    assert!(s.rotate_current(1));
    assert_eq!(s.effect_of("3.jpg").quarter_turns, 1);
    assert!(s.rotate_current(-1));
    assert!(s.edits.is_empty());
    let p = s.to_persisted_at(77);
    assert_eq!(p.cursor_id.as_deref(), Some("3.jpg"));
    assert_eq!(p.frame_count, 4);
    assert_eq!(p.last_opened_secs, 77);
}

#[test]
fn an_absolute_destination_is_remembered_once() {
    let mut s = session_with(vec![]);
    s.adopt_destination(Destination::Absolute("/deliver/picks".to_string()));
    s.adopt_destination(Destination::Absolute("/deliver/picks/".to_string()));
    assert_eq!(s.remembered_destinations, vec!["/deliver/picks".to_string()]);
    s.adopt_destination(Destination::default());
    assert_eq!(s.destination, Destination::default());
}

#[test]
fn ages_read_like_a_person_would_say_them() {
    assert_eq!(age_label(0, 1_000), "never");
    assert_eq!(age_label(1_000, 1_030), "just now");
    assert_eq!(age_label(1_000, 1_000 + 5 * 60), "5 min ago");
    assert_eq!(age_label(1_000, 1_000 + 3 * 3600), "3 h ago");
    assert_eq!(age_label(1_000, 1_000 + 90_000), "yesterday");
    assert_eq!(age_label(1_000, 1_000 + 3 * 86_400), "3 days ago");
    assert_eq!(age_label(1_000, 1_000 + 40 * 86_400), "5 weeks ago");
    assert_eq!(age_label(5_000, 1_000), "just now");
    assert_eq!(relative_age(0), "never");
}

#[test]
fn copies_keep_the_frame_extension_lower_case() {
    assert_eq!(output_extension("/x/a.JPG"), "jpg");
    assert_eq!(output_extension("/x/a.tiff"), "tiff");
    assert_eq!(output_extension("/x/a"), "jpg");
}

#[test]
fn numbers_inside_names_compare_by_value_and_case_does_not_matter() {
    assert_eq!(natural_cmp("x_123_y", "x_45_y"), Ordering::Greater);
    assert_eq!(natural_cmp("shoot-7.jpg", "shoot-70.jpg"), Ordering::Less);
    assert_eq!(natural_cmp("DSC_0042.JPG", "dsc_42.jpg"), Ordering::Equal);
    assert_eq!(natural_cmp("B1", "a2"), Ordering::Greater);
}
