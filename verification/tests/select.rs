use pickture::clock::{civil_from_days, date_stamp, today_stamp};
use pickture::model::{Destination, EffectMode, EffectSpec};
use pickture::select::{
    check_destination, next_counter, options, options_dated, output_name, MenuInput, SelectEvent,
    SelectState,
};

fn no_input() -> MenuInput {
    MenuInput {
        clicked_row: None,
        browse_clicked: false,
        down: false,
        up: false,
        escape: false,
        enter: false,
        click_outside: false,
    }
}

#[test]
fn suffix_matches_the_mode() {
    assert_eq!(EffectMode::Original.suffix(), "_ORIG");
    assert_eq!(EffectMode::WbValue.suffix(), "_WBV");
    assert_eq!(EffectMode::WbRgb.suffix(), "_WBRGB");
    assert_eq!(EffectMode::Levels.suffix(), "_CUSTOM");
}

#[test]
fn options_always_offer_the_default_first() {
    let opts = options(&vec![]);
    assert_eq!(opts[0], Destination::InWorkingFolder("selection".into()));
    assert!(matches!(opts.last(), Some(Destination::Dated { .. })));
}

#[test]
fn remembered_absolutes_are_offered() {
    let opts = options(&vec!["D:/deliver/picks".to_string()]);
    assert_eq!(opts.len(), 3);
    assert!(matches!(opts[1], Destination::Absolute(_)));
}

#[test]
fn the_dated_choice_carries_the_given_date() {
    let opts = options_dated(&vec![], "2026-08-16".to_string());
    assert_eq!(
        opts[1],
        Destination::Dated { root: "selection".into(), date: "2026-08-16".into() }
    );
}

#[test]
fn destination_choices_resolve_to_distinct_folders() {
    let working = "D:/shoots/harbour";

    let default = Destination::InWorkingFolder("selection".into());
    assert_eq!(default.resolve(working), "D:/shoots/harbour/selection");

    let absolute = Destination::Absolute("E:/deliver/picks".to_string());
    assert_eq!(absolute.resolve(working), "E:/deliver/picks");

    let dated = Destination::Dated { root: "selection".into(), date: "2026-08-16".into() };
    assert_eq!(dated.resolve(working), "D:/shoots/harbour/selection/2026-08-16");

    // A second pass never collides with the first.
    assert_ne!(dated.resolve(working), default.resolve(working));
}

#[test]
fn destination_inside_the_frame_set_is_refused() {
    let dir = "/tmp/pickture-test-same";
    let dest = Destination::InWorkingFolder(".".into());
    // `.` resolves back onto the working folder itself.
    let resolved = dest.resolve(dir);
    assert_eq!(resolved, "/tmp/pickture-test-same/.");
    assert!(check_destination(&dest, dir).is_err());
    assert!(check_destination(&Destination::Absolute(dir.to_string()), dir).is_err());
    assert_eq!(
        check_destination(&Destination::default(), dir),
        Ok("/tmp/pickture-test-same/selection".to_string())
    );
}

#[test]
fn collision_appends_a_counter() {
    let spec = EffectSpec::default();
    let mut taken: Vec<String> = Vec::new();
    let pick = |taken: &Vec<String>| {
        let mut n = 1u32;
        loop {
            let name = output_name("_DSC1", spec.mode, "jpg", n);
            match next_counter(n, taken.contains(&name)) {
                None => return (name, n > 1),
                Some(m) => n = m,
            }
        }
    };
    let (first, collided) = pick(&taken);
    assert!(!collided);
    assert!(first.ends_with("_DSC1_ORIG.jpg"));

    taken.push(first);
    let (second, collided) = pick(&taken);
    assert!(collided);
    assert!(second.ends_with("_DSC1_ORIG_2.jpg"));
}

#[test]
fn the_counter_stops_at_a_hundred() {
    assert_eq!(next_counter(1, false), None);
    assert_eq!(next_counter(1, true), Some(2));
    assert_eq!(next_counter(99, true), Some(100));
    assert_eq!(next_counter(100, true), None);
    assert_eq!(output_name("a", EffectMode::Levels, "png", 12), "a_CUSTOM_12.png");
}

#[test]
fn the_menu_opens_on_the_first_row_and_enter_picks_it() {
    let opts = options_dated(&vec!["/deliver".to_string()], "2026-01-02".to_string());
    let mut state = SelectState::default();
    assert_eq!(state.menu_step(&opts, no_input()), None);
    state.open();
    // The click that opened it does not also close it.
    let outside = MenuInput { click_outside: true, ..no_input() };
    assert_eq!(state.menu_step(&opts, outside), None);
    assert_eq!(state.menu_step(&opts, outside), Some(SelectEvent::CloseMenu));
    let down = MenuInput { down: true, ..no_input() };
    state.menu_step(&opts, down);
    state.menu_step(&opts, down);
    state.menu_step(&opts, down);
    assert_eq!(state.index, 2);
    let enter = MenuInput { enter: true, ..no_input() };
    assert_eq!(
        state.menu_step(&opts, enter),
        Some(SelectEvent::SetDestination(Destination::Dated { root: "selection".into(), date: "2026-01-02".into() }))
    );
    let esc = MenuInput { escape: true, browse_clicked: true, ..no_input() };
    assert_eq!(state.menu_step(&opts, esc), Some(SelectEvent::CloseMenu));
}

#[test]
fn the_epoch_is_new_years_day_1970() {
    assert_eq!(civil_from_days(0), (1970, 1, 1));
    assert_eq!(civil_from_days(-1), (1969, 12, 31));
    assert_eq!(civil_from_days(20_681), (2026, 8, 16));
    assert_eq!(civil_from_days(11_016), (2000, 2, 29));
    assert_eq!(date_stamp(20_681), "2026-08-16");
}

#[test]
fn today_is_a_date_stamp() {
    let t = today_stamp();
    assert_eq!(t.len(), 10);
    assert_eq!(&t[4..5], "-");
    assert_eq!(&t[7..8], "-");
    assert!(t.chars().filter(|c| *c != '-').all(|c| c.is_ascii_digit()));
}
