use mixolume::level::Level;
use mixolume::poll::{
    lists_same, pushed_sessions, same_duck_flags, DevicePoll, PushedSession, SessionPoll,
    DUCK_TRANSITION_POLL_INTERVAL_NANOS, DUCK_TRANSITION_WINDOW_NANOS, POLL_INTERVAL_NANOS,
};
use mixolume::order::sort_sessions;
use mixolume::session::{AppSession, OutputDevice};
use mixolume::window::{
    is_open, monitor_containing, position_window_under_tray, HalfPoint, Rect, ShowAction, Size,
    TrayPlace, WindowShowState, POST_SHOW_BLUR_GUARD_NANOS,
};

fn session(id: &str, icon: Option<&[u8]>, volume: f32) -> AppSession {
    AppSession {
        id: id.to_string(),
        display_name: id.to_string(),
        icon_png: icon.map(<[u8]>::to_vec),
        volume: Level { bits: volume.to_bits() },
        effective_volume: Level { bits: volume.to_bits() },
        muted: false,
        balance: Level { bits: 0 },
        is_active: true,
        is_duck_trigger: false,
        is_ducked: false,
        write_generation: 0,
        output_device_id: None,
    }
}

fn payload(sessions: &[AppSession], last_pushed: Option<&[AppSession]>) -> Vec<PushedSession> {
    pushed_sessions(&sessions.to_vec(), &last_pushed.map(<[AppSession]>::to_vec))
}

#[test]
fn first_push_carries_every_icon() {
    let sessions = vec![session("a", Some(&[1, 2, 3]), 1.0)];
    assert_eq!(
        payload(&sessions, None)[0].icon_png,
        Some(Some(vec![1, 2, 3]))
    );
}

#[test]
fn unchanged_icon_is_omitted_from_a_later_push() {
    let first = vec![session("a", Some(&[1, 2, 3]), 1.0)];
    let second = vec![session("a", Some(&[1, 2, 3]), 0.5)];
    let pushed = payload(&second, Some(&first));
    assert!(
        pushed[0].icon_png.is_none(),
        "an icon the frontend already has must not be re-serialized into the payload"
    );
    assert_eq!(f32::from_bits(pushed[0].volume.bits), 0.5);
}

#[test]
fn a_changed_icon_is_sent_again() {
    let first = vec![session("a", Some(&[1, 2, 3]), 1.0)];
    let second = vec![session("a", Some(&[9]), 1.0)];
    assert_eq!(
        payload(&second, Some(&first))[0].icon_png,
        Some(Some(vec![9]))
    );
}

#[test]
fn a_session_the_previous_push_did_not_contain_always_carries_its_icon() {
    let first = vec![session("a", Some(&[1]), 1.0)];
    let second = vec![session("a", Some(&[1]), 1.0), session("b", Some(&[2]), 1.0)];
    let pushed = payload(&second, Some(&first));
    assert!(pushed[0].icon_png.is_none());
    assert_eq!(pushed[1].icon_png, Some(Some(vec![2])));
}

#[test]
fn an_app_with_no_icon_sends_an_explicit_null_once() {
    let sessions = vec![session("a", None, 1.0)];
    assert_eq!(
        payload(&sessions, None)[0].icon_png,
        Some(None)
    );
    assert!(payload(&sessions, Some(&sessions))[0]
        .icon_png
        .is_none());
}

#[test]
fn only_icons_are_left_out_of_a_push() {
    let mut full = session("a", Some(&[1]), 0.3);
    full.display_name = "A".to_string();
    full.effective_volume = Level { bits: 0.1f32.to_bits() };
    full.muted = true;
    full.balance = Level { bits: 0.2f32.to_bits() };
    full.is_active = false;
    full.is_duck_trigger = true;
    full.is_ducked = true;
    full.write_generation = 9;
    full.output_device_id = Some("d".to_string());
    let pushed = payload(&[full.clone()], Some(&[full.clone()])).remove(0);
    assert_eq!(
        pushed,
        PushedSession {
            id: full.id,
            display_name: full.display_name,
            icon_png: None,
            volume: full.volume,
            effective_volume: full.effective_volume,
            muted: true,
            balance: full.balance,
            is_active: false,
            is_duck_trigger: true,
            is_ducked: true,
            write_generation: 9,
            output_device_id: full.output_device_id,
        }
    );
}

#[test]
fn a_list_is_sent_when_it_changes_and_not_again() {
    let mut poll = SessionPoll::new();
    assert!(poll.on_sessions(vec![], 0).is_some(), "the first list, though empty");
    assert!(poll.on_sessions(vec![], 1).is_none());
    let sent = poll.on_sessions(vec![session("a", Some(&[1]), 1.0)], 2).unwrap();
    assert_eq!(sent[0].icon_png, Some(Some(vec![1])));
    assert!(poll.on_sessions(vec![session("a", Some(&[1]), 1.0)], 3).is_none());
    let sent = poll.on_sessions(vec![session("a", Some(&[1]), 0.9)], 4).unwrap();
    assert_eq!(sent[0].icon_png, None);
}

#[test]
fn lists_are_compared_as_numbers() {
    let with_volume = |v: f32| vec![session("a", None, v)];
    assert!(lists_same(&with_volume(0.0), &with_volume(-0.0)));
    assert!(!lists_same(&with_volume(f32::NAN), &with_volume(f32::NAN)));
    assert!(!lists_same(&with_volume(0.5), &with_volume(0.25)));
    assert!(!lists_same(&with_volume(0.5), &vec![]));
}

#[test]
fn ducking_that_changes_is_followed_closely_for_a_while() {
    let mut poll = SessionPoll::new();
    assert_eq!(poll.next_interval(0), POLL_INTERVAL_NANOS);
    poll.on_sessions(vec![session("a", None, 1.0)], 0);
    assert_eq!(poll.next_interval(1), DUCK_TRANSITION_POLL_INTERVAL_NANOS);
    let later = 10 * DUCK_TRANSITION_WINDOW_NANOS;
    assert_eq!(poll.next_interval(later), POLL_INTERVAL_NANOS);
    poll.on_sessions(vec![session("a", None, 0.5)], later);
    assert_eq!(poll.next_interval(later), POLL_INTERVAL_NANOS, "a volume is no ducking");
    let mut ducked = session("a", None, 0.5);
    ducked.is_ducked = true;
    poll.on_sessions(vec![ducked.clone()], later);
    let end = later + DUCK_TRANSITION_WINDOW_NANOS;
    assert_eq!(poll.next_interval(end - 1), DUCK_TRANSITION_POLL_INTERVAL_NANOS);
    assert_eq!(poll.next_interval(end), POLL_INTERVAL_NANOS);
    assert!(same_duck_flags(&vec![ducked.clone()], &vec![ducked.clone()]));
    assert!(!same_duck_flags(&vec![ducked.clone()], &vec![session("a", None, 0.5)]));
    assert!(!same_duck_flags(&vec![ducked], &vec![]));
}

#[test]
fn devices_are_sent_when_they_change() {
    let device = |id: &str, name: &str| OutputDevice { id: id.to_string(), name: name.to_string() };
    let mut poll = DevicePoll::new();
    assert!(poll.on_devices(vec![]));
    assert!(!poll.on_devices(vec![]));
    assert!(poll.on_devices(vec![device("1", "Speakers")]));
    assert!(!poll.on_devices(vec![device("1", "Speakers")]));
    assert!(poll.on_devices(vec![device("1", "Headphones")]));
}

#[test]
fn sessions_are_sorted_by_name_and_then_id() {
    let named = |id: &str, name: &str| {
        let mut s = session(id, None, 1.0);
        s.display_name = name.to_string();
        s
    };
    let sorted = sort_sessions(vec![
        named("3", "b"),
        named("2", "a"),
        named("10", "a"),
        named("1", "Z"),
        named("4", "ab"),
    ]);
    let ids: Vec<&str> = sorted.iter().map(|s| s.id.as_str()).collect();
    assert_eq!(ids, vec!["1", "10", "2", "4", "3"]);
}

fn rect(x: i64, y: i64, width: i64, height: i64) -> Rect {
    Rect { x, y, width, height }
}

#[test]
fn the_window_opens_below_an_icon_at_the_top() {
    let monitor = rect(0, 0, 1000, 800);
    let window = Size { width: 300, height: 400 };
    let position = position_window_under_tray(&rect(500, 0, 20, 24), &window, Some(monitor), 4);
    assert_eq!(position, HalfPoint { x: 2 * 360, y: 2 * 28 });
}

#[test]
fn the_window_opens_above_an_icon_at_the_bottom() {
    let monitor = rect(0, 0, 1000, 800);
    let window = Size { width: 300, height: 400 };
    let position = position_window_under_tray(&rect(500, 760, 21, 40), &window, Some(monitor), 4);
    assert_eq!(position, HalfPoint { x: 2 * 360 + 1, y: 2 * 356 });
}

#[test]
fn the_window_stays_on_its_monitor() {
    let monitor = rect(-1000, 0, 1000, 800);
    let window = Size { width: 300, height: 400 };
    let icon = rect(-20, 0, 20, 24);
    let position = position_window_under_tray(&icon, &window, Some(monitor), 4);
    assert_eq!(position.x, 2 * -300);
    let large = Size { width: 2000, height: 2000 };
    let position = position_window_under_tray(&icon, &large, Some(monitor), 4);
    assert_eq!(position, HalfPoint { x: 2 * -1000, y: 0 }, "too large: at the corner");
    let position = position_window_under_tray(&icon, &window, None, 4);
    assert_eq!(position, HalfPoint { x: 2 * -160, y: 2 * 28 }, "no monitor: where it falls");
}

#[test]
fn the_monitor_under_the_middle_of_the_icon_counts() {
    let monitors = vec![rect(0, 0, 100, 100), rect(100, 0, 100, 100)];
    assert_eq!(monitor_containing(&monitors, &rect(89, 0, 20, 20)), Some(0));
    assert_eq!(monitor_containing(&monitors, &rect(90, 0, 20, 20)), Some(1));
    assert_eq!(monitor_containing(&monitors, &rect(300, 0, 20, 20)), None);
}

#[test]
fn a_click_opens_and_dismisses() {
    let place = HalfPoint { x: 10, y: 20 };
    let mut state = WindowShowState::new();
    assert!(is_open(true, false) && !is_open(true, true) && !is_open(false, false));
    assert_eq!(
        state.show_near_tray(true, true, TrayPlace::Placed(place), 5),
        ShowAction::Dismiss
    );
    assert_eq!(state, WindowShowState::default());
    assert_eq!(
        state.show_near_tray(false, true, TrayPlace::Unknown, 5),
        ShowAction::Show(None)
    );
    assert_eq!(
        state.show_near_tray(false, true, TrayPlace::Placed(place), 6),
        ShowAction::Show(Some(place))
    );
    assert_eq!(
        state.show_near_tray(false, true, TrayPlace::Unknown, 7),
        ShowAction::Show(Some(place))
    );
    assert_eq!(
        state.show_near_tray(false, true, TrayPlace::Unplaced, 8),
        ShowAction::Show(None)
    );
    assert_eq!(
        state.show_near_tray(false, false, TrayPlace::Placed(HalfPoint { x: 0, y: 0 }), 9),
        ShowAction::Show(None),
        "where it is placed only once it stays where it is"
    );
    assert_eq!(state.last_tray_position, Some(place));
}

#[test]
fn a_loss_of_focus_hides_a_popover_but_not_at_once() {
    let mut state = WindowShowState::new();
    assert!(state.hides_on_blur(true, 0));
    assert!(!state.hides_on_blur(false, 0));
    state.show_near_tray(false, true, TrayPlace::Unknown, 1000);
    assert!(!state.hides_on_blur(true, 1000 + POST_SHOW_BLUR_GUARD_NANOS - 1));
    assert!(state.hides_on_blur(true, 1000 + POST_SHOW_BLUR_GUARD_NANOS));
    state.begin_window_drag(5000 + POST_SHOW_BLUR_GUARD_NANOS);
    assert!(!state.hides_on_blur(true, 1000 + POST_SHOW_BLUR_GUARD_NANOS));
}
