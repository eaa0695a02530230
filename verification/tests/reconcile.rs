use window_layout::fraction::Fraction;
use window_layout::geometry::{Rect, ScreenInfo};
use window_layout::observe::{get_current_layout, WindowRecord};
use window_layout::pattern::MaybeRegex;
use window_layout::position::WindowPos;
use window_layout::reconcile::{
    decide, find_match, plan_moves, MoveRequest, ReconcileError, Reconciler, PASSES, SETTLE_MILLIS,
};
use window_layout::window::{Layout, MatchingWindowInfo, WindowInfo};

fn rect(x: i32, y: i32, w: i32, h: i32) -> Rect {
    Rect { x, y, w, h }
}

fn screen(id: u32, x: i32, y: i32, w: i32, h: i32) -> ScreenInfo {
    ScreenInfo { frame: rect(x, y, w, h), screen_id: id }
}

fn desired_window(owner: &str, name: &str, screen_num: usize, pos: WindowPos) -> WindowInfo {
    WindowInfo {
        owner_name: MaybeRegex::new(owner.to_string()),
        name: MaybeRegex::new(name.to_string()),
        matching_windows: Vec::new(),
        screen_num,
        pos,
    }
}

fn instance(pid: i32, wid: u32, screen_num: usize, bounds: Rect) -> MatchingWindowInfo {
    MatchingWindowInfo { process_id: pid, window_id: wid, screen_num, bounds }
}

fn observed_window(owner: &str, name: &str, instances: Vec<MatchingWindowInfo>) -> WindowInfo {
    let last = *instances.last().unwrap();
    WindowInfo {
        owner_name: MaybeRegex::Exact(owner.to_string()),
        name: MaybeRegex::Exact(name.to_string()),
        matching_windows: instances,
        screen_num: last.screen_num,
        pos: WindowPos::Pos(last.bounds),
    }
}

fn summary(requests: &[MoveRequest]) -> Vec<(String, String, i32, u32, Rect)> {
    requests
        .iter()
        .map(|r| (r.owner_name.clone(), r.name.clone(), r.process_id, r.window_id, r.target))
        .collect()
}

fn one_screen() -> Vec<ScreenInfo> {
    vec![screen(1, 0, 0, 1920, 1080)]
}

fn terminal_layout() -> Layout {
    Layout {
        screens: one_screen(),
        windows: vec![desired_window("Terminal", "bash", 1, WindowPos::Pos(rect(0, 0, 800, 600)))],
    }
}

fn observed_terminal(bounds: Rect) -> Layout {
    Layout {
        screens: one_screen(),
        windows: vec![observed_window("Terminal", "bash", vec![instance(42, 7, 1, bounds)])],
    }
}

#[test]
fn passes_and_pause_are_fixed() {
    assert_eq!(PASSES, 2);
    assert_eq!(SETTLE_MILLIS, 500);
}

#[test]
fn window_in_place_is_not_moved() {
    let plan = plan_moves(&terminal_layout(), &observed_terminal(rect(0, 0, 800, 600))).unwrap();
    assert!(plan.is_empty());
}

#[test]
fn window_ten_pixels_off_is_moved() {
    let plan = plan_moves(&terminal_layout(), &observed_terminal(rect(0, 0, 790, 600))).unwrap();
    assert_eq!(
        summary(&plan),
        vec![("Terminal".to_string(), "bash".to_string(), 42, 7, rect(0, 0, 800, 600))]
    );
}

#[test]
fn window_three_pixels_off_stays_and_four_or_five_moves() {
    for (bounds, moved) in [
        (rect(3, 0, 800, 600), false),
        (rect(0, 3, 800, 600), false),
        (rect(0, 0, 797, 600), false),
        (rect(0, 0, 800, 603), false),
        (rect(3, 3, 803, 597), false),
        (rect(4, 0, 800, 600), true),
        (rect(0, 4, 800, 600), true),
        (rect(0, 0, 796, 600), true),
        (rect(0, 0, 800, 604), true),
        (rect(5, 0, 800, 600), true),
        (rect(0, 0, 800, 595), true),
    ] {
        let plan = plan_moves(&terminal_layout(), &observed_terminal(bounds)).unwrap();
        assert_eq!(plan.len(), if moved { 1 } else { 0 }, "{:?}", bounds);
        if moved {
            assert_eq!(plan[0].target, rect(0, 0, 800, 600));
        }
    }
}

#[test]
fn window_that_nothing_matches_is_left_alone() {
    let observed = Layout {
        screens: one_screen(),
        windows: vec![observed_window("Finder", "Documents", vec![instance(1, 1, 1, rect(5, 5, 50, 50))])],
    };
    assert!(plan_moves(&terminal_layout(), &observed).unwrap().is_empty());
    let empty = Layout { screens: one_screen(), windows: Vec::new() };
    assert!(plan_moves(&empty, &observed).unwrap().is_empty());
}

#[test]
fn the_first_matching_description_decides() {
    let desired = Layout {
        screens: one_screen(),
        windows: vec![
            desired_window("Finder", ".*", 1, WindowPos::Maxed),
            desired_window("^Term", "bash", 1, WindowPos::Pos(rect(10, 10, 100, 100))),
            desired_window("Terminal", "^bash$", 1, WindowPos::Pos(rect(20, 20, 200, 200))),
        ],
    };
    let seen = observed_window("Terminal", "bash", vec![instance(1, 1, 1, rect(500, 500, 100, 100))]);
    assert_eq!(find_match(&desired.windows, &seen), Some(1));
    let observed = Layout { screens: one_screen(), windows: vec![seen] };
    let plan = plan_moves(&desired, &observed).unwrap();
    assert_eq!(summary(&plan), vec![("Terminal".to_string(), "bash".to_string(), 1, 1, rect(10, 10, 100, 100))]);
    let other = observed_window("Safari", "Start", vec![instance(1, 1, 1, rect(0, 0, 100, 100))]);
    assert_eq!(find_match(&desired.windows, &other), None);
    assert_eq!(find_match(&Vec::new(), &other), None);
}

#[test]
fn windows_that_share_names_are_each_judged_on_their_own() {
    let desired = Layout {
        screens: one_screen(),
        windows: vec![desired_window("Editor", "^Find$", 1, WindowPos::Pos(rect(100, 100, 400, 300)))],
    };
    let observed = Layout {
        screens: one_screen(),
        windows: vec![observed_window(
            "Editor",
            "Find",
            vec![
                instance(10, 1, 1, rect(0, 0, 400, 300)),
                instance(10, 2, 1, rect(101, 99, 400, 300)),
                instance(11, 3, 1, rect(700, 500, 640, 480)),
            ],
        )],
    };
    let plan = plan_moves(&desired, &observed).unwrap();
    assert_eq!(
        summary(&plan),
        vec![
            ("Editor".to_string(), "Find".to_string(), 10, 1, rect(100, 100, 400, 300)),
            ("Editor".to_string(), "Find".to_string(), 11, 3, rect(100, 100, 400, 300)),
        ]
    );
}

#[test]
fn two_windows_that_share_names_are_both_moved() {
    let desired = Layout {
        screens: one_screen(),
        windows: vec![desired_window("Editor", "Find", 1, WindowPos::Pos(rect(100, 100, 400, 300)))],
    };
    let records = vec![
        WindowRecord {
            owner_name: "Editor".to_string(),
            name: "Find".to_string(),
            process_id: 10,
            window_id: 1,
            bounds: Some(rect(0, 0, 400, 300)),
        },
        WindowRecord {
            owner_name: "Editor".to_string(),
            name: "Find".to_string(),
            process_id: 11,
            window_id: 2,
            bounds: Some(rect(900, 500, 400, 300)),
        },
    ];
    let observed = get_current_layout(&records, &one_screen(), &Vec::new());
    let plan = plan_moves(&desired, &observed).unwrap();
    assert_eq!(
        summary(&plan),
        vec![
            ("Editor".to_string(), "Find".to_string(), 10, 1, rect(100, 100, 400, 300)),
            ("Editor".to_string(), "Find".to_string(), 11, 2, rect(100, 100, 400, 300)),
        ]
    );
}

#[test]
fn small_windows_are_never_moved() {
    let desired = Layout {
        screens: one_screen(),
        windows: vec![desired_window("Editor", "Find", 1, WindowPos::Pos(rect(100, 100, 400, 300)))],
    };
    let records = vec![WindowRecord {
        owner_name: "Editor".to_string(),
        name: "Find".to_string(),
        process_id: 10,
        window_id: 1,
        bounds: Some(rect(0, 0, 64, 64)),
    }];
    let observed = get_current_layout(&records, &one_screen(), &Vec::new());
    assert!(observed.windows.is_empty());
    assert!(plan_moves(&desired, &observed).unwrap().is_empty());
}

#[test]
fn requests_come_in_the_order_of_the_observed_windows() {
    let desired = Layout {
        screens: one_screen(),
        windows: vec![desired_window(".", ".", 1, WindowPos::Maxed)],
    };
    let observed = Layout {
        screens: one_screen(),
        windows: vec![
            observed_window("A", "a", vec![instance(1, 1, 1, rect(0, 0, 100, 100)), instance(1, 2, 1, rect(0, 0, 1920, 1080))]),
            observed_window("B", "b", vec![instance(2, 3, 1, rect(0, 0, 100, 100))]),
            observed_window("C", "c", vec![instance(3, 4, 1, rect(1, 1, 1919, 1079))]),
            observed_window("D", "d", vec![instance(4, 5, 1, rect(10, 10, 100, 100))]),
        ],
    };
    let plan = plan_moves(&desired, &observed).unwrap();
    let ids: Vec<u32> = plan.iter().map(|r| r.window_id).collect();
    assert_eq!(ids, vec![1, 3, 5]);
    assert!(plan.iter().all(|r| r.target == rect(0, 0, 1920, 1080)));
}

#[test]
fn the_target_is_on_the_live_screen_that_stands_for_the_saved_one() {
    let desired = Layout {
        screens: vec![screen(10, 0, 0, 1920, 1080), screen(11, 1920, 0, 2560, 1440)],
        windows: vec![desired_window("Terminal", "bash", 2, WindowPos::Left(Fraction::from_bits(0.5f32.to_bits())))],
    };
    // The screens changed places on the desk; the handles stayed.
    let live = vec![screen(11, 0, 0, 2560, 1440), screen(10, 2560, 0, 1920, 1080)];
    let observed = Layout {
        screens: live,
        windows: vec![observed_window("Terminal", "bash", vec![instance(1, 1, 2, rect(100, 100, 800, 600))])],
    };
    let plan = plan_moves(&desired, &observed).unwrap();
    assert_eq!(summary(&plan), vec![("Terminal".to_string(), "bash".to_string(), 1, 1, rect(0, 0, 1280, 1440))]);
}

#[test]
fn a_saved_screen_that_is_gone_is_replaced_by_the_nearest() {
    let desired = Layout {
        screens: vec![screen(10, 0, 0, 1920, 1080), screen(77, 1000, 0, 1280, 1024)],
        windows: vec![desired_window("Terminal", "bash", 2, WindowPos::Pos(rect(10, 20, 800, 600)))],
    };
    let live = vec![screen(20, 0, 0, 1920, 1080), screen(21, 1920, 0, 2560, 1440)];
    let observed = Layout {
        screens: live,
        windows: vec![observed_window("Terminal", "bash", vec![instance(1, 1, 1, rect(10, 20, 800, 600))])],
    };
    let plan = plan_moves(&desired, &observed).unwrap();
    assert_eq!(plan.len(), 1);
    assert_eq!(plan[0].target, rect(1930, 20, 800, 600));
}

#[test]
fn a_layout_without_screens_counts_the_live_screens() {
    let desired = Layout {
        screens: Vec::new(),
        windows: vec![desired_window("Terminal", "bash", 2, WindowPos::Pos(rect(10, 20, 800, 600)))],
    };
    let live = vec![screen(20, 0, 0, 1920, 1080), screen(21, 1920, 0, 2560, 1440)];
    let observed = Layout {
        screens: live.clone(),
        windows: vec![observed_window("Terminal", "bash", vec![instance(1, 1, 1, rect(10, 20, 800, 600))])],
    };
    let plan = plan_moves(&desired, &observed).unwrap();
    assert_eq!(plan[0].target, rect(1930, 20, 800, 600));
    // A screen number past the end means the last screen.
    let far = Layout {
        screens: Vec::new(),
        windows: vec![desired_window("Terminal", "bash", 5, WindowPos::Maxed)],
    };
    let plan = plan_moves(&far, &observed).unwrap();
    assert_eq!(plan[0].target, rect(1920, 0, 2560, 1440));
}

#[test]
fn the_current_place_is_taken_on_the_screen_of_the_live_window() {
    let desired = Layout {
        screens: vec![screen(21, 1920, 0, 2560, 1440)],
        windows: vec![desired_window("Terminal", "bash", 1, WindowPos::Pos(rect(10, 20, 800, 600)))],
    };
    let live = vec![screen(20, 0, 0, 1920, 1080), screen(21, 1920, 0, 2560, 1440)];
    let in_place = Layout {
        screens: live.clone(),
        windows: vec![observed_window("Terminal", "bash", vec![instance(1, 1, 2, rect(10, 20, 800, 600))])],
    };
    assert!(plan_moves(&desired, &in_place).unwrap().is_empty());
    let elsewhere = Layout {
        screens: live,
        windows: vec![observed_window("Terminal", "bash", vec![instance(1, 1, 1, rect(10, 20, 800, 600))])],
    };
    let plan = plan_moves(&desired, &elsewhere).unwrap();
    assert_eq!(plan[0].target, rect(1930, 20, 800, 600));
}

#[test]
fn no_screens_is_an_error() {
    let observed = Layout {
        screens: Vec::new(),
        windows: vec![observed_window("Terminal", "bash", vec![instance(1, 1, 1, rect(0, 0, 800, 600))])],
    };
    assert_eq!(plan_moves(&terminal_layout(), &observed).err(), Some(ReconcileError::NoScreens));
    let mut reconciler = Reconciler::new(terminal_layout());
    assert_eq!(reconciler.pass(&observed).err(), Some(ReconcileError::NoScreens));
    assert_eq!(reconciler.passes_done, 0);
}

#[test]
fn no_windows_is_an_error_for_a_pass() {
    let observed = Layout { screens: one_screen(), windows: Vec::new() };
    assert!(plan_moves(&terminal_layout(), &observed).unwrap().is_empty());
    let mut reconciler = Reconciler::new(terminal_layout());
    assert_eq!(reconciler.pass(&observed).err(), Some(ReconcileError::NoWindows));
    assert_eq!(reconciler.passes_done, 0);
    assert!(!reconciler.finished());
}

#[test]
fn a_rectangle_out_of_range_is_an_error() {
    let far = vec![screen(1, i32::MAX - 100, 0, 1920, 1080)];
    let desired = Layout {
        screens: far.clone(),
        windows: vec![desired_window("Terminal", "bash", 1, WindowPos::Pos(rect(200, 0, 800, 600)))],
    };
    let observed = Layout {
        screens: far.clone(),
        windows: vec![observed_window("Terminal", "bash", vec![instance(1, 1, 1, rect(0, 0, 800, 600))])],
    };
    assert_eq!(plan_moves(&desired, &observed).err(), Some(ReconcileError::OutOfRange));
    let mut reconciler = Reconciler::new(desired);
    assert_eq!(reconciler.pass(&observed).err(), Some(ReconcileError::OutOfRange));
    assert_eq!(reconciler.passes_done, 0);
    // The window's own place may be out of range as well.
    let desired = Layout {
        screens: far.clone(),
        windows: vec![desired_window("Terminal", "bash", 1, WindowPos::Pos(rect(0, 0, 800, 600)))],
    };
    let observed = Layout {
        screens: far,
        windows: vec![observed_window("Terminal", "bash", vec![instance(1, 1, 1, rect(101, 0, 800, 600))])],
    };
    assert_eq!(plan_moves(&desired, &observed).err(), Some(ReconcileError::OutOfRange));
    // A window that nothing matches is not looked at.
    let unmatched = Layout {
        screens: vec![screen(1, i32::MAX - 100, 0, 1920, 1080)],
        windows: vec![observed_window("Finder", "x", vec![instance(1, 1, 1, rect(101, 0, 800, 600))])],
    };
    assert!(plan_moves(&desired, &unmatched).unwrap().is_empty());
}

#[test]
fn decide_judges_one_window() {
    let live = one_screen();
    let want = desired_window("Terminal", "bash", 1, WindowPos::Pos(rect(0, 0, 800, 600)));
    let seen = observed_window("Terminal", "bash", vec![instance(42, 7, 1, rect(0, 0, 790, 600))]);
    let request = decide(&seen, &seen.matching_windows[0], &want, &live, &live).unwrap().unwrap();
    assert_eq!(request.owner_name, "Terminal");
    assert_eq!(request.name, "bash");
    assert_eq!(request.process_id, 42);
    assert_eq!(request.window_id, 7);
    assert_eq!(request.target, rect(0, 0, 800, 600));
    let close = instance(42, 7, 1, rect(1, 2, 803, 597));
    assert!(decide(&seen, &close, &want, &live, &live).unwrap().is_none());
    assert_eq!(decide(&seen, &close, &want, &live, &Vec::new()).err(), Some(ReconcileError::NoScreens));
}

#[test]
fn reconciliation_makes_two_passes() {
    let mut reconciler = Reconciler::new(terminal_layout());
    assert_eq!(reconciler.passes_done, 0);
    assert!(!reconciler.finished());

    let first = reconciler.pass(&observed_terminal(rect(300, 300, 640, 480))).unwrap();
    assert_eq!(summary(&first.requests), vec![("Terminal".to_string(), "bash".to_string(), 42, 7, rect(0, 0, 800, 600))]);
    assert_eq!(first.settle_millis, 500);
    assert_eq!(reconciler.passes_done, 1);
    assert!(!reconciler.finished());

    // The move took, the resize did not.
    let second = reconciler.pass(&observed_terminal(rect(0, 0, 640, 480))).unwrap();
    assert_eq!(summary(&second.requests), vec![("Terminal".to_string(), "bash".to_string(), 42, 7, rect(0, 0, 800, 600))]);
    assert_eq!(second.settle_millis, 500);
    assert_eq!(reconciler.passes_done, 2);
    assert!(reconciler.finished());

    let third = reconciler.pass(&observed_terminal(rect(300, 300, 640, 480))).unwrap();
    assert!(third.requests.is_empty());
    assert_eq!(third.settle_millis, 0);
    assert_eq!(reconciler.passes_done, 2);
}

#[test]
fn a_settled_desktop_asks_for_nothing_but_still_counts_the_pass() {
    let mut reconciler = Reconciler::new(terminal_layout());
    let mut passes = 0;
    while !reconciler.finished() {
        let pass = reconciler.pass(&observed_terminal(rect(0, 0, 800, 600))).unwrap();
        assert!(pass.requests.is_empty());
        assert_eq!(pass.settle_millis, SETTLE_MILLIS);
        passes += 1;
    }
    assert_eq!(passes, PASSES);
}

#[test]
fn a_failed_pass_can_be_made_again() {
    let mut reconciler = Reconciler::new(terminal_layout());
    let nothing = Layout { screens: one_screen(), windows: Vec::new() };
    assert_eq!(reconciler.pass(&nothing).err(), Some(ReconcileError::NoWindows));
    assert!(reconciler.pass(&observed_terminal(rect(0, 0, 800, 600))).is_ok());
    assert_eq!(reconciler.passes_done, 1);
    assert_eq!(reconciler.desired.windows.len(), 1);
}
