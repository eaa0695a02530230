use window_layout::geometry::{Rect, ScreenInfo};
use window_layout::observe::{get_current_layout, get_windows, WindowRecord};
use window_layout::position::WindowPos;
use window_layout::window::MatchingWindowInfo;

fn rect(x: i32, y: i32, w: i32, h: i32) -> Rect {
    Rect { x, y, w, h }
}

fn screens() -> Vec<ScreenInfo> {
    vec![
        ScreenInfo { frame: rect(0, 0, 1920, 1080), screen_id: 1 },
        ScreenInfo { frame: rect(1920, 0, 2560, 1440), screen_id: 2 },
    ]
}

fn ignored() -> Vec<String> {
    vec!["Control Center".to_string(), "Dock".to_string(), "Window Server".to_string()]
}

fn record(owner: &str, name: &str, pid: i32, wid: u32, bounds: Option<Rect>) -> WindowRecord {
    WindowRecord {
        owner_name: owner.to_string(),
        name: name.to_string(),
        process_id: pid,
        window_id: wid,
        bounds,
    }
}

fn names(windows: &[window_layout::window::WindowInfo]) -> Vec<(String, String)> {
    windows.iter().map(|w| (w.owner_name.to_string(), w.name.to_string())).collect()
}

#[test]
fn one_window_gives_one_description() {
    let records = vec![record("Terminal", "bash", 100, 7, Some(rect(2000, 100, 800, 600)))];
    let windows = get_windows(&records, &screens(), &ignored());
    assert_eq!(windows.len(), 1);
    let w = &windows[0];
    assert!(!w.owner_name.is_regex());
    assert!(!w.name.is_regex());
    assert_eq!(w.owner_name.as_str(), "Terminal");
    assert_eq!(w.name.as_str(), "bash");
    assert_eq!(w.screen_num, 2);
    assert_eq!(w.pos, WindowPos::Pos(rect(80, 100, 800, 600)));
    assert_eq!(
        w.matching_windows,
        vec![MatchingWindowInfo { process_id: 100, window_id: 7, screen_num: 2, bounds: rect(80, 100, 800, 600) }]
    );
}

#[test]
fn names_that_look_like_patterns_are_kept_as_exact_texts() {
    let records = vec![record("Term.*", "^bash$", 1, 1, Some(rect(0, 0, 800, 600)))];
    let windows = get_windows(&records, &screens(), &ignored());
    assert_eq!(windows.len(), 1);
    assert!(!windows[0].owner_name.is_regex());
    assert!(!windows[0].name.is_regex());
    assert!(!windows[0].owner_name.matches("Terminal"));
    assert!(windows[0].owner_name.matches("Term.*"));
}

#[test]
fn small_windows_are_left_out() {
    let records = vec![
        record("Terminal", "tiny", 1, 1, Some(rect(10, 10, 64, 64))),
        record("Terminal", "tinier", 1, 2, Some(rect(10, 10, 1, 1))),
        record("Terminal", "wide", 1, 3, Some(rect(10, 10, 65, 64))),
        record("Terminal", "high", 1, 4, Some(rect(10, 10, 64, 65))),
        record("Terminal", "strip", 1, 5, Some(rect(10, 10, 1900, 20))),
    ];
    let windows = get_windows(&records, &screens(), &ignored());
    assert_eq!(
        names(&windows),
        vec![
            ("Terminal".to_string(), "high".to_string()),
            ("Terminal".to_string(), "strip".to_string()),
            ("Terminal".to_string(), "wide".to_string()),
        ]
    );
}

#[test]
fn a_small_window_does_not_join_the_windows_of_its_names() {
    let records = vec![
        record("Editor", "Find", 1, 1, Some(rect(10, 10, 400, 300))),
        record("Editor", "Find", 1, 2, Some(rect(20, 20, 32, 32))),
        record("Editor", "Find", 2, 3, Some(rect(30, 30, 500, 300))),
    ];
    let windows = get_windows(&records, &screens(), &ignored());
    assert_eq!(windows.len(), 1);
    let ids: Vec<u32> = windows[0].matching_windows.iter().map(|m| m.window_id).collect();
    assert_eq!(ids, vec![1, 3]);
}

#[test]
fn only_small_windows_give_an_empty_layout() {
    let records = vec![
        record("Terminal", "bash", 1, 1, Some(rect(0, 0, 64, 64))),
        record("Terminal", "bash", 1, 2, Some(rect(0, 0, 10, 60))),
    ];
    assert!(get_windows(&records, &screens(), &ignored()).is_empty());
    assert!(get_windows(&Vec::new(), &screens(), &ignored()).is_empty());
}

#[test]
fn windows_without_names_or_bounds_are_left_out() {
    let records = vec![
        record("", "bash", 1, 1, Some(rect(0, 0, 800, 600))),
        record("Terminal", "", 1, 2, Some(rect(0, 0, 800, 600))),
        record("Terminal", "no bounds", 1, 3, None),
        record("Terminal", "kept", 1, 4, Some(rect(0, 0, 800, 600))),
    ];
    let windows = get_windows(&records, &screens(), &ignored());
    assert_eq!(names(&windows), vec![("Terminal".to_string(), "kept".to_string())]);
}

#[test]
fn windows_of_ignored_owners_are_left_out() {
    let records = vec![
        record("Dock", "Dock", 1, 1, Some(rect(0, 1000, 1920, 80))),
        record("Control Center", "Clock", 1, 2, Some(rect(1800, 0, 120, 24))),
        record("Window Server", "Menubar", 1, 3, Some(rect(0, 0, 1920, 24))),
        record("Docker", "Dock", 1, 4, Some(rect(0, 0, 800, 600))),
        record("dock", "Dock", 1, 5, Some(rect(0, 0, 800, 600))),
    ];
    let windows = get_windows(&records, &screens(), &ignored());
    assert_eq!(
        names(&windows),
        vec![("Docker".to_string(), "Dock".to_string()), ("dock".to_string(), "Dock".to_string())]
    );
    let everything = get_windows(&records, &screens(), &Vec::new());
    assert_eq!(everything.len(), 5);
}

#[test]
fn descriptions_are_listed_by_owner_and_then_by_name() {
    let records = vec![
        record("Terminal", "zsh", 1, 1, Some(rect(0, 0, 800, 600))),
        record("Finder", "Documents", 2, 2, Some(rect(0, 0, 800, 600))),
        record("Terminal", "bash", 1, 3, Some(rect(0, 0, 800, 600))),
        record("Safari", "Start Page", 3, 4, Some(rect(0, 0, 800, 600))),
        record("Finder", "Applications", 2, 5, Some(rect(0, 0, 800, 600))),
        record("Term", "zzz", 4, 6, Some(rect(0, 0, 800, 600))),
        record("iTerm2", "a", 5, 7, Some(rect(0, 0, 800, 600))),
    ];
    let windows = get_windows(&records, &screens(), &ignored());
    let listed = names(&windows);
    let mut expected = listed.clone();
    expected.sort();
    assert_eq!(listed, expected);
    assert_eq!(
        listed,
        vec![
            ("Finder".to_string(), "Applications".to_string()),
            ("Finder".to_string(), "Documents".to_string()),
            ("Safari".to_string(), "Start Page".to_string()),
            ("Term".to_string(), "zzz".to_string()),
            ("Terminal".to_string(), "bash".to_string()),
            ("Terminal".to_string(), "zsh".to_string()),
            ("iTerm2".to_string(), "a".to_string()),
        ]
    );
}

#[test]
fn windows_that_share_owner_and_name_are_listed_together() {
    let records = vec![
        record("Editor", "Find", 10, 1, Some(rect(100, 100, 400, 300))),
        record("Terminal", "bash", 20, 2, Some(rect(0, 0, 800, 600))),
        record("Editor", "Find", 11, 3, Some(rect(2000, 200, 500, 300))),
    ];
    let windows = get_windows(&records, &screens(), &ignored());
    assert_eq!(windows.len(), 2);
    let find = &windows[0];
    assert_eq!(find.owner_name.as_str(), "Editor");
    assert_eq!(
        find.matching_windows,
        vec![
            MatchingWindowInfo { process_id: 10, window_id: 1, screen_num: 1, bounds: rect(100, 100, 400, 300) },
            MatchingWindowInfo { process_id: 11, window_id: 3, screen_num: 2, bounds: rect(80, 200, 500, 300) },
        ]
    );
    // The description itself carries the screen and position of the last of them.
    assert_eq!(find.screen_num, 2);
    assert_eq!(find.pos, WindowPos::Pos(rect(80, 200, 500, 300)));
    assert_eq!(windows[1].matching_windows.len(), 1);
}

#[test]
fn same_name_under_another_owner_is_another_description() {
    let records = vec![
        record("Editor", "Find", 10, 1, Some(rect(100, 100, 400, 300))),
        record("Browser", "Find", 11, 2, Some(rect(100, 100, 400, 300))),
    ];
    let windows = get_windows(&records, &screens(), &ignored());
    assert_eq!(
        names(&windows),
        vec![("Browser".to_string(), "Find".to_string()), ("Editor".to_string(), "Find".to_string())]
    );
}

#[test]
fn a_window_on_no_screen_is_put_at_the_corner_of_the_first() {
    let records = vec![record("Terminal", "bash", 1, 1, Some(rect(-500, 5000, 800, 600)))];
    let windows = get_windows(&records, &screens(), &ignored());
    assert_eq!(windows[0].screen_num, 1);
    assert_eq!(windows[0].pos, WindowPos::Pos(rect(0, 0, 800, 600)));
    assert_eq!(windows[0].matching_windows[0].bounds, rect(0, 0, 800, 600));
}

#[test]
fn current_layout_holds_the_live_screens_and_the_windows() {
    let records = vec![
        record("Terminal", "bash", 1, 1, Some(rect(0, 0, 800, 600))),
        record("Dock", "Dock", 2, 2, Some(rect(0, 0, 800, 600))),
    ];
    let layout = get_current_layout(&records, &screens(), &ignored());
    assert_eq!(layout.screens, screens());
    assert_eq!(layout.windows.len(), 1);
    assert_eq!(layout.windows[0].name.as_str(), "bash");
}

#[test]
fn admission_is_decided_record_by_record() {
    assert!(record("Terminal", "bash", 1, 1, Some(rect(0, 0, 65, 10))).is_admitted(&ignored()));
    assert!(!record("Terminal", "bash", 1, 1, Some(rect(0, 0, 64, 10))).is_admitted(&ignored()));
    assert!(!record("Terminal", "bash", 1, 1, None).is_admitted(&ignored()));
    assert!(!record("Dock", "bash", 1, 1, Some(rect(0, 0, 650, 100))).is_admitted(&ignored()));
    assert!(record("Dock", "bash", 1, 1, Some(rect(0, 0, 650, 100))).is_admitted(&Vec::new()));
    assert!(!record("", "bash", 1, 1, Some(rect(0, 0, 650, 100))).is_admitted(&ignored()));
    assert!(!record("Terminal", "", 1, 1, Some(rect(0, 0, 650, 100))).is_admitted(&ignored()));
}

#[test]
fn admitted_bounds_are_the_bounds_of_an_admitted_window() {
    let kept = record("Terminal", "bash", 1, 1, Some(rect(5, 6, 700, 10)));
    assert_eq!(kept.admitted_bounds(&ignored()), Some(rect(5, 6, 700, 10)));
    let small = record("Terminal", "bash", 1, 1, Some(rect(5, 6, 64, 64)));
    assert_eq!(small.admitted_bounds(&ignored()), None);
    let shunned = record("Dock", "bash", 1, 1, Some(rect(5, 6, 700, 10)));
    assert_eq!(shunned.admitted_bounds(&ignored()), None);
    let unbounded = record("Terminal", "bash", 1, 1, None);
    assert_eq!(unbounded.admitted_bounds(&ignored()), None);
}
