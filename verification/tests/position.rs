use window_layout::fraction::Fraction;
use window_layout::geometry::{Rect, ScreenInfo};
use window_layout::position::WindowPos;

fn rect(x: i32, y: i32, w: i32, h: i32) -> Rect {
    Rect { x, y, w, h }
}

fn screen(id: u32, x: i32, y: i32, w: i32, h: i32) -> ScreenInfo {
    ScreenInfo { frame: rect(x, y, w, h), screen_id: id }
}

fn share(f: f32) -> Fraction {
    Fraction::from_bits(f.to_bits())
}

#[test]
fn default_position_is_maxed() {
    assert_eq!(WindowPos::default(), WindowPos::Maxed);
}

#[test]
fn maxed_fills_the_screen() {
    let s = screen(1, 1920, -200, 2560, 1440);
    assert_eq!(WindowPos::Maxed.to_absolute(&s), rect(1920, -200, 2560, 1440));
}

#[test]
fn pos_is_measured_from_the_corner_of_the_screen() {
    let s = screen(1, 1920, 100, 2560, 1440);
    assert_eq!(WindowPos::Pos(rect(10, 20, 800, 600)).to_absolute(&s), rect(1930, 120, 800, 600));
    assert_eq!(WindowPos::Pos(rect(0, 0, 800, 600)).to_absolute(&s), rect(1920, 100, 800, 600));
}

#[test]
fn negative_pos_is_measured_from_the_far_edge() {
    let s = screen(1, 1920, 100, 2560, 1440);
    assert_eq!(
        WindowPos::Pos(rect(-810, 20, 800, 600)).to_absolute(&s),
        rect(1920 + 2560 - 810, 120, 800, 600)
    );
    assert_eq!(
        WindowPos::Pos(rect(10, -620, 800, 600)).to_absolute(&s),
        rect(1930, 100 + 1440 - 620, 800, 600)
    );
    assert_eq!(
        WindowPos::Pos(rect(-1, -1, 5, 5)).to_absolute(&s),
        rect(1920 + 2559, 100 + 1439, 5, 5)
    );
}

#[test]
fn left_takes_its_share_of_the_width() {
    let s = screen(1, 100, 50, 1000, 800);
    assert_eq!(WindowPos::Left(share(0.5)).to_absolute(&s), rect(100, 50, 500, 800));
    assert_eq!(WindowPos::Left(share(0.25)).to_absolute(&s), rect(100, 50, 250, 800));
    assert_eq!(WindowPos::Left(share(0.7)).to_absolute(&s), rect(100, 50, 700, 800));
}

#[test]
fn right_takes_its_share_of_the_width_at_the_right_edge() {
    let s = screen(1, 100, 50, 1000, 800);
    assert_eq!(WindowPos::Right(share(0.5)).to_absolute(&s), rect(600, 50, 500, 800));
    assert_eq!(WindowPos::Right(share(0.25)).to_absolute(&s), rect(850, 50, 250, 800));
}

#[test]
fn top_takes_its_share_of_the_height() {
    let s = screen(1, 100, 50, 1000, 800);
    assert_eq!(WindowPos::Top(share(0.5)).to_absolute(&s), rect(100, 50, 1000, 400));
    assert_eq!(WindowPos::Top(share(0.3)).to_absolute(&s), rect(100, 50, 1000, (800.0f32 * 0.3) as i32));
}

#[test]
fn bottom_takes_its_share_of_the_height_at_the_bottom_edge() {
    let s = screen(1, 100, 50, 1000, 800);
    assert_eq!(WindowPos::Bottom(share(0.5)).to_absolute(&s), rect(100, 450, 1000, 400));
    assert_eq!(WindowPos::Bottom(share(0.125)).to_absolute(&s), rect(100, 750, 1000, 100));
}

#[test]
fn left_and_right_halves_are_adjacent_and_sum_to_the_width() {
    let s = screen(1, 0, 0, 1000, 700);
    let left = WindowPos::Left(share(0.5)).to_absolute(&s);
    let right = WindowPos::Right(share(0.5)).to_absolute(&s);
    assert_eq!(left, rect(0, 0, 500, 700));
    assert_eq!(right, rect(500, 0, 500, 700));
    assert_eq!(left.x + left.w, right.x);
    assert_eq!(left.w + right.w, 1000);
    assert!(left.x + left.w <= right.x);
}

#[test]
fn docks_truncate_the_product_toward_zero() {
    let s = screen(1, 0, 0, 1001, 333);
    assert_eq!(WindowPos::Left(share(0.5)).to_absolute(&s).w, 500);
    assert_eq!(WindowPos::Right(share(0.5)).to_absolute(&s), rect(501, 0, 500, 333));
    assert_eq!(WindowPos::Top(share(0.5)).to_absolute(&s).h, 166);
    assert_eq!(WindowPos::Bottom(share(0.5)).to_absolute(&s), rect(0, 167, 1001, 166));
}

#[test]
fn docks_agree_with_single_precision_arithmetic() {
    for w in [800, 1024, 1280, 1366, 1440, 1920, 2560, 3440, 3840] {
        for f in [0.1f32, 0.2, 0.3, 0.33, 0.4, 0.6, 0.66, 0.7, 0.75, 0.8, 0.9] {
            let s = screen(1, 10, 20, w, 1000);
            let expected = (w as f32 * f) as i32;
            assert_eq!(WindowPos::Left(share(f)).to_absolute(&s), rect(10, 20, expected, 1000));
            assert_eq!(
                WindowPos::Right(share(f)).to_absolute(&s),
                rect(10 + w - expected, 20, expected, 1000)
            );
        }
    }
}

#[test]
fn checked_to_absolute_agrees_where_the_rectangle_fits() {
    let s = screen(1, 1920, 100, 2560, 1440);
    for pos in [
        WindowPos::Maxed,
        WindowPos::Pos(rect(10, 20, 800, 600)),
        WindowPos::Pos(rect(-10, -20, 800, 600)),
        WindowPos::Left(share(0.5)),
        WindowPos::Right(share(0.5)),
        WindowPos::Top(share(0.5)),
        WindowPos::Bottom(share(0.5)),
    ] {
        assert_eq!(pos.checked_to_absolute(&s), Some(pos.to_absolute(&s)));
    }
}

#[test]
fn checked_to_absolute_is_none_where_a_coordinate_does_not_fit() {
    let s = screen(1, i32::MAX - 5, 0, 100, 100);
    assert_eq!(WindowPos::Pos(rect(6, 0, 10, 10)).checked_to_absolute(&s), None);
    assert_eq!(
        WindowPos::Pos(rect(5, 0, 10, 10)).checked_to_absolute(&s),
        Some(rect(i32::MAX, 0, 10, 10))
    );
    let low = screen(1, i32::MIN, i32::MIN, 10, 10);
    assert_eq!(WindowPos::Pos(rect(-11, 0, 10, 10)).checked_to_absolute(&low), None);
    assert_eq!(WindowPos::Pos(rect(0, -11, 10, 10)).checked_to_absolute(&low), None);
    assert_eq!(
        WindowPos::Pos(rect(-10, -10, 10, 10)).checked_to_absolute(&low),
        Some(rect(i32::MIN, i32::MIN, 10, 10))
    );
    let wide = screen(1, 10, 0, i32::MAX, 100);
    assert_eq!(WindowPos::Right(share(0.0)).checked_to_absolute(&wide), None);
    assert_eq!(WindowPos::Left(share(0.0)).checked_to_absolute(&wide), Some(rect(10, 0, 0, 100)));
}

#[test]
fn to_relative_finds_the_first_screen_that_holds_the_corner() {
    let screens = vec![screen(1, 0, 0, 1920, 1080), screen(2, 1920, 0, 2560, 1440)];
    assert_eq!(WindowPos::Pos(rect(100, 200, 800, 600)).to_relative(&screens), (1, rect(100, 200, 800, 600)));
    assert_eq!(WindowPos::Pos(rect(2000, 1200, 800, 600)).to_relative(&screens), (2, rect(80, 1200, 800, 600)));
    assert_eq!(WindowPos::Pos(rect(1920, 0, 1, 1)).to_relative(&screens), (2, rect(0, 0, 1, 1)));
    assert_eq!(WindowPos::Pos(rect(1919, 1079, 1, 1)).to_relative(&screens), (1, rect(1919, 1079, 1, 1)));
}

#[test]
fn to_relative_assigns_a_straddling_window_by_its_corner() {
    let screens = vec![screen(1, 0, 0, 1920, 1080), screen(2, 1920, 0, 2560, 1440)];
    assert_eq!(
        WindowPos::Pos(rect(1900, 10, 800, 600)).to_relative(&screens),
        (1, rect(1900, 10, 800, 600))
    );
}

#[test]
fn to_relative_takes_the_first_of_overlapping_screens() {
    let screens = vec![screen(1, 0, 0, 1000, 1000), screen(2, 500, 500, 1000, 1000)];
    assert_eq!(WindowPos::Pos(rect(600, 600, 10, 10)).to_relative(&screens), (1, rect(600, 600, 10, 10)));
    assert_eq!(WindowPos::Pos(rect(1200, 600, 10, 10)).to_relative(&screens), (2, rect(700, 100, 10, 10)));
}

#[test]
fn to_relative_falls_back_to_the_first_screen_at_its_corner() {
    let screens = vec![screen(1, 0, 0, 1920, 1080), screen(2, 1920, 0, 2560, 1440)];
    assert_eq!(WindowPos::Pos(rect(-50, 10, 800, 600)).to_relative(&screens), (1, rect(0, 0, 800, 600)));
    assert_eq!(WindowPos::Pos(rect(100, 2000, 800, 600)).to_relative(&screens), (1, rect(0, 0, 800, 600)));
    assert_eq!(WindowPos::Pos(rect(5, 5, 7, 9)).to_relative(&Vec::new()), (1, rect(0, 0, 7, 9)));
}

#[test]
fn to_relative_of_a_dock_is_no_screen() {
    let screens = vec![screen(1, 0, 0, 1920, 1080)];
    for pos in [
        WindowPos::Maxed,
        WindowPos::Left(share(0.5)),
        WindowPos::Right(share(0.5)),
        WindowPos::Top(share(0.5)),
        WindowPos::Bottom(share(0.5)),
    ] {
        assert_eq!(pos.to_relative(&screens), (0, rect(0, 0, 0, 0)));
    }
}

#[test]
fn to_relative_inverts_to_absolute() {
    let screens = vec![
        screen(1, -1280, 0, 1280, 1024),
        screen(2, 0, 0, 1920, 1080),
        screen(3, 1920, -360, 2560, 1440),
    ];
    for (index, s) in screens.iter().enumerate() {
        for relative in [
            rect(0, 0, 10, 10),
            rect(100, 200, 300, 400),
            rect(s.frame.w - 1, s.frame.h - 1, 1, 1),
            rect(17, 0, 0, 0),
            rect(5, 5, 100_000, 100_000),
        ] {
            let absolute = WindowPos::Pos(relative).to_absolute(s);
            assert_eq!(WindowPos::Pos(absolute).to_relative(&screens), (index + 1, relative));
        }
    }
}
