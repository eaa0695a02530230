//! Where a window goes on its screen, and the two conversions between a
//! position on a screen and a rectangle on the desktop.

use crate::fraction::{
    lemma_scale_by_one_half, lemma_scale_not_negative, lemma_scale_within_extent, one_half,
    one_whole, Fraction,
};
use crate::geometry::{Bounds, Rect, ScreenInfo};
use vstd::prelude::*;

verus! {

/// Where a window goes on its screen.
#[derive(Debug, Clone, Copy, PartialEq, Eq, Structural)]
pub enum WindowPos {
    /// The window fills the screen.
    Maxed,
    /// The window has this rectangle, measured from the screen's top-left corner;
    /// a negative `x` or `y` is measured from the screen's right or bottom edge.
    Pos(Rect),
    /// The window is docked to the left edge and takes this share of the width.
    Left(Fraction),
    /// The window is docked to the right edge and takes this share of the width.
    Right(Fraction),
    /// The window is docked to the top edge and takes this share of the height.
    Top(Fraction),
    /// The window is docked to the bottom edge and takes this share of the height.
    Bottom(Fraction),
}

impl Default for WindowPos {
    fn default() -> (p: WindowPos)
        ensures
            p == WindowPos::Maxed,
    {
        WindowPos::Maxed
    }
}

/// An offset along one axis of a screen that is `extent` long: from the near
/// edge where it is not negative, from the far edge where it is.
pub open spec fn from_edge(offset: int, extent: int) -> int {
    if offset < 0 {
        extent + offset
    } else {
        offset
    }
}

/// The first index below `n` of a screen whose frame holds the corner of `p`.
pub open spec fn first_containing(screens: Seq<ScreenInfo>, p: Rect, n: int) -> Option<int>
    decreases n,
{
    if n <= 0 {
        None
    } else {
        match first_containing(screens, p, n - 1) {
            Some(i) => Some(i),
            None => if screens[n - 1].frame@.contains_point(p.x as int, p.y as int) {
                Some(n - 1)
            } else {
                None
            },
        }
    }
}

impl WindowPos {
    /// The rectangle on the desktop that this position comes to on `screen`.
    pub open spec fn spec_to_absolute(self, screen: ScreenInfo) -> Bounds {
        let frame = screen.frame@;
        match self {
            WindowPos::Maxed => frame,
            WindowPos::Pos(rect) => Bounds {
                x: frame.x + from_edge(rect.x as int, frame.w),
                y: frame.y + from_edge(rect.y as int, frame.h),
                w: rect.w as int,
                h: rect.h as int,
            },
            WindowPos::Left(fraction) => Bounds {
                x: frame.x,
                y: frame.y,
                w: fraction.spec_scale(frame.w),
                h: frame.h,
            },
            WindowPos::Right(fraction) => Bounds {
                x: frame.x + frame.w - fraction.spec_scale(frame.w),
                y: frame.y,
                w: fraction.spec_scale(frame.w),
                h: frame.h,
            },
            WindowPos::Top(fraction) => Bounds {
                x: frame.x,
                y: frame.y,
                w: frame.w,
                h: fraction.spec_scale(frame.h),
            },
            WindowPos::Bottom(fraction) => Bounds {
                x: frame.x,
                y: frame.y + frame.h - fraction.spec_scale(frame.h),
                w: frame.w,
                h: fraction.spec_scale(frame.h),
            },
        }
    }

    /// An explicit rectangle has a width and a height that are not negative,
    /// and the share of a dock is not negative.
    pub open spec fn wf(self) -> bool {
        match self {
            WindowPos::Maxed => true,
            WindowPos::Pos(rect) => rect.wf(),
            WindowPos::Left(fraction) => !fraction.negative(),
            WindowPos::Right(fraction) => !fraction.negative(),
            WindowPos::Top(fraction) => !fraction.negative(),
            WindowPos::Bottom(fraction) => !fraction.negative(),
        }
    }

    /// The share of the screen that a dock takes; nothing for other positions.
    pub open spec fn share(self) -> Option<Fraction> {
        match self {
            WindowPos::Maxed => None,
            WindowPos::Pos(_) => None,
            WindowPos::Left(fraction) => Some(fraction),
            WindowPos::Right(fraction) => Some(fraction),
            WindowPos::Top(fraction) => Some(fraction),
            WindowPos::Bottom(fraction) => Some(fraction),
        }
    }

    /// The rectangle that this position comes to on `screen` has 32-bit coordinates.
    pub open spec fn placeable_on(self, screen: ScreenInfo) -> bool {
        self.spec_to_absolute(screen).representable()
    }

    /// The screen that an explicit rectangle on the desktop belongs to, counted
    /// from 1, and the rectangle measured from that screen's corner.
    ///
    /// The rectangle belongs to the first screen that holds its top-left corner.
    /// Where no screen does, it is put at the corner of the first screen. A
    /// position that is no explicit rectangle belongs to no screen, which is 0.
    pub open spec fn spec_to_relative(self, screens: Seq<ScreenInfo>) -> (nat, Bounds) {
        match self {
            WindowPos::Pos(rect) => match first_containing(screens, rect, screens.len() as int) {
                Some(i) => (
                    (i + 1) as nat,
                    rect@.moved_by(-(screens[i].frame.x as int), -(screens[i].frame.y as int)),
                ),
                None => (1, Bounds { x: 0, y: 0, w: rect.w as int, h: rect.h as int }),
            },
            _ => (0, Bounds { x: 0, y: 0, w: 0, h: 0 }),
        }
    }

    /// The four components of `spec_to_absolute`, in 64 bits.
    fn absolute_parts(&self, screen: &ScreenInfo) -> (parts: (i64, i64, i64, i64))
        ensures
            (Bounds { x: parts.0 as int, y: parts.1 as int, w: parts.2 as int, h: parts.3 as int })
                == self.spec_to_absolute(*screen),
    {
        let fx: i64 = screen.frame.x as i64;
        let fy: i64 = screen.frame.y as i64;
        let fw: i64 = screen.frame.w as i64;
        let fh: i64 = screen.frame.h as i64;
        match self {
            WindowPos::Maxed => (fx, fy, fw, fh),
            WindowPos::Pos(rect) => {
                let x: i64 = if rect.x < 0 {
                    fw + rect.x as i64
                } else {
                    rect.x as i64
                };
                let y: i64 = if rect.y < 0 {
                    fh + rect.y as i64
                } else {
                    rect.y as i64
                };
                (fx + x, fy + y, rect.w as i64, rect.h as i64)
            },
            WindowPos::Left(fraction) => {
                let w: i64 = fraction.scale(screen.frame.w) as i64;
                (fx, fy, w, fh)
            },
            WindowPos::Right(fraction) => {
                let w: i64 = fraction.scale(screen.frame.w) as i64;
                (fx + fw - w, fy, w, fh)
            },
            WindowPos::Top(fraction) => {
                let h: i64 = fraction.scale(screen.frame.h) as i64;
                (fx, fy, fw, h)
            },
            WindowPos::Bottom(fraction) => {
                let h: i64 = fraction.scale(screen.frame.h) as i64;
                (fx, fy + fh - h, fw, h)
            },
        }
    }

    /// The rectangle on the desktop that this position comes to on `screen`.
    pub fn to_absolute(&self, screen: &ScreenInfo) -> (absolute: Rect)
        requires
            self.placeable_on(*screen),
        ensures
            absolute@ == self.spec_to_absolute(*screen),
    {
        let parts: (i64, i64, i64, i64) = self.absolute_parts(screen);
        Rect { x: parts.0 as i32, y: parts.1 as i32, w: parts.2 as i32, h: parts.3 as i32 }
    }

    /// The rectangle on the desktop that this position comes to on `screen`, or
    /// nothing where one of its coordinates does not fit in 32 bits.
    pub fn checked_to_absolute(&self, screen: &ScreenInfo) -> (absolute: Option<Rect>)
        ensures
            match absolute {
                Some(r) => self.placeable_on(*screen) && r@ == self.spec_to_absolute(*screen),
                None => !self.placeable_on(*screen),
            },
    {
        let parts: (i64, i64, i64, i64) = self.absolute_parts(screen);
        if fits(parts.0) && fits(parts.1) && fits(parts.2) && fits(parts.3) {
            Some(
                Rect { x: parts.0 as i32, y: parts.1 as i32, w: parts.2 as i32, h: parts.3 as i32 },
            )
        } else {
            None
        }
    }

    /// The screen that an explicit rectangle on the desktop belongs to, counted
    /// from 1, and the rectangle measured from that screen's corner.
    pub fn to_relative(&self, screens: &Vec<ScreenInfo>) -> (relative: (usize, Rect))
        ensures
            relative.0 == self.spec_to_relative(screens@).0,
            relative.1@ == self.spec_to_relative(screens@).1,
    {
        match self {
            WindowPos::Pos(rect) => {
                let mut index: usize = 0;
                while index < screens.len()
                    invariant
                        *self == WindowPos::Pos(*rect),
                        index <= screens.len(),
                        first_containing(screens@, *rect, index as int) is None,
                    decreases screens.len() - index,
                {
                    let frame: &Rect = &screens[index].frame;
                    if frame.contains_origin(rect) {
                        assert(first_containing(screens@, *rect, index + 1) == Some(index as int));
                        proof {
                            lemma_first_containing_stable(
                                screens@,
                                *rect,
                                index + 1,
                                screens.len() as int,
                            );
                        }
                        return (
                            index + 1,
                            Rect { x: rect.x - frame.x, y: rect.y - frame.y, w: rect.w, h: rect.h },
                        );
                    }
                    index = index + 1;
                }
                (1, Rect { x: 0, y: 0, w: rect.w, h: rect.h })
            },
            _ => (0, Rect { x: 0, y: 0, w: 0, h: 0 }),
        }
    }
}

/// Whether `v` can be held in 32 bits.
fn fits(v: i64) -> (ok: bool)
    ensures
        ok == (i32::MIN <= v <= i32::MAX),
{
    -0x8000_0000 <= v && v <= 0x7fff_ffff
}

/// Once a screen below `n` holds the corner, looking further changes nothing.
pub proof fn lemma_first_containing_stable(screens: Seq<ScreenInfo>, p: Rect, n: int, m: int)
    requires
        n <= m,
        first_containing(screens, p, n) is Some,
    ensures
        first_containing(screens, p, m) == first_containing(screens, p, n),
    decreases m - n,
{
    if n < m {
        lemma_first_containing_stable(screens, p, n, m - 1);
    }
}

/// What `first_containing` finds: a screen that holds the corner, with none
/// before it that does; or nothing, where no screen below `n` holds it.
pub proof fn lemma_first_containing(screens: Seq<ScreenInfo>, p: Rect, n: int)
    requires
        0 <= n <= screens.len(),
    ensures
        match first_containing(screens, p, n) {
            Some(i) => {
                &&& 0 <= i < n
                &&& screens[i].frame@.contains_point(p.x as int, p.y as int)
                &&& forall|j: int|
                    0 <= j < i ==> !(#[trigger] screens[j]).frame@.contains_point(
                        p.x as int,
                        p.y as int,
                    )
            },
            None => forall|j: int|
                0 <= j < n ==> !(#[trigger] screens[j]).frame@.contains_point(
                    p.x as int,
                    p.y as int,
                ),
        },
    decreases n,
{
    if n > 0 {
        lemma_first_containing(screens, p, n - 1);
    }
}

/// The screen that holds the corner with none before it that does is the one
/// that `first_containing` finds.
pub proof fn lemma_first_containing_is(screens: Seq<ScreenInfo>, p: Rect, i: int)
    requires
        0 <= i < screens.len(),
        screens[i].frame@.contains_point(p.x as int, p.y as int),
        forall|j: int|
            0 <= j < i ==> !(#[trigger] screens[j]).frame@.contains_point(p.x as int, p.y as int),
    ensures
        first_containing(screens, p, screens.len() as int) == Some(i),
{
    lemma_first_containing(screens, p, i);
    assert(first_containing(screens, p, i + 1) == Some(i));
    lemma_first_containing_stable(screens, p, i + 1, screens.len() as int);
}

/// Round trip: a rectangle measured from the corner of a screen, with its own
/// corner within that screen's frame, is put on the desktop and then found
/// again on the same screen with the same measures, provided that no screen
/// earlier in the list holds the corner too.
pub proof fn lemma_to_relative_inverts_to_absolute(
    screens: Seq<ScreenInfo>,
    i: int,
    relative: Rect,
    absolute: Rect,
)
    requires
        0 <= i < screens.len(),
        0 <= relative.x < screens[i].frame.w,
        0 <= relative.y < screens[i].frame.h,
        absolute@ == WindowPos::Pos(relative).spec_to_absolute(screens[i]),
        forall|j: int|
            0 <= j < i ==> !(#[trigger] screens[j]).frame@.contains_point(
                absolute.x as int,
                absolute.y as int,
            ),
    ensures
        WindowPos::Pos(absolute).spec_to_relative(screens) == ((i + 1) as nat, relative@),
{
    lemma_first_containing_is(screens, absolute, i);
}

/// A window docked to the left half of a screen and one docked to the right
/// half lie side by side: where the width of the screen is even and below
/// `2^24`, the right one begins where the left one ends, they are equally
/// high, and their widths add up to the width of the screen.
pub proof fn lemma_halves_meet(screen: ScreenInfo)
    requires
        0 <= screen.frame.w < 0x100_0000,
        screen.frame.w % 2 == 0,
    ensures
        ({
            let left = WindowPos::Left(one_half()).spec_to_absolute(screen);
            let right = WindowPos::Right(one_half()).spec_to_absolute(screen);
            &&& left.x == screen.frame.x
            &&& left.x + left.w == right.x
            &&& right.x + right.w == screen.frame.x + screen.frame.w
            &&& left.w + right.w == screen.frame.w
            &&& left.y == right.y == screen.frame.y
            &&& left.h == right.h == screen.frame.h
        }),
{
    lemma_scale_by_one_half(screen.frame.w as int);
}

/// A well-formed position on a screen with a well-formed frame comes to a
/// rectangle whose width and height are not negative.
pub proof fn lemma_to_absolute_wf(pos: WindowPos, screen: ScreenInfo)
    requires
        pos.wf(),
        screen.frame.wf(),
    ensures
        pos.spec_to_absolute(screen).w >= 0,
        pos.spec_to_absolute(screen).h >= 0,
{
    match pos {
        WindowPos::Left(fraction) => lemma_scale_not_negative(fraction, screen.frame.w as int),
        WindowPos::Right(fraction) => lemma_scale_not_negative(fraction, screen.frame.w as int),
        WindowPos::Top(fraction) => lemma_scale_not_negative(fraction, screen.frame.h as int),
        WindowPos::Bottom(fraction) => lemma_scale_not_negative(fraction, screen.frame.h as int),
        _ => {},
    }
}

/// Measuring a rectangle from the corner of its screen leaves its size as it
/// is and never leaves the 32-bit range; and the screen is one of the list,
/// or the first where the list is empty.
pub proof fn lemma_to_relative_keeps_size(rect: Rect, screens: Seq<ScreenInfo>)
    ensures
        WindowPos::Pos(rect).spec_to_relative(screens).1.w == rect.w,
        WindowPos::Pos(rect).spec_to_relative(screens).1.h == rect.h,
        WindowPos::Pos(rect).spec_to_relative(screens).1.representable(),
        WindowPos::Pos(rect).spec_to_relative(screens).0 >= 1,
        WindowPos::Pos(rect).spec_to_relative(screens).0 > 1 ==> WindowPos::Pos(
            rect,
        ).spec_to_relative(screens).0 <= screens.len(),
{
    lemma_first_containing(screens, rect, screens.len() as int);
}

/// A dock that takes a share between nothing and the whole stays on its
/// screen: on a screen less than `2^24` wide and high, its rectangle lies
/// within the frame of the screen, along the edge that it is docked to.
pub proof fn lemma_dock_stays_on_screen(pos: WindowPos, screen: ScreenInfo)
    requires
        pos.share() matches Some(fraction) && fraction.bits <= one_whole().bits,
        0 <= screen.frame.w < 0x100_0000,
        0 <= screen.frame.h < 0x100_0000,
    ensures
        ({
            let frame = screen.frame@;
            let dock = pos.spec_to_absolute(screen);
            &&& dock.w >= 0 && dock.h >= 0
            &&& frame.x <= dock.x && dock.x + dock.w <= frame.x + frame.w
            &&& frame.y <= dock.y && dock.y + dock.h <= frame.y + frame.h
            &&& pos is Left ==> dock.x == frame.x && dock.h == frame.h
            &&& pos is Right ==> dock.x + dock.w == frame.x + frame.w && dock.h == frame.h
            &&& pos is Top ==> dock.y == frame.y && dock.w == frame.w
            &&& pos is Bottom ==> dock.y + dock.h == frame.y + frame.h && dock.w == frame.w
        }),
{
    let fraction = pos.share()->0;
    lemma_scale_within_extent(fraction, screen.frame.w as int);
    lemma_scale_within_extent(fraction, screen.frame.h as int);
}

} // verus!
