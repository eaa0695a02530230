//! Screens: their order on the desktop, and finding among the live screens
//! the one that a saved layout meant.
//!
//! The handles of screens may change between sessions, and screens come and
//! go. A saved screen is found again by its handle where a live screen has it;
//! else it is the nearest live screen of the same size; else the nearest live
//! screen of any size. Near is by the Manhattan distance between the top-left
//! corners, and of several screens equally near the first in the list is taken.

use crate::geometry::{distance, Rect, ScreenInfo};
use vstd::prelude::*;
use vstd::seq_lib::*;

verus! {

/// The Manhattan distance between the top-left corners of two rectangles.
pub open spec fn manhattan(a: Rect, b: Rect) -> int {
    distance(a.x as int, b.x as int) + distance(a.y as int, b.y as int)
}

/// Whether two rectangles have the same width and the same height.
pub open spec fn same_size(a: Rect, b: Rect) -> bool {
    a.w == b.w && a.h == b.h
}

/// The first index below `n` of a live screen with the handle `id`.
pub open spec fn first_with_id(live: Seq<ScreenInfo>, id: u32, n: int) -> Option<int>
    decreases n,
{
    if n <= 0 {
        None
    } else {
        match first_with_id(live, id, n - 1) {
            Some(i) => Some(i),
            None => if live[n - 1].screen_id == id {
                Some(n - 1)
            } else {
                None
            },
        }
    }
}

/// Whether a live screen may stand for `saved`: any may, unless `sized` asks
/// for one of the same size.
pub open spec fn eligible(screen: ScreenInfo, saved: ScreenInfo, sized: bool) -> bool {
    sized ==> same_size(screen.frame, saved.frame)
}

/// Among the eligible live screens below `n`, the index of the one nearest to
/// `saved`; of several equally near, the first.
pub open spec fn nearest(live: Seq<ScreenInfo>, saved: ScreenInfo, sized: bool, n: int) -> Option<
    int,
>
    decreases n,
{
    if n <= 0 {
        None
    } else if !eligible(live[n - 1], saved, sized) {
        nearest(live, saved, sized, n - 1)
    } else {
        match nearest(live, saved, sized, n - 1) {
            None => Some(n - 1),
            Some(best) => if manhattan(live[n - 1].frame, saved.frame) < manhattan(
                live[best].frame,
                saved.frame,
            ) {
                Some(n - 1)
            } else {
                Some(best)
            },
        }
    }
}

/// The index of the live screen that stands for `saved`; none where no screen is live.
pub open spec fn spec_resolve_screen(saved: ScreenInfo, live: Seq<ScreenInfo>) -> Option<int> {
    match first_with_id(live, saved.screen_id, live.len() as int) {
        Some(i) => Some(i),
        None => match nearest(live, saved, true, live.len() as int) {
            Some(i) => Some(i),
            None => nearest(live, saved, false, live.len() as int),
        },
    }
}

/// The index that the number `screen_num`, counted from 1, comes to in a list
/// of `count` screens: past the end it is the last, and 0 is the first.
pub open spec fn nth_or_last(screen_num: nat, count: nat) -> int {
    if screen_num == 0 {
        0
    } else if screen_num > count {
        count - 1
    } else {
        screen_num - 1
    }
}

/// The index of the live screen that `screen_num` refers to in a layout whose
/// screens are `known`. Where the layout lists that screen, it is the live
/// screen that stands for it. Where it does not, the number counts the live
/// screens themselves. None where no screen is live.
pub open spec fn spec_locate_screen(
    known: Seq<ScreenInfo>,
    screen_num: nat,
    live: Seq<ScreenInfo>,
) -> Option<int> {
    if live.len() == 0 {
        None
    } else if 1 <= screen_num <= known.len() {
        spec_resolve_screen(known[screen_num - 1], live)
    } else {
        Some(nth_or_last(screen_num, live.len()))
    }
}

/// Where a screen whose left edge is at `x` goes among the first `n` of
/// `ordered`: behind the last of them whose left edge is at `x` or left of it.
pub open spec fn slot_for(ordered: Seq<ScreenInfo>, x: int, n: int) -> int
    decreases n,
{
    if n <= 0 {
        0
    } else if ordered[n - 1].frame.x <= x {
        n
    } else {
        slot_for(ordered, x, n - 1)
    }
}

/// The first `n` screens from left to right. Screens whose left edges are
/// equally far left keep the order in which they came.
pub open spec fn left_to_right(screens: Seq<ScreenInfo>, n: int) -> Seq<ScreenInfo>
    decreases n,
{
    if n <= 0 {
        Seq::empty()
    } else {
        let before = left_to_right(screens, n - 1);
        before.insert(
            slot_for(before, screens[n - 1].frame.x as int, before.len() as int),
            screens[n - 1],
        )
    }
}

/// Whether no screen in the list is left of one before it.
pub open spec fn is_left_to_right(screens: Seq<ScreenInfo>) -> bool {
    forall|a: int, b: int|
        0 <= a < b < screens.len() ==> (#[trigger] screens[a]).frame.x <= (
        #[trigger] screens[b]).frame.x
}

/// The screens from left to right, by the left edges of their frames.
/// Screens equally far left keep the order in which they came.
pub fn sort_screens(screens: &Vec<ScreenInfo>) -> (sorted: Vec<ScreenInfo>)
    ensures
        sorted@ == left_to_right(screens@, screens.len() as int),
        is_left_to_right(sorted@),
        sorted@.to_multiset() == screens@.to_multiset(),
{
    let mut sorted: Vec<ScreenInfo> = Vec::new();
    let mut i: usize = 0;
    while i < screens.len()
        invariant
            i <= screens.len(),
            sorted@ == left_to_right(screens@, i as int),
            sorted@.len() == i,
        decreases screens.len() - i,
    {
        let screen: ScreenInfo = screens[i];
        let mut slot: usize = sorted.len();
        while slot > 0 && sorted[slot - 1].frame.x > screen.frame.x
            invariant
                slot <= sorted.len(),
                slot_for(sorted@, screen.frame.x as int, sorted.len() as int) == slot_for(
                    sorted@,
                    screen.frame.x as int,
                    slot as int,
                ),
            decreases slot,
        {
            slot = slot - 1;
        }
        sorted.insert(slot, screen);
        i = i + 1;
    }
    proof {
        lemma_left_to_right(screens@, screens.len() as int);
        assert(screens@.take(screens.len() as int) == screens@);
    }
    sorted
}

/// What `slot_for` finds in a list in order: the place that parts the
/// screens at `x` or left of it from those right of it.
pub proof fn lemma_slot_for(ordered: Seq<ScreenInfo>, x: int, n: int)
    requires
        0 <= n <= ordered.len(),
        is_left_to_right(ordered),
    ensures
        0 <= slot_for(ordered, x, n) <= n,
        forall|i: int| 0 <= i < slot_for(ordered, x, n) ==> (#[trigger] ordered[i]).frame.x <= x,
        forall|i: int| slot_for(ordered, x, n) <= i < n ==> (#[trigger] ordered[i]).frame.x > x,
    decreases n,
{
    if n > 0 {
        lemma_slot_for(ordered, x, n - 1);
        if ordered[n - 1].frame.x <= x {
            assert forall|i: int| 0 <= i < n implies (#[trigger] ordered[i]).frame.x <= x by {
                if i < n - 1 {
                    assert(ordered[i].frame.x <= ordered[n - 1].frame.x);
                }
            }
        }
    }
}

/// The screens from left to right are the same screens, each as often as it
/// came, and none is left of one before it.
pub proof fn lemma_left_to_right(screens: Seq<ScreenInfo>, n: int)
    requires
        0 <= n <= screens.len(),
    ensures
        left_to_right(screens, n).len() == n,
        is_left_to_right(left_to_right(screens, n)),
        left_to_right(screens, n).to_multiset() == screens.take(n).to_multiset(),
    decreases n,
{
    if n <= 0 {
        assert(screens.take(n) =~= Seq::<ScreenInfo>::empty());
    } else {
        lemma_left_to_right(screens, n - 1);
        let before = left_to_right(screens, n - 1);
        let screen = screens[n - 1];
        let slot = slot_for(before, screen.frame.x as int, before.len() as int);
        lemma_slot_for(before, screen.frame.x as int, before.len() as int);
        let after = before.insert(slot, screen);
        assert forall|a: int, b: int| 0 <= a < b < after.len() implies (#[trigger] after[a]).frame.x
            <= (#[trigger] after[b]).frame.x by {
            if b < slot {
                assert(before[a].frame.x <= before[b].frame.x);
            } else if b == slot {
                assert(before[a].frame.x <= screen.frame.x);
            } else if a == slot {
                assert(before[b - 1].frame.x > screen.frame.x);
            } else if a < slot {
                assert(before[a].frame.x <= before[b - 1].frame.x);
            } else {
                assert(before[a - 1].frame.x <= before[b - 1].frame.x);
            }
        }
        to_multiset_insert(before, slot, screen);
        assert(screens.take(n) =~= screens.take(n - 1).push(screen));
        to_multiset_build(screens.take(n - 1), screen);
    }
}

/// Screens that come from left to right are left as they are.
pub proof fn lemma_left_to_right_keeps_order(screens: Seq<ScreenInfo>, n: int)
    requires
        0 <= n <= screens.len(),
        is_left_to_right(screens),
    ensures
        left_to_right(screens, n) == screens.take(n),
    decreases n,
{
    if n <= 0 {
        assert(screens.take(n) =~= Seq::<ScreenInfo>::empty());
    } else {
        lemma_left_to_right_keeps_order(screens, n - 1);
        let before = screens.take(n - 1);
        let x = screens[n - 1].frame.x as int;
        if n - 1 > 0 {
            assert(before[n - 2] == screens[n - 2]);
            assert(screens[n - 2].frame.x <= screens[n - 1].frame.x);
        }
        assert(slot_for(before, x, n - 1) == n - 1);
        assert(before.insert(n - 1, screens[n - 1]) =~= screens.take(n));
    }
}

/// The Manhattan distance between the corners of two rectangles.
fn corner_distance(a: &Rect, b: &Rect) -> (d: i64)
    ensures
        d == manhattan(*a, *b),
{
    let dx: i64 = a.x as i64 - b.x as i64;
    let dy: i64 = a.y as i64 - b.y as i64;
    let ax: i64 = if dx < 0 {
        -dx
    } else {
        dx
    };
    let ay: i64 = if dy < 0 {
        -dy
    } else {
        dy
    };
    ax + ay
}

/// The first live screen with the handle `id`.
fn find_id(live: &Vec<ScreenInfo>, id: u32) -> (found: Option<usize>)
    ensures
        match found {
            Some(i) => first_with_id(live@, id, live.len() as int) == Some(i as int),
            None => first_with_id(live@, id, live.len() as int) is None,
        },
{
    let mut i: usize = 0;
    while i < live.len()
        invariant
            i <= live.len(),
            first_with_id(live@, id, i as int) is None,
        decreases live.len() - i,
    {
        if live[i].screen_id == id {
            proof {
                assert(first_with_id(live@, id, i + 1) == Some(i as int));
                lemma_first_with_id_stable(live@, id, i + 1, live.len() as int);
            }
            return Some(i);
        }
        i = i + 1;
    }
    None
}

/// The eligible live screen nearest to `saved`.
fn find_nearest(live: &Vec<ScreenInfo>, saved: &ScreenInfo, sized: bool) -> (found: Option<usize>)
    ensures
        match found {
            Some(i) => nearest(live@, *saved, sized, live.len() as int) == Some(i as int),
            None => nearest(live@, *saved, sized, live.len() as int) is None,
        },
{
    let mut best: Option<usize> = None;
    let mut best_distance: i64 = 0;
    let mut i: usize = 0;
    while i < live.len()
        invariant
            i <= live.len(),
            match best {
                Some(b) => nearest(live@, *saved, sized, i as int) == Some(b as int) && b < i
                    && best_distance == manhattan(live@[b as int].frame, saved.frame),
                None => nearest(live@, *saved, sized, i as int) is None,
            },
        decreases live.len() - i,
    {
        let frame: &Rect = &live[i].frame;
        if !sized || (frame.w == saved.frame.w && frame.h == saved.frame.h) {
            let d: i64 = corner_distance(frame, &saved.frame);
            if best.is_none() || d < best_distance {
                best = Some(i);
                best_distance = d;
            }
        }
        i = i + 1;
    }
    best
}

/// The index of the live screen that stands for `saved`: the first with its
/// handle; else the nearest of its size; else the nearest. None where no
/// screen is live.
pub fn resolve_screen(saved: &ScreenInfo, live: &Vec<ScreenInfo>) -> (found: Option<usize>)
    ensures
        match found {
            Some(i) => spec_resolve_screen(*saved, live@) == Some(i as int) && i < live.len(),
            None => spec_resolve_screen(*saved, live@) is None && live.len() == 0,
        },
{
    proof {
        lemma_resolve_screen(*saved, live@);
    }
    match find_id(live, saved.screen_id) {
        Some(i) => Some(i),
        None => match find_nearest(live, saved, true) {
            Some(i) => Some(i),
            None => find_nearest(live, saved, false),
        },
    }
}

/// The index of the live screen that `screen_num` refers to in a layout whose
/// screens are `known`. None where no screen is live.
pub fn locate_screen(known: &Vec<ScreenInfo>, screen_num: usize, live: &Vec<ScreenInfo>) -> (found:
    Option<usize>)
    ensures
        match found {
            Some(i) => spec_locate_screen(known@, screen_num as nat, live@) == Some(i as int) && i
                < live.len(),
            None => spec_locate_screen(known@, screen_num as nat, live@) is None && live.len()
                == 0,
        },
{
    if live.len() == 0 {
        None
    } else if 1 <= screen_num && screen_num <= known.len() {
        resolve_screen(&known[screen_num - 1], live)
    } else if screen_num == 0 {
        Some(0)
    } else if screen_num > live.len() {
        Some(live.len() - 1)
    } else {
        Some(screen_num - 1)
    }
}

/// Once a screen below `n` has the handle, looking further changes nothing.
pub proof fn lemma_first_with_id_stable(live: Seq<ScreenInfo>, id: u32, n: int, m: int)
    requires
        n <= m,
        first_with_id(live, id, n) is Some,
    ensures
        first_with_id(live, id, m) == first_with_id(live, id, n),
    decreases m - n,
{
    if n < m {
        lemma_first_with_id_stable(live, id, n, m - 1);
    }
}

/// What `first_with_id` finds: a screen with the handle, with none before it
/// that has it; or nothing, where no screen below `n` has it.
pub proof fn lemma_first_with_id(live: Seq<ScreenInfo>, id: u32, n: int)
    requires
        0 <= n <= live.len(),
    ensures
        match first_with_id(live, id, n) {
            Some(i) => {
                &&& 0 <= i < n
                &&& live[i].screen_id == id
                &&& forall|j: int| 0 <= j < i ==> (#[trigger] live[j]).screen_id != id
            },
            None => forall|j: int| 0 <= j < n ==> (#[trigger] live[j]).screen_id != id,
        },
    decreases n,
{
    if n > 0 {
        lemma_first_with_id(live, id, n - 1);
    }
}

/// What `nearest` finds: an eligible screen such that no eligible screen below
/// `n` is nearer and none before it is as near; or nothing, where no screen
/// below `n` is eligible.
pub proof fn lemma_nearest(live: Seq<ScreenInfo>, saved: ScreenInfo, sized: bool, n: int)
    requires
        0 <= n <= live.len(),
    ensures
        match nearest(live, saved, sized, n) {
            Some(i) => {
                &&& 0 <= i < n
                &&& eligible(live[i], saved, sized)
                &&& forall|j: int|
                    0 <= j < n && eligible(#[trigger] live[j], saved, sized) ==> manhattan(
                        live[i].frame,
                        saved.frame,
                    ) <= manhattan(live[j].frame, saved.frame)
                &&& forall|j: int|
                    0 <= j < i && eligible(#[trigger] live[j], saved, sized) ==> manhattan(
                        live[i].frame,
                        saved.frame,
                    ) < manhattan(live[j].frame, saved.frame)
            },
            None => forall|j: int| 0 <= j < n ==> !eligible(#[trigger] live[j], saved, sized),
        },
    decreases n,
{
    if n > 0 {
        lemma_nearest(live, saved, sized, n - 1);
    }
}

/// A saved screen is always found among live screens, unless there are none;
/// and the screen found is in the list.
pub proof fn lemma_resolve_screen(saved: ScreenInfo, live: Seq<ScreenInfo>)
    ensures
        match spec_resolve_screen(saved, live) {
            Some(i) => 0 <= i < live.len(),
            None => live.len() == 0,
        },
{
    let n = live.len() as int;
    lemma_first_with_id(live, saved.screen_id, n);
    lemma_nearest(live, saved, true, n);
    lemma_nearest(live, saved, false, n);
    if n > 0 {
        assert(eligible(live[0], saved, false));
    }
}

/// A live screen that has the saved screen's handle stands for it, wherever it is.
pub proof fn lemma_resolve_screen_by_id(saved: ScreenInfo, live: Seq<ScreenInfo>, i: int)
    requires
        0 <= i < live.len(),
        live[i].screen_id == saved.screen_id,
        forall|j: int| 0 <= j < i ==> (#[trigger] live[j]).screen_id != saved.screen_id,
    ensures
        spec_resolve_screen(saved, live) == Some(i),
{
    lemma_first_with_id(live, saved.screen_id, i);
    assert(first_with_id(live, saved.screen_id, i + 1) == Some(i));
    lemma_first_with_id_stable(live, saved.screen_id, i + 1, live.len() as int);
}

/// Where no live screen has the saved screen's handle but some have its size,
/// the live screen that stands for it is the nearest of those, the first of
/// those equally near.
pub proof fn lemma_resolve_screen_by_size(saved: ScreenInfo, live: Seq<ScreenInfo>, k: int)
    requires
        0 <= k < live.len(),
        same_size(live[k].frame, saved.frame),
        forall|j: int| 0 <= j < live.len() ==> (#[trigger] live[j]).screen_id != saved.screen_id,
    ensures
        spec_resolve_screen(saved, live) matches Some(i) && {
            &&& 0 <= i < live.len()
            &&& same_size(live[i].frame, saved.frame)
            &&& forall|j: int|
                0 <= j < live.len() && same_size((#[trigger] live[j]).frame, saved.frame)
                    ==> manhattan(live[i].frame, saved.frame) <= manhattan(
                    live[j].frame,
                    saved.frame,
                )
            &&& forall|j: int|
                0 <= j < i && same_size((#[trigger] live[j]).frame, saved.frame) ==> manhattan(
                    live[i].frame,
                    saved.frame,
                ) < manhattan(live[j].frame, saved.frame)
        },
{
    let n = live.len() as int;
    lemma_first_with_id(live, saved.screen_id, n);
    lemma_nearest(live, saved, true, n);
    assert(eligible(live[k], saved, true));
}

/// Where no live screen has the saved screen's handle and none has its size,
/// the live screen that stands for it is the nearest by Manhattan distance
/// between the corners, the first of those equally near.
pub proof fn lemma_resolve_screen_by_distance(saved: ScreenInfo, live: Seq<ScreenInfo>)
    requires
        live.len() > 0,
        forall|j: int| 0 <= j < live.len() ==> (#[trigger] live[j]).screen_id != saved.screen_id,
        forall|j: int| 0 <= j < live.len() ==> !same_size((#[trigger] live[j]).frame, saved.frame),
    ensures
        spec_resolve_screen(saved, live) matches Some(i) && {
            &&& 0 <= i < live.len()
            &&& forall|j: int|
                0 <= j < live.len() ==> manhattan(live[i].frame, saved.frame) <= manhattan(
                    (#[trigger] live[j]).frame,
                    saved.frame,
                )
            &&& forall|j: int|
                0 <= j < i ==> manhattan(live[i].frame, saved.frame) < manhattan(
                    (#[trigger] live[j]).frame,
                    saved.frame,
                )
        },
{
    let n = live.len() as int;
    lemma_first_with_id(live, saved.screen_id, n);
    lemma_nearest(live, saved, true, n);
    lemma_nearest(live, saved, false, n);
    assert(eligible(live[0], saved, false));
    assert(forall|j: int| 0 <= j < n ==> eligible(#[trigger] live[j], saved, false));
}

} // verus!
