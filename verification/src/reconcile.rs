//! Bringing the desktop to a saved layout.
//!
//! Each window on the desktop is looked up in the saved layout; the first
//! description there that matches it says where the window should be. Every
//! live window that goes by the names is then judged on its own: where it is
//! on the desktop now, where it should be, and whether the two are close
//! enough. A window that is not close gets a request to move.
//!
//! Moving a window between displays of very different sizes does not always
//! take at once, so the desktop is looked at and corrected a fixed number of
//! times, with a pause after each pass.

use crate::geometry::{Bounds, Rect, ScreenInfo};
use crate::observe::Sighting;
use crate::position::{lemma_first_containing_is, WindowPos};
use crate::screens::{lemma_resolve_screen_by_id, locate_screen, spec_locate_screen};
use crate::window::{descriptors, Arrangement, Descriptor, Layout, MatchingWindowInfo, WindowInfo};
use vstd::prelude::*;

verus! {

/// How often the desktop is looked at and corrected.
pub const PASSES: usize = 2;

/// How long the desktop is left to settle after a pass, in milliseconds.
pub const SETTLE_MILLIS: u64 = 500;

/// Why the desktop cannot be brought to the layout.
#[derive(Debug, Clone, Copy, PartialEq, Eq, Structural)]
pub enum ReconcileError {
    /// The desktop shows no screen.
    NoScreens,
    /// The desktop shows no window.
    NoWindows,
    /// A rectangle on the desktop that a decision needs has a coordinate that
    /// does not fit in 32 bits.
    OutOfRange,
}

/// The model of [`MoveRequest`].
pub struct Relocation {
    pub owner_name: Seq<char>,
    pub name: Seq<char>,
    pub process_id: i32,
    pub window_id: u32,
    pub target: Rect,
}

/// A request to give a live window a rectangle on the desktop.
#[derive(Debug)]
pub struct MoveRequest {
    pub owner_name: String,
    pub name: String,
    pub process_id: i32,
    pub window_id: u32,
    pub target: Rect,
}

impl View for MoveRequest {
    type V = Relocation;

    open spec fn view(&self) -> Relocation {
        Relocation {
            owner_name: self.owner_name@,
            name: self.name@,
            process_id: self.process_id,
            window_id: self.window_id,
            target: self.target,
        }
    }
}

/// The relocations that a list of requests stands for.
pub open spec fn relocations(requests: Seq<MoveRequest>) -> Seq<Relocation> {
    Seq::new(requests.len(), |i: int| requests[i]@)
}

/// The first index below `n` of a saved description that matches `seen`.
pub open spec fn first_match(desired: Seq<Descriptor>, seen: Descriptor, n: int) -> Option<int>
    decreases n,
{
    if n <= 0 {
        None
    } else {
        match first_match(desired, seen, n - 1) {
            Some(d) => Some(d),
            None => if desired[n - 1].matches(seen) {
                Some(n - 1)
            } else {
                None
            },
        }
    }
}

/// The saved description that says where `seen` should be: the first that matches it.
pub open spec fn wanted(desired: Seq<Descriptor>, seen: Descriptor) -> Option<int> {
    first_match(desired, seen, desired.len() as int)
}

/// Where a live window is on the desktop now. Its screen is found among the
/// live screens, which are the screens of the layout that lists it.
pub open spec fn current_bounds(instance: MatchingWindowInfo, live: Seq<ScreenInfo>) -> Bounds
    recommends
        live.len() > 0,
{
    WindowPos::Pos(instance.bounds).spec_to_absolute(
        live[spec_locate_screen(live, instance.screen_num as nat, live)->0],
    )
}

/// Where a window should be on the desktop according to the saved
/// description `want`, whose layout has the screens `known`. The screen is
/// the live screen that stands for the one meant.
pub open spec fn desired_bounds(
    want: Descriptor,
    known: Seq<ScreenInfo>,
    live: Seq<ScreenInfo>,
) -> Bounds
    recommends
        live.len() > 0,
{
    want.pos.spec_to_absolute(live[spec_locate_screen(known, want.screen_num, live)->0])
}

/// Whether both rectangles that the decision on a live window needs have
/// 32-bit coordinates.
pub open spec fn evaluable(
    instance: MatchingWindowInfo,
    want: Descriptor,
    known: Seq<ScreenInfo>,
    live: Seq<ScreenInfo>,
) -> bool {
    current_bounds(instance, live).representable() && desired_bounds(
        want,
        known,
        live,
    ).representable()
}

/// The decision on one live window: nothing where it is close to where it
/// should be, else the request to put it there.
pub open spec fn relocation(
    seen: Descriptor,
    instance: MatchingWindowInfo,
    want: Descriptor,
    known: Seq<ScreenInfo>,
    live: Seq<ScreenInfo>,
) -> Option<Relocation> {
    if current_bounds(instance, live).is_close(desired_bounds(want, known, live)) {
        None
    } else {
        Some(
            Relocation {
                owner_name: seen.owner_name.text(),
                name: seen.name.text(),
                process_id: instance.process_id,
                window_id: instance.window_id,
                target: desired_bounds(want, known, live).to_rect(),
            },
        )
    }
}

/// The requests for the first `m` live windows of `seen`, in their order.
pub open spec fn window_moves(
    seen: Descriptor,
    want: Descriptor,
    known: Seq<ScreenInfo>,
    live: Seq<ScreenInfo>,
    m: int,
) -> Seq<Relocation>
    decreases m,
{
    if m <= 0 {
        Seq::empty()
    } else {
        match relocation(seen, seen.matching_windows[m - 1], want, known, live) {
            Some(r) => window_moves(seen, want, known, live, m - 1).push(r),
            None => window_moves(seen, want, known, live, m - 1),
        }
    }
}

/// The requests for the first `n` descriptions of the observed layout, in
/// their order. A description that no saved description matches asks for nothing.
pub open spec fn layout_moves(desired: Arrangement, observed: Arrangement, n: int) -> Seq<
    Relocation,
>
    decreases n,
{
    if n <= 0 {
        Seq::empty()
    } else {
        let seen = observed.windows[n - 1];
        match wanted(desired.windows, seen) {
            Some(d) => layout_moves(desired, observed, n - 1) + window_moves(
                seen,
                desired.windows[d],
                desired.screens,
                observed.screens,
                seen.matching_windows.len() as int,
            ),
            None => layout_moves(desired, observed, n - 1),
        }
    }
}

/// Whether the decisions on the first `m` live windows of `seen` can be made.
pub open spec fn window_plannable(
    seen: Descriptor,
    want: Descriptor,
    known: Seq<ScreenInfo>,
    live: Seq<ScreenInfo>,
    m: int,
) -> bool {
    forall|p: int|
        0 <= p < m ==> evaluable(#[trigger] seen.matching_windows[p], want, known, live)
}

/// Whether the decisions on the first `n` descriptions of the observed
/// layout can be made.
pub open spec fn plannable(desired: Arrangement, observed: Arrangement, n: int) -> bool {
    forall|j: int|
        0 <= j < n ==> (wanted(desired.windows, #[trigger] observed.windows[j]) matches Some(d)
            ==> window_plannable(
            observed.windows[j],
            desired.windows[d],
            desired.screens,
            observed.screens,
            observed.windows[j].matching_windows.len() as int,
        ))
}

/// The whole plan of one pass, or why there is none.
pub open spec fn spec_plan(desired: Arrangement, observed: Arrangement) -> Result<
    Seq<Relocation>,
    ReconcileError,
> {
    if observed.screens.len() == 0 {
        Err(ReconcileError::NoScreens)
    } else if !plannable(desired, observed, observed.windows.len() as int) {
        Err(ReconcileError::OutOfRange)
    } else {
        Ok(layout_moves(desired, observed, observed.windows.len() as int))
    }
}

/// The first saved description that matches `seen`.
pub fn find_match(desired: &Vec<WindowInfo>, seen: &WindowInfo) -> (found: Option<usize>)
    ensures
        match found {
            Some(d) => wanted(descriptors(desired@), seen@) == Some(d as int) && d < desired.len(),
            None => wanted(descriptors(desired@), seen@) is None,
        },
{
    let ghost saved = descriptors(desired@);
    let mut d: usize = 0;
    while d < desired.len()
        invariant
            d <= desired.len(),
            saved == descriptors(desired@),
            first_match(saved, seen@, d as int) is None,
        decreases desired.len() - d,
    {
        if desired[d].matches(seen) {
            proof {
                assert(saved[d as int] == desired@[d as int]@);
                assert(first_match(saved, seen@, d + 1) == Some(d as int));
                lemma_first_match_stable(saved, seen@, d + 1, desired.len() as int);
            }
            return Some(d);
        }
        proof {
            assert(saved[d as int] == desired@[d as int]@);
        }
        d = d + 1;
    }
    None
}

/// The decision on one live window of `seen`, given the saved description
/// `want` that matches it, the screens `known` of the saved layout and the
/// live screens.
pub fn decide(
    seen: &WindowInfo,
    instance: &MatchingWindowInfo,
    want: &WindowInfo,
    known: &Vec<ScreenInfo>,
    live: &Vec<ScreenInfo>,
) -> (decision: Result<Option<MoveRequest>, ReconcileError>)
    ensures
        match decision {
            Ok(Some(request)) => live.len() > 0 && evaluable(*instance, want@, known@, live@)
                && relocation(seen@, *instance, want@, known@, live@) == Some(request@),
            Ok(None) => live.len() > 0 && evaluable(*instance, want@, known@, live@) && relocation(
                seen@,
                *instance,
                want@,
                known@,
                live@,
            ) is None,
            Err(ReconcileError::NoScreens) => live.len() == 0,
            Err(ReconcileError::OutOfRange) => live.len() > 0 && !evaluable(
                *instance,
                want@,
                known@,
                live@,
            ),
            Err(ReconcileError::NoWindows) => false,
        },
{
    let here: usize = match locate_screen(live, instance.screen_num, live) {
        Some(index) => index,
        None => {
            return Err(ReconcileError::NoScreens);
        },
    };
    let there: usize = match locate_screen(known, want.screen_num, live) {
        Some(index) => index,
        None => {
            return Err(ReconcileError::NoScreens);
        },
    };
    let current: Rect = match WindowPos::Pos(instance.bounds).checked_to_absolute(&live[here]) {
        Some(rect) => rect,
        None => {
            return Err(ReconcileError::OutOfRange);
        },
    };
    let target: Rect = match want.pos.checked_to_absolute(&live[there]) {
        Some(rect) => rect,
        None => {
            return Err(ReconcileError::OutOfRange);
        },
    };
    if current.is_close(&target) {
        Ok(None)
    } else {
        Ok(
            Some(
                MoveRequest {
                    owner_name: seen.owner_name.to_string(),
                    name: seen.name.to_string(),
                    process_id: instance.process_id,
                    window_id: instance.window_id,
                    target,
                },
            ),
        )
    }
}

/// The requests that bring the observed layout to the desired one, in the
/// order of the observed windows; or why they cannot be made.
pub fn plan_moves(desired: &Layout, observed: &Layout) -> (plan: Result<
    Vec<MoveRequest>,
    ReconcileError,
>)
    ensures
        match plan {
            Ok(requests) => spec_plan(desired@, observed@) == Ok::<
                Seq<Relocation>,
                ReconcileError,
            >(relocations(requests@)),
            Err(error) => spec_plan(desired@, observed@) == Err::<Seq<Relocation>, ReconcileError>(
                error,
            ),
        },
{
    if observed.screens.len() == 0 {
        return Err(ReconcileError::NoScreens);
    }
    let ghost want_all = desired@;
    let ghost seen_all = observed@;
    let mut requests: Vec<MoveRequest> = Vec::new();
    let mut j: usize = 0;
    assert(relocations(requests@) =~= layout_moves(want_all, seen_all, 0));
    while j < observed.windows.len()
        invariant
            j <= observed.windows.len(),
            observed.screens.len() > 0,
            want_all == desired@,
            seen_all == observed@,
            plannable(want_all, seen_all, j as int),
            relocations(requests@) == layout_moves(want_all, seen_all, j as int),
        decreases observed.windows.len() - j,
    {
        let seen: &WindowInfo = &observed.windows[j];
        assert(seen_all.windows[j as int] == seen@);
        let ghost so_far = relocations(requests@);
        match find_match(&desired.windows, seen) {
            None => {},
            Some(d) => {
                let want: &WindowInfo = &desired.windows[d];
                assert(want_all.windows[d as int] == want@);
                let mut p: usize = 0;
                assert(relocations(requests@) =~= so_far + window_moves(
                    seen@,
                    want@,
                    want_all.screens,
                    seen_all.screens,
                    0,
                ));
                while p < seen.matching_windows.len()
                    invariant
                        p <= seen.matching_windows.len(),
                        j < observed.windows.len(),
                        observed.screens.len() > 0,
                        want_all == desired@,
                        seen_all == observed@,
                        seen_all.windows[j as int] == seen@,
                        wanted(want_all.windows, seen@) == Some(d as int),
                        want_all.windows[d as int] == want@,
                        window_plannable(
                            seen@,
                            want@,
                            want_all.screens,
                            seen_all.screens,
                            p as int,
                        ),
                        relocations(requests@) == so_far + window_moves(
                            seen@,
                            want@,
                            want_all.screens,
                            seen_all.screens,
                            p as int,
                        ),
                    decreases seen.matching_windows.len() - p,
                {
                    let instance: MatchingWindowInfo = seen.matching_windows[p];
                    let ghost before = relocations(requests@);
                    match decide(seen, &instance, want, &desired.screens, &observed.screens) {
                        Ok(Some(request)) => {
                            let ghost r = request@;
                            requests.push(request);
                            assert(relocations(requests@) =~= before.push(r));
                            assert(before.push(r) =~= so_far + window_moves(
                                seen@,
                                want@,
                                want_all.screens,
                                seen_all.screens,
                                p + 1,
                            ));
                        },
                        Ok(None) => {},
                        Err(error) => {
                            proof {
                                assert(!evaluable(
                                    seen@.matching_windows[p as int],
                                    want@,
                                    want_all.screens,
                                    seen_all.screens,
                                ));
                                assert(!window_plannable(
                                    seen_all.windows[j as int],
                                    want_all.windows[d as int],
                                    want_all.screens,
                                    seen_all.screens,
                                    seen_all.windows[j as int].matching_windows.len() as int,
                                ));
                                assert(!plannable(
                                    want_all,
                                    seen_all,
                                    seen_all.windows.len() as int,
                                ));
                            }
                            return Err(ReconcileError::OutOfRange);
                        },
                    }
                    p = p + 1;
                }
            },
        }
        j = j + 1;
    }
    Ok(requests)
}

/// What one pass asks of the desktop: the windows to move, and how long to
/// leave the desktop alone afterwards, in milliseconds.
#[derive(Debug)]
pub struct Pass {
    pub requests: Vec<MoveRequest>,
    pub settle_millis: u64,
}

/// The course of one reconciliation: the layout to reach and the passes made so far.
#[derive(Debug)]
pub struct Reconciler {
    pub desired: Layout,
    pub passes_done: usize,
}

impl Reconciler {
    /// Whether all passes have been made.
    pub open spec fn spec_finished(self) -> bool {
        self.passes_done >= PASSES
    }

    /// A reconciliation toward `desired` that has made no pass yet.
    pub fn new(desired: Layout) -> (reconciler: Reconciler)
        ensures
            reconciler.desired == desired,
            reconciler.passes_done == 0,
            !reconciler.spec_finished(),
    {
        Reconciler { desired, passes_done: 0 }
    }

    /// Whether all passes have been made.
    pub fn finished(&self) -> (done: bool)
        ensures
            done == self.spec_finished(),
    {
        self.passes_done >= PASSES
    }

    /// One pass: given the layout that the desktop shows now, the windows to
    /// move and the pause to keep.
    ///
    /// A desktop without screens or without windows cannot be reconciled, nor
    /// one with a rectangle out of range; the pass then does not count. Once
    /// all passes are made, a further one asks for nothing.
    pub fn pass(&mut self, observed: &Layout) -> (outcome: Result<Pass, ReconcileError>)
        ensures
            final(self).desired == old(self).desired,
            old(self).spec_finished() ==> final(self).passes_done == old(self).passes_done && (
            outcome matches Ok(pass) && pass.requests@.len() == 0 && pass.settle_millis == 0),
            !old(self).spec_finished() ==> match outcome {
                Ok(pass) => {
                    &&& observed@.windows.len() > 0
                    &&& spec_plan(old(self).desired@, observed@) == Ok::<
                        Seq<Relocation>,
                        ReconcileError,
                    >(relocations(pass.requests@))
                    &&& pass.settle_millis == SETTLE_MILLIS
                    &&& final(self).passes_done == old(self).passes_done + 1
                },
                Err(error) => {
                    &&& final(self).passes_done == old(self).passes_done
                    &&& error == if observed@.screens.len() == 0 {
                        ReconcileError::NoScreens
                    } else if observed@.windows.len() == 0 {
                        ReconcileError::NoWindows
                    } else {
                        ReconcileError::OutOfRange
                    }
                    &&& error == ReconcileError::OutOfRange ==> spec_plan(
                        old(self).desired@,
                        observed@,
                    ) == Err::<Seq<Relocation>, ReconcileError>(ReconcileError::OutOfRange)
                },
            },
    {
        if self.passes_done >= PASSES {
            return Ok(Pass { requests: Vec::new(), settle_millis: 0 });
        }
        if observed.screens.len() == 0 {
            return Err(ReconcileError::NoScreens);
        }
        if observed.windows.len() == 0 {
            return Err(ReconcileError::NoWindows);
        }
        match plan_moves(&self.desired, observed) {
            Ok(requests) => {
                self.passes_done = self.passes_done + 1;
                Ok(Pass { requests, settle_millis: SETTLE_MILLIS })
            },
            Err(error) => Err(error),
        }
    }
}

/// Once a saved description below `n` matches, looking further changes nothing.
pub proof fn lemma_first_match_stable(desired: Seq<Descriptor>, seen: Descriptor, n: int, m: int)
    requires
        n <= m,
        first_match(desired, seen, n) is Some,
    ensures
        first_match(desired, seen, m) == first_match(desired, seen, n),
    decreases m - n,
{
    if n < m {
        lemma_first_match_stable(desired, seen, n, m - 1);
    }
}

/// What `first_match` finds: a saved description that matches, with none
/// before it that does; or nothing, where none below `n` matches.
pub proof fn lemma_first_match(desired: Seq<Descriptor>, seen: Descriptor, n: int)
    requires
        0 <= n <= desired.len(),
    ensures
        match first_match(desired, seen, n) {
            Some(d) => {
                &&& 0 <= d < n
                &&& desired[d].matches(seen)
                &&& forall|e: int| 0 <= e < d ==> !(#[trigger] desired[e]).matches(seen)
            },
            None => forall|e: int| 0 <= e < n ==> !(#[trigger] desired[e]).matches(seen),
        },
    decreases n,
{
    if n > 0 {
        lemma_first_match(desired, seen, n - 1);
    }
}

/// A window is taken to be where the desktop reported it: a window sighted
/// with its corner on a live screen, listed in the layout and put back on the
/// desktop, has the rectangle that it was sighted with, provided that no
/// screen earlier in the list has the handle of the screen that holds it.
pub proof fn lemma_current_bounds_of_sighting(sighting: Sighting, live: Seq<ScreenInfo>, i: int)
    requires
        sighting.bounds is Some,
        0 <= i < live.len(),
        live.len() <= usize::MAX,
        live[i].frame@.contains_point(sighting.bounds->0.x as int, sighting.bounds->0.y as int),
        forall|j: int|
            0 <= j < i ==> !(#[trigger] live[j]).frame@.contains_point(
                sighting.bounds->0.x as int,
                sighting.bounds->0.y as int,
            ) && live[j].screen_id != live[i].screen_id,
    ensures
        sighting.instance(live).screen_num == i + 1,
        current_bounds(sighting.instance(live), live) == sighting.bounds->0@,
{
    let bounds = sighting.bounds->0;
    lemma_first_containing_is(live, bounds, i);
    lemma_resolve_screen_by_id(live[i], live, i);
}

/// A live window stays where it is exactly when it is within three pixels of
/// where it should be in position and in size; otherwise it is asked to move
/// to exactly where it should be.
pub proof fn lemma_moved_unless_close(
    seen: Descriptor,
    instance: MatchingWindowInfo,
    want: Descriptor,
    known: Seq<ScreenInfo>,
    live: Seq<ScreenInfo>,
)
    ensures
        relocation(seen, instance, want, known, live) is None <==> current_bounds(
            instance,
            live,
        ).is_close(desired_bounds(want, known, live)),
        relocation(seen, instance, want, known, live) matches Some(r) ==> r.process_id
            == instance.process_id && r.window_id == instance.window_id && r.target
            == desired_bounds(want, known, live).to_rect(),
{
}

/// Every live window of a description is judged on its own: the request for
/// any one of the first `n` that is not close is among the requests for them,
/// whatever the decision on the others that share its names.
pub proof fn lemma_each_window_is_judged(
    seen: Descriptor,
    want: Descriptor,
    known: Seq<ScreenInfo>,
    live: Seq<ScreenInfo>,
    n: int,
    p: int,
)
    requires
        0 <= p < n,
    ensures
        relocation(seen, seen.matching_windows[p], want, known, live) matches Some(r)
            ==> window_moves(seen, want, known, live, n).contains(r),
    decreases n,
{
    let moves = window_moves(seen, want, known, live, n);
    if p < n - 1 {
        lemma_each_window_is_judged(seen, want, known, live, n - 1, p);
        let earlier = window_moves(seen, want, known, live, n - 1);
        if let Some(r) = relocation(seen, seen.matching_windows[p], want, known, live) {
            let i = choose|i: int| 0 <= i < earlier.len() && earlier[i] == r;
            assert(moves[i] == r);
        }
    } else {
        if let Some(r) = relocation(seen, seen.matching_windows[p], want, known, live) {
            assert(moves[moves.len() - 1] == r);
        }
    }
}

/// No request comes from nowhere: each of the requests for the first `n` live
/// windows of a description is the decision on one of them.
pub proof fn lemma_each_request_has_a_window(
    seen: Descriptor,
    want: Descriptor,
    known: Seq<ScreenInfo>,
    live: Seq<ScreenInfo>,
    n: int,
    i: int,
)
    requires
        0 <= i < window_moves(seen, want, known, live, n).len(),
    ensures
        exists|p: int|
            0 <= p < n && relocation(
                seen,
                #[trigger] seen.matching_windows[p],
                want,
                known,
                live,
            ) == Some(window_moves(seen, want, known, live, n)[i]),
    decreases n,
{
    if n > 0 {
        let earlier = window_moves(seen, want, known, live, n - 1);
        if i < earlier.len() {
            lemma_each_request_has_a_window(seen, want, known, live, n - 1, i);
            let p = choose|p: int|
                0 <= p < n - 1 && relocation(
                    seen,
                    #[trigger] seen.matching_windows[p],
                    want,
                    known,
                    live,
                ) == Some(earlier[i]);
            assert(relocation(seen, seen.matching_windows[p], want, known, live) == Some(
                window_moves(seen, want, known, live, n)[i],
            ));
        } else {
            assert(relocation(seen, seen.matching_windows[n - 1], want, known, live) == Some(
                window_moves(seen, want, known, live, n)[i],
            ));
        }
    }
}

/// The requests for a description that a saved description matches are all
/// part of the plan for the layout.
pub proof fn lemma_plan_holds_window_moves(
    desired: Arrangement,
    observed: Arrangement,
    n: int,
    j: int,
    r: Relocation,
)
    requires
        0 <= j < n,
        wanted(desired.windows, observed.windows[j]) matches Some(d) && window_moves(
            observed.windows[j],
            desired.windows[d],
            desired.screens,
            observed.screens,
            observed.windows[j].matching_windows.len() as int,
        ).contains(r),
    ensures
        layout_moves(desired, observed, n).contains(r),
    decreases n,
{
    let moves = layout_moves(desired, observed, n);
    let earlier = layout_moves(desired, observed, n - 1);
    if j < n - 1 {
        lemma_plan_holds_window_moves(desired, observed, n - 1, j, r);
        let i = choose|i: int| 0 <= i < earlier.len() && earlier[i] == r;
        assert(moves[i] == r);
    } else {
        let d = wanted(desired.windows, observed.windows[j])->0;
        let own = window_moves(
            observed.windows[j],
            desired.windows[d],
            desired.screens,
            observed.screens,
            observed.windows[j].matching_windows.len() as int,
        );
        let i = choose|i: int| 0 <= i < own.len() && own[i] == r;
        assert(moves[earlier.len() + i] == r);
    }
}

/// Windows that share owner and title are each judged and moved on their own:
/// for every description on the desktop that a saved description matches, and
/// every live window of it, the plan holds the request to move that window
/// unless the window is close to where it should be.
pub proof fn lemma_every_window_is_planned(
    desired: Arrangement,
    observed: Arrangement,
    j: int,
    p: int,
)
    requires
        0 <= j < observed.windows.len(),
        0 <= p < observed.windows[j].matching_windows.len(),
        wanted(desired.windows, observed.windows[j]) is Some,
    ensures
        relocation(
            observed.windows[j],
            observed.windows[j].matching_windows[p],
            desired.windows[wanted(desired.windows, observed.windows[j])->0],
            desired.screens,
            observed.screens,
        ) matches Some(r) ==> layout_moves(
            desired,
            observed,
            observed.windows.len() as int,
        ).contains(r),
{
    let seen = observed.windows[j];
    let want = desired.windows[wanted(desired.windows, seen)->0];
    lemma_each_window_is_judged(
        seen,
        want,
        desired.screens,
        observed.screens,
        seen.matching_windows.len() as int,
        p,
    );
    if let Some(r) = relocation(
        seen,
        seen.matching_windows[p],
        want,
        desired.screens,
        observed.screens,
    ) {
        lemma_plan_holds_window_moves(desired, observed, observed.windows.len() as int, j, r);
    }
}

/// Every request in the plan is the decision on a live window of a
/// description that a saved description matches: a window that nothing
/// matches, or that is close to where it should be, is never moved.
pub proof fn lemma_every_request_is_due(
    desired: Arrangement,
    observed: Arrangement,
    n: int,
    i: int,
)
    requires
        0 <= n <= observed.windows.len(),
        0 <= i < layout_moves(desired, observed, n).len(),
    ensures
        exists|j: int, p: int|
            0 <= j < n && 0 <= p < observed.windows[j].matching_windows.len() && wanted(
                desired.windows,
                observed.windows[j],
            ) is Some && #[trigger] relocation(
                observed.windows[j],
                observed.windows[j].matching_windows[p],
                desired.windows[wanted(desired.windows, observed.windows[j])->0],
                desired.screens,
                observed.screens,
            ) == Some(layout_moves(desired, observed, n)[i]),
    decreases n,
{
    if n > 0 {
        let earlier = layout_moves(desired, observed, n - 1);
        let moves = layout_moves(desired, observed, n);
        if i < earlier.len() {
            lemma_every_request_is_due(desired, observed, n - 1, i);
            let (j, p) = choose|j: int, p: int|
                0 <= j < n - 1 && 0 <= p < observed.windows[j].matching_windows.len() && wanted(
                    desired.windows,
                    observed.windows[j],
                ) is Some && #[trigger] relocation(
                    observed.windows[j],
                    observed.windows[j].matching_windows[p],
                    desired.windows[wanted(desired.windows, observed.windows[j])->0],
                    desired.screens,
                    observed.screens,
                ) == Some(earlier[i]);
            assert(moves[i] == earlier[i]);
            assert(relocation(
                observed.windows[j],
                observed.windows[j].matching_windows[p],
                desired.windows[wanted(desired.windows, observed.windows[j])->0],
                desired.screens,
                observed.screens,
            ) == Some(moves[i]));
        } else {
            let seen = observed.windows[n - 1];
            let d = wanted(desired.windows, seen)->0;
            let own = window_moves(
                seen,
                desired.windows[d],
                desired.screens,
                observed.screens,
                seen.matching_windows.len() as int,
            );
            assert(moves[i] == own[i - earlier.len()]);
            lemma_each_request_has_a_window(
                seen,
                desired.windows[d],
                desired.screens,
                observed.screens,
                seen.matching_windows.len() as int,
                i - earlier.len(),
            );
            let p = choose|p: int|
                0 <= p < seen.matching_windows.len() && relocation(
                    seen,
                    #[trigger] seen.matching_windows[p],
                    desired.windows[d],
                    desired.screens,
                    observed.screens,
                ) == Some(own[i - earlier.len()]);
            assert(relocation(
                observed.windows[n - 1],
                observed.windows[n - 1].matching_windows[p],
                desired.windows[wanted(desired.windows, observed.windows[n - 1])->0],
                desired.screens,
                observed.screens,
            ) == Some(moves[i]));
        }
    }
}

} // verus!
