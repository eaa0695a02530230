//! Descriptions of windows, and layouts made of them.
//!
//! A description names a window by two patterns, one for the application that
//! owns it and one for its title, and says on which screen it goes and where.
//! A description taken from the live desktop also lists the windows that go by
//! those names: several windows may share one title.

use crate::geometry::{Rect, ScreenInfo};
use crate::pattern::{MaybeRegex, Pattern};
use crate::position::WindowPos;
use vstd::prelude::*;

verus! {

/// One live window among those that share an owner and a title.
#[derive(Debug, Clone, Copy, PartialEq, Eq, Structural)]
pub struct MatchingWindowInfo {
    pub process_id: i32,
    pub window_id: u32,
    /// The screen that the window was seen on, counted from 1.
    pub screen_num: usize,
    /// The window's rectangle, measured from the corner of that screen.
    pub bounds: Rect,
}

impl Default for MatchingWindowInfo {
    fn default() -> (m: MatchingWindowInfo)
        ensures
            m == (MatchingWindowInfo {
                process_id: 0,
                window_id: 0,
                screen_num: 0,
                bounds: Rect { x: 0, y: 0, w: 0, h: 0 },
            }),
    {
        MatchingWindowInfo {
            process_id: 0,
            window_id: 0,
            screen_num: 0,
            bounds: Rect { x: 0, y: 0, w: 0, h: 0 },
        }
    }
}

/// The model of [`WindowInfo`].
pub struct Descriptor {
    pub owner_name: Pattern,
    pub name: Pattern,
    pub matching_windows: Seq<MatchingWindowInfo>,
    pub screen_num: nat,
    pub pos: WindowPos,
}

impl Descriptor {
    /// Whether the patterns of `self` match the texts that `other` is written
    /// with: the owner's pattern the owner's text, and the title's the title's.
    pub open spec fn matches_texts_of(self, other: Descriptor) -> bool {
        self.owner_name.matches(other.owner_name.text()) && self.name.matches(other.name.text())
    }

    /// Whether the two descriptions are of the same window: the patterns of one
    /// match the texts of the other, whichever of the two holds the patterns.
    pub open spec fn matches(self, other: Descriptor) -> bool {
        self.matches_texts_of(other) || other.matches_texts_of(self)
    }
}

/// The description of a window.
#[derive(Debug)]
pub struct WindowInfo {
    pub owner_name: MaybeRegex,
    pub name: MaybeRegex,
    /// The live windows that go by these names; empty in a saved layout.
    pub matching_windows: Vec<MatchingWindowInfo>,
    /// The screen that the window goes on, counted from 1 in the list of
    /// screens of the layout that the description belongs to.
    pub screen_num: usize,
    pub pos: WindowPos,
}

impl View for WindowInfo {
    type V = Descriptor;

    open spec fn view(&self) -> Descriptor {
        Descriptor {
            owner_name: self.owner_name@,
            name: self.name@,
            matching_windows: self.matching_windows@,
            screen_num: self.screen_num as nat,
            pos: self.pos,
        }
    }
}

impl Clone for WindowInfo {
    fn clone(&self) -> (copy: WindowInfo)
        ensures
            copy@ == self@,
    {
        WindowInfo {
            owner_name: self.owner_name.clone(),
            name: self.name.clone(),
            matching_windows: copy_of(&self.matching_windows),
            screen_num: self.screen_num,
            pos: self.pos,
        }
    }
}

impl Default for WindowInfo {
    fn default() -> (window: WindowInfo)
        ensures
            window@ == (Descriptor {
                owner_name: Pattern::Exact(Seq::<char>::empty()),
                name: Pattern::Exact(Seq::<char>::empty()),
                matching_windows: Seq::<MatchingWindowInfo>::empty(),
                screen_num: 0,
                pos: WindowPos::Maxed,
            }),
    {
        WindowInfo {
            owner_name: MaybeRegex::default(),
            name: MaybeRegex::default(),
            matching_windows: Vec::new(),
            screen_num: 0,
            pos: WindowPos::Maxed,
        }
    }
}

impl WindowInfo {
    /// Whether the two descriptions are of the same window. Either may hold
    /// the patterns and the other the plain texts; owner and title must both match.
    pub fn matches(&self, other: &WindowInfo) -> (matched: bool)
        ensures
            matched == self@.matches(other@),
    {
        (self.owner_name.matches(other.owner_name.as_str()) && self.name.matches(
            other.name.as_str(),
        )) || (other.owner_name.matches(self.owner_name.as_str()) && other.name.matches(
            self.name.as_str(),
        ))
    }
}

/// A copy of a list of live windows.
fn copy_of(windows: &Vec<MatchingWindowInfo>) -> (copy: Vec<MatchingWindowInfo>)
    ensures
        copy@ == windows@,
{
    let mut copy: Vec<MatchingWindowInfo> = Vec::new();
    let mut i: usize = 0;
    while i < windows.len()
        invariant
            i <= windows.len(),
            copy@ == windows@.take(i as int),
        decreases windows.len() - i,
    {
        copy.push(windows[i]);
        assert(windows@.take(i + 1) == windows@.take(i as int).push(windows@[i as int]));
        i = i + 1;
    }
    assert(windows@.take(windows.len() as int) == windows@);
    copy
}

/// The model of [`Layout`].
pub struct Arrangement {
    pub screens: Seq<ScreenInfo>,
    pub windows: Seq<Descriptor>,
}

/// An arrangement of windows on screens: the screens in the order in which
/// the windows' `screen_num` counts them, and the descriptions of the windows.
#[derive(Debug)]
pub struct Layout {
    pub screens: Vec<ScreenInfo>,
    pub windows: Vec<WindowInfo>,
}

/// The descriptions that a list of windows stands for.
pub open spec fn descriptors(windows: Seq<WindowInfo>) -> Seq<Descriptor> {
    Seq::new(windows.len(), |i: int| windows[i]@)
}

impl View for Layout {
    type V = Arrangement;

    open spec fn view(&self) -> Arrangement {
        Arrangement { screens: self.screens@, windows: descriptors(self.windows@) }
    }
}

impl Default for Layout {
    fn default() -> (layout: Layout)
        ensures
            layout@ == (Arrangement { screens: Seq::empty(), windows: Seq::empty() }),
    {
        assert(descriptors(Seq::<WindowInfo>::empty()) =~= Seq::<Descriptor>::empty());
        Layout { screens: Vec::new(), windows: Vec::new() }
    }
}

impl Clone for Layout {
    fn clone(&self) -> (copy: Layout)
        ensures
            copy@ == self@,
    {
        let mut screens: Vec<ScreenInfo> = Vec::new();
        let mut i: usize = 0;
        while i < self.screens.len()
            invariant
                i <= self.screens.len(),
                screens@ == self.screens@.take(i as int),
            decreases self.screens.len() - i,
        {
            screens.push(self.screens[i]);
            assert(self.screens@.take(i + 1) == self.screens@.take(i as int).push(
                self.screens@[i as int],
            ));
            i = i + 1;
        }
        assert(self.screens@.take(self.screens.len() as int) == self.screens@);
        let mut windows: Vec<WindowInfo> = Vec::new();
        let mut j: usize = 0;
        while j < self.windows.len()
            invariant
                j <= self.windows.len(),
                windows@.len() == j,
                forall|k: int| 0 <= k < j ==> (#[trigger] windows@[k])@ == self.windows@[k]@,
            decreases self.windows.len() - j,
        {
            windows.push(self.windows[j].clone());
            j = j + 1;
        }
        assert(descriptors(windows@) == descriptors(self.windows@));
        Layout { screens, windows }
    }
}

/// Matching is symmetric: whether two descriptions are of the same window does
/// not depend on which of them is asked.
pub proof fn lemma_matches_symmetric(a: Descriptor, b: Descriptor)
    ensures
        a.matches(b) == b.matches(a),
{
}

} // verus!
