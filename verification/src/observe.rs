//! The layout that is on the desktop now.
//!
//! The desktop reports its windows one by one. Windows without an owner or a
//! title, windows of owners that are to be ignored, windows without bounds and
//! windows too small to matter are left out. The others are gathered by owner
//! and title, one description for each pair of names with all the windows that
//! go by it, and listed in the order of their names.

use crate::geometry::{Rect, ScreenInfo};
use crate::pattern::{MaybeRegex, Pattern};
use crate::position::WindowPos;
use crate::text::{
    compare_text, lemma_pair_before_order, pair_before, same_text, Standing,
};
use crate::window::{descriptors, Descriptor, Layout, MatchingWindowInfo, WindowInfo};
use vstd::prelude::*;

verus! {

/// What the desktop reports of one window.
#[derive(Debug)]
pub struct WindowRecord {
    /// The name of the application that owns the window; empty where it has none.
    pub owner_name: String,
    /// The title of the window; empty where it has none.
    pub name: String,
    pub process_id: i32,
    pub window_id: u32,
    /// The window's rectangle on the desktop, where it reports one.
    pub bounds: Option<Rect>,
}

/// The model of [`WindowRecord`].
pub struct Sighting {
    pub owner_name: Seq<char>,
    pub name: Seq<char>,
    pub process_id: i32,
    pub window_id: u32,
    pub bounds: Option<Rect>,
}

impl View for WindowRecord {
    type V = Sighting;

    open spec fn view(&self) -> Sighting {
        Sighting {
            owner_name: self.owner_name@,
            name: self.name@,
            process_id: self.process_id,
            window_id: self.window_id,
            bounds: self.bounds,
        }
    }
}

/// The sightings that a list of records stands for.
pub open spec fn sightings(records: Seq<WindowRecord>) -> Seq<Sighting> {
    Seq::new(records.len(), |i: int| records[i]@)
}

/// The texts that a list of strings stands for.
pub open spec fn texts(strings: Seq<String>) -> Seq<Seq<char>> {
    Seq::new(strings.len(), |i: int| strings[i]@)
}

impl Sighting {
    /// Whether the window is taken into the layout: it has an owner and a
    /// title, its owner is not ignored, it has bounds, and they are not small.
    pub open spec fn admitted(self, ignored: Seq<Seq<char>>) -> bool {
        &&& self.owner_name.len() > 0
        &&& self.name.len() > 0
        &&& !ignored.contains(self.owner_name)
        &&& self.bounds matches Some(bounds) && !bounds.spec_is_small()
    }

    /// Whether the window goes by these names.
    pub open spec fn called(self, owner_name: Seq<char>, name: Seq<char>) -> bool {
        self.owner_name == owner_name && self.name == name
    }

    /// The window as it is listed in the layout: on the screen that holds its
    /// corner, with its rectangle measured from the corner of that screen.
    pub open spec fn instance(self, screens: Seq<ScreenInfo>) -> MatchingWindowInfo
        recommends
            self.bounds is Some,
    {
        let relative = WindowPos::Pos(self.bounds->0).spec_to_relative(screens);
        MatchingWindowInfo {
            process_id: self.process_id,
            window_id: self.window_id,
            screen_num: relative.0 as usize,
            bounds: relative.1.to_rect(),
        }
    }
}

/// The windows among the first `n` sightings that are admitted and go by the
/// given names, in the order in which they were sighted.
pub open spec fn instances(
    seen: Seq<Sighting>,
    screens: Seq<ScreenInfo>,
    ignored: Seq<Seq<char>>,
    owner_name: Seq<char>,
    name: Seq<char>,
    n: int,
) -> Seq<MatchingWindowInfo>
    decreases n,
{
    if n <= 0 {
        Seq::empty()
    } else if seen[n - 1].admitted(ignored) && seen[n - 1].called(owner_name, name) {
        instances(seen, screens, ignored, owner_name, name, n - 1).push(
            seen[n - 1].instance(screens),
        )
    } else {
        instances(seen, screens, ignored, owner_name, name, n - 1)
    }
}

impl Descriptor {
    /// Whether the description is written with exactly these names.
    pub open spec fn named(self, owner_name: Seq<char>, name: Seq<char>) -> bool {
        self.owner_name == Pattern::Exact(owner_name) && self.name == Pattern::Exact(name)
    }

    /// Whether the description comes before the names given, in the order of a layout.
    pub open spec fn listed_before(self, owner_name: Seq<char>, name: Seq<char>) -> bool {
        pair_before(self.owner_name.text(), self.name.text(), owner_name, name)
    }

    /// Whether the description comes after the names given, in the order of a layout.
    pub open spec fn listed_after(self, owner_name: Seq<char>, name: Seq<char>) -> bool {
        pair_before(owner_name, name, self.owner_name.text(), self.name.text())
    }

    /// Whether the description is what the first `n` sightings show of the
    /// windows that go by its names: the names as exact texts, every admitted
    /// window of those names in the order of sighting, at least one, and the
    /// screen and position of the last of them.
    pub open spec fn shows(
        self,
        seen: Seq<Sighting>,
        screens: Seq<ScreenInfo>,
        ignored: Seq<Seq<char>>,
        n: int,
    ) -> bool {
        &&& self.owner_name is Exact
        &&& self.name is Exact
        &&& self.matching_windows == instances(
            seen,
            screens,
            ignored,
            self.owner_name.text(),
            self.name.text(),
            n,
        )
        &&& self.matching_windows.len() > 0
        &&& self.screen_num == self.matching_windows.last().screen_num
        &&& self.pos == WindowPos::Pos(self.matching_windows.last().bounds)
    }
}

/// Whether the descriptions are in the order of a layout: by owner, and by
/// title under one owner, with no pair of names twice.
pub open spec fn in_name_order(windows: Seq<Descriptor>) -> bool {
    forall|a: int, b: int|
        0 <= a < b < windows.len() ==> (#[trigger] windows[a]).listed_before(
            (#[trigger] windows[b]).owner_name.text(),
            windows[b].name.text(),
        )
}

/// Whether one of the descriptions is written with exactly these names.
pub open spec fn lists(windows: Seq<Descriptor>, owner_name: Seq<char>, name: Seq<char>) -> bool {
    exists|j: int| 0 <= j < windows.len() && (#[trigger] windows[j]).named(owner_name, name)
}

/// Whether `windows` is the layout that the first `n` sightings show: in the
/// order of names, each description showing the windows of its names, and a
/// description for every admitted window.
pub open spec fn is_observation(
    windows: Seq<Descriptor>,
    seen: Seq<Sighting>,
    screens: Seq<ScreenInfo>,
    ignored: Seq<Seq<char>>,
    n: int,
) -> bool {
    &&& in_name_order(windows)
    &&& forall|j: int|
        0 <= j < windows.len() ==> (#[trigger] windows[j]).shows(seen, screens, ignored, n)
    &&& forall|k: int|
        0 <= k < n && (#[trigger] seen[k]).admitted(ignored) ==> lists(
            windows,
            seen[k].owner_name,
            seen[k].name,
        )
}

/// Whether `owner_name` is one of the owners to be ignored.
fn is_ignored(owner_name: &str, ignored: &Vec<String>) -> (found: bool)
    ensures
        found == texts(ignored@).contains(owner_name@),
{
    let mut i: usize = 0;
    while i < ignored.len()
        invariant
            i <= ignored.len(),
            forall|j: int| 0 <= j < i ==> texts(ignored@)[j] != owner_name@,
        decreases ignored.len() - i,
    {
        if same_text(ignored[i].as_str(), owner_name) {
            assert(texts(ignored@)[i as int] == owner_name@);
            return true;
        }
        i = i + 1;
    }
    false
}

impl WindowRecord {
    /// The bounds of the window where it is taken into the layout, and
    /// nothing where it is not.
    pub fn admitted_bounds(&self, ignored: &Vec<String>) -> (bounds: Option<Rect>)
        ensures
            match bounds {
                Some(rect) => self@.admitted(texts(ignored@)) && self.bounds == Some(rect),
                None => !self@.admitted(texts(ignored@)),
            },
    {
        if self.owner_name.as_str().is_empty() || self.name.as_str().is_empty() {
            return None;
        }
        if is_ignored(self.owner_name.as_str(), ignored) {
            return None;
        }
        match &self.bounds {
            Some(rect) => if rect.is_small() {
                None
            } else {
                Some(*rect)
            },
            None => None,
        }
    }

    /// Whether the window is taken into the layout.
    pub fn is_admitted(&self, ignored: &Vec<String>) -> (admitted: bool)
        ensures
            admitted == self@.admitted(texts(ignored@)),
    {
        self.admitted_bounds(ignored).is_some()
    }
}

/// Where the names belong in a list in name order: the index of the
/// description written with them, or the index at which one would go.
fn find_slot(windows: &Vec<WindowInfo>, owner_name: &str, name: &str) -> (slot: (usize, bool))
    requires
        in_name_order(descriptors(windows@)),
        forall|j: int|
            0 <= j < windows.len() ==> (#[trigger] windows@[j])@.owner_name is Exact
                && windows@[j]@.name is Exact,
    ensures
        slot.0 <= windows.len(),
        forall|j: int|
            0 <= j < slot.0 ==> (#[trigger] descriptors(windows@)[j]).listed_before(
                owner_name@,
                name@,
            ),
        slot.1 ==> slot.0 < windows.len() && descriptors(windows@)[slot.0 as int].named(
            owner_name@,
            name@,
        ),
        !slot.1 ==> (forall|j: int|
            slot.0 <= j < windows.len() ==> (#[trigger] descriptors(windows@)[j]).listed_after(
                owner_name@,
                name@,
            )),
{
    let ghost listed = descriptors(windows@);
    let mut j: usize = 0;
    while j < windows.len()
        invariant
            j <= windows.len(),
            listed == descriptors(windows@),
            in_name_order(listed),
            forall|k: int|
                0 <= k < windows.len() ==> (#[trigger] windows@[k])@.owner_name is Exact
                    && windows@[k]@.name is Exact,
            forall|k: int| 0 <= k < j ==> (#[trigger] listed[k]).listed_before(owner_name@, name@),
        decreases windows.len() - j,
    {
        let window: &WindowInfo = &windows[j];
        let ghost here = listed[j as int];
        assert(here == windows@[j as int]@);
        let by_owner: Standing = compare_text(window.owner_name.as_str(), owner_name);
        let standing: Standing = match by_owner {
            Standing::Same => compare_text(window.name.as_str(), name),
            _ => by_owner,
        };
        match standing {
            Standing::Before => {},
            Standing::Same => {
                return (j, true);
            },
            Standing::After => {
                proof {
                    assert(here.listed_after(owner_name@, name@));
                    assert forall|k: int| j <= k < windows.len() implies (#[trigger] listed[k])
                        .listed_after(owner_name@, name@) by {
                        if k > j {
                            assert(listed[j as int].listed_before(
                                listed[k].owner_name.text(),
                                listed[k].name.text(),
                            ));
                            lemma_pair_before_order(
                                owner_name@,
                                name@,
                                here.owner_name.text(),
                                here.name.text(),
                                listed[k].owner_name.text(),
                                listed[k].name.text(),
                            );
                        }
                    }
                }
                return (j, false);
            },
        }
        j = j + 1;
    }
    (j, false)
}

/// The layout that the desktop shows: the windows that are admitted, gathered
/// by owner and title and listed in the order of their names.
pub fn get_windows(
    records: &Vec<WindowRecord>,
    screens: &Vec<ScreenInfo>,
    ignored: &Vec<String>,
) -> (windows: Vec<WindowInfo>)
    ensures
        is_observation(
            descriptors(windows@),
            sightings(records@),
            screens@,
            texts(ignored@),
            records.len() as int,
        ),
{
    let ghost seen = sightings(records@);
    let ghost shunned = texts(ignored@);
    let mut windows: Vec<WindowInfo> = Vec::new();
    let mut i: usize = 0;
    while i < records.len()
        invariant
            i <= records.len(),
            seen == sightings(records@),
            shunned == texts(ignored@),
            is_observation(descriptors(windows@), seen, screens@, shunned, i as int),
        decreases records.len() - i,
    {
        let record: &WindowRecord = &records[i];
        let ghost before = descriptors(windows@);
        assert(seen[i as int] == record@);
        if let Some(bounds) = record.admitted_bounds(ignored) {
            let relative: (usize, Rect) = WindowPos::Pos(bounds).to_relative(screens);
            let instance: MatchingWindowInfo = MatchingWindowInfo {
                process_id: record.process_id,
                window_id: record.window_id,
                screen_num: relative.0,
                bounds: relative.1,
            };
            assert(instance == seen[i as int].instance(screens@));
            assert forall|j: int| 0 <= j < windows.len() implies (#[trigger] windows@[j])@.owner_name
                is Exact && windows@[j]@.name is Exact by {
                assert(before[j].shows(seen, screens@, shunned, i as int));
            }
            let slot: (usize, bool) = find_slot(
                &windows,
                record.owner_name.as_str(),
                record.name.as_str(),
            );
            if slot.1 {
                let mut window: WindowInfo = windows.remove(slot.0);
                let ghost was = window@;
                window.matching_windows.push(instance);
                window.screen_num = relative.0;
                window.pos = WindowPos::Pos(relative.1);
                let ghost now = window@;
                windows.insert(slot.0, window);
                proof {
                    assert(was == before[slot.0 as int]);
                    assert(descriptors(windows@) =~= before.update(slot.0 as int, now));
                    lemma_sighted_again(
                        before,
                        seen,
                        screens@,
                        shunned,
                        i as int,
                        slot.0 as int,
                    );
                }
            } else {
                let mut matching_windows: Vec<MatchingWindowInfo> = Vec::new();
                matching_windows.push(instance);
                let window: WindowInfo = WindowInfo {
                    owner_name: MaybeRegex::Exact(record.owner_name.clone()),
                    name: MaybeRegex::Exact(record.name.clone()),
                    matching_windows,
                    screen_num: relative.0,
                    pos: WindowPos::Pos(relative.1),
                };
                let ghost now = window@;
                windows.insert(slot.0, window);
                proof {
                    assert(now.matching_windows =~= seq![instance]);
                    assert(descriptors(windows@) =~= before.insert(slot.0 as int, now));
                    lemma_sighted_first(before, seen, screens@, shunned, i as int, slot.0 as int);
                }
            }
        } else {
            proof {
                lemma_sighted_in_vain(before, seen, screens@, shunned, i as int);
            }
        }
        i = i + 1;
    }
    windows
}

/// The layout that is on the desktop now: the live screens, and the windows
/// that the desktop reports, as `get_windows` lists them.
pub fn get_current_layout(
    records: &Vec<WindowRecord>,
    screens: &Vec<ScreenInfo>,
    ignored: &Vec<String>,
) -> (layout: Layout)
    ensures
        layout@.screens == screens@,
        is_observation(
            layout@.windows,
            sightings(records@),
            screens@,
            texts(ignored@),
            records.len() as int,
        ),
{
    let windows: Vec<WindowInfo> = get_windows(records, screens, ignored);
    let mut live: Vec<ScreenInfo> = Vec::new();
    let mut i: usize = 0;
    while i < screens.len()
        invariant
            i <= screens.len(),
            live@ == screens@.take(i as int),
        decreases screens.len() - i,
    {
        live.push(screens[i]);
        assert(screens@.take(i + 1) == screens@.take(i as int).push(screens@[i as int]));
        i = i + 1;
    }
    assert(screens@.take(screens.len() as int) == screens@);
    Layout { screens: live, windows }
}

/// The windows of some names among the first `k` sightings stay where they
/// are when more sightings follow.
pub proof fn lemma_instances_grow(
    seen: Seq<Sighting>,
    screens: Seq<ScreenInfo>,
    ignored: Seq<Seq<char>>,
    owner_name: Seq<char>,
    name: Seq<char>,
    k: int,
    n: int,
)
    requires
        0 <= k <= n,
    ensures
        instances(seen, screens, ignored, owner_name, name, k).is_prefix_of(
            instances(seen, screens, ignored, owner_name, name, n),
        ),
    decreases n - k,
{
    if k < n {
        lemma_instances_grow(seen, screens, ignored, owner_name, name, k, n - 1);
    }
}

/// Every admitted window is listed, each in a place of its own: the sighting
/// `k` stands, in the description written with its names, at the place given
/// by the number of admitted windows of those names that were sighted before
/// it. Two windows that share owner and title are therefore both listed.
pub proof fn lemma_every_admitted_window_is_listed(
    windows: Seq<Descriptor>,
    seen: Seq<Sighting>,
    screens: Seq<ScreenInfo>,
    ignored: Seq<Seq<char>>,
    n: int,
    k: int,
)
    requires
        0 <= k < n,
        is_observation(windows, seen, screens, ignored, n),
        seen[k].admitted(ignored),
    ensures
        exists|j: int|
            0 <= j < windows.len() && (#[trigger] windows[j]).named(
                seen[k].owner_name,
                seen[k].name,
            ) && ({
                let place = instances(
                    seen,
                    screens,
                    ignored,
                    seen[k].owner_name,
                    seen[k].name,
                    k,
                ).len() as int;
                place < windows[j].matching_windows.len() && windows[j].matching_windows[place]
                    == seen[k].instance(screens)
            }),
{
    let owner_name = seen[k].owner_name;
    let name = seen[k].name;
    let j = choose|j: int|
        0 <= j < windows.len() && (#[trigger] windows[j]).named(owner_name, name);
    assert(windows[j].shows(seen, screens, ignored, n));
    lemma_instances_grow(seen, screens, ignored, owner_name, name, k + 1, n);
    let upto = instances(seen, screens, ignored, owner_name, name, k + 1);
    let place = instances(seen, screens, ignored, owner_name, name, k).len() as int;
    assert(upto[place] == seen[k].instance(screens));
}

/// Every window in the layout is an admitted sighting that goes by the names
/// of its description.
pub proof fn lemma_every_listed_window_is_admitted(
    seen: Seq<Sighting>,
    screens: Seq<ScreenInfo>,
    ignored: Seq<Seq<char>>,
    owner_name: Seq<char>,
    name: Seq<char>,
    n: int,
    place: int,
)
    requires
        0 <= place < instances(seen, screens, ignored, owner_name, name, n).len(),
    ensures
        exists|k: int|
            0 <= k < n && (#[trigger] seen[k]).admitted(ignored) && seen[k].called(
                owner_name,
                name,
            ) && instances(seen, screens, ignored, owner_name, name, n)[place] == seen[k].instance(
                screens,
            ),
    decreases n,
{
    if n > 0 {
        let before = instances(seen, screens, ignored, owner_name, name, n - 1);
        if place < before.len() {
            lemma_every_listed_window_is_admitted(
                seen,
                screens,
                ignored,
                owner_name,
                name,
                n - 1,
                place,
            );
            let k = choose|k: int|
                0 <= k < n - 1 && (#[trigger] seen[k]).admitted(ignored) && seen[k].called(
                    owner_name,
                    name,
                ) && before[place] == seen[k].instance(screens);
            assert(seen[k].admitted(ignored));
        } else {
            assert(seen[n - 1].admitted(ignored));
        }
    }
}

/// Small windows are left out of the layout entirely: no window in it is at
/// most `MIN_WIDTH` wide and at most `MIN_HEIGHT` high.
pub proof fn lemma_no_listed_window_is_small(
    windows: Seq<Descriptor>,
    seen: Seq<Sighting>,
    screens: Seq<ScreenInfo>,
    ignored: Seq<Seq<char>>,
    n: int,
    j: int,
    place: int,
)
    requires
        is_observation(windows, seen, screens, ignored, n),
        0 <= j < windows.len(),
        0 <= place < windows[j].matching_windows.len(),
    ensures
        !windows[j].matching_windows[place].bounds.spec_is_small(),
{
    assert(windows[j].shows(seen, screens, ignored, n));
    lemma_every_listed_window_is_admitted(
        seen,
        screens,
        ignored,
        windows[j].owner_name.text(),
        windows[j].name.text(),
        n,
        place,
    );
}

/// Names that only small windows go by are not in the layout, whatever a
/// saved layout may say of them.
pub proof fn lemma_small_windows_are_left_out(
    windows: Seq<Descriptor>,
    seen: Seq<Sighting>,
    screens: Seq<ScreenInfo>,
    ignored: Seq<Seq<char>>,
    n: int,
    owner_name: Seq<char>,
    name: Seq<char>,
)
    requires
        is_observation(windows, seen, screens, ignored, n),
        forall|k: int|
            0 <= k < n && (#[trigger] seen[k]).called(owner_name, name) ==> (
            seen[k].bounds matches Some(bounds) ==> bounds.spec_is_small()),
    ensures
        !lists(windows, owner_name, name),
{
    if lists(windows, owner_name, name) {
        let j = choose|j: int|
            0 <= j < windows.len() && (#[trigger] windows[j]).named(owner_name, name);
        assert(windows[j].shows(seen, screens, ignored, n));
        lemma_every_listed_window_is_admitted(seen, screens, ignored, owner_name, name, n, 0);
    }
}

/// Two layouts that the same sightings show list the same names at the same places.
proof fn lemma_same_names_at(
    a: Seq<Descriptor>,
    b: Seq<Descriptor>,
    seen: Seq<Sighting>,
    screens: Seq<ScreenInfo>,
    ignored: Seq<Seq<char>>,
    n: int,
    i: int,
)
    requires
        is_observation(a, seen, screens, ignored, n),
        is_observation(b, seen, screens, ignored, n),
        0 <= i < a.len(),
    ensures
        i < b.len(),
        a[i].owner_name == b[i].owner_name,
        a[i].name == b[i].name,
    decreases i,
{
    let owner_name = a[i].owner_name.text();
    let name = a[i].name.text();
    lemma_pair_before_order(owner_name, name, owner_name, name, owner_name, name);
    assert(a[i].shows(seen, screens, ignored, n));
    lemma_every_listed_window_is_admitted(seen, screens, ignored, owner_name, name, n, 0);
    let p = choose|p: int| 0 <= p < b.len() && (#[trigger] b[p]).named(owner_name, name);
    if p < i {
        lemma_same_names_at(a, b, seen, screens, ignored, n, p);
        assert(a[p].listed_before(a[i].owner_name.text(), a[i].name.text()));
        assert(false);
    }
    if p > i {
        let other_owner = b[i].owner_name.text();
        let other_name = b[i].name.text();
        lemma_pair_before_order(other_owner, other_name, owner_name, name, owner_name, name);
        lemma_pair_before_order(
            other_owner,
            other_name,
            other_owner,
            other_name,
            other_owner,
            other_name,
        );
        assert(b[i].listed_before(b[p].owner_name.text(), b[p].name.text()));
        assert(b[i].shows(seen, screens, ignored, n));
        lemma_every_listed_window_is_admitted(
            seen,
            screens,
            ignored,
            other_owner,
            other_name,
            n,
            0,
        );
        let q = choose|q: int| 0 <= q < a.len() && (#[trigger] a[q]).named(other_owner, other_name);
        if q < i {
            lemma_same_names_at(a, b, seen, screens, ignored, n, q);
            assert(b[q].listed_before(b[i].owner_name.text(), b[i].name.text()));
        } else if q > i {
            assert(a[i].listed_before(a[q].owner_name.text(), a[q].name.text()));
        }
        assert(false);
    }
}

/// The sightings decide the layout: two layouts that the same sightings show
/// are the same.
pub proof fn lemma_observation_is_unique(
    a: Seq<Descriptor>,
    b: Seq<Descriptor>,
    seen: Seq<Sighting>,
    screens: Seq<ScreenInfo>,
    ignored: Seq<Seq<char>>,
    n: int,
)
    requires
        is_observation(a, seen, screens, ignored, n),
        is_observation(b, seen, screens, ignored, n),
    ensures
        a == b,
{
    if a.len() > 0 {
        lemma_same_names_at(a, b, seen, screens, ignored, n, a.len() - 1);
    }
    if b.len() > 0 {
        lemma_same_names_at(b, a, seen, screens, ignored, n, b.len() - 1);
    }
    assert forall|i: int| 0 <= i < a.len() implies a[i] == b[i] by {
        lemma_same_names_at(a, b, seen, screens, ignored, n, i);
        assert(a[i].shows(seen, screens, ignored, n));
        assert(b[i].shows(seen, screens, ignored, n));
    }
    assert(a =~= b);
}

/// A description written with names that no admitted window so far goes by
/// would show no window.
pub proof fn lemma_unlisted_has_no_instances(
    seen: Seq<Sighting>,
    screens: Seq<ScreenInfo>,
    ignored: Seq<Seq<char>>,
    owner_name: Seq<char>,
    name: Seq<char>,
    n: int,
)
    requires
        0 <= n <= seen.len(),
        forall|k: int|
            0 <= k < n && (#[trigger] seen[k]).admitted(ignored) ==> !seen[k].called(
                owner_name,
                name,
            ),
    ensures
        instances(seen, screens, ignored, owner_name, name, n).len() == 0,
    decreases n,
{
    if n > 0 {
        lemma_unlisted_has_no_instances(seen, screens, ignored, owner_name, name, n - 1);
    }
}

/// A window that is not admitted leaves the layout as it is.
proof fn lemma_sighted_in_vain(
    windows: Seq<Descriptor>,
    seen: Seq<Sighting>,
    screens: Seq<ScreenInfo>,
    ignored: Seq<Seq<char>>,
    n: int,
)
    requires
        0 <= n < seen.len(),
        is_observation(windows, seen, screens, ignored, n),
        !seen[n].admitted(ignored),
    ensures
        is_observation(windows, seen, screens, ignored, n + 1),
{
    assert forall|j: int| 0 <= j < windows.len() implies (#[trigger] windows[j]).shows(
        seen,
        screens,
        ignored,
        n + 1,
    ) by {
        assert(windows[j].shows(seen, screens, ignored, n));
    }
}

/// An admitted window whose names are listed joins the windows of that description.
proof fn lemma_sighted_again(
    windows: Seq<Descriptor>,
    seen: Seq<Sighting>,
    screens: Seq<ScreenInfo>,
    ignored: Seq<Seq<char>>,
    n: int,
    slot: int,
)
    requires
        0 <= n < seen.len(),
        is_observation(windows, seen, screens, ignored, n),
        seen[n].admitted(ignored),
        0 <= slot < windows.len(),
        windows[slot].named(seen[n].owner_name, seen[n].name),
    ensures
        is_observation(
            windows.update(
                slot,
                Descriptor {
                    matching_windows: windows[slot].matching_windows.push(
                        seen[n].instance(screens),
                    ),
                    screen_num: seen[n].instance(screens).screen_num as nat,
                    pos: WindowPos::Pos(seen[n].instance(screens).bounds),
                    ..windows[slot]
                },
            ),
            seen,
            screens,
            ignored,
            n + 1,
        ),
{
    let owner_name = seen[n].owner_name;
    let name = seen[n].name;
    let instance = seen[n].instance(screens);
    let joined = Descriptor {
        matching_windows: windows[slot].matching_windows.push(instance),
        screen_num: instance.screen_num as nat,
        pos: WindowPos::Pos(instance.bounds),
        ..windows[slot]
    };
    let after = windows.update(slot, joined);
    assert(in_name_order(after)) by {
        assert forall|a: int, b: int| 0 <= a < b < after.len() implies (#[trigger] after[a])
            .listed_before((#[trigger] after[b]).owner_name.text(), after[b].name.text()) by {
            assert(windows[a].listed_before(windows[b].owner_name.text(), windows[b].name.text()));
        }
    }
    assert forall|j: int| 0 <= j < after.len() implies (#[trigger] after[j]).shows(
        seen,
        screens,
        ignored,
        n + 1,
    ) by {
        assert(windows[j].shows(seen, screens, ignored, n));
        if j != slot {
            // Another description has other names: the order is strict.
            if j < slot {
                assert(windows[j].listed_before(
                    windows[slot].owner_name.text(),
                    windows[slot].name.text(),
                ));
            } else {
                assert(windows[slot].listed_before(
                    windows[j].owner_name.text(),
                    windows[j].name.text(),
                ));
            }
            lemma_pair_before_order(
                windows[j].owner_name.text(),
                windows[j].name.text(),
                owner_name,
                name,
                owner_name,
                name,
            );
            assert(!seen[n].called(windows[j].owner_name.text(), windows[j].name.text()));
        }
    }
    assert forall|k: int| 0 <= k < n + 1 && (#[trigger] seen[k]).admitted(ignored) implies lists(
        after,
        seen[k].owner_name,
        seen[k].name,
    ) by {
        if k < n {
            let j = choose|j: int|
                0 <= j < windows.len() && (#[trigger] windows[j]).named(
                    seen[k].owner_name,
                    seen[k].name,
                );
            assert(after[j].named(seen[k].owner_name, seen[k].name));
        } else {
            assert(after[slot].named(owner_name, name));
        }
    }
}

/// An admitted window whose names are not listed yet gets a description of
/// its own, at the place that keeps the list in name order.
proof fn lemma_sighted_first(
    windows: Seq<Descriptor>,
    seen: Seq<Sighting>,
    screens: Seq<ScreenInfo>,
    ignored: Seq<Seq<char>>,
    n: int,
    slot: int,
)
    requires
        0 <= n < seen.len(),
        is_observation(windows, seen, screens, ignored, n),
        seen[n].admitted(ignored),
        0 <= slot <= windows.len(),
        forall|j: int|
            0 <= j < slot ==> (#[trigger] windows[j]).listed_before(
                seen[n].owner_name,
                seen[n].name,
            ),
        forall|j: int|
            slot <= j < windows.len() ==> (#[trigger] windows[j]).listed_after(
                seen[n].owner_name,
                seen[n].name,
            ),
    ensures
        is_observation(
            windows.insert(
                slot,
                Descriptor {
                    owner_name: Pattern::Exact(seen[n].owner_name),
                    name: Pattern::Exact(seen[n].name),
                    matching_windows: seq![seen[n].instance(screens)],
                    screen_num: seen[n].instance(screens).screen_num as nat,
                    pos: WindowPos::Pos(seen[n].instance(screens).bounds),
                },
            ),
            seen,
            screens,
            ignored,
            n + 1,
        ),
{
    let owner_name = seen[n].owner_name;
    let name = seen[n].name;
    let instance = seen[n].instance(screens);
    let fresh = Descriptor {
        owner_name: Pattern::Exact(owner_name),
        name: Pattern::Exact(name),
        matching_windows: seq![instance],
        screen_num: instance.screen_num as nat,
        pos: WindowPos::Pos(instance.bounds),
    };
    let after = windows.insert(slot, fresh);
    // No description is written with the new names: each comes before or after them.
    assert forall|j: int| 0 <= j < windows.len() implies !(#[trigger] windows[j]).named(
        owner_name,
        name,
    ) by {
        lemma_pair_before_order(
            windows[j].owner_name.text(),
            windows[j].name.text(),
            owner_name,
            name,
            owner_name,
            name,
        );
        if j < slot {
            assert(windows[j].listed_before(owner_name, name));
        } else {
            assert(windows[j].listed_after(owner_name, name));
        }
    }
    assert(in_name_order(after)) by {
        assert forall|a: int, b: int| 0 <= a < b < after.len() implies (#[trigger] after[a])
            .listed_before((#[trigger] after[b]).owner_name.text(), after[b].name.text()) by {
            if b < slot {
                assert(windows[a].listed_before(
                    windows[b].owner_name.text(),
                    windows[b].name.text(),
                ));
            } else if b == slot {
                assert(windows[a].listed_before(owner_name, name));
            } else if a == slot {
                assert(windows[b - 1].listed_after(owner_name, name));
            } else if a < slot {
                assert(windows[a].listed_before(
                    windows[b - 1].owner_name.text(),
                    windows[b - 1].name.text(),
                ));
            } else {
                assert(windows[a - 1].listed_before(
                    windows[b - 1].owner_name.text(),
                    windows[b - 1].name.text(),
                ));
            }
        }
    }
    // So far no admitted window went by the new names: it would be listed.
    assert forall|k: int| 0 <= k < n && (#[trigger] seen[k]).admitted(ignored) implies !seen[k]
        .called(owner_name, name) by {
        if seen[k].called(owner_name, name) {
            let j = choose|j: int|
                0 <= j < windows.len() && (#[trigger] windows[j]).named(
                    seen[k].owner_name,
                    seen[k].name,
                );
            assert(windows[j].named(owner_name, name));
        }
    }
    lemma_unlisted_has_no_instances(seen, screens, ignored, owner_name, name, n);
    assert(instances(seen, screens, ignored, owner_name, name, n + 1) =~= seq![instance]);
    assert forall|j: int| 0 <= j < after.len() implies (#[trigger] after[j]).shows(
        seen,
        screens,
        ignored,
        n + 1,
    ) by {
        if j < slot {
            assert(windows[j].shows(seen, screens, ignored, n));
            assert(!windows[j].named(owner_name, name));
        } else if j > slot {
            assert(windows[j - 1].shows(seen, screens, ignored, n));
            assert(!windows[j - 1].named(owner_name, name));
        }
    }
    assert forall|k: int| 0 <= k < n + 1 && (#[trigger] seen[k]).admitted(ignored) implies lists(
        after,
        seen[k].owner_name,
        seen[k].name,
    ) by {
        if k < n {
            let j = choose|j: int|
                0 <= j < windows.len() && (#[trigger] windows[j]).named(
                    seen[k].owner_name,
                    seen[k].name,
                );
            if j < slot {
                assert(after[j].named(seen[k].owner_name, seen[k].name));
            } else {
                assert(after[j + 1].named(seen[k].owner_name, seen[k].name));
            }
        } else {
            assert(after[slot].named(owner_name, name));
        }
    }
}

} // verus!
