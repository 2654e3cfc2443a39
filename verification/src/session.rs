//! One session of the launcher window: the list on show, the selected
//! entry, and what each event of the user interface does to them.

use crate::rank::{is_ranking, query_ranks};
use crate::record::{AppRecord, AppRecordView};
use crate::store::{has_id, position_by_id, IndexStore};
use vstd::prelude::*;

verus! {

/// Mathematical model of a [`Session`].
pub struct SessionView {
    /// The records on show, best first.
    pub list: Seq<AppRecordView>,
    /// The identifier of the selected record, `None` while nothing is shown.
    pub selected: Option<u64>,
    /// The user has moved the selection since the last launch or hide.
    pub has_moved: bool,
    /// The window is on show.
    pub visible: bool,
    /// A scan of the shortcut directories is under way.
    pub scanning: bool,
}

/// The first index at which `list` holds the identifier `id`.
pub open spec fn first_position(list: Seq<AppRecordView>, id: u64) -> int {
    choose|i: int|
        0 <= i < list.len() && (#[trigger] list[i]).id == id && forall|j: int|
            0 <= j < i ==> (#[trigger] list[j]).id != id
}

impl SessionView {
    /// The invariant of a session: an entry is selected exactly while
    /// something is shown, and it is one of the entries shown.
    pub open spec fn valid(self) -> bool {
        match self.selected {
            None => self.list.len() == 0,
            Some(id) => has_id(self.list, id),
        }
    }

    /// The session after a search returned `results`. The selection stays
    /// where the user moved it as long as that entry is still on show;
    /// else it goes to the best result.
    pub open spec fn shown(self, results: Seq<AppRecordView>) -> SessionView {
        let keep = self.has_moved && self.selected is Some && has_id(results, self.selected->0);
        SessionView {
            list: results,
            selected: if keep {
                self.selected
            } else if results.len() > 0 {
                Some(results[0].id)
            } else {
                None
            },
            ..self
        }
    }

    /// The session after the selection moved one entry down; it stays on
    /// the last entry.
    pub open spec fn moved_down(self) -> SessionView {
        match self.selected {
            None => self,
            Some(id) => {
                let at = first_position(self.list, id);
                let to = if at + 1 < self.list.len() {
                    at + 1
                } else {
                    self.list.len() - 1
                };
                SessionView { selected: Some(self.list[to].id), has_moved: true, ..self }
            },
        }
    }

    /// The session after the selection moved one entry up; it stays on
    /// the first entry.
    pub open spec fn moved_up(self) -> SessionView {
        match self.selected {
            None => self,
            Some(id) => {
                let at = first_position(self.list, id);
                let to = if at > 0 {
                    at - 1
                } else {
                    0
                };
                SessionView { selected: Some(self.list[to].id), has_moved: true, ..self }
            },
        }
    }

    /// The record that a launch starts: the selected one.
    pub open spec fn launch_target(self) -> Option<AppRecordView> {
        match self.selected {
            None => None,
            Some(id) => Some(self.list[first_position(self.list, id)]),
        }
    }

    /// The session after a launch: the list is cleared. With nothing on
    /// show a launch does nothing.
    pub open spec fn launched(self) -> SessionView {
        match self.selected {
            None => self,
            Some(_) => SessionView {
                list: Seq::empty(),
                selected: None,
                has_moved: false,
                ..self
            },
        }
    }

    /// The session after the window was hidden.
    pub open spec fn hidden(self) -> SessionView {
        SessionView { has_moved: false, visible: false, ..self }
    }

    /// The session after the window was asked to show.
    pub open spec fn revealed(self) -> SessionView {
        SessionView { visible: true, ..self }
    }

    /// The session after the entry `id` was selected directly: unchanged
    /// where no entry on show has that identifier.
    pub open spec fn selecting(self, id: u64) -> SessionView {
        if has_id(self.list, id) {
            SessionView { selected: Some(id), ..self }
        } else {
            self
        }
    }

    /// The session with the mark of a scan under way set or cleared.
    pub open spec fn with_scanning(self, scanning: bool) -> SessionView {
        SessionView { scanning, ..self }
    }
}

/// What the user interface reports.
#[derive(Debug, PartialEq, Eq)]
pub enum Event {
    /// The text in the search box changed.
    Search(String),
    Down,
    Up,
    /// The selected application is to be started.
    Run,
    Hide,
    /// Another process asked for the window.
    Show,
    /// The shortcut directories are to be scanned again.
    Rescan,
    /// A scan has finished and its result is merged.
    ScanDone,
    Exit,
}

/// What the caller has to do after an event.
#[derive(Debug, PartialEq, Eq)]
pub enum Action {
    /// Draw the session again.
    Render,
    /// Start this application, record the launch, save the store, then
    /// draw the session again.
    Launch(AppRecord),
    /// Scan the shortcut directories off the interactive path, merge and
    /// save, then report `ScanDone`.
    Scan,
    /// Leave the event loop.
    Quit,
}

/// What the list of the user interface shows of a record.
#[derive(Debug, PartialEq, Eq)]
pub struct DisplayItem {
    pub name: String,
    pub id: u64,
    pub icon: String,
}

/// Mathematical model of a [`DisplayItem`].
pub struct DisplayItemView {
    pub name: Seq<char>,
    pub id: u64,
    pub icon: Seq<char>,
}

impl View for DisplayItem {
    type V = DisplayItemView;

    open spec fn view(&self) -> DisplayItemView {
        DisplayItemView { name: self.name@, id: self.id, icon: self.icon@ }
    }
}

impl DeepView for DisplayItem {
    type V = DisplayItemView;

    open spec fn deep_view(&self) -> DisplayItemView {
        self@
    }
}

/// The item that stands for a record.
pub open spec fn item_of(record: AppRecordView) -> DisplayItemView {
    DisplayItemView { name: record.name, id: record.id, icon: record.launch.icon }
}

impl DisplayItem {
    /// The item that stands for `record`: its name, identifier and icon.
    pub fn from_record(record: &AppRecord) -> (res: Self)
        ensures
            res@ == item_of(record@),
    {
        DisplayItem { name: record.name.clone(), id: record.id, icon: record.launch.icon.clone() }
    }
}

/// The state of one launcher window.
#[derive(Debug, PartialEq, Eq)]
pub struct Session {
    list: Vec<AppRecord>,
    selected: Option<u64>,
    has_moved: bool,
    visible: bool,
    scanning: bool,
}

impl View for Session {
    type V = SessionView;

    closed spec fn view(&self) -> SessionView {
        SessionView {
            list: self.list.deep_view(),
            selected: self.selected,
            has_moved: self.has_moved,
            visible: self.visible,
            scanning: self.scanning,
        }
    }
}

impl Session {
    #[verifier::type_invariant]
    closed spec fn inv(&self) -> bool {
        self@.valid()
    }

    /// A session with nothing on show.
    pub fn new(visible: bool) -> (res: Self)
        ensures
            res@ == (SessionView {
                list: Seq::empty(),
                selected: None,
                has_moved: false,
                visible,
                scanning: false,
            }),
    {
        let res = Session {
            list: Vec::new(),
            selected: None,
            has_moved: false,
            visible,
            scanning: false,
        };
        assert(res.list.deep_view() =~= Seq::empty());
        res
    }

    /// Puts the results of a search on show.
    pub fn show_results(&mut self, results: Vec<AppRecord>)
        ensures
            final(self)@ == old(self)@.shown(results.deep_view()),
            final(self)@.valid(),
    {
        let keep = self.has_moved && match self.selected {
            Some(id) => position_by_id(&results, id).is_some(),
            None => false,
        };
        let selected = if keep {
            self.selected
        } else if results.len() > 0 {
            assert(results.deep_view()[0] == results[0]@);
            Some(results[0].id)
        } else {
            None
        };
        *self = Session {
            list: results,
            selected,
            has_moved: self.has_moved,
            visible: self.visible,
            scanning: self.scanning,
        };
    }

    /// Moves the selection one entry down.
    pub fn down(&mut self)
        ensures
            final(self)@ == old(self)@.moved_down(),
            final(self)@.valid(),
    {
        proof {
            use_type_invariant(&*self);
        }
        if let Some(id) = self.selected {
            if let Some(at) = position_by_id(&self.list, id) {
                assert(first_position(self.list.deep_view(), id) == at);
                let to = if at + 1 < self.list.len() {
                    at + 1
                } else {
                    self.list.len() - 1
                };
                assert(self.list.deep_view()[to as int] == self.list[to as int]@);
                self.selected = Some(self.list[to].id);
                self.has_moved = true;
            }
        }
    }

    /// Moves the selection one entry up.
    pub fn up(&mut self)
        ensures
            final(self)@ == old(self)@.moved_up(),
            final(self)@.valid(),
    {
        proof {
            use_type_invariant(&*self);
        }
        if let Some(id) = self.selected {
            if let Some(at) = position_by_id(&self.list, id) {
                assert(first_position(self.list.deep_view(), id) == at);
                let to = if at > 0 {
                    at - 1
                } else {
                    0
                };
                assert(self.list.deep_view()[to as int] == self.list[to as int]@);
                self.selected = Some(self.list[to].id);
                self.has_moved = true;
            }
        }
    }

    /// Hands out the selected record for a launch and clears the list.
    pub fn take_selected(&mut self) -> (res: Option<AppRecord>)
        ensures
            final(self)@ == old(self)@.launched(),
            res is Some == old(self)@.launch_target() is Some,
            res matches Some(r) ==> r@ == old(self)@.launch_target()->0,
            final(self)@.valid(),
    {
        proof {
            use_type_invariant(&*self);
        }
        match self.selected {
            None => None,
            Some(id) => {
                match position_by_id(&self.list, id) {
                    Some(at) => {
                        assert(first_position(self.list.deep_view(), id) == at);
                        assert(self.list.deep_view()[at as int] == self.list[at as int]@);
                        let record = self.list[at].clone();
                        let cleared = Session {
                            list: Vec::new(),
                            selected: None,
                            has_moved: false,
                            visible: self.visible,
                            scanning: self.scanning,
                        };
                        assert(cleared.list.deep_view() =~= Seq::empty());
                        *self = cleared;
                        Some(record)
                    },
                    None => None,
                }
            },
        }
    }

    /// Hides the window.
    pub fn hide_window(&mut self)
        ensures
            final(self)@ == old(self)@.hidden(),
    {
        proof {
            use_type_invariant(&*self);
        }
        self.has_moved = false;
        self.visible = false;
    }

    /// Shows the window.
    pub fn show_window(&mut self)
        ensures
            final(self)@ == old(self)@.revealed(),
    {
        proof {
            use_type_invariant(&*self);
        }
        self.visible = true;
    }

    /// Selects the entry with the identifier `id`, if it is on show, and
    /// says whether it is.
    pub fn select(&mut self, id: u64) -> (res: bool)
        ensures
            final(self)@ == old(self)@.selecting(id),
            res == has_id(old(self)@.list, id),
            final(self)@.valid(),
    {
        proof {
            use_type_invariant(&*self);
        }
        if position_by_id(&self.list, id).is_some() {
            self.selected = Some(id);
            true
        } else {
            false
        }
    }

    /// Marks a scan as under way or as done.
    pub fn set_scanning(&mut self, scanning: bool)
        ensures
            final(self)@ == old(self)@.with_scanning(scanning),
    {
        proof {
            use_type_invariant(&*self);
        }
        self.scanning = scanning;
    }

    /// Answers one event of the user interface.
    ///
    /// A search asks the store for the `limit` best records and puts them
    /// on show. Moving, hiding and showing change the session alone. A run
    /// hands out the selected record; with nothing selected it only draws
    /// again. A rescan is marked as under way and handed to the caller;
    /// one more may be asked for while it runs.
    pub fn handle(&mut self, store: &IndexStore, event: Event, limit: usize) -> (action: Action)
        ensures
            match event {
                Event::Search(text) => {
                    &&& action == Action::Render
                    &&& is_ranking(
                        store@.records,
                        query_ranks(store@.records, text@),
                        limit as int,
                        final(self)@.list,
                    )
                    &&& final(self)@ == old(self)@.shown(final(self)@.list)
                },
                Event::Down => action == Action::Render && final(self)@ == old(self)@.moved_down(),
                Event::Up => action == Action::Render && final(self)@ == old(self)@.moved_up(),
                Event::Run => {
                    &&& final(self)@ == old(self)@.launched()
                    &&& match old(self)@.launch_target() {
                        Some(target) => action matches Action::Launch(r) && r@ == target,
                        None => action == Action::Render,
                    }
                },
                Event::Hide => action == Action::Render && final(self)@ == old(self)@.hidden(),
                Event::Show => action == Action::Render && final(self)@ == old(self)@.revealed(),
                Event::Rescan => action == Action::Scan && final(self)@ == old(self)@.with_scanning(
                    true,
                ),
                Event::ScanDone => action == Action::Render && final(self)@ == old(
                    self,
                )@.with_scanning(false),
                Event::Exit => action == Action::Quit && final(self)@ == old(self)@,
            },
            final(self)@.valid(),
    {
        proof {
            use_type_invariant(&*self);
        }
        match event {
            Event::Search(text) => {
                let results = store.ranked_search(text.as_str(), limit);
                self.show_results(results);
                Action::Render
            },
            Event::Down => {
                self.down();
                Action::Render
            },
            Event::Up => {
                self.up();
                Action::Render
            },
            Event::Run => match self.take_selected() {
                Some(record) => Action::Launch(record),
                None => Action::Render,
            },
            Event::Hide => {
                self.hide_window();
                Action::Render
            },
            Event::Show => {
                self.show_window();
                Action::Render
            },
            Event::Rescan => {
                self.set_scanning(true);
                Action::Scan
            },
            Event::ScanDone => {
                self.set_scanning(false);
                Action::Render
            },
            Event::Exit => Action::Quit,
        }
    }

    /// The items of the list on show, in order.
    pub fn items(&self) -> (res: Vec<DisplayItem>)
        ensures
            res.deep_view() == self@.list.map_values(|r: AppRecordView| item_of(r)),
    {
        let mut out: Vec<DisplayItem> = Vec::new();
        let mut i: usize = 0;
        while i < self.list.len()
            invariant
                i <= self.list.len(),
                out.len() == i,
                forall|j: int| 0 <= j < i ==> out[j]@ == item_of(self.list[j]@),
            decreases self.list.len() - i,
        {
            out.push(DisplayItem::from_record(&self.list[i]));
            i += 1;
        }
        assert(out.deep_view() =~= self@.list.map_values(|r: AppRecordView| item_of(r)));
        out
    }

    /// The records on show.
    pub fn list(&self) -> (res: &Vec<AppRecord>)
        ensures
            res.deep_view() == self@.list,
    {
        &self.list
    }

    /// The identifier of the selected record.
    pub fn selected(&self) -> (res: Option<u64>)
        ensures
            res == self@.selected,
    {
        self.selected
    }

    /// Whether the user has moved the selection.
    pub fn has_moved(&self) -> (res: bool)
        ensures
            res == self@.has_moved,
    {
        self.has_moved
    }

    /// Whether a scan is under way.
    pub fn is_scanning(&self) -> (res: bool)
        ensures
            res == self@.scanning,
    {
        self.scanning
    }

    /// Whether the window is on show.
    pub fn is_visible(&self) -> (res: bool)
        ensures
            res == self@.visible,
    {
        self.visible
    }
}

} // verus!
