//! The application record and the entry that a scan yields.

use vstd::prelude::*;

verus! {

/// What is needed to start an application. The index carries it through
/// and never looks inside.
#[derive(Debug, PartialEq, Eq)]
pub struct ExecutionSpec {
    pub command: String,
    pub icon: String,
}

/// Mathematical model of an [`ExecutionSpec`].
pub struct ExecutionSpecView {
    pub command: Seq<char>,
    pub icon: Seq<char>,
}

impl View for ExecutionSpec {
    type V = ExecutionSpecView;

    open spec fn view(&self) -> ExecutionSpecView {
        ExecutionSpecView { command: self.command@, icon: self.icon@ }
    }
}

impl DeepView for ExecutionSpec {
    type V = ExecutionSpecView;

    open spec fn deep_view(&self) -> ExecutionSpecView {
        self@
    }
}

impl Clone for ExecutionSpec {
    fn clone(&self) -> (res: Self)
        ensures
            res@ == self@,
    {
        ExecutionSpec { command: self.command.clone(), icon: self.icon.clone() }
    }
}

/// One shortcut file as a scan found it.
#[derive(Debug, PartialEq, Eq)]
pub struct ScannedEntry {
    pub name: String,
    pub launch: ExecutionSpec,
    pub source_path: String,
}

/// Mathematical model of a [`ScannedEntry`].
pub struct ScannedEntryView {
    pub name: Seq<char>,
    pub launch: ExecutionSpecView,
    pub source_path: Seq<char>,
}

impl View for ScannedEntry {
    type V = ScannedEntryView;

    open spec fn view(&self) -> ScannedEntryView {
        ScannedEntryView { name: self.name@, launch: self.launch@, source_path: self.source_path@ }
    }
}

impl DeepView for ScannedEntry {
    type V = ScannedEntryView;

    open spec fn deep_view(&self) -> ScannedEntryView {
        self@
    }
}

impl Clone for ScannedEntry {
    fn clone(&self) -> (res: Self)
        ensures
            res@ == self@,
    {
        ScannedEntry {
            name: self.name.clone(),
            launch: self.launch.clone(),
            source_path: self.source_path.clone(),
        }
    }
}

/// One launchable application known to the index.
#[derive(Debug, PartialEq, Eq)]
pub struct AppRecord {
    /// Identifier, unique in a store and kept across rescans.
    pub id: u64,
    /// Display name, the text that queries are matched against.
    pub name: String,
    pub launch: ExecutionSpec,
    /// Number of launches recorded so far.
    pub usage_count: u64,
    /// Time of the last recorded launch, if there was one.
    pub last_used: Option<u64>,
    /// Path of the shortcut file that the record came from.
    pub source_path: String,
}

/// Mathematical model of an [`AppRecord`].
pub struct AppRecordView {
    pub id: u64,
    pub name: Seq<char>,
    pub launch: ExecutionSpecView,
    pub usage_count: u64,
    pub last_used: Option<u64>,
    pub source_path: Seq<char>,
}

impl View for AppRecord {
    type V = AppRecordView;

    open spec fn view(&self) -> AppRecordView {
        AppRecordView {
            id: self.id,
            name: self.name@,
            launch: self.launch@,
            usage_count: self.usage_count,
            last_used: self.last_used,
            source_path: self.source_path@,
        }
    }
}

impl DeepView for AppRecord {
    type V = AppRecordView;

    open spec fn deep_view(&self) -> AppRecordView {
        self@
    }
}

impl Clone for AppRecord {
    fn clone(&self) -> (res: Self)
        ensures
            res@ == self@,
    {
        AppRecord {
            id: self.id,
            name: self.name.clone(),
            launch: self.launch.clone(),
            usage_count: self.usage_count,
            last_used: self.last_used,
            source_path: self.source_path.clone(),
        }
    }
}

/// The record that a never-seen entry becomes: the given identifier, no
/// launches yet.
pub open spec fn fresh_record(id: u64, entry: ScannedEntryView) -> AppRecordView {
    AppRecordView {
        id,
        name: entry.name,
        launch: entry.launch,
        usage_count: 0,
        last_used: None,
        source_path: entry.source_path,
    }
}

/// A known record brought up to date from the entry of its own shortcut
/// file: name and execution data come from the entry, identity and usage
/// history stay.
pub open spec fn refreshed_record(record: AppRecordView, entry: ScannedEntryView) -> AppRecordView {
    AppRecordView { name: entry.name, launch: entry.launch, ..record }
}

impl ExecutionSpec {
    pub fn new(command: String, icon: String) -> (res: Self)
        ensures
            res@ == (ExecutionSpecView { command: command@, icon: icon@ }),
    {
        ExecutionSpec { command, icon }
    }
}

impl ScannedEntry {
    pub fn new(name: String, launch: ExecutionSpec, source_path: String) -> (res: Self)
        ensures
            res@ == (ScannedEntryView { name: name@, launch: launch@, source_path: source_path@ }),
    {
        ScannedEntry { name, launch, source_path }
    }
}

impl AppRecord {
    /// Builds the record of an entry that the store has not seen before.
    pub fn fresh(id: u64, entry: &ScannedEntry) -> (res: Self)
        ensures
            res@ == fresh_record(id, entry@),
    {
        AppRecord {
            id,
            name: entry.name.clone(),
            launch: entry.launch.clone(),
            usage_count: 0,
            last_used: None,
            source_path: entry.source_path.clone(),
        }
    }

    /// Builds the successor of `self` after its shortcut file was scanned
    /// again as `entry`.
    pub fn refreshed(&self, entry: &ScannedEntry) -> (res: Self)
        ensures
            res@ == refreshed_record(self@, entry@),
    {
        AppRecord {
            id: self.id,
            name: entry.name.clone(),
            launch: entry.launch.clone(),
            usage_count: self.usage_count,
            last_used: self.last_used,
            source_path: self.source_path.clone(),
        }
    }
}

} // verus!
