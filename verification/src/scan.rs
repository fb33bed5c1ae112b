//! The scan for plugins: which files are opened, and what becomes of them.
//!
//! Listing folders and opening files is done elsewhere. A scan is told what was
//! found, says which file comes next, and is told how opening it went.

pub mod content;

use crate::library::{
    all_distinct, entry_views, inserting_keeps_plugins_distinct, starred, under, with_entries,
    Entry, EntryView, Library, LibraryView, Role, Stamp, SCANNER_VERSION,
};
use crate::paths::{has_path, holds_path, join, joined, path_views, PathView, PluginPath};
use crate::project::PluginKind;
use crate::sorting::{
    is_ascending, mapped, sort_stable, stable_sort_of_images, stable_sort_orders, stable_sorted,
    Rank, Ranked,
};
use crate::text::same_text;
use vstd::prelude::*;
use vstd::string::StringExecFns;

verus! {

/// A file in one of the folders, with its stamp if it has one.
#[derive(Debug)]
pub struct FoundFile {
    pub path: PluginPath,
    pub stamp: Option<Stamp>,
}

/// What a [`FoundFile`] holds.
#[verifier::ext_equal]
pub struct FileView {
    pub path: PathView,
    pub stamp: Option<Stamp>,
}

impl View for FoundFile {
    type V = FileView;

    open spec fn view(&self) -> FileView {
        FileView { path: self.path@, stamp: self.stamp }
    }
}

impl FoundFile {
    fn duplicate(&self) -> (copy: FoundFile)
        ensures
            copy@ == self@,
    {
        FoundFile { path: self.path.duplicate(), stamp: self.stamp }
    }
}

/// Files go by their paths.
impl Rank for FileView {
    open spec fn rank_le(self, other: Self) -> bool {
        self.path.rank_le(other.path)
    }

    proof fn rank_total(a: Self, b: Self) {
        PathView::rank_total(a.path, b.path);
    }

    proof fn rank_transitive(a: Self, b: Self, c: Self) {
        PathView::rank_transitive(a.path, b.path, c.path);
    }
}

impl Rank for FoundFile {
    open spec fn rank_le(self, other: Self) -> bool {
        self@.rank_le(other@)
    }

    proof fn rank_total(a: Self, b: Self) {
        FileView::rank_total(a@, b@);
    }

    proof fn rank_transitive(a: Self, b: Self, c: Self) {
        FileView::rank_transitive(a@, b@, c@);
    }
}

impl Ranked for FoundFile {
    fn not_after(&self, other: &Self) -> (yes: bool) {
        self.path.not_after(&other.path)
    }
}

/// The views of files.
pub open spec fn file_views(files: Seq<FoundFile>) -> Seq<FileView> {
    Seq::new(files.len(), |i: int| files[i]@)
}

/// A plugin that was found in a file.
#[derive(Debug)]
pub struct FoundPlugin {
    pub id: String,
    pub name: String,
    pub vendor: String,
    pub version: String,
    pub role: Role,
}

/// What a [`FoundPlugin`] holds.
#[verifier::ext_equal]
pub struct FoundView {
    pub id: Seq<char>,
    pub name: Seq<char>,
    pub vendor: Seq<char>,
    pub version: Seq<char>,
    pub role: Role,
}

impl View for FoundPlugin {
    type V = FoundView;

    open spec fn view(&self) -> FoundView {
        FoundView {
            id: self.id@,
            name: self.name@,
            vendor: self.vendor@,
            version: self.version@,
            role: self.role,
        }
    }
}

/// The views of found plugins.
pub open spec fn found_views(found: Seq<FoundPlugin>) -> Seq<FoundView> {
    Seq::new(found.len(), |i: int| found[i]@)
}

/// How opening a file went.
#[derive(Debug)]
pub enum Outcome {
    /// These plugins are in it.
    Found(Vec<FoundPlugin>),
    /// It could not be read in this process.
    Failed(String),
    /// It could not be read in the other process, and may be to blame for that.
    Crashed { problem: String, block: bool },
    /// No other process could be started, so it was opened in this one.
    NotSpawned { detail: String, retried: Result<Vec<FoundPlugin>, String> },
}

/// What is known of a file that was opened.
#[derive(Debug)]
pub struct Opened {
    /// The format; `None` where the file is no plugin.
    pub kind: Option<PluginKind>,
    /// The stamp, taken before it was opened.
    pub stamp: Option<Stamp>,
    pub outcome: Outcome,
}

/// What an [`Opened`] holds: the plugins that were found, if any, and the rest.
#[verifier::ext_equal]
pub struct OpenedView {
    pub kind: Option<PluginKind>,
    pub stamp: Option<Stamp>,
    pub outcome: OutcomeView,
}

/// What an [`Outcome`] holds.
#[verifier::ext_equal]
pub enum OutcomeView {
    Found(Seq<FoundView>),
    Failed(Seq<char>),
    Crashed { problem: Seq<char>, block: bool },
    NotSpawned { detail: Seq<char>, retried: Result<Seq<FoundView>, Seq<char>> },
}

impl View for Outcome {
    type V = OutcomeView;

    open spec fn view(&self) -> OutcomeView {
        match self {
            Outcome::Found(found) => OutcomeView::Found(found_views(found@)),
            Outcome::Failed(problem) => OutcomeView::Failed(problem@),
            Outcome::Crashed { problem, block } => OutcomeView::Crashed {
                problem: problem@,
                block: *block,
            },
            Outcome::NotSpawned { detail, retried } => OutcomeView::NotSpawned {
                detail: detail@,
                retried: match retried {
                    Ok(found) => Ok(found_views(found@)),
                    Err(problem) => Err(problem@),
                },
            },
        }
    }
}

impl View for Opened {
    type V = OpenedView;

    open spec fn view(&self) -> OpenedView {
        OpenedView { kind: self.kind, stamp: self.stamp, outcome: self.outcome@ }
    }
}

/// The entries for a file.
pub open spec fn at_path(entries: Seq<EntryView>, path: PathView) -> Seq<EntryView>
    decreases entries.len(),
{
    if entries.len() == 0 {
        entries
    } else {
        let before = at_path(entries.drop_last(), path);
        if entries.last().path.is_same(path) {
            before.push(entries.last())
        } else {
            before
        }
    }
}

/// Whether all entries have a stamp.
pub open spec fn all_stamped(entries: Seq<EntryView>, stamp: Stamp) -> bool {
    forall|i: int| 0 <= i < entries.len() ==> (#[trigger] entries[i]).stamp == Some(stamp)
}

/// The entries that can be used again for a file: all that it had, if it has a
/// stamp and all of them have the same one.
pub open spec fn reusable_of(
    previous: Seq<EntryView>,
    path: PathView,
    stamp: Option<Stamp>,
) -> Option<Seq<EntryView>> {
    match stamp {
        None => None,
        Some(stamp) => {
            let found = at_path(previous, path);
            if found.len() > 0 && all_stamped(found, stamp) {
                Some(found)
            } else {
                None
            }
        },
    }
}

/// The entries that can be used again for a file. `None` means that the file is
/// opened.
pub fn reusable(previous: &Vec<Entry>, path: &PluginPath, stamp: Option<Stamp>) -> (kept: Option<
    Vec<Entry>,
>)
    ensures
        match kept {
            Some(kept) => reusable_of(entry_views(previous@), path@, stamp) == Some(
                entry_views(kept@),
            ),
            None => reusable_of(entry_views(previous@), path@, stamp) is None,
        },
{
    let stamp = match stamp {
        Some(stamp) => stamp,
        None => {
            return None;
        },
    };
    let ghost all = entry_views(previous@);
    let mut found: Vec<Entry> = Vec::new();
    let mut same: bool = true;
    let mut at: usize = 0;
    proof {
        assert(all.take(0) =~= Seq::empty());
        assert(entry_views(found@) =~= Seq::empty());
    }
    while at < previous.len()
        invariant
            all == entry_views(previous@),
            at <= all.len(),
            entry_views(found@) == at_path(all.take(at as int), path@),
            same == all_stamped(at_path(all.take(at as int), path@), stamp),
        decreases all.len() - at,
    {
        let ghost before = found@;
        let ghost before_views = at_path(all.take(at as int), path@);
        assert(all.take(at + 1).drop_last() =~= all.take(at as int));
        if previous[at].path.same(path) {
            let entry = previous[at].duplicate();
            let fits: bool = match entry.stamp {
                Some(other) => other == stamp,
                None => false,
            };
            found.push(entry);
            proof {
                let now = at_path(all.take(at + 1), path@);
                assert(entry_views(found@) =~= entry_views(before).push(entry@));
                assert(now =~= before_views.push(entry@));
                if same && fits {
                    assert forall|i: int| 0 <= i < now.len() implies (#[trigger] now[i]).stamp
                        == Some(stamp) by {
                        if i < before_views.len() {
                            assert(before_views[i].stamp == Some(stamp));
                        }
                    }
                } else if !fits {
                    assert(now[before_views.len() as int].stamp != Some(stamp));
                } else {
                    let i = choose|i: int|
                        0 <= i < before_views.len() && (#[trigger] before_views[i]).stamp != Some(
                            stamp,
                        );
                    assert(now[i].stamp != Some(stamp));
                }
            }
            same = same && fits;
        }
        at += 1;
    }
    assert(all.take(at as int) =~= all);
    if found.len() > 0 && same {
        Some(found)
    } else {
        None
    }
}

/// The plugins that lie under any of the folders. Each is taken once.
pub open spec fn all_under(plugins: Seq<EntryView>, folders: Seq<PathView>) -> Seq<EntryView>
    decreases folders.len(),
{
    if folders.len() == 0 {
        Seq::empty()
    } else {
        all_under(plugins, folders.drop_last()) + under(
            none_under(plugins, folders.drop_last()),
            folders.last(),
            true,
        )
    }
}

/// The plugins that lie under none of the folders.
pub open spec fn none_under(plugins: Seq<EntryView>, folders: Seq<PathView>) -> Seq<EntryView>
    decreases folders.len(),
{
    if folders.len() == 0 {
        plugins
    } else {
        under(none_under(plugins, folders.drop_last()), folders.last(), false)
    }
}

/// The files that are not blocked.
pub open spec fn not_blocked(files: Seq<FileView>, blocked: Seq<PathView>) -> Seq<FileView>
    decreases files.len(),
{
    if files.len() == 0 {
        files
    } else {
        let before = not_blocked(files.drop_last(), blocked);
        if has_path(blocked, files.last().path) {
            before
        } else {
            before.push(files.last())
        }
    }
}

/// Files without those that have the same path as the one before them.
pub open spec fn without_repeats(files: Seq<FileView>) -> Seq<FileView>
    decreases files.len(),
{
    if files.len() == 0 {
        files
    } else {
        let before = without_repeats(files.drop_last());
        if before.len() > 0 && before.last().path.is_same(files.last().path) {
            before
        } else {
            before.push(files.last())
        }
    }
}

/// The files that a scan is about, in its order.
pub open spec fn scanned_files(files: Seq<FileView>, blocked: Seq<PathView>) -> Seq<FileView> {
    without_repeats(stable_sorted(not_blocked(files, blocked)))
}

/// What is kept of a file without opening it.
pub open spec fn kept_of(
    previous: Seq<EntryView>,
    file: FileView,
    reuse: bool,
) -> Option<Seq<EntryView>> {
    if reuse {
        reusable_of(previous, file.path, file.stamp)
    } else {
        None
    }
}

/// The files that have to be opened.
pub open spec fn to_be_opened(
    files: Seq<FileView>,
    previous: Seq<EntryView>,
    reuse: bool,
) -> Seq<PathView>
    decreases files.len(),
{
    if files.len() == 0 {
        Seq::empty()
    } else {
        let before = to_be_opened(files.drop_last(), previous, reuse);
        if kept_of(previous, files.last(), reuse) is Some {
            before
        } else {
            before.push(files.last().path)
        }
    }
}

/// The list after what is kept of files has been put back.
pub open spec fn with_kept(
    plugins: Seq<EntryView>,
    files: Seq<FileView>,
    previous: Seq<EntryView>,
    reuse: bool,
) -> Seq<EntryView>
    decreases files.len(),
{
    if files.len() == 0 {
        plugins
    } else {
        let before = with_kept(plugins, files.drop_last(), previous, reuse);
        match kept_of(previous, files.last(), reuse) {
            Some(entries) => with_entries(before, entries),
            None => before,
        }
    }
}

/// The paths and ids of entries.
pub open spec fn identities(entries: Seq<EntryView>) -> Seq<(PathView, Seq<char>)> {
    Seq::new(entries.len(), |i: int| (entries[i].path, entries[i].id))
}

/// A scan.
#[derive(Debug)]
pub struct Scan {
    /// The files that are still to be opened, the next one at the end.
    queue: Vec<PluginPath>,
    /// How many files were to be opened.
    total: usize,
    /// How many files did not have to be opened.
    reused: usize,
    /// What went wrong.
    problems: Vec<String>,
    /// How many files crashed.
    crashed: usize,
    /// The plugins that had a star.
    favorites: Vec<(PluginPath, String)>,
    /// Whether files are opened in another process.
    isolate: bool,
}

/// What a [`Scan`] holds.
#[verifier::ext_equal]
pub struct ScanView {
    pub queue: Seq<PathView>,
    pub total: int,
    pub reused: int,
    pub problems: Seq<Seq<char>>,
    pub crashed: int,
    pub favorites: Seq<(PathView, Seq<char>)>,
    pub isolate: bool,
}

/// The views of favorites.
pub open spec fn favorite_views(favorites: Seq<(PluginPath, String)>) -> Seq<
    (PathView, Seq<char>),
> {
    Seq::new(favorites.len(), |i: int| (favorites[i].0@, favorites[i].1@))
}

/// The texts of messages.
pub open spec fn texts(messages: Seq<String>) -> Seq<Seq<char>> {
    Seq::new(messages.len(), |i: int| messages[i]@)
}

impl View for Scan {
    type V = ScanView;

    closed spec fn view(&self) -> ScanView {
        ScanView {
            queue: path_views(self.queue@),
            total: self.total as int,
            reused: self.reused as int,
            problems: texts(self.problems@),
            crashed: self.crashed as int,
            favorites: favorite_views(self.favorites@),
            isolate: self.isolate,
        }
    }
}

impl ScanView {
    /// Whether the counts fit together: what is left, and what crashed, was to
    /// be opened.
    pub open spec fn is_valid(self) -> bool {
        0 <= self.crashed && self.crashed + self.queue.len() <= self.total <= usize::MAX
    }
}

/// The list and the scan after it was begun.
pub open spec fn begun(library: LibraryView, files: Seq<FileView>, reuse: bool) -> (
    LibraryView,
    ScanView,
) {
    let previous = all_under(library.plugins, library.folders);
    let scanned = scanned_files(files, library.blocked);
    let open = to_be_opened(scanned, previous, reuse);
    (
        LibraryView {
            scanner: SCANNER_VERSION,
            plugins: with_kept(
                none_under(library.plugins, library.folders),
                scanned,
                previous,
                reuse,
            ),
            ..library
        },
        ScanView {
            queue: open.reverse(),
            total: open.len() as int,
            reused: scanned.len() - open.len(),
            problems: Seq::empty(),
            crashed: 0,
            favorites: identities(starred(previous)),
            isolate: library.isolate,
        },
    )
}

/// Appends entries to others.
fn append_entries(entries: &mut Vec<Entry>, more: Vec<Entry>)
    ensures
        entry_views(final(entries)@) == entry_views(old(entries)@) + entry_views(more@),
{
    let mut rest = more;
    let ghost first = entries@;
    entries.append(&mut rest);
    assert(entry_views(entries@) =~= entry_views(first) + entry_views(more@));
}

/// Takes the plugins under all folders out of the list.
fn take_all(library: &mut Library) -> (previous: Vec<Entry>)
    ensures
        entry_views(previous@) == all_under(old(library)@.plugins, old(library)@.folders),
        final(library)@ == old(library)@.with_plugins(
            none_under(old(library)@.plugins, old(library)@.folders),
        ),
{
    let ghost before = library@;
    let count: usize = library.folders.len();
    let mut previous: Vec<Entry> = Vec::new();
    let mut at: usize = 0;
    proof {
        assert(before.folders.take(0) =~= Seq::empty());
        assert(entry_views(previous@) =~= Seq::empty());
        assert(library@ =~= before.with_plugins(before.plugins));
    }
    while at < count
        invariant
            count == before.folders.len(),
            at <= count,
            library@ == before.with_plugins(
                none_under(before.plugins, before.folders.take(at as int)),
            ),
            entry_views(previous@) == all_under(before.plugins, before.folders.take(at as int)),
        decreases count - at,
    {
        assert(before.folders.take(at + 1).drop_last() =~= before.folders.take(at as int));
        let folder = library.folders[at].duplicate();
        let taken = library.take_under(&folder);
        append_entries(&mut previous, taken);
        at += 1;
    }
    assert(before.folders.take(at as int) =~= before.folders);
    previous
}

/// The files that are not blocked.
fn keep_unblocked(files: &Vec<FoundFile>, blocked: &Vec<PluginPath>) -> (kept: Vec<FoundFile>)
    ensures
        file_views(kept@) == not_blocked(file_views(files@), path_views(blocked@)),
{
    let ghost all = file_views(files@);
    let mut kept: Vec<FoundFile> = Vec::new();
    let mut at: usize = 0;
    proof {
        assert(all.take(0) =~= Seq::empty());
        assert(file_views(kept@) =~= Seq::empty());
    }
    while at < files.len()
        invariant
            all == file_views(files@),
            at <= all.len(),
            file_views(kept@) == not_blocked(all.take(at as int), path_views(blocked@)),
        decreases all.len() - at,
    {
        let ghost before = kept@;
        assert(all.take(at + 1).drop_last() =~= all.take(at as int));
        if !holds_path(blocked, &files[at].path) {
            let file = files[at].duplicate();
            kept.push(file);
            assert(file_views(kept@) =~= file_views(before).push(file@));
        }
        at += 1;
    }
    assert(all.take(at as int) =~= all);
    kept
}

/// Files without those that have the same path as the one before them.
fn drop_repeats(files: &Vec<FoundFile>) -> (kept: Vec<FoundFile>)
    ensures
        file_views(kept@) == without_repeats(file_views(files@)),
{
    let ghost all = file_views(files@);
    let mut kept: Vec<FoundFile> = Vec::new();
    let mut at: usize = 0;
    proof {
        assert(all.take(0) =~= Seq::empty());
        assert(file_views(kept@) =~= Seq::empty());
    }
    while at < files.len()
        invariant
            all == file_views(files@),
            at <= all.len(),
            file_views(kept@) == without_repeats(all.take(at as int)),
        decreases all.len() - at,
    {
        let ghost before = kept@;
        assert(all.take(at + 1).drop_last() =~= all.take(at as int));
        let repeated: bool = if kept.len() > 0 {
            assert(file_views(kept@).last() == kept@.last()@);
            kept[kept.len() - 1].path.same(&files[at].path)
        } else {
            false
        };
        if !repeated {
            let file = files[at].duplicate();
            kept.push(file);
            assert(file_views(kept@) =~= file_views(before).push(file@));
        }
        at += 1;
    }
    assert(all.take(at as int) =~= all);
    kept
}

/// The files that a scan is about, in its order.
fn arrange(files: &Vec<FoundFile>, blocked: &Vec<PluginPath>) -> (scanned: Vec<FoundFile>)
    ensures
        file_views(scanned@) == scanned_files(file_views(files@), path_views(blocked@)),
{
    let kept = keep_unblocked(files, blocked);
    let ghost f = |file: FoundFile| file@;
    let ghost unsorted = kept@;
    proof {
        assert(mapped(unsorted, f) =~= file_views(unsorted));
        stable_sort_of_images(unsorted, f);
    }
    let sorted = sort_stable(kept);
    assert(file_views(sorted@) =~= mapped(sorted@, f));
    drop_repeats(&sorted)
}

/// Puts entries into the list, one after the other.
fn insert_all(library: &mut Library, entries: &Vec<Entry>)
    ensures
        final(library)@ == old(library)@.with_plugins(
            with_entries(old(library)@.plugins, entry_views(entries@)),
        ),
{
    let ghost before = library@;
    let ghost all = entry_views(entries@);
    let mut at: usize = 0;
    proof {
        assert(all.take(0) =~= Seq::empty());
        assert(library@ =~= before.with_plugins(before.plugins));
    }
    while at < entries.len()
        invariant
            all == entry_views(entries@),
            at <= all.len(),
            library@ == before.with_plugins(with_entries(before.plugins, all.take(at as int))),
        decreases all.len() - at,
    {
        assert(all.take(at + 1).drop_last() =~= all.take(at as int));
        library.insert(entries[at].duplicate());
        at += 1;
    }
    assert(all.take(at as int) =~= all);
}

/// The paths and ids of the plugins with a star.
fn note_favorites(previous: &Vec<Entry>) -> (favorites: Vec<(PluginPath, String)>)
    ensures
        favorite_views(favorites@) == identities(starred(entry_views(previous@))),
{
    let ghost all = entry_views(previous@);
    let mut favorites: Vec<(PluginPath, String)> = Vec::new();
    let mut at: usize = 0;
    proof {
        assert(all.take(0) =~= Seq::empty());
        assert(favorite_views(favorites@) =~= identities(starred(all.take(0))));
    }
    while at < previous.len()
        invariant
            all == entry_views(previous@),
            at <= all.len(),
            favorite_views(favorites@) == identities(starred(all.take(at as int))),
        decreases all.len() - at,
    {
        let ghost before = favorites@;
        let ghost stars = starred(all.take(at as int));
        assert(all.take(at + 1).drop_last() =~= all.take(at as int));
        if previous[at].favorite {
            let path = previous[at].path.duplicate();
            let id = previous[at].id.clone();
            favorites.push((path, id));
            proof {
                assert(favorite_views(favorites@) =~= favorite_views(before).push((path@, id@)));
                assert(identities(stars.push(all[at as int])) =~= identities(stars).push(
                    (path@, id@),
                ));
            }
        }
        at += 1;
    }
    assert(all.take(at as int) =~= all);
    favorites
}

impl Scan {
    /// Begins a scan of the files that were found in the library's folders.
    /// Files that have not changed are not opened again, unless the list was
    /// made by another version of the scanner.
    pub fn start(library: &mut Library, files: &Vec<FoundFile>) -> (scan: Scan)
        ensures
            (final(library)@, scan@) == begun(
                old(library)@,
                file_views(files@),
                old(library)@.scanner == SCANNER_VERSION,
            ),
            old(library).scanner != SCANNER_VERSION ==> scan@.reused == 0,
            scan@.is_valid(),
    {
        proof {
            a_full_scan_opens_everything(
                scanned_files(file_views(files@), library@.blocked),
                all_under(library@.plugins, library@.folders),
            );
        }
        let current: bool = library.scanner == SCANNER_VERSION;
        Scan::begin(library, files, current)
    }

    /// Begins a scan in which all files are opened.
    pub fn start_full(library: &mut Library, files: &Vec<FoundFile>) -> (scan: Scan)
        ensures
            (final(library)@, scan@) == begun(old(library)@, file_views(files@), false),
            scan@.reused == 0,
            scan@.is_valid(),
    {
        proof {
            a_full_scan_opens_everything(
                scanned_files(file_views(files@), library@.blocked),
                all_under(library@.plugins, library@.folders),
            );
        }
        Scan::begin(library, files, false)
    }

    fn begin(library: &mut Library, files: &Vec<FoundFile>, reuse: bool) -> (scan: Scan)
        ensures
            (final(library)@, scan@) == begun(old(library)@, file_views(files@), reuse),
            scan@.is_valid(),
    {
        let ghost before = library@;
        let isolate: bool = library.isolate;
        library.scanner = SCANNER_VERSION;
        assert(library@ =~= LibraryView { scanner: SCANNER_VERSION, ..before });
        let previous = take_all(library);
        let ghost bare = library@;
        let ghost old_entries = entry_views(previous@);
        let scanned = arrange(files, &library.blocked);
        let ghost all = file_views(scanned@);
        let favorites = note_favorites(&previous);
        let mut reused: usize = 0;
        let mut open: Vec<PluginPath> = Vec::new();
        let mut at: usize = 0;
        proof {
            assert(all.take(0) =~= Seq::empty());
            assert(path_views(open@) =~= Seq::empty());
            assert(library@ =~= bare.with_plugins(bare.plugins));
        }
        while at < scanned.len()
            invariant
                all == file_views(scanned@),
                old_entries == entry_views(previous@),
                at <= all.len(),
                library@ == bare.with_plugins(
                    with_kept(bare.plugins, all.take(at as int), old_entries, reuse),
                ),
                path_views(open@) == to_be_opened(all.take(at as int), old_entries, reuse),
                reused + open@.len() == at,
            decreases all.len() - at,
        {
            let ghost opened = open@;
            assert(all.take(at + 1).drop_last() =~= all.take(at as int));
            let kept = if reuse {
                reusable(&previous, &scanned[at].path, scanned[at].stamp)
            } else {
                None
            };
            match kept {
                Some(entries) => {
                    reused += 1;
                    insert_all(library, &entries);
                },
                None => {
                    let path = scanned[at].path.duplicate();
                    open.push(path);
                    assert(path_views(open@) =~= path_views(opened).push(path@));
                },
            }
            at += 1;
        }
        assert(all.take(at as int) =~= all);
        let total: usize = open.len();
        let ghost in_order = path_views(open@);
        let mut queue: Vec<PluginPath> = Vec::new();
        while open.len() > 0
            invariant
                path_views(open@) == in_order.take(open@.len() as int),
                queue@.len() + open@.len() == in_order.len(),
                path_views(queue@) == in_order.skip(open@.len() as int).reverse(),
            decreases open@.len(),
        {
            let ghost left = open@;
            let ghost queued = queue@;
            let path = open.pop().unwrap();
            queue.push(path);
            proof {
                assert(path@ == path_views(left).last());
                assert(path_views(open@) =~= in_order.take(open@.len() as int));
                assert(path_views(queue@) =~= path_views(queued).push(path@));
                assert(path_views(queue@) =~= in_order.skip(open@.len() as int).reverse());
            }
        }
        let scan = Scan {
            queue,
            total,
            reused,
            problems: Vec::new(),
            crashed: 0,
            favorites,
            isolate,
        };
        proof {
            assert(in_order.skip(0) =~= in_order);
            assert(texts(scan.problems@) =~= Seq::empty());
            assert(scan@ =~= begun(before, file_views(files@), reuse).1);
            assert(library@ =~= begun(before, file_views(files@), reuse).0);
        }
        scan
    }
}

/// What is said of a file that could not be opened.
pub open spec fn problem_of(path: PathView, why: Seq<char>) -> Seq<char> {
    path.text + ": "@ + why
}

/// What is said once, where no other process can be started.
pub open spec fn not_spawned_notice(detail: Seq<char>) -> Seq<char> {
    "別プロセスで開けないため同じプロセスで開きます: "@ + detail
}

/// Whether a plugin had a star.
pub open spec fn had_star(
    favorites: Seq<(PathView, Seq<char>)>,
    path: PathView,
    id: Seq<char>,
) -> bool {
    exists|i: int|
        0 <= i < favorites.len() && (#[trigger] favorites[i]).0.is_same(path) && favorites[i].1
            == id
}

impl ScanView {
    /// The entry for a plugin that was found in a file. It has its star again,
    /// if it had one.
    pub open spec fn entry_for(
        self,
        found: FoundView,
        path: PathView,
        kind: PluginKind,
        stamp: Option<Stamp>,
    ) -> EntryView {
        EntryView {
            kind,
            path,
            id: found.id,
            name: found.name,
            vendor: found.vendor,
            version: found.version,
            role: found.role,
            favorite: had_star(self.favorites, path, found.id),
            stamp,
        }
    }

    /// The entries for the plugins that were found in a file.
    pub open spec fn entries_for(
        self,
        found: Seq<FoundView>,
        path: PathView,
        kind: PluginKind,
        stamp: Option<Stamp>,
    ) -> Seq<EntryView> {
        Seq::new(found.len(), |i: int| self.entry_for(found[i], path, kind, stamp))
    }

    /// With a problem noted.
    pub open spec fn with_problem(self, problem: Seq<char>) -> ScanView {
        ScanView { problems: self.problems.push(problem), ..self }
    }

    /// With it noted that no other process can be started. It is said only
    /// where nothing else has been said.
    pub open spec fn with_notice(self, detail: Seq<char>) -> ScanView {
        if self.crashed == 0 && self.problems.len() == 0 {
            self.with_problem(not_spawned_notice(detail))
        } else {
            self
        }
    }

    /// After a file was opened that was taken from the queue, with the list
    /// before.
    pub open spec fn settled(
        self,
        library: LibraryView,
        path: PathView,
        kind: PluginKind,
        stamp: Option<Stamp>,
        outcome: OutcomeView,
    ) -> (ScanView, LibraryView) {
        match outcome {
            OutcomeView::Found(found) => (
                self,
                library.with_plugins(
                    with_entries(library.plugins, self.entries_for(found, path, kind, stamp)),
                ),
            ),
            OutcomeView::Failed(why) => (self.with_problem(problem_of(path, why)), library),
            OutcomeView::Crashed { problem, block } => {
                let noted = self.with_problem(problem_of(path, problem));
                if block && !has_path(library.blocked, path) {
                    (
                        ScanView { crashed: self.crashed + 1, ..noted },
                        LibraryView { blocked: library.blocked.push(path), ..library },
                    )
                } else {
                    (noted, library)
                }
            },
            OutcomeView::NotSpawned { detail, retried } => {
                let noted = self.with_notice(detail);
                match retried {
                    Ok(found) => (
                        noted,
                        library.with_plugins(
                            with_entries(
                                library.plugins,
                                self.entries_for(found, path, kind, stamp),
                            ),
                        ),
                    ),
                    Err(why) => (noted.with_problem(problem_of(path, why)), library),
                }
            },
        }
    }

    /// After the next file was opened, with the list before.
    pub open spec fn stepped(self, library: LibraryView, opened: OpenedView) -> (
        ScanView,
        LibraryView,
    ) {
        if self.queue.len() == 0 {
            (self, library)
        } else {
            let popped = ScanView { queue: self.queue.drop_last(), ..self };
            match opened.kind {
                None => (popped, library),
                Some(kind) => popped.settled(
                    library,
                    self.queue.last(),
                    kind,
                    opened.stamp,
                    opened.outcome,
                ),
            }
        }
    }
}

/// What is said of a file that could not be opened.
fn describe(path: &PluginPath, why: &str) -> (problem: String)
    ensures
        problem@ == problem_of(path@, why@),
{
    let mut problem = path.text.clone();
    problem.append(": ");
    problem.append(why);
    problem
}

impl Scan {
    /// The file that is opened next.
    pub fn next(&self) -> (path: Option<&PluginPath>)
        ensures
            match path {
                Some(path) => self@.queue.len() > 0 && path@ == self@.queue.last(),
                None => self@.queue.len() == 0,
            },
    {
        if self.queue.len() == 0 {
            None
        } else {
            Some(&self.queue[self.queue.len() - 1])
        }
    }

    /// Whether files are opened in another process.
    pub fn is_isolated(&self) -> (yes: bool)
        ensures
            yes == self@.isolate,
    {
        self.isolate
    }

    fn is_favorite(&self, path: &PluginPath, id: &str) -> (yes: bool)
        ensures
            yes == had_star(self@.favorites, path@, id@),
    {
        let mut at: usize = 0;
        while at < self.favorites.len()
            invariant
                at <= self.favorites@.len(),
                forall|i: int|
                    0 <= i < at ==> !((#[trigger] self@.favorites[i]).0.is_same(path@)
                        && self@.favorites[i].1 == id@),
            decreases self.favorites@.len() - at,
        {
            if self.favorites[at].0.same(path) && same_text(self.favorites[at].1.as_str(), id) {
                assert(self@.favorites[at as int].0.is_same(path@));
                return true;
            }
            at += 1;
        }
        false
    }

    fn note(&mut self, problem: String)
        ensures
            final(self)@ == old(self)@.with_problem(problem@),
    {
        let ghost before = self@;
        self.problems.push(problem);
        assert(self@.problems =~= before.problems.push(problem@));
        assert(self@ =~= before.with_problem(problem@));
    }

    /// Puts the plugins that were found in a file into the list.
    fn list(
        &self,
        library: &mut Library,
        path: &PluginPath,
        kind: PluginKind,
        stamp: Option<Stamp>,
        found: &Vec<FoundPlugin>,
    )
        ensures
            final(library)@ == old(library)@.with_plugins(
                with_entries(
                    old(library)@.plugins,
                    self@.entries_for(found_views(found@), path@, kind, stamp),
                ),
            ),
    {
        let ghost before = library@;
        let ghost all = self@.entries_for(found_views(found@), path@, kind, stamp);
        let mut at: usize = 0;
        proof {
            assert(all.take(0) =~= Seq::empty());
            assert(library@ =~= before.with_plugins(before.plugins));
        }
        while at < found.len()
            invariant
                all == self@.entries_for(found_views(found@), path@, kind, stamp),
                at <= all.len(),
                library@ == before.with_plugins(with_entries(before.plugins, all.take(at as int))),
            decreases all.len() - at,
        {
            let plugin = &found[at];
            let entry = Entry {
                kind,
                path: path.duplicate(),
                id: plugin.id.clone(),
                name: plugin.name.clone(),
                vendor: plugin.vendor.clone(),
                version: plugin.version.clone(),
                role: plugin.role,
                favorite: self.is_favorite(path, plugin.id.as_str()),
                stamp,
            };
            proof {
                assert(entry@ =~= all[at as int]);
                assert(all.take(at + 1).drop_last() =~= all.take(at as int));
            }
            library.insert(entry);
            at += 1;
        }
        assert(all.take(at as int) =~= all);
    }

    fn block(&mut self, library: &mut Library, path: &PluginPath)
        requires
            old(self)@.crashed < usize::MAX,
        ensures
            has_path(old(library)@.blocked, path@) ==> final(self)@ == old(self)@ && final(library)@
                == old(library)@,
            !has_path(old(library)@.blocked, path@) ==> final(self)@ == (ScanView {
                crashed: old(self)@.crashed + 1,
                ..old(self)@
            }) && final(library)@ == (LibraryView {
                blocked: old(library)@.blocked.push(path@),
                ..old(library)@
            }),
    {
        if !holds_path(&library.blocked, path) {
            let ghost before = library@;
            let ghost scan = self@;
            library.blocked.push(path.duplicate());
            self.crashed += 1;
            proof {
                assert(library@.blocked =~= before.blocked.push(path@));
                assert(library@ =~= LibraryView { blocked: before.blocked.push(path@), ..before });
                assert(self@ =~= ScanView { crashed: scan.crashed + 1, ..scan });
            }
        }
    }

    fn settle(
        &mut self,
        library: &mut Library,
        path: &PluginPath,
        kind: PluginKind,
        stamp: Option<Stamp>,
        outcome: Outcome,
    )
        requires
            old(self)@.crashed < usize::MAX,
        ensures
            (final(self)@, final(library)@) == old(self)@.settled(
                old(library)@,
                path@,
                kind,
                stamp,
                outcome@,
            ),
    {
        let ghost before = self@;
        match outcome {
            Outcome::Found(found) => {
                self.list(library, path, kind, stamp, &found);
            },
            Outcome::Failed(why) => {
                self.note(describe(path, why.as_str()));
            },
            Outcome::Crashed { problem, block } => {
                self.note(describe(path, problem.as_str()));
                if block {
                    self.block(library, path);
                }
            },
            Outcome::NotSpawned { detail, retried } => {
                if self.crashed == 0 && self.problems.len() == 0 {
                    let mut notice = String::from_str(
                        "別プロセスで開けないため同じプロセスで開きます: ",
                    );
                    notice.append(detail.as_str());
                    self.note(notice);
                }
                match retried {
                    Ok(found) => {
                        assert(self@.entries_for(found_views(found@), path@, kind, stamp)
                            =~= before.entries_for(found_views(found@), path@, kind, stamp));
                        self.list(library, path, kind, stamp, &found);
                    },
                    Err(why) => {
                        self.note(describe(path, why.as_str()));
                    },
                }
            },
        }
    }

    /// Takes the next file from the queue and puts what opening it gave into the
    /// list. A file that crashed is blocked: it is not opened again. Returns the
    /// file, or `None` where there was none left.
    pub fn step(&mut self, library: &mut Library, opened: Opened) -> (done: Option<PluginPath>)
        requires
            old(self)@.is_valid(),
        ensures
            (final(self)@, final(library)@) == old(self)@.stepped(old(library)@, opened@),
            final(self)@.is_valid(),
            match done {
                Some(path) => old(self)@.queue.len() > 0 && path@ == old(self)@.queue.last(),
                None => old(self)@.queue.len() == 0,
            },
    {
        let ghost before = self@;
        let ghost queue = self.queue@;
        match self.queue.pop() {
            None => None,
            Some(path) => {
                proof {
                    assert(path_views(self.queue@) =~= path_views(queue).drop_last());
                    assert(self@ =~= ScanView { queue: before.queue.drop_last(), ..before });
                    assert(path@ == before.queue.last());
                }
                match opened.kind {
                    None => {},
                    Some(kind) => {
                        self.settle(library, &path, kind, opened.stamp, opened.outcome);
                    },
                }
                Some(path)
            },
        }
    }

    /// Whether no file is left to be opened.
    pub fn is_done(&self) -> (yes: bool)
        ensures
            yes == (self@.queue.len() == 0),
    {
        self.queue.len() == 0
    }

    /// How many files have been opened, and how many were to be.
    pub fn progress(&self) -> (progress: (usize, usize))
        requires
            self@.is_valid(),
        ensures
            progress.0 == self@.total - self@.queue.len(),
            progress.1 == self@.total,
    {
        (self.total - self.queue.len(), self.total)
    }

    /// How many files did not have to be opened.
    pub fn reused(&self) -> (count: usize)
        ensures
            count == self@.reused,
    {
        self.reused
    }

    /// How many files crashed and are blocked now.
    pub fn crashed(&self) -> (count: usize)
        ensures
            count == self@.crashed,
    {
        self.crashed
    }

    /// What went wrong.
    pub fn problems(&self) -> (problems: &Vec<String>)
        ensures
            texts(problems@) == self@.problems,
    {
        &self.problems
    }
}

/// The folders that plugins are put into by convention, as text: those of the
/// system, and where they are known, those of the user.
pub open spec fn standard_folder_texts(
    windows: bool,
    common: Seq<char>,
    local: Seq<char>,
    home: Seq<char>,
) -> Seq<Seq<char>> {
    if windows {
        behind(common, "CLAP"@, true) + behind(local, "Programs\\Common\\CLAP"@, true) + behind(
            common,
            "VST3"@,
            true,
        ) + behind(local, "Programs\\Common\\VST3"@, true)
    } else {
        seq![joined("/usr/lib"@, "clap"@, false), joined("/usr/local/lib"@, "clap"@, false)]
            + behind(home, ".clap"@, false) + seq![
            joined("/usr/lib"@, "vst3"@, false),
            joined("/usr/local/lib"@, "vst3"@, false),
        ] + behind(home, ".vst3"@, false)
    }
}

/// A folder behind another one that is known.
pub open spec fn behind(folder: Seq<char>, tail: Seq<char>, windows: bool) -> Seq<Seq<char>> {
    if folder.len() == 0 {
        Seq::empty()
    } else {
        seq![joined(folder, tail, windows)]
    }
}

fn push_behind(folders: &mut Vec<String>, folder: &str, tail: &str, windows: bool)
    ensures
        texts(final(folders)@) == texts(old(folders)@) + behind(folder@, tail@, windows),
{
    let ghost before = folders@;
    if folder.unicode_len() > 0 {
        let path = join(folder, tail, windows);
        folders.push(path);
        assert(texts(folders@) =~= texts(before).push(path@));
    }
    assert(texts(folders@) =~= texts(before) + behind(folder@, tail@, windows));
}

/// The folders that plugins are put into by convention, whether they are there
/// or not. A text that is empty is a place that is not known.
pub fn standard_folders(windows: bool, common: &str, local: &str, home: &str) -> (folders: Vec<
    String,
>)
    ensures
        texts(folders@) == standard_folder_texts(windows, common@, local@, home@),
{
    let mut folders: Vec<String> = Vec::new();
    assert(texts(folders@) =~= Seq::empty());
    if windows {
        push_behind(&mut folders, common, "CLAP", true);
        push_behind(&mut folders, local, "Programs\\Common\\CLAP", true);
        push_behind(&mut folders, common, "VST3", true);
        push_behind(&mut folders, local, "Programs\\Common\\VST3", true);
    } else {
        proof {
            reveal_strlit("/usr/lib");
            reveal_strlit("/usr/local/lib");
        }
        push_behind(&mut folders, "/usr/lib", "clap", false);
        push_behind(&mut folders, "/usr/local/lib", "clap", false);
        push_behind(&mut folders, home, ".clap", false);
        push_behind(&mut folders, "/usr/lib", "vst3", false);
        push_behind(&mut folders, "/usr/local/lib", "vst3", false);
        push_behind(&mut folders, home, ".vst3", false);
    }
    assert(texts(folders@) =~= standard_folder_texts(windows, common@, local@, home@));
    folders
}

/// The paths that are marked.
pub open spec fn marked(paths: Seq<PathView>, marks: Seq<bool>) -> Seq<PathView>
    decreases paths.len(),
{
    if paths.len() == 0 {
        paths
    } else {
        let before = marked(paths.drop_last(), marks);
        if paths.len() <= marks.len() && marks[paths.len() - 1] {
            before.push(paths.last())
        } else {
            before
        }
    }
}

/// The folders out of a list that are there, given for each whether it is.
pub fn existing_standard_folders(folders: &Vec<PluginPath>, there: &Vec<bool>) -> (existing: Vec<
    PluginPath,
>)
    ensures
        path_views(existing@) == marked(path_views(folders@), there@),
{
    let ghost all = path_views(folders@);
    let mut existing: Vec<PluginPath> = Vec::new();
    let mut at: usize = 0;
    proof {
        assert(all.take(0) =~= Seq::empty());
        assert(path_views(existing@) =~= Seq::empty());
    }
    while at < folders.len()
        invariant
            all == path_views(folders@),
            at <= all.len(),
            path_views(existing@) == marked(all.take(at as int), there@),
        decreases all.len() - at,
    {
        let ghost before = existing@;
        assert(all.take(at + 1).drop_last() =~= all.take(at as int));
        if at < there.len() && there[at] {
            let folder = folders[at].duplicate();
            existing.push(folder);
            assert(path_views(existing@) =~= path_views(before).push(folder@));
        }
        at += 1;
    }
    assert(all.take(at as int) =~= all);
    existing
}

proof fn lemma_not_blocked(files: Seq<FileView>, blocked: Seq<PathView>, i: int)
    requires
        0 <= i < not_blocked(files, blocked).len(),
    ensures
        !has_path(blocked, not_blocked(files, blocked)[i].path),
    decreases files.len(),
{
    let before = not_blocked(files.drop_last(), blocked);
    if i < before.len() {
        lemma_not_blocked(files.drop_last(), blocked, i);
    }
}

/// Files without repeats are among the files, in strictly ascending order.
proof fn lemma_without_repeats(files: Seq<FileView>)
    requires
        is_ascending(files),
    ensures
        forall|i: int|
            0 <= i < without_repeats(files).len() ==> files.contains(
                #[trigger] without_repeats(files)[i],
            ),
        is_ascending(without_repeats(files)),
        forall|i: int, j: int|
            #![trigger without_repeats(files)[i], without_repeats(files)[j]]
            0 <= i < j < without_repeats(files).len() ==> !without_repeats(files)[i].path.is_same(
                without_repeats(files)[j].path,
            ),
        files.len() > 0 ==> without_repeats(files).len() > 0
            && without_repeats(files).last().path.is_same(files.last().path),
    decreases files.len(),
{
    if files.len() > 0 {
        let shorter = files.drop_last();
        let last = files.last();
        assert forall|i: int, j: int|
            #![trigger shorter[i], shorter[j]]
            0 <= i <= j < shorter.len() implies shorter[i].rank_le(shorter[j]) by {
            assert(files[i].rank_le(files[j]));
        }
        lemma_without_repeats(shorter);
        let before = without_repeats(shorter);
        let now = without_repeats(files);
        assert forall|i: int| 0 <= i < now.len() implies files.contains(#[trigger] now[i]) by {
            if i < before.len() {
                assert(shorter.contains(before[i]));
                let k = choose|k: int| 0 <= k < shorter.len() && shorter[k] == before[i];
                assert(files[k] == now[i]);
            } else {
                assert(files[files.len() - 1] == now[i]);
            }
        }
        assert forall|i: int| 0 <= i < before.len() implies (#[trigger] before[i]).rank_le(
            last,
        ) by {
            assert(shorter.contains(before[i]));
            let k = choose|k: int| 0 <= k < shorter.len() && shorter[k] == before[i];
            assert(files[k].rank_le(files[files.len() - 1]));
        }
        FileView::rank_total(last, last);
        assert forall|i: int, j: int|
            #![trigger now[i], now[j]]
            0 <= i <= j < now.len() implies now[i].rank_le(now[j]) by {
            if j < before.len() {
                assert(before[i].rank_le(before[j]));
            } else if i < before.len() {
                assert(before[i].rank_le(last));
            }
        }
        assert forall|i: int, j: int|
            #![trigger now[i], now[j]]
            0 <= i < j < now.len() implies !now[i].path.is_same(now[j].path) by {
            if j < before.len() {
                assert(!before[i].path.is_same(before[j].path));
            } else {
                let end = before.last();
                if now[i].path.is_same(last.path) && i < before.len() - 1 {
                    assert(before[i].rank_le(before[before.len() - 1]));
                    assert(before[before.len() - 1].rank_le(last));
                    assert(last.rank_le(now[i]));
                    FileView::rank_transitive(end, last, now[i]);
                    crate::paths::paths_of_a_rank_are_the_same(now[i].path, end.path);
                    assert(!before[i].path.is_same(before[before.len() - 1].path));
                }
            }
        }
    }
}

/// A scan is about files that are not blocked, each once, in the order of their
/// paths.
pub proof fn a_scan_opens_each_file_once(files: Seq<FileView>, blocked: Seq<PathView>)
    ensures
        is_ascending(scanned_files(files, blocked)),
        forall|i: int, j: int|
            #![trigger scanned_files(files, blocked)[i], scanned_files(files, blocked)[j]]
            0 <= i < j < scanned_files(files, blocked).len() ==> !scanned_files(
                files,
                blocked,
            )[i].path.is_same(scanned_files(files, blocked)[j].path),
        forall|i: int|
            0 <= i < scanned_files(files, blocked).len() ==> !has_path(
                blocked,
                (#[trigger] scanned_files(files, blocked)[i]).path,
            ),
{
    broadcast use vstd::seq_lib::group_to_multiset_ensures;

    let open = not_blocked(files, blocked);
    let sorted = stable_sorted(open);
    stable_sort_orders(open);
    lemma_without_repeats(sorted);
    let scanned = scanned_files(files, blocked);
    assert forall|i: int| 0 <= i < scanned.len() implies !has_path(
        blocked,
        (#[trigger] scanned[i]).path,
    ) by {
        assert(sorted.contains(scanned[i]));
        assert(sorted.to_multiset().count(scanned[i]) > 0);
        assert(open.contains(scanned[i]));
        let k = choose|k: int| 0 <= k < open.len() && open[k] == scanned[i];
        lemma_not_blocked(files, blocked, k);
    }
}

/// Whether a path is that of one of the files.
pub open spec fn is_listed(files: Seq<FileView>, path: PathView) -> bool {
    exists|i: int| 0 <= i < files.len() && (#[trigger] files[i]).path.is_same(path)
}

/// Whether a path is that of one of the files that are used again.
pub open spec fn is_reused(
    files: Seq<FileView>,
    previous: Seq<EntryView>,
    reuse: bool,
    path: PathView,
) -> bool {
    exists|i: int|
        0 <= i < files.len() && (#[trigger] files[i]).path.is_same(path) && kept_of(
            previous,
            files[i],
            reuse,
        ) is Some
}

/// What is not blocked is what is listed and not blocked.
proof fn lemma_open_files(files: Seq<FileView>, blocked: Seq<PathView>, file: FileView)
    ensures
        not_blocked(files, blocked).contains(file) <==> files.contains(file) && !has_path(
            blocked,
            file.path,
        ),
    decreases files.len(),
{
    if files.len() > 0 {
        let shorter = files.drop_last();
        let before = not_blocked(shorter, blocked);
        lemma_open_files(shorter, blocked, file);
        assert(files =~= shorter.push(files.last()));
        assert(files.contains(file) <==> shorter.contains(file) || files.last() == file) by {
            if shorter.contains(file) {
                let k = choose|k: int| 0 <= k < shorter.len() && shorter[k] == file;
                assert(files[k] == file);
            }
            assert(files[files.len() - 1] == files.last());
        }
        let pushed = before.push(files.last());
        assert(pushed.contains(file) <==> before.contains(file) || files.last() == file) by {
            if before.contains(file) {
                let k = choose|k: int| 0 <= k < before.len() && before[k] == file;
                assert(pushed[k] == file);
            }
            assert(pushed[before.len() as int] == files.last());
        }
    }
}

/// Dropping repeats drops no path.
proof fn lemma_repeats_drop_no_path(files: Seq<FileView>, i: int)
    requires
        0 <= i < files.len(),
    ensures
        is_listed(without_repeats(files), files[i].path),
    decreases files.len(),
{
    let shorter = files.drop_last();
    let before = without_repeats(shorter);
    let now = without_repeats(files);
    if i < shorter.len() {
        lemma_repeats_drop_no_path(shorter, i);
        let k = choose|k: int|
            0 <= k < before.len() && (#[trigger] before[k]).path.is_same(shorter[i].path);
        assert(now[k].path.is_same(files[i].path));
    } else {
        assert(now[now.len() - 1].path.is_same(files[i].path));
    }
}

/// A scan is about exactly the files that are listed and not blocked.
proof fn lemma_scanned_are_listed(files: Seq<FileView>, blocked: Seq<PathView>, path: PathView)
    ensures
        is_listed(scanned_files(files, blocked), path) <==> is_listed(files, path) && !has_path(
            blocked,
            path,
        ),
{
    broadcast use vstd::seq_lib::group_to_multiset_ensures;

    let open = not_blocked(files, blocked);
    let sorted = stable_sorted(open);
    let scanned = scanned_files(files, blocked);
    stable_sort_orders(open);
    lemma_without_repeats(sorted);
    if is_listed(scanned, path) {
        let k = choose|k: int| 0 <= k < scanned.len() && (#[trigger] scanned[k]).path.is_same(path);
        let file = scanned[k];
        assert(sorted.contains(file));
        assert(sorted.to_multiset().count(file) > 0);
        assert(open.contains(file));
        lemma_open_files(files, blocked, file);
        let i = choose|i: int| 0 <= i < files.len() && files[i] == file;
        assert(files[i].path.is_same(path));
        if has_path(blocked, path) {
            let b = choose|b: int| 0 <= b < blocked.len() && (#[trigger] blocked[b]).is_same(path);
            assert(blocked[b].is_same(file.path));
        }
    }
    if is_listed(files, path) && !has_path(blocked, path) {
        let i = choose|i: int| 0 <= i < files.len() && (#[trigger] files[i]).path.is_same(path);
        let file = files[i];
        if has_path(blocked, file.path) {
            let b = choose|b: int|
                0 <= b < blocked.len() && (#[trigger] blocked[b]).is_same(file.path);
            assert(blocked[b].is_same(path));
        }
        assert(files.contains(file));
        lemma_open_files(files, blocked, file);
        assert(open.to_multiset().count(file) > 0);
        assert(sorted.contains(file));
        let k = choose|k: int| 0 <= k < sorted.len() && sorted[k] == file;
        lemma_repeats_drop_no_path(sorted, k);
        let j = choose|j: int|
            0 <= j < scanned.len() && (#[trigger] scanned[j]).path.is_same(sorted[k].path);
        assert(scanned[j].path.is_same(path));
    }
}

/// What is opened is what is not used again, in the same order.
proof fn lemma_opened(files: Seq<FileView>, previous: Seq<EntryView>, reuse: bool)
    requires
        is_ascending(files),
        forall|i: int, j: int|
            #![trigger files[i], files[j]]
            0 <= i < j < files.len() ==> !files[i].path.is_same(files[j].path),
    ensures
        is_ascending(to_be_opened(files, previous, reuse)),
        forall|i: int, j: int|
            #![trigger to_be_opened(files, previous, reuse)[i], to_be_opened(
                files,
                previous,
                reuse,
            )[j]]
            0 <= i < j < to_be_opened(files, previous, reuse).len() ==> !to_be_opened(
                files,
                previous,
                reuse,
            )[i].is_same(to_be_opened(files, previous, reuse)[j]),
        forall|i: int|
            0 <= i < to_be_opened(files, previous, reuse).len() ==> exists|k: int|
                0 <= k < files.len() && (#[trigger] files[k]).path == (#[trigger] to_be_opened(
                    files,
                    previous,
                    reuse,
                )[i]) && kept_of(previous, files[k], reuse) is None,
        forall|k: int|
            0 <= k < files.len() && kept_of(previous, #[trigger] files[k], reuse) is None
                ==> to_be_opened(files, previous, reuse).contains(files[k].path),
    decreases files.len(),
{
    if files.len() > 0 {
        let shorter = files.drop_last();
        let last = files.last();
        let before = to_be_opened(shorter, previous, reuse);
        let now = to_be_opened(files, previous, reuse);
        assert forall|i: int, j: int|
            #![trigger shorter[i], shorter[j]]
            0 <= i <= j < shorter.len() implies shorter[i].rank_le(shorter[j]) by {
            assert(files[i].rank_le(files[j]));
        }
        assert forall|i: int, j: int|
            #![trigger shorter[i], shorter[j]]
            0 <= i < j < shorter.len() implies !shorter[i].path.is_same(shorter[j].path) by {
            assert(!files[i].path.is_same(files[j].path));
        }
        lemma_opened(shorter, previous, reuse);
        assert forall|i: int| 0 <= i < before.len() implies (#[trigger] before[i]).rank_le(
            last.path,
        ) && !before[i].is_same(last.path) && exists|k: int|
            0 <= k < files.len() && (#[trigger] files[k]).path == before[i] && kept_of(
                previous,
                files[k],
                reuse,
            ) is None by {
            let k = choose|k: int|
                0 <= k < shorter.len() && (#[trigger] shorter[k]).path == before[i] && kept_of(
                    previous,
                    shorter[k],
                    reuse,
                ) is None;
            assert(files[k] == shorter[k]);
            assert(files[k].rank_le(files[files.len() - 1]));
            assert(!files[k].path.is_same(files[files.len() - 1].path));
        }
        PathView::rank_total(last.path, last.path);
        assert forall|i: int| 0 <= i < now.len() implies exists|k: int|
            0 <= k < files.len() && (#[trigger] files[k]).path == (#[trigger] now[i]) && kept_of(
                previous,
                files[k],
                reuse,
            ) is None by {
            if i < before.len() {
                assert(now[i] == before[i]);
            } else {
                assert(files[files.len() - 1].path == now[i]);
            }
        }
        assert forall|i: int, j: int|
            #![trigger now[i], now[j]]
            0 <= i <= j < now.len() implies now[i].rank_le(now[j]) by {
            if j < before.len() {
                assert(before[i].rank_le(before[j]));
            } else if i < before.len() {
                assert(before[i].rank_le(last.path));
            }
        }
        assert forall|i: int, j: int|
            #![trigger now[i], now[j]]
            0 <= i < j < now.len() implies !now[i].is_same(now[j]) by {
            if j < before.len() {
                assert(!before[i].is_same(before[j]));
            } else {
                assert(!before[i].is_same(last.path));
            }
        }
        assert forall|k: int|
            0 <= k < files.len() && kept_of(previous, #[trigger] files[k], reuse) is None implies
            now.contains(files[k].path) by {
            if k < shorter.len() {
                assert(shorter[k] == files[k]);
                assert(before.contains(shorter[k].path));
                let m = choose|m: int| 0 <= m < before.len() && before[m] == shorter[k].path;
                assert(now[m] == files[k].path);
            } else {
                assert(now[before.len() as int] == files[k].path);
            }
        }
    }
}

/// Every file that is listed and not blocked is either opened or used again, and
/// no other is. The files are opened in strictly ascending order of their paths:
/// the queue is taken from its end.
pub proof fn a_scan_misses_no_file(
    library: LibraryView,
    files: Seq<FileView>,
    reuse: bool,
    path: PathView,
)
    ensures
        ({
            let previous = all_under(library.plugins, library.folders);
            let scanned = scanned_files(files, library.blocked);
            let queue = begun(library, files, reuse).1.queue;
            let again = is_reused(scanned, previous, reuse, path);
            &&& has_path(queue, path) || again <==> is_listed(files, path) && !has_path(
                library.blocked,
                path,
            )
            &&& !(has_path(queue, path) && again)
            &&& is_ascending(queue.reverse())
            &&& forall|i: int, j: int|
                #![trigger queue[i], queue[j]]
                0 <= i < j < queue.len() ==> !queue[i].is_same(queue[j])
        }),
{
    let previous = all_under(library.plugins, library.folders);
    let scanned = scanned_files(files, library.blocked);
    let open = to_be_opened(scanned, previous, reuse);
    let queue = begun(library, files, reuse).1.queue;
    a_scan_opens_each_file_once(files, library.blocked);
    lemma_opened(scanned, previous, reuse);
    lemma_scanned_are_listed(files, library.blocked, path);
    assert(queue.reverse() =~= open);
    assert forall|i: int, j: int|
        #![trigger queue[i], queue[j]]
        0 <= i < j < queue.len() implies !queue[i].is_same(queue[j]) by {
        assert(!open[queue.len() - 1 - j].is_same(open[queue.len() - 1 - i]));
    }
    if has_path(queue, path) {
        let q = choose|q: int| 0 <= q < queue.len() && (#[trigger] queue[q]).is_same(path);
        let o = queue.len() - 1 - q;
        assert(open[o] == queue[q]);
        let k = choose|k: int|
            0 <= k < scanned.len() && (#[trigger] scanned[k]).path == open[o] && kept_of(
                previous,
                scanned[k],
                reuse,
            ) is None;
        assert(scanned[k].path.is_same(path));
        assert(is_listed(scanned, path));
        if is_reused(scanned, previous, reuse, path) {
            let r = choose|r: int|
                0 <= r < scanned.len() && (#[trigger] scanned[r]).path.is_same(path) && kept_of(
                    previous,
                    scanned[r],
                    reuse,
                ) is Some;
            if r < k {
                assert(!scanned[r].path.is_same(scanned[k].path));
            } else if k < r {
                assert(!scanned[k].path.is_same(scanned[r].path));
            }
        }
    }
    if is_reused(scanned, previous, reuse, path) {
        let r = choose|r: int|
            0 <= r < scanned.len() && (#[trigger] scanned[r]).path.is_same(path) && kept_of(
                previous,
                scanned[r],
                reuse,
            ) is Some;
        assert(scanned[r].path.is_same(path));
        assert(is_listed(scanned, path));
    }
    if is_listed(scanned, path) {
        let k = choose|k: int| 0 <= k < scanned.len() && (#[trigger] scanned[k]).path.is_same(path);
        if kept_of(previous, scanned[k], reuse) is None {
            assert(open.contains(scanned[k].path));
            let o = choose|o: int| 0 <= o < open.len() && open[o] == scanned[k].path;
            assert(queue[queue.len() - 1 - o].is_same(path));
        }
    }
}

impl ScanView {
    /// After steps, with the list before them. What came of opening the files is
    /// given.
    pub open spec fn after_steps(self, library: LibraryView, openings: Seq<OpenedView>) -> (
        ScanView,
        LibraryView,
    )
        decreases openings.len(),
    {
        if openings.len() == 0 {
            (self, library)
        } else {
            let before = self.after_steps(library, openings.drop_last());
            before.0.stepped(before.1, openings.last())
        }
    }
}

/// Whatever comes of opening them, the files are taken off the queue one by one,
/// from its end.
pub proof fn steps_take_the_queue_in_order(
    scan: ScanView,
    library: LibraryView,
    openings: Seq<OpenedView>,
)
    requires
        openings.len() <= scan.queue.len(),
    ensures
        scan.after_steps(library, openings).0.queue == scan.queue.take(
            scan.queue.len() - openings.len(),
        ),
    decreases openings.len(),
{
    if openings.len() > 0 {
        let shorter = openings.drop_last();
        steps_take_the_queue_in_order(scan, library, shorter);
        let before = scan.after_steps(library, shorter);
        every_step_takes_one_file(before.0, before.1, openings.last());
    }
    assert(scan.after_steps(library, openings).0.queue =~= scan.queue.take(
        scan.queue.len() - openings.len(),
    ));
}

/// A file is either used again with everything that it had, all of it with its
/// stamp, or opened.
pub proof fn reuse_is_all_or_nothing(
    previous: Seq<EntryView>,
    path: PathView,
    stamp: Option<Stamp>,
)
    ensures
        match reusable_of(previous, path, stamp) {
            Some(kept) => {
                &&& kept == at_path(previous, path)
                &&& kept.len() > 0
                &&& stamp is Some
                &&& all_stamped(kept, stamp->0)
            },
            None => stamp is None || at_path(previous, path).len() == 0 || !all_stamped(
                at_path(previous, path),
                stamp->0,
            ),
        },
{
}

/// A full scan, and one of a list from another version of the scanner, uses
/// nothing again.
pub proof fn a_full_scan_opens_everything(files: Seq<FileView>, previous: Seq<EntryView>)
    ensures
        to_be_opened(files, previous, false).len() == files.len(),
        forall|i: int|
            0 <= i < files.len() ==> (#[trigger] to_be_opened(files, previous, false)[i])
                == files[i].path,
    decreases files.len(),
{
    if files.len() > 0 {
        let shorter = files.drop_last();
        a_full_scan_opens_everything(shorter, previous);
        let before = to_be_opened(shorter, previous, false);
        assert forall|i: int| 0 <= i < files.len() implies (#[trigger] to_be_opened(
            files,
            previous,
            false,
        )[i]) == files[i].path by {
            if i < before.len() {
                assert(before[i] == shorter[i].path);
            }
        }
    }
}

/// Every step takes one file off the queue, so a scan ends; and what was to be
/// opened stays what it was.
pub proof fn every_step_takes_one_file(scan: ScanView, library: LibraryView, opened: OpenedView)
    requires
        scan.queue.len() > 0,
    ensures
        scan.stepped(library, opened).0.queue == scan.queue.drop_last(),
        scan.stepped(library, opened).0.total == scan.total,
        scan.stepped(library, opened).0.favorites == scan.favorites,
        scan.stepped(library, opened).1.folders == library.folders,
{
}

/// A file that crashed is blocked, and counted as crashed only where it was not
/// blocked before.
pub proof fn a_crashed_file_is_blocked(
    scan: ScanView,
    library: LibraryView,
    kind: PluginKind,
    stamp: Option<Stamp>,
    problem: Seq<char>,
)
    requires
        scan.queue.len() > 0,
    ensures
        ({
            let opened = OpenedView {
                kind: Some(kind),
                stamp,
                outcome: OutcomeView::Crashed { problem, block: true },
            };
            let (after, listed) = scan.stepped(library, opened);
            &&& has_path(listed.blocked, scan.queue.last())
            &&& listed.plugins == library.plugins
            &&& after.crashed == scan.crashed + (if has_path(
                library.blocked,
                scan.queue.last(),
            ) {
                0int
            } else {
                1
            })
        }),
{
    let path = scan.queue.last();
    if !has_path(library.blocked, path) {
        let blocked = library.blocked.push(path);
        assert(blocked[library.blocked.len() as int].is_same(path));
    }
}

proof fn lemma_entries_stay_distinct(plugins: Seq<EntryView>, entries: Seq<EntryView>)
    requires
        all_distinct(plugins),
    ensures
        all_distinct(with_entries(plugins, entries)),
    decreases entries.len(),
{
    if entries.len() > 0 {
        lemma_entries_stay_distinct(plugins, entries.drop_last());
        inserting_keeps_plugins_distinct(
            with_entries(plugins, entries.drop_last()),
            entries.last(),
        );
    }
}

/// Each plugin that is kept stood in the list, in the same order.
proof fn lemma_kept_is_in_order(plugins: Seq<EntryView>, folder: PathView)
    requires
        all_distinct(plugins),
    ensures
        all_distinct(under(plugins, folder, false)),
        forall|i: int|
            0 <= i < under(plugins, folder, false).len() ==> plugins.contains(
                #[trigger] under(plugins, folder, false)[i],
            ),
    decreases plugins.len(),
{
    if plugins.len() > 0 {
        let shorter = plugins.drop_last();
        assert forall|i: int, j: int|
            #![trigger shorter[i], shorter[j]]
            0 <= i < j < shorter.len() implies !shorter[i].stands_for(
            shorter[j].path,
            shorter[j].id,
        ) by {
            assert(!plugins[i].stands_for(plugins[j].path, plugins[j].id));
        }
        lemma_kept_is_in_order(shorter, folder);
        let before = under(shorter, folder, false);
        let now = under(plugins, folder, false);
        assert forall|i: int| 0 <= i < now.len() implies plugins.contains(#[trigger] now[i]) by {
            if i < before.len() {
                assert(shorter.contains(before[i]));
                let k = choose|k: int| 0 <= k < shorter.len() && shorter[k] == before[i];
                assert(plugins[k] == now[i]);
            } else {
                assert(plugins[plugins.len() - 1] == now[i]);
            }
        }
        assert forall|i: int, j: int|
            #![trigger now[i], now[j]]
            0 <= i < j < now.len() implies !now[i].stands_for(now[j].path, now[j].id) by {
            if j < before.len() {
                assert(!before[i].stands_for(before[j].path, before[j].id));
            } else {
                assert(shorter.contains(before[i]));
                let k = choose|k: int| 0 <= k < shorter.len() && shorter[k] == before[i];
                assert(!plugins[k].stands_for(
                    plugins[plugins.len() - 1].path,
                    plugins[plugins.len() - 1].id,
                ));
            }
        }
    }
}

proof fn lemma_none_under_is_distinct(plugins: Seq<EntryView>, folders: Seq<PathView>)
    requires
        all_distinct(plugins),
    ensures
        all_distinct(none_under(plugins, folders)),
    decreases folders.len(),
{
    if folders.len() > 0 {
        lemma_none_under_is_distinct(plugins, folders.drop_last());
        lemma_kept_is_in_order(none_under(plugins, folders.drop_last()), folders.last());
    }
}

proof fn lemma_with_kept_is_distinct(
    plugins: Seq<EntryView>,
    files: Seq<FileView>,
    previous: Seq<EntryView>,
    reuse: bool,
)
    requires
        all_distinct(plugins),
    ensures
        all_distinct(with_kept(plugins, files, previous, reuse)),
    decreases files.len(),
{
    if files.len() > 0 {
        lemma_with_kept_is_distinct(plugins, files.drop_last(), previous, reuse);
        match kept_of(previous, files.last(), reuse) {
            Some(entries) => {
                lemma_entries_stay_distinct(
                    with_kept(plugins, files.drop_last(), previous, reuse),
                    entries,
                );
            },
            None => {},
        }
    }
}

/// Beginning a scan leaves no plugin in the list twice.
pub proof fn beginning_keeps_plugins_distinct(
    library: LibraryView,
    files: Seq<FileView>,
    reuse: bool,
)
    requires
        all_distinct(library.plugins),
    ensures
        all_distinct(begun(library, files, reuse).0.plugins),
{
    lemma_none_under_is_distinct(library.plugins, library.folders);
    lemma_with_kept_is_distinct(
        none_under(library.plugins, library.folders),
        scanned_files(files, library.blocked),
        all_under(library.plugins, library.folders),
        reuse,
    );
}

/// Neither does a step of it.
pub proof fn stepping_keeps_plugins_distinct(
    scan: ScanView,
    library: LibraryView,
    opened: OpenedView,
)
    requires
        all_distinct(library.plugins),
    ensures
        all_distinct(scan.stepped(library, opened).1.plugins),
{
    if scan.queue.len() > 0 && opened.kind is Some {
        let popped = ScanView { queue: scan.queue.drop_last(), ..scan };
        let path = scan.queue.last();
        let kind = opened.kind->0;
        match opened.outcome {
            OutcomeView::Found(found) => {
                lemma_entries_stay_distinct(
                    library.plugins,
                    popped.entries_for(found, path, kind, opened.stamp),
                );
            },
            OutcomeView::NotSpawned { detail, retried } => {
                match retried {
                    Ok(found) => {
                        lemma_entries_stay_distinct(
                            library.plugins,
                            popped.entries_for(found, path, kind, opened.stamp),
                        );
                    },
                    Err(_) => {},
                }
            },
            _ => {},
        }
    }
}

proof fn lemma_starred(entries: Seq<EntryView>, i: int)
    requires
        0 <= i < entries.len(),
        entries[i].favorite,
    ensures
        starred(entries).contains(entries[i]),
    decreases entries.len(),
{
    let shorter = entries.drop_last();
    let before = starred(shorter);
    let now = starred(entries);
    if i < shorter.len() {
        lemma_starred(shorter, i);
        let k = choose|k: int| 0 <= k < before.len() && before[k] == shorter[i];
        assert(now[k] == entries[i]);
    } else {
        assert(now[before.len() as int] == entries[i]);
    }
}

/// A plugin that had a star has it again when its file is opened in the scan.
pub proof fn a_star_survives_a_scan(
    library: LibraryView,
    files: Seq<FileView>,
    reuse: bool,
    i: int,
    found: FoundView,
    path: PathView,
    kind: PluginKind,
    stamp: Option<Stamp>,
)
    requires
        0 <= i < all_under(library.plugins, library.folders).len(),
        all_under(library.plugins, library.folders)[i].favorite,
        all_under(library.plugins, library.folders)[i].stands_for(path, found.id),
    ensures
        begun(library, files, reuse).1.entry_for(found, path, kind, stamp).favorite,
{
    let previous = all_under(library.plugins, library.folders);
    lemma_starred(previous, i);
    let stars = starred(previous);
    let k = choose|k: int| 0 <= k < stars.len() && stars[k] == previous[i];
    assert(identities(stars)[k].0.is_same(path));
}

} // verus!
