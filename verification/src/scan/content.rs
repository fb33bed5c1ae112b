//! What a scan does to the list, plugin by plugin.

use crate::library::{
    all_distinct, are_places, lemma_first_place, lemma_places_under, place_of, under,
    with_entries, with_entry, Entry, EntryView, Library, LibraryView, Stamp, SCANNER_VERSION,
};
use crate::paths::{has_path, joined, path_views, PathView, PluginPath};
use crate::project::PluginKind;
use crate::scan::{
    a_full_scan_opens_everything, a_scan_opens_each_file_once, all_under, at_path, begun,
    found_views, kept_of, marked, none_under, scanned_files, standard_folder_texts, with_kept,
    FileView, FoundPlugin, Opened, Outcome, ScanView,
};
use vstd::prelude::*;

verus! {

/// Where entries of different plugins stand after they were put into a list.
/// Those that were there stay in their places and keep their stars.
proof fn lemma_entries_land(plugins: Seq<EntryView>, entries: Seq<EntryView>) -> (places: Seq<int>)
    requires
        all_distinct(entries),
    ensures
        places.len() == entries.len(),
        plugins.len() <= with_entries(plugins, entries).len(),
        forall|i: int|
            0 <= i < entries.len() ==> {
                &&& 0 <= #[trigger] places[i] < with_entries(plugins, entries).len()
                &&& with_entries(plugins, entries)[places[i]] == (EntryView {
                    favorite: if places[i] < plugins.len() {
                        plugins[places[i]].favorite
                    } else {
                        entries[i].favorite
                    },
                    ..entries[i]
                })
                &&& places[i] < plugins.len() ==> plugins[places[i]].stands_for(
                    entries[i].path,
                    entries[i].id,
                )
                &&& places[i] >= plugins.len() ==> forall|j: int|
                    0 <= j < plugins.len() ==> !(#[trigger] plugins[j]).stands_for(
                        entries[i].path,
                        entries[i].id,
                    )
            },
        forall|j: int|
            0 <= j < plugins.len() && !places.contains(j) ==> #[trigger] with_entries(
                plugins,
                entries,
            )[j] == plugins[j],
        forall|j: int|
            plugins.len() <= j < with_entries(plugins, entries).len() ==> #[trigger] places.contains(
                j,
            ),
    decreases entries.len(),
{
    if entries.len() == 0 {
        Seq::empty()
    } else {
        let shorter = entries.drop_last();
        let last = entries.last();
        assert forall|i: int, j: int|
            #![trigger shorter[i], shorter[j]]
            0 <= i < j < shorter.len() implies !shorter[i].stands_for(
            shorter[j].path,
            shorter[j].id,
        ) by {
            assert(!entries[i].stands_for(entries[j].path, entries[j].id));
        }
        let first = lemma_entries_land(plugins, shorter);
        let before = with_entries(plugins, shorter);
        let after = with_entries(plugins, entries);
        let at = place_of(before, last.path, last.id);
        lemma_first_place(before, last.path, last.id, 0);
        let places = first.push(at);
        assert(after == with_entry(before, last));
        assert forall|i: int| 0 <= i < shorter.len() implies #[trigger] first[i] != at by {
            assert(!entries[i].stands_for(entries[entries.len() - 1].path, last.id));
            assert(before[first[i]].path == shorter[i].path);
        }
        // What stood in the list stands for what it stood for.
        assert forall|j: int| 0 <= j < plugins.len() implies (
        #[trigger] before[j]).stands_for(last.path, last.id) == plugins[j].stands_for(
            last.path,
            last.id,
        ) by {
            if first.contains(j) {
                let i = choose|i: int| 0 <= i < first.len() && first[i] == j;
                assert(plugins[first[i]].stands_for(shorter[i].path, shorter[i].id));
                assert(before[first[i]].path == shorter[i].path);
            }
        }
        assert forall|i: int| 0 <= i < entries.len() implies {
            &&& 0 <= #[trigger] places[i] < after.len()
            &&& after[places[i]] == (EntryView {
                favorite: if places[i] < plugins.len() {
                    plugins[places[i]].favorite
                } else {
                    entries[i].favorite
                },
                ..entries[i]
            })
            &&& places[i] < plugins.len() ==> plugins[places[i]].stands_for(
                entries[i].path,
                entries[i].id,
            )
            &&& places[i] >= plugins.len() ==> forall|j: int|
                0 <= j < plugins.len() ==> !(#[trigger] plugins[j]).stands_for(
                    entries[i].path,
                    entries[i].id,
                )
        } by {
            if i < shorter.len() {
                assert(places[i] == first[i]);
                assert(after[first[i]] == before[first[i]]);
            } else {
                if at < plugins.len() {
                    assert(before[at].stands_for(last.path, last.id));
                    if first.contains(at) {
                        let k = choose|k: int| 0 <= k < first.len() && first[k] == at;
                        assert(first[k] != at);
                    }
                    assert(before[at] == plugins[at]);
                } else {
                    assert forall|j: int| 0 <= j < plugins.len() implies !(
                    #[trigger] plugins[j]).stands_for(last.path, last.id) by {
                        assert(!before[j].stands_for(last.path, last.id));
                    }
                    if at < before.len() {
                        assert(before[at].stands_for(last.path, last.id));
                        assert(first.contains(at));
                        let k = choose|k: int| 0 <= k < first.len() && first[k] == at;
                        assert(first[k] != at);
                    }
                }
            }
        }
        assert forall|j: int| 0 <= j < plugins.len() && !places.contains(j) implies (
        #[trigger] after[j]) == plugins[j] by {
            if first.contains(j) {
                let k = choose|k: int| 0 <= k < first.len() && first[k] == j;
                assert(places[k] == j);
            }
            assert(places[first.len() as int] == at);
            assert(before[j] == plugins[j]);
        }
        assert forall|j: int|
            plugins.len() <= j < after.len() implies #[trigger] places.contains(j) by {
            if j < before.len() && j != at {
                assert(before[j] == after[j]);
                assert(first.contains(j));
                let k = choose|k: int| 0 <= k < first.len() && first[k] == j;
                assert(places[k] == j);
            } else {
                assert(places[first.len() as int] == j);
            }
        }
        places
    }
}

/// Whether an entry says what was found of a plugin in a file.
pub open spec fn says_what_was_found(
    entry: Entry,
    found: FoundPlugin,
    path: PluginPath,
    kind: PluginKind,
    stamp: Option<Stamp>,
) -> bool {
    &&& entry.kind == kind
    &&& entry.path.text@ == path.text@
    &&& entry.path@.is_same(path@)
    &&& entry.id@ == found.id@
    &&& entry.name@ == found.name@
    &&& entry.vendor@ == found.vendor@
    &&& entry.version@ == found.version@
    &&& entry.role == found.role
    &&& entry.stamp == stamp
}

/// Whether these plugins were found in a file that was opened.
pub open spec fn has_found(opened: Opened, found: Seq<FoundPlugin>) -> bool {
    match opened.outcome {
        Outcome::Found(plugins) => plugins@ == found,
        Outcome::NotSpawned { detail, retried: Ok(plugins) } => plugins@ == found,
        _ => false,
    }
}

/// After a file was opened, every plugin that was found in it stands in the list
/// under the file's path and its id, with its name, vendor, version and role and
/// with the file's format and stamp. One that was listed keeps its star; another
/// one has a star if it had one when the scan began. All other entries are left
/// as they were, and none is new. The places of the plugins are returned.
pub proof fn a_found_plugin_is_listed(
    scan: ScanView,
    library: Library,
    after: ScanView,
    listed: Library,
    path: PluginPath,
    opened: Opened,
    kind: PluginKind,
    found: Seq<FoundPlugin>,
) -> (places: Seq<int>)
    requires
        (after, listed@) == scan.stepped(library@, opened@),
        scan.queue.len() > 0,
        scan.queue.last() == path@,
        opened.kind == Some(kind),
        has_found(opened, found),
        forall|i: int, j: int|
            #![trigger found[i], found[j]]
            0 <= i < j < found.len() ==> found[i].id@ != found[j].id@,
    ensures
        places.len() == found.len(),
        library.plugins@.len() <= listed.plugins@.len(),
        forall|i: int|
            0 <= i < found.len() ==> {
                &&& 0 <= #[trigger] places[i] < listed.plugins@.len()
                &&& says_what_was_found(
                    listed.plugins@[places[i]],
                    found[i],
                    path,
                    kind,
                    opened.stamp,
                )
                &&& places[i] < library.plugins@.len() ==> {
                    &&& library.plugins@[places[i]].path@.is_same(path@)
                    &&& library.plugins@[places[i]].id@ == found[i].id@
                    &&& listed.plugins@[places[i]].favorite
                        == library.plugins@[places[i]].favorite
                }
                &&& places[i] >= library.plugins@.len() ==> (
                listed.plugins@[places[i]].favorite <==> exists|k: int|
                    0 <= k < scan.favorites.len() && (#[trigger] scan.favorites[k]).0.is_same(
                        path@,
                    ) && scan.favorites[k].1 == found[i].id@)
            },
        forall|j: int|
            0 <= j < library.plugins@.len() && !places.contains(j) ==> (
            #[trigger] listed.plugins@[j])@ == library.plugins@[j]@,
        forall|j: int|
            library.plugins@.len() <= j < listed.plugins@.len() ==> #[trigger] places.contains(j),
        path_views(listed.folders@) == path_views(library.folders@),
        path_views(listed.blocked@) == path_views(library.blocked@),
        listed.scanner == library.scanner,
        listed.isolate == library.isolate,
        after.queue == scan.queue.drop_last(),
        after.crashed == scan.crashed,
        opened.outcome is Found ==> after.problems == scan.problems,
{
    let popped = ScanView { queue: scan.queue.drop_last(), ..scan };
    let views = found_views(found);
    let entries = popped.entries_for(views, path@, kind, opened.stamp);
    assert forall|i: int, j: int|
        #![trigger entries[i], entries[j]]
        0 <= i < j < entries.len() implies !entries[i].stands_for(
        entries[j].path,
        entries[j].id,
    ) by {
        assert(found[i].id@ != found[j].id@);
    }
    let places = lemma_entries_land(library@.plugins, entries);
    let now = with_entries(library@.plugins, entries);
    assert(listed@ == library@.with_plugins(now));
    assert(listed@.plugins.len() == listed.plugins@.len());
    assert(library@.plugins.len() == library.plugins@.len());
    assert(listed@.folders == library@.folders && listed@.blocked == library@.blocked);
    assert(listed@.scanner == library@.scanner && listed@.isolate == library@.isolate);
    assert forall|i: int| 0 <= i < found.len() implies {
        &&& 0 <= #[trigger] places[i] < listed.plugins@.len()
        &&& says_what_was_found(listed.plugins@[places[i]], found[i], path, kind, opened.stamp)
        &&& places[i] < library.plugins@.len() ==> {
            &&& library.plugins@[places[i]].path@.is_same(path@)
            &&& library.plugins@[places[i]].id@ == found[i].id@
            &&& listed.plugins@[places[i]].favorite == library.plugins@[places[i]].favorite
        }
        &&& places[i] >= library.plugins@.len() ==> (
        listed.plugins@[places[i]].favorite <==> exists|k: int|
            0 <= k < scan.favorites.len() && (#[trigger] scan.favorites[k]).0.is_same(path@)
                && scan.favorites[k].1 == found[i].id@)
    } by {
        assert(listed.plugins@[places[i]]@ == now[places[i]]);
        assert(entries[i] == popped.entry_for(views[i], path@, kind, opened.stamp));
        if places[i] < library.plugins@.len() {
            assert(library@.plugins[places[i]] == library.plugins@[places[i]]@);
        }
    }
    assert forall|j: int| 0 <= j < library.plugins@.len() && !places.contains(j) implies (
    #[trigger] listed.plugins@[j])@ == library.plugins@[j]@ by {
        assert(now[j] == library@.plugins[j]);
    }
    places
}

/// A file that could not be read leaves the list as it is but for the blocked
/// files, and what went wrong is told last, behind the file's path.
pub proof fn an_unread_file_is_told(
    scan: ScanView,
    library: LibraryView,
    after: ScanView,
    listed: LibraryView,
    path: PathView,
    opened: Opened,
    why: Seq<char>,
)
    requires
        (after, listed) == scan.stepped(library, opened@),
        scan.queue.len() > 0,
        scan.queue.last() == path,
        opened.kind is Some,
        match opened.outcome {
            Outcome::Found(_) => false,
            Outcome::Failed(problem) => problem@ == why,
            Outcome::Crashed { problem, block } => problem@ == why,
            Outcome::NotSpawned { detail, retried } => retried matches Err(problem) && problem@
                == why,
        },
    ensures
        after.problems.last() == path.text + ": "@ + why,
        after.problems.len() > scan.problems.len(),
        after.problems.take(scan.problems.len() as int) == scan.problems,
        !(opened.outcome is NotSpawned) ==> after.problems.len() == scan.problems.len() + 1,
        opened.outcome is NotSpawned && (scan.crashed > 0 || scan.problems.len() > 0)
            ==> after.problems.len() == scan.problems.len() + 1,
        after.queue == scan.queue.drop_last(),
        listed.plugins == library.plugins,
        listed.folders == library.folders,
        (opened.outcome matches Outcome::Crashed { problem, block } && block && !has_path(
            library.blocked,
            path,
        )) ==> listed.blocked == library.blocked.push(path) && after.crashed == scan.crashed + 1,
        !(opened.outcome matches Outcome::Crashed { problem, block } && block && !has_path(
            library.blocked,
            path,
        )) ==> listed.blocked == library.blocked && after.crashed == scan.crashed,
{
    assert(after.problems.take(scan.problems.len() as int) =~= scan.problems);
}

/// A file that is no plugin is passed over.
pub proof fn a_file_of_another_kind_is_passed_over(
    scan: ScanView,
    library: LibraryView,
    opened: Opened,
)
    requires
        opened.kind is None,
        scan.queue.len() > 0,
    ensures
        scan.stepped(library, opened@).1 == library,
        scan.stepped(library, opened@).0.queue == scan.queue.drop_last(),
        scan.stepped(library, opened@).0.problems == scan.problems,
        scan.stepped(library, opened@).0.crashed == scan.crashed,
{
}

/// Whether a path lies in one of the folders.
pub open spec fn lies_in_some(folders: Seq<PathView>, path: PathView) -> bool {
    exists|f: int| 0 <= f < folders.len() && path.lies_under(#[trigger] folders[f])
}

proof fn lemma_members_under(
    plugins: Seq<EntryView>,
    folder: PathView,
    inside: bool,
    entry: EntryView,
)
    ensures
        under(plugins, folder, inside).contains(entry) <==> plugins.contains(entry)
            && entry.path.lies_under(folder) == inside,
{
    let places = lemma_places_under(plugins, folder, inside);
    let taken = under(plugins, folder, inside);
    if taken.contains(entry) {
        let k = choose|k: int| 0 <= k < taken.len() && taken[k] == entry;
        assert(plugins[places[k]] == entry);
        assert(places.contains(places[k]));
    }
    if plugins.contains(entry) && entry.path.lies_under(folder) == inside {
        let i = choose|i: int| 0 <= i < plugins.len() && plugins[i] == entry;
        assert(places.contains(i));
        let k = choose|k: int| 0 <= k < places.len() && places[k] == i;
        assert(taken[k] == plugins[places[k]]);
    }
}

proof fn lemma_members_in_folders(
    plugins: Seq<EntryView>,
    folders: Seq<PathView>,
    entry: EntryView,
)
    ensures
        none_under(plugins, folders).contains(entry) <==> plugins.contains(entry) && !lies_in_some(
            folders,
            entry.path,
        ),
        all_under(plugins, folders).contains(entry) <==> plugins.contains(entry) && lies_in_some(
            folders,
            entry.path,
        ),
    decreases folders.len(),
{
    if folders.len() > 0 {
        let shorter = folders.drop_last();
        let last = folders.last();
        lemma_members_in_folders(plugins, shorter, entry);
        let rest = none_under(plugins, shorter);
        lemma_members_under(rest, last, true, entry);
        lemma_members_under(rest, last, false, entry);
        let first = all_under(plugins, shorter);
        let more = under(rest, last, true);
        let all = all_under(plugins, folders);
        assert(all =~= first + more);
        if all.contains(entry) {
            let k = choose|k: int| 0 <= k < all.len() && all[k] == entry;
            if k < first.len() {
                assert(first[k] == entry);
            } else {
                assert(more[k - first.len()] == entry);
            }
        }
        if first.contains(entry) {
            let k = choose|k: int| 0 <= k < first.len() && first[k] == entry;
            assert(all[k] == entry);
        }
        if more.contains(entry) {
            let k = choose|k: int| 0 <= k < more.len() && more[k] == entry;
            assert(all[first.len() + k] == entry);
        }
        if lies_in_some(shorter, entry.path) {
            let f = choose|f: int|
                0 <= f < shorter.len() && entry.path.lies_under(#[trigger] shorter[f]);
            assert(entry.path.lies_under(folders[f]));
        }
        if entry.path.lies_under(last) {
            assert(entry.path.lies_under(folders[folders.len() - 1]));
        }
        if lies_in_some(folders, entry.path) && !entry.path.lies_under(last) {
            let f = choose|f: int|
                0 <= f < folders.len() && entry.path.lies_under(#[trigger] folders[f]);
            assert(entry.path.lies_under(shorter[f]));
        }
    }
}

proof fn lemma_members_at_path(entries: Seq<EntryView>, path: PathView, entry: EntryView)
    ensures
        at_path(entries, path).contains(entry) <==> entries.contains(entry) && entry.path.is_same(
            path,
        ),
    decreases entries.len(),
{
    if entries.len() > 0 {
        let shorter = entries.drop_last();
        lemma_members_at_path(shorter, path, entry);
        let before = at_path(shorter, path);
        let now = at_path(entries, path);
        assert(entries =~= shorter.push(entries.last()));
        if now.contains(entry) {
            let k = choose|k: int| 0 <= k < now.len() && now[k] == entry;
            if k < before.len() {
                assert(before[k] == entry);
                let i = choose|i: int| 0 <= i < shorter.len() && shorter[i] == entry;
                assert(entries[i] == entry);
            } else {
                assert(entries[entries.len() - 1] == entry);
            }
        }
        if entries.contains(entry) && entry.path.is_same(path) {
            let i = choose|i: int| 0 <= i < entries.len() && entries[i] == entry;
            if i < shorter.len() {
                assert(shorter[i] == entry);
                let k = choose|k: int| 0 <= k < before.len() && before[k] == entry;
                assert(now[k] == entry);
            } else {
                assert(now[before.len() as int] == entry);
            }
        }
    }
}

proof fn lemma_at_path_is_distinct(entries: Seq<EntryView>, path: PathView)
    requires
        all_distinct(entries),
    ensures
        all_distinct(at_path(entries, path)),
    decreases entries.len(),
{
    if entries.len() > 0 {
        let shorter = entries.drop_last();
        assert forall|i: int, j: int|
            #![trigger shorter[i], shorter[j]]
            0 <= i < j < shorter.len() implies !shorter[i].stands_for(
            shorter[j].path,
            shorter[j].id,
        ) by {
            assert(!entries[i].stands_for(entries[j].path, entries[j].id));
        }
        lemma_at_path_is_distinct(shorter, path);
        let before = at_path(shorter, path);
        let now = at_path(entries, path);
        assert forall|i: int, j: int|
            #![trigger now[i], now[j]]
            0 <= i < j < now.len() implies !now[i].stands_for(now[j].path, now[j].id) by {
            if j < before.len() {
                assert(!before[i].stands_for(before[j].path, before[j].id));
            } else {
                lemma_members_at_path(shorter, path, before[i]);
                assert(before.contains(before[i]));
                let k = choose|k: int| 0 <= k < shorter.len() && shorter[k] == before[i];
                assert(!entries[k].stands_for(
                    entries[entries.len() - 1].path,
                    entries[entries.len() - 1].id,
                ));
            }
        }
    }
}

/// Whether a file of some path is used again.
spec fn is_kept(
    files: Seq<FileView>,
    previous: Seq<EntryView>,
    reuse: bool,
    path: PathView,
) -> bool {
    exists|i: int|
        0 <= i < files.len() && (#[trigger] files[i]).path.is_same(path) && kept_of(
            previous,
            files[i],
            reuse,
        ) is Some
}

proof fn lemma_members_kept(
    plugins: Seq<EntryView>,
    files: Seq<FileView>,
    previous: Seq<EntryView>,
    reuse: bool,
    entry: EntryView,
)
    requires
        all_distinct(previous),
        forall|i: int, j: int|
            #![trigger plugins[i], previous[j]]
            0 <= i < plugins.len() && 0 <= j < previous.len() ==> !plugins[i].path.is_same(
                previous[j].path,
            ),
        forall|i: int, j: int|
            #![trigger files[i], files[j]]
            0 <= i < j < files.len() ==> !files[i].path.is_same(files[j].path),
    ensures
        with_kept(plugins, files, previous, reuse).contains(entry) <==> plugins.contains(entry) || (
        previous.contains(entry) && is_kept(files, previous, reuse, entry.path)),
    decreases files.len(),
{
    if files.len() > 0 {
        let shorter = files.drop_last();
        let file = files.last();
        assert forall|i: int, j: int|
            #![trigger shorter[i], shorter[j]]
            0 <= i < j < shorter.len() implies !shorter[i].path.is_same(shorter[j].path) by {
            assert(!files[i].path.is_same(files[j].path));
        }
        lemma_members_kept(plugins, shorter, previous, reuse, entry);
        let before = with_kept(plugins, shorter, previous, reuse);
        let now = with_kept(plugins, files, previous, reuse);
        if is_kept(shorter, previous, reuse, entry.path) {
            let i = choose|i: int|
                0 <= i < shorter.len() && (#[trigger] shorter[i]).path.is_same(entry.path)
                    && kept_of(previous, shorter[i], reuse) is Some;
            assert(files[i].path.is_same(entry.path));
        }
        match kept_of(previous, file, reuse) {
            None => {
                if is_kept(files, previous, reuse, entry.path) {
                    let i = choose|i: int|
                        0 <= i < files.len() && (#[trigger] files[i]).path.is_same(entry.path)
                            && kept_of(previous, files[i], reuse) is Some;
                    assert(shorter[i].path.is_same(entry.path));
                }
            },
            Some(entries) => {
                assert(entries == at_path(previous, file.path));
                lemma_at_path_is_distinct(previous, file.path);
                let places = lemma_entries_land(before, entries);
                // None of them was there before.
                assert forall|i: int, j: int|
                    0 <= i < entries.len() && 0 <= j < before.len() implies !(
                #[trigger] before[j]).stands_for(#[trigger] entries[i].path, entries[i].id) by {
                    lemma_members_at_path(previous, file.path, entries[i]);
                    assert(entries.contains(entries[i]));
                    let p = choose|p: int| 0 <= p < previous.len() && previous[p] == entries[i];
                    lemma_members_kept(plugins, shorter, previous, reuse, before[j]);
                    assert(before.contains(before[j]));
                    if plugins.contains(before[j]) {
                        let k = choose|k: int| 0 <= k < plugins.len() && plugins[k] == before[j];
                        assert(!plugins[k].path.is_same(previous[p].path));
                    } else {
                        let k = choose|k: int|
                            0 <= k < shorter.len() && (#[trigger] shorter[k]).path.is_same(
                                before[j].path,
                            ) && kept_of(previous, shorter[k], reuse) is Some;
                        assert(!files[k].path.is_same(files[files.len() - 1].path));
                    }
                }
                assert forall|i: int| 0 <= i < entries.len() implies #[trigger] places[i]
                    >= before.len() by {
                    if places[i] < before.len() {
                        assert(!before[places[i]].stands_for(entries[i].path, entries[i].id));
                    }
                }
                lemma_members_at_path(previous, file.path, entry);
                if now.contains(entry) {
                    let k = choose|k: int| 0 <= k < now.len() && now[k] == entry;
                    if k < before.len() {
                        if places.contains(k) {
                            let i = choose|i: int| 0 <= i < places.len() && places[i] == k;
                            assert(places[i] >= before.len());
                        }
                        assert(before[k] == entry);
                    } else {
                        assert(places.contains(k));
                        let i = choose|i: int| 0 <= i < places.len() && places[i] == k;
                        assert(now[places[i]] == entries[i]);
                        assert(files[files.len() - 1].path.is_same(entry.path));
                    }
                }
                if before.contains(entry) {
                    let k = choose|k: int| 0 <= k < before.len() && before[k] == entry;
                    if places.contains(k) {
                        let i = choose|i: int| 0 <= i < places.len() && places[i] == k;
                        assert(places[i] >= before.len());
                    }
                    assert(now[k] == entry);
                }
                if previous.contains(entry) && is_kept(files, previous, reuse, entry.path)
                    && !is_kept(shorter, previous, reuse, entry.path) {
                    let i = choose|i: int|
                        0 <= i < files.len() && (#[trigger] files[i]).path.is_same(entry.path)
                            && kept_of(previous, files[i], reuse) is Some;
                    if i < shorter.len() {
                        assert(shorter[i].path.is_same(entry.path));
                    }
                    let k = choose|k: int| 0 <= k < entries.len() && entries[k] == entry;
                    assert(now[places[k]] == entries[k]);
                }
            },
        }
    }
}

proof fn lemma_all_under_is_distinct(plugins: Seq<EntryView>, folders: Seq<PathView>)
    requires
        all_distinct(plugins),
    ensures
        all_distinct(all_under(plugins, folders)),
        all_distinct(none_under(plugins, folders)),
    decreases folders.len(),
{
    if folders.len() > 0 {
        let shorter = folders.drop_last();
        let last = folders.last();
        lemma_all_under_is_distinct(plugins, shorter);
        let rest = none_under(plugins, shorter);
        let first = all_under(plugins, shorter);
        let more = under(rest, last, true);
        let all = all_under(plugins, folders);
        let kept = none_under(plugins, folders);
        let taken = lemma_places_under(rest, last, true);
        let left = lemma_places_under(rest, last, false);
        assert(all =~= first + more);
        assert forall|i: int, j: int|
            #![trigger kept[i], kept[j]]
            0 <= i < j < kept.len() implies !kept[i].stands_for(kept[j].path, kept[j].id) by {
            assert(kept[i] == rest[left[i]] && kept[j] == rest[left[j]]);
        }
        assert forall|i: int, j: int|
            #![trigger all[i], all[j]]
            0 <= i < j < all.len() implies !all[i].stands_for(all[j].path, all[j].id) by {
            if j < first.len() {
                assert(!first[i].stands_for(first[j].path, first[j].id));
            } else {
                let m = j - first.len();
                assert(more[m] == rest[taken[m]]);
                if i >= first.len() {
                    let l = i - first.len();
                    assert(more[l] == rest[taken[l]]);
                    assert(taken[l] < taken[m]);
                    assert(!rest[taken[l]].stands_for(rest[taken[m]].path, rest[taken[m]].id));
                } else {
                    lemma_members_in_folders(plugins, shorter, first[i]);
                    lemma_members_in_folders(plugins, shorter, rest[taken[m]]);
                    assert(first.contains(first[i]));
                    assert(rest.contains(rest[taken[m]]));
                    let f = choose|f: int|
                        0 <= f < shorter.len() && first[i].path.lies_under(#[trigger] shorter[f]);
                    assert(!rest[taken[m]].path.lies_under(shorter[f]));
                }
            }
        }
    }
}

/// When a scan begins, a plugin stays in the list, with everything that was said
/// of it, if it lies in no folder that is scanned, or if its file can be used
/// again. The others leave it.
pub proof fn a_scan_begins_with_what_is_kept(
    library: LibraryView,
    files: Seq<FileView>,
    reuse: bool,
    entry: EntryView,
)
    requires
        all_distinct(library.plugins),
    ensures
        begun(library, files, reuse).0.plugins.contains(entry) <==> library.plugins.contains(entry)
            && (lies_in_some(library.folders, entry.path) ==> exists|i: int|
            0 <= i < scanned_files(files, library.blocked).len() && (#[trigger] scanned_files(
                files,
                library.blocked,
            )[i]).path.is_same(entry.path) && kept_of(
                all_under(library.plugins, library.folders),
                scanned_files(files, library.blocked)[i],
                reuse,
            ) is Some),
{
    let plugins = none_under(library.plugins, library.folders);
    let previous = all_under(library.plugins, library.folders);
    let scanned = scanned_files(files, library.blocked);
    lemma_all_under_is_distinct(library.plugins, library.folders);
    a_scan_opens_each_file_once(files, library.blocked);
    assert forall|i: int, j: int|
        #![trigger plugins[i], previous[j]]
        0 <= i < plugins.len() && 0 <= j < previous.len() implies !plugins[i].path.is_same(
        previous[j].path,
    ) by {
        lemma_members_in_folders(library.plugins, library.folders, plugins[i]);
        lemma_members_in_folders(library.plugins, library.folders, previous[j]);
        assert(plugins.contains(plugins[i]) && previous.contains(previous[j]));
        let f = choose|f: int|
            0 <= f < library.folders.len() && previous[j].path.lies_under(
                #[trigger] library.folders[f],
            );
        assert(!plugins[i].path.lies_under(library.folders[f]));
    }
    lemma_members_kept(plugins, scanned, previous, reuse, entry);
    lemma_members_in_folders(library.plugins, library.folders, entry);
}

/// A file can be used again if it has a stamp, something was found in it before,
/// and everything that was found has that stamp.
pub proof fn an_unchanged_file_is_used_again(
    library: LibraryView,
    file: FileView,
    stamp: Stamp,
    entry: EntryView,
)
    requires
        library.plugins.contains(entry),
        lies_in_some(library.folders, entry.path),
        entry.path.is_same(file.path),
    ensures
        file.stamp == Some(stamp) && (forall|i: int|
            0 <= i < library.plugins.len() && (#[trigger] library.plugins[i]).path.is_same(
                file.path,
            ) ==> library.plugins[i].stamp == Some(stamp)) ==> kept_of(
            all_under(library.plugins, library.folders),
            file,
            true,
        ) is Some,
        file.stamp is None || entry.stamp != file.stamp ==> kept_of(
            all_under(library.plugins, library.folders),
            file,
            true,
        ) is None,
        kept_of(all_under(library.plugins, library.folders), file, false) is None,
{
    let previous = all_under(library.plugins, library.folders);
    let found = at_path(previous, file.path);
    lemma_members_in_folders(library.plugins, library.folders, entry);
    lemma_members_at_path(previous, file.path, entry);
    let k = choose|k: int| 0 <= k < found.len() && found[k] == entry;
    if file.stamp == Some(stamp) && (forall|i: int|
        0 <= i < library.plugins.len() && (#[trigger] library.plugins[i]).path.is_same(file.path)
            ==> library.plugins[i].stamp == Some(stamp)) {
        assert forall|i: int| 0 <= i < found.len() implies (#[trigger] found[i]).stamp == Some(
            stamp,
        ) by {
            lemma_members_at_path(previous, file.path, found[i]);
            assert(found.contains(found[i]));
            lemma_members_in_folders(library.plugins, library.folders, found[i]);
            let p = choose|p: int| 0 <= p < library.plugins.len() && library.plugins[p] == found[i];
            assert(library.plugins[p].path.is_same(file.path));
        }
        assert(found.len() > 0);
    }
    assert(found[k].stamp == entry.stamp);
}

/// A scan begins with nothing to tell, and has all the files before it that are
/// to be opened. Its list is one of the present scanner.
pub proof fn a_scan_begins_at_the_beginning(library: LibraryView, files: Seq<FileView>, reuse: bool)
    ensures
        ({
            let (listed, scan) = begun(library, files, reuse);
            &&& listed.scanner == SCANNER_VERSION
            &&& listed.folders == library.folders
            &&& listed.blocked == library.blocked
            &&& listed.isolate == library.isolate
            &&& scan.isolate == library.isolate
            &&& scan.problems.len() == 0
            &&& scan.crashed == 0
            &&& scan.total == scan.queue.len()
            &&& scan.reused + scan.total == scanned_files(files, library.blocked).len()
            &&& !reuse ==> scan.reused == 0
        }),
{
    a_full_scan_opens_everything(
        scanned_files(files, library.blocked),
        all_under(library.plugins, library.folders),
    );
}

proof fn lemma_marked_places(paths: Seq<PathView>, marks: Seq<bool>) -> (places: Seq<int>)
    ensures
        are_places(places, paths.len()),
        places.len() == marked(paths, marks).len(),
        forall|k: int|
            0 <= k < places.len() ==> marked(paths, marks)[k] == paths[#[trigger] places[k]],
        forall|i: int|
            0 <= i < paths.len() ==> (#[trigger] places.contains(i) <==> i < marks.len()
                && marks[i]),
    decreases paths.len(),
{
    if paths.len() == 0 {
        Seq::empty()
    } else {
        let last = paths.len() - 1;
        let shorter = paths.drop_last();
        let before = lemma_marked_places(shorter, marks);
        assert(!before.contains(last)) by {
            if before.contains(last) {
                let k = choose|k: int| 0 <= k < before.len() && before[k] == last;
                assert(before[k] < shorter.len());
            }
        }
        if last < marks.len() && marks[last] {
            let places = before.push(last);
            assert(places[before.len() as int] == last);
            assert forall|i: int| 0 <= i < paths.len() implies (#[trigger] places.contains(i)
                <==> i < marks.len() && marks[i]) by {
                if i < last {
                    assert(before.contains(i) <==> i < marks.len() && marks[i]);
                    if before.contains(i) {
                        let k = choose|k: int| 0 <= k < before.len() && before[k] == i;
                        assert(places[k] == i);
                    }
                    if places.contains(i) {
                        let k = choose|k: int| 0 <= k < places.len() && places[k] == i;
                        assert(before[k] == i);
                    }
                }
            }
            places
        } else {
            before
        }
    }
}

/// The folders that are there are those that were found to be, in their order.
/// Where each of them stands in the list is returned.
pub proof fn folders_that_are_there_are_kept(
    folders: Vec<PluginPath>,
    there: Vec<bool>,
    existing: Vec<PluginPath>,
) -> (places: Seq<int>)
    requires
        path_views(existing@) == marked(path_views(folders@), there@),
    ensures
        are_places(places, folders@.len()),
        places.len() == existing@.len(),
        forall|k: int|
            0 <= k < places.len() ==> existing@[k]@ == folders@[#[trigger] places[k]]@,
        forall|i: int|
            0 <= i < folders@.len() ==> (#[trigger] places.contains(i) <==> i < there@.len()
                && there@[i]),
{
    let places = lemma_marked_places(path_views(folders@), there@);
    assert(existing@.len() == path_views(existing@).len());
    assert forall|k: int| 0 <= k < places.len() implies existing@[k]@
        == folders@[#[trigger] places[k]]@ by {
        assert(path_views(existing@)[k] == path_views(folders@)[places[k]]);
    }
    places
}

/// Plugins are looked for in the folders of the system and of the user, those of
/// one kind before those of the other. A place that is not known is left out.
pub proof fn plugins_are_looked_for_where_they_are_put(
    common: Seq<char>,
    local: Seq<char>,
    home: Seq<char>,
)
    ensures
        common.len() > 0 && local.len() > 0 ==> standard_folder_texts(true, common, local, home)
            == seq![
            joined(common, "CLAP"@, true),
            joined(local, "Programs\\Common\\CLAP"@, true),
            joined(common, "VST3"@, true),
            joined(local, "Programs\\Common\\VST3"@, true),
        ],
        common.len() == 0 && local.len() == 0 ==> standard_folder_texts(
            true,
            common,
            local,
            home,
        ).len() == 0,
        home.len() > 0 ==> standard_folder_texts(false, common, local, home) == seq![
            "/usr/lib/clap"@,
            "/usr/local/lib/clap"@,
            joined(home, ".clap"@, false),
            "/usr/lib/vst3"@,
            "/usr/local/lib/vst3"@,
            joined(home, ".vst3"@, false),
        ],
        home.len() == 0 ==> standard_folder_texts(false, common, local, home) == seq![
            "/usr/lib/clap"@,
            "/usr/local/lib/clap"@,
            "/usr/lib/vst3"@,
            "/usr/local/lib/vst3"@,
        ],
{
    reveal_strlit("/usr/lib");
    reveal_strlit("/usr/local/lib");
    reveal_strlit("clap");
    reveal_strlit("vst3");
    reveal_strlit("/usr/lib/clap");
    reveal_strlit("/usr/local/lib/clap");
    reveal_strlit("/usr/lib/vst3");
    reveal_strlit("/usr/local/lib/vst3");
    assert(joined("/usr/lib"@, "clap"@, false) =~= "/usr/lib/clap"@);
    assert(joined("/usr/local/lib"@, "clap"@, false) =~= "/usr/local/lib/clap"@);
    assert(joined("/usr/lib"@, "vst3"@, false) =~= "/usr/lib/vst3"@);
    assert(joined("/usr/local/lib"@, "vst3"@, false) =~= "/usr/local/lib/vst3"@);
}

} // verus!
