//! The list of plugins that were found.

use crate::paths::{
    join, joined, lexical_le, lexical_total, lexical_transitive, path_views,
    text_not_after, PathView, PluginPath,
};
use crate::project::PluginKind;
use crate::sorting::{
    is_ascending, mapped, sort_stable, stable_sort_keeps_sorted, stable_sort_of_images,
    stable_sort_orders, stable_sorted, Rank, Ranked,
};
use crate::text::{chars_of, decimal, decimal_text, same_text, trim_text, trimmed};
use vstd::prelude::*;
use vstd::string::StringExecFns;

verus! {

/// The version of the file format.
pub const VERSION: u32 = 1;

/// The version of what is read out of plugins. Records of another version are
/// not used again.
pub const SCANNER_VERSION: u32 = 3;

/// What a plugin does, as it declares itself.
#[derive(Clone, Copy, PartialEq, Eq, Structural, Debug)]
pub enum Role {
    /// Makes sound.
    Instrument,
    /// Changes sound.
    Effect,
    /// It declares neither.
    Unknown,
}

impl Role {
    /// The name shown to the user.
    pub open spec fn label_text(self) -> Seq<char> {
        match self {
            Role::Instrument => "音源"@,
            Role::Effect => "エフェクト"@,
            Role::Unknown => "未分類"@,
        }
    }

    /// The name shown to the user.
    pub fn label(self) -> (text: &'static str)
        ensures
            text@ == self.label_text(),
            self is Instrument ==> text@ == "音源"@,
            self is Effect ==> text@ == "エフェクト"@,
            self is Unknown ==> text@ == "未分類"@,
    {
        match self {
            Role::Instrument => "音源",
            Role::Effect => "エフェクト",
            Role::Unknown => "未分類",
        }
    }
}

impl Default for Role {
    fn default() -> (role: Role)
        ensures
            role == Role::Unknown,
    {
        Role::Unknown
    }
}

/// What a file is recognised by: where it has not changed, it is not opened
/// again.
#[derive(Clone, Copy, PartialEq, Eq, Structural, Debug)]
pub struct Stamp {
    /// When it was last changed, in seconds since 1970.
    pub modified: u64,
    /// How many bytes it has.
    pub size: u64,
}

/// A plugin in the list.
#[derive(Debug)]
pub struct Entry {
    pub kind: PluginKind,
    pub path: PluginPath,
    /// Which of the plugins in the file it is.
    pub id: String,
    pub name: String,
    pub vendor: String,
    pub version: String,
    pub role: Role,
    /// Whether it has a star.
    pub favorite: bool,
    /// The file's stamp when it was scanned.
    pub stamp: Option<Stamp>,
}

/// What an [`Entry`] holds.
#[verifier::ext_equal]
pub struct EntryView {
    pub kind: PluginKind,
    pub path: PathView,
    pub id: Seq<char>,
    pub name: Seq<char>,
    pub vendor: Seq<char>,
    pub version: Seq<char>,
    pub role: Role,
    pub favorite: bool,
    pub stamp: Option<Stamp>,
}

impl View for Entry {
    type V = EntryView;

    open spec fn view(&self) -> EntryView {
        EntryView {
            kind: self.kind,
            path: self.path@,
            id: self.id@,
            name: self.name@,
            vendor: self.vendor@,
            version: self.version@,
            role: self.role,
            favorite: self.favorite,
            stamp: self.stamp,
        }
    }
}

/// A text in lower case.
pub uninterp spec fn lowercase(text: Seq<char>) -> Seq<char>;

/// A text in lower case: calls [`str::to_lowercase`].
///
/// Claimed of it: the result depends on the text alone. Which characters have a
/// lower case, and what it is, is left to the tables of Unicode.
#[verifier::external_body]
fn to_lowercase(text: &str) -> (lower: String)
    ensures
        lower@ == lowercase(text@),
{
    text.to_lowercase()
}

impl EntryView {
    /// The name in the list; the id where there is no name.
    pub open spec fn label_text(self) -> Seq<char> {
        if self.name.len() == 0 {
            self.id
        } else {
            self.name
        }
    }

    /// Whether it is the plugin with a path and an id.
    pub open spec fn stands_for(self, path: PathView, id: Seq<char>) -> bool {
        self.path.is_same(path) && self.id == id
    }
}

/// Plugins go by their names, in lower case.
impl Rank for EntryView {
    open spec fn rank_le(self, other: Self) -> bool {
        lexical_le(lowercase(self.label_text()), lowercase(other.label_text()))
    }

    proof fn rank_total(a: Self, b: Self) {
        lexical_total(lowercase(a.label_text()), lowercase(b.label_text()));
    }

    proof fn rank_transitive(a: Self, b: Self, c: Self) {
        lexical_transitive(
            lowercase(a.label_text()),
            lowercase(b.label_text()),
            lowercase(c.label_text()),
        );
    }
}

/// The views of entries.
pub open spec fn entry_views(entries: Seq<Entry>) -> Seq<EntryView> {
    Seq::new(entries.len(), |i: int| entries[i]@)
}

/// The views of borrowed entries.
pub open spec fn borrowed_views(entries: Seq<&Entry>) -> Seq<EntryView> {
    Seq::new(entries.len(), |i: int| entries[i]@)
}

impl Default for Entry {
    fn default() -> (entry: Entry)
        ensures
            entry@ == (EntryView {
                kind: PluginKind::Clap,
                path: PathView { text: Seq::empty(), parts: Seq::empty() },
                id: Seq::empty(),
                name: Seq::empty(),
                vendor: Seq::empty(),
                version: Seq::empty(),
                role: Role::Unknown,
                favorite: false,
                stamp: None,
            }),
    {
        proof {
            reveal_strlit("");
        }
        let entry = Entry {
            kind: PluginKind::Clap,
            path: PluginPath { text: String::from_str(""), parts: Vec::new() },
            id: String::from_str(""),
            name: String::from_str(""),
            vendor: String::from_str(""),
            version: String::from_str(""),
            role: Role::Unknown,
            favorite: false,
            stamp: None,
        };
        assert(""@ =~= Seq::<char>::empty());
        assert(entry@.path.parts =~= Seq::empty());
        entry
    }
}

impl Entry {
    /// The name in the list; the id where there is no name.
    pub fn label(&self) -> (label: &str)
        ensures
            label@ == self@.label_text(),
            self.name@.len() > 0 ==> label@ == self.name@,
            self.name@.len() == 0 ==> label@ == self.id@,
    {
        if self.name.as_str().unicode_len() == 0 {
            self.id.as_str()
        } else {
            self.name.as_str()
        }
    }

    /// Whether it is the plugin with a path and an id.
    pub fn is(&self, path: &PluginPath, id: &str) -> (yes: bool)
        ensures
            yes == self@.stands_for(path@, id@),
    {
        self.path.same(path) && same_text(self.id.as_str(), id)
    }

    /// A copy of the entry.
    pub fn duplicate(&self) -> (copy: Entry)
        ensures
            copy@ == self@,
    {
        Entry {
            kind: self.kind,
            path: self.path.duplicate(),
            id: self.id.clone(),
            name: self.name.clone(),
            vendor: self.vendor.clone(),
            version: self.version.clone(),
            role: self.role,
            favorite: self.favorite,
            stamp: self.stamp,
        }
    }
}

/// The list of plugins.
#[derive(Debug)]
pub struct Library {
    /// The folders that are scanned.
    pub folders: Vec<PluginPath>,
    pub plugins: Vec<Entry>,
    /// Files that crashed; they are not opened again.
    pub blocked: Vec<PluginPath>,
    /// The version of the scanner that made the list.
    pub scanner: u32,
    /// Whether plugins are opened in another process.
    pub isolate: bool,
}

/// What a [`Library`] holds.
#[verifier::ext_equal]
pub struct LibraryView {
    pub folders: Seq<PathView>,
    pub plugins: Seq<EntryView>,
    pub blocked: Seq<PathView>,
    pub scanner: u32,
    pub isolate: bool,
}

impl View for Library {
    type V = LibraryView;

    open spec fn view(&self) -> LibraryView {
        LibraryView {
            folders: path_views(self.folders@),
            plugins: entry_views(self.plugins@),
            blocked: path_views(self.blocked@),
            scanner: self.scanner,
            isolate: self.isolate,
        }
    }
}

impl LibraryView {
    /// An empty list.
    pub open spec fn fresh() -> LibraryView {
        LibraryView {
            folders: Seq::empty(),
            plugins: Seq::empty(),
            blocked: Seq::empty(),
            scanner: SCANNER_VERSION,
            isolate: true,
        }
    }

    /// With another list of plugins.
    pub open spec fn with_plugins(self, plugins: Seq<EntryView>) -> LibraryView {
        LibraryView { plugins, ..self }
    }
}

/// Where a plugin stands in a list for the first time, counted from `from`; the
/// length of the list where it does not.
pub open spec fn first_place(
    plugins: Seq<EntryView>,
    path: PathView,
    id: Seq<char>,
    from: int,
) -> int
    decreases plugins.len() - from,
{
    if from >= plugins.len() || plugins[from].stands_for(path, id) {
        from
    } else {
        first_place(plugins, path, id, from + 1)
    }
}

/// Where a plugin stands in a list; the length of the list where it does not.
pub open spec fn place_of(plugins: Seq<EntryView>, path: PathView, id: Seq<char>) -> int {
    first_place(plugins, path, id, 0)
}

/// Whether a plugin is in a list.
pub open spec fn lists(plugins: Seq<EntryView>, path: PathView, id: Seq<char>) -> bool {
    exists|i: int| 0 <= i < plugins.len() && (#[trigger] plugins[i]).stands_for(path, id)
}

/// A list with the star of a plugin turned over.
pub open spec fn with_star_turned(
    plugins: Seq<EntryView>,
    path: PathView,
    id: Seq<char>,
) -> Seq<EntryView> {
    let at = place_of(plugins, path, id);
    if at < plugins.len() {
        plugins.update(at, EntryView { favorite: !plugins[at].favorite, ..plugins[at] })
    } else {
        plugins
    }
}

/// A list with a plugin put in. One that is there already is replaced, and keeps
/// its star.
pub open spec fn with_entry(plugins: Seq<EntryView>, entry: EntryView) -> Seq<EntryView> {
    let at = place_of(plugins, entry.path, entry.id);
    if at < plugins.len() {
        plugins.update(at, EntryView { favorite: plugins[at].favorite, ..entry })
    } else {
        plugins.push(entry)
    }
}

/// A list with plugins put in, one after the other.
pub open spec fn with_entries(plugins: Seq<EntryView>, entries: Seq<EntryView>) -> Seq<EntryView>
    decreases entries.len(),
{
    if entries.len() == 0 {
        plugins
    } else {
        with_entry(with_entries(plugins, entries.drop_last()), entries.last())
    }
}

/// The plugins of a list that lie under a folder, or those that do not.
pub open spec fn under(plugins: Seq<EntryView>, folder: PathView, inside: bool) -> Seq<EntryView>
    decreases plugins.len(),
{
    if plugins.len() == 0 {
        plugins
    } else {
        let before = under(plugins.drop_last(), folder, inside);
        if plugins.last().path.lies_under(folder) == inside {
            before.push(plugins.last())
        } else {
            before
        }
    }
}

/// The plugins of a list with a role.
pub open spec fn of_role(plugins: Seq<EntryView>, role: Role) -> Seq<EntryView>
    decreases plugins.len(),
{
    if plugins.len() == 0 {
        plugins
    } else {
        let before = of_role(plugins.drop_last(), role);
        if plugins.last().role == role {
            before.push(plugins.last())
        } else {
            before
        }
    }
}

/// The plugins of a list with a star.
pub open spec fn starred(plugins: Seq<EntryView>) -> Seq<EntryView>
    decreases plugins.len(),
{
    if plugins.len() == 0 {
        plugins
    } else {
        let before = starred(plugins.drop_last());
        if plugins.last().favorite {
            before.push(plugins.last())
        } else {
            before
        }
    }
}

impl Default for Library {
    fn default() -> (library: Library)
        ensures
            library@ == LibraryView::fresh(),
    {
        let library = Library {
            folders: Vec::new(),
            plugins: Vec::new(),
            blocked: Vec::new(),
            scanner: SCANNER_VERSION,
            isolate: true,
        };
        assert(library@ =~= LibraryView::fresh());
        library
    }
}

/// A plugin with the name that it is sorted by.
struct Named {
    key: Vec<char>,
    entry: Entry,
}

impl Rank for Named {
    closed spec fn rank_le(self, other: Self) -> bool {
        lexical_le(self.key@, other.key@)
    }

    proof fn rank_total(a: Self, b: Self) {
        lexical_total(a.key@, b.key@);
    }

    proof fn rank_transitive(a: Self, b: Self, c: Self) {
        lexical_transitive(a.key@, b.key@, c.key@);
    }
}

impl Ranked for Named {
    fn not_after(&self, other: &Self) -> (yes: bool) {
        text_not_after(&self.key, &other.key)
    }
}

/// The first place is one where the plugin stands, and it stands nowhere before.
pub(crate) proof fn lemma_first_place(plugins: Seq<EntryView>, path: PathView, id: Seq<char>, from: int)
    requires
        0 <= from <= plugins.len(),
    ensures
        from <= first_place(plugins, path, id, from) <= plugins.len(),
        forall|i: int|
            from <= i < first_place(plugins, path, id, from) ==> !(
            #[trigger] plugins[i]).stands_for(path, id),
        first_place(plugins, path, id, from) < plugins.len() ==> plugins[first_place(
            plugins,
            path,
            id,
            from,
        )].stands_for(path, id),
    decreases plugins.len() - from,
{
    if from < plugins.len() && !plugins[from].stands_for(path, id) {
        lemma_first_place(plugins, path, id, from + 1);
    }
}

impl Library {
    /// Where a plugin stands in the list; the length of the list where it does
    /// not.
    fn find(&self, path: &PluginPath, id: &str) -> (at: usize)
        ensures
            at == place_of(self@.plugins, path@, id@),
            at <= self.plugins@.len(),
    {
        let mut at: usize = 0;
        while at < self.plugins.len() && !self.plugins[at].is(path, id)
            invariant
                at <= self.plugins@.len(),
                place_of(self@.plugins, path@, id@) == first_place(
                    self@.plugins,
                    path@,
                    id@,
                    at as int,
                ),
            decreases self.plugins@.len() - at,
        {
            at += 1;
        }
        at
    }

    /// Whether a plugin is in the list.
    pub fn contains(&self, path: &PluginPath, id: &str) -> (yes: bool)
        ensures
            yes == lists(self@.plugins, path@, id@),
    {
        proof {
            lemma_first_place(self@.plugins, path@, id@, 0);
        }
        self.find(path, id) < self.plugins.len()
    }

    /// The plugins with a role.
    pub fn by_role(&self, role: Role) -> (found: Vec<&Entry>)
        ensures
            borrowed_views(found@) == of_role(self@.plugins, role),
    {
        let mut found: Vec<&Entry> = Vec::new();
        let mut at: usize = 0;
        assert(self@.plugins.take(0) =~= Seq::empty());
        assert(borrowed_views(found@) =~= Seq::empty());
        while at < self.plugins.len()
            invariant
                at <= self.plugins@.len(),
                borrowed_views(found@) == of_role(self@.plugins.take(at as int), role),
            decreases self.plugins@.len() - at,
        {
            let ghost before = found@;
            assert(self@.plugins.take(at + 1).drop_last() =~= self@.plugins.take(at as int));
            if self.plugins[at].role == role {
                found.push(&self.plugins[at]);
                assert(borrowed_views(found@) =~= borrowed_views(before).push(
                    self@.plugins[at as int],
                ));
            }
            at += 1;
        }
        assert(self@.plugins.take(at as int) =~= self@.plugins);
        found
    }

    /// The plugins with a star.
    pub fn favorites(&self) -> (found: Vec<&Entry>)
        ensures
            borrowed_views(found@) == starred(self@.plugins),
    {
        let mut found: Vec<&Entry> = Vec::new();
        let mut at: usize = 0;
        assert(self@.plugins.take(0) =~= Seq::empty());
        assert(borrowed_views(found@) =~= Seq::empty());
        while at < self.plugins.len()
            invariant
                at <= self.plugins@.len(),
                borrowed_views(found@) == starred(self@.plugins.take(at as int)),
            decreases self.plugins@.len() - at,
        {
            let ghost before = found@;
            assert(self@.plugins.take(at + 1).drop_last() =~= self@.plugins.take(at as int));
            if self.plugins[at].favorite {
                found.push(&self.plugins[at]);
                assert(borrowed_views(found@) =~= borrowed_views(before).push(
                    self@.plugins[at as int],
                ));
            }
            at += 1;
        }
        assert(self@.plugins.take(at as int) =~= self@.plugins);
        found
    }

    fn put(&mut self, at: usize, entry: Entry)
        requires
            at < old(self)@.plugins.len(),
        ensures
            final(self)@ == old(self)@.with_plugins(old(self)@.plugins.update(at as int, entry@)),
    {
        let ghost before = self@;
        self.plugins.set(at, entry);
        assert(self@.plugins =~= before.plugins.update(at as int, entry@));
        assert(self@ =~= before.with_plugins(before.plugins.update(at as int, entry@)));
    }

    /// Turns the star of a plugin over. Where it is not in the list, nothing is
    /// done.
    pub fn toggle_favorite(&mut self, path: &PluginPath, id: &str)
        ensures
            final(self)@ == old(self)@.with_plugins(
                with_star_turned(old(self)@.plugins, path@, id@),
            ),
    {
        let ghost before = self@;
        let at: usize = self.find(path, id);
        if at < self.plugins.len() {
            let mut entry = self.plugins[at].duplicate();
            entry.favorite = !entry.favorite;
            assert(entry@ =~= EntryView {
                favorite: !before.plugins[at as int].favorite,
                ..before.plugins[at as int]
            });
            self.put(at, entry);
        }
    }

    /// Takes the plugins under a folder out of the list, and hands them back.
    pub fn take_under(&mut self, folder: &PluginPath) -> (taken: Vec<Entry>)
        ensures
            final(self)@ == old(self)@.with_plugins(under(old(self)@.plugins, folder@, false)),
            entry_views(taken@) == under(old(self)@.plugins, folder@, true),
    {
        let ghost before = self@;
        let mut taken: Vec<Entry> = Vec::new();
        let mut kept: Vec<Entry> = Vec::new();
        let mut at: usize = 0;
        proof {
            assert(before.plugins.take(0) =~= Seq::empty());
            assert(entry_views(taken@) =~= Seq::empty());
            assert(entry_views(kept@) =~= Seq::empty());
        }
        while at < self.plugins.len()
            invariant
                self@ == before,
                at <= before.plugins.len(),
                entry_views(taken@) == under(before.plugins.take(at as int), folder@, true),
                entry_views(kept@) == under(before.plugins.take(at as int), folder@, false),
            decreases before.plugins.len() - at,
        {
            let ghost old_taken = taken@;
            let ghost old_kept = kept@;
            let entry = self.plugins[at].duplicate();
            assert(before.plugins.take(at + 1).drop_last() =~= before.plugins.take(at as int));
            if entry.path.starts_with(folder) {
                taken.push(entry);
                assert(entry_views(taken@) =~= entry_views(old_taken).push(entry@));
            } else {
                kept.push(entry);
                assert(entry_views(kept@) =~= entry_views(old_kept).push(entry@));
            }
            at += 1;
        }
        assert(before.plugins.take(at as int) =~= before.plugins);
        self.plugins = kept;
        assert(self@ =~= before.with_plugins(under(before.plugins, folder@, false)));
        taken
    }

    /// Puts a plugin into the list.
    pub fn insert(&mut self, entry: Entry)
        ensures
            final(self)@ == old(self)@.with_plugins(with_entry(old(self)@.plugins, entry@)),
    {
        let ghost before = self@;
        let at: usize = self.find(&entry.path, entry.id.as_str());
        if at < self.plugins.len() {
            let mut renewed = entry;
            let ghost given = renewed@;
            renewed.favorite = self.plugins[at].favorite;
            assert(renewed@ =~= EntryView {
                favorite: before.plugins[at as int].favorite,
                ..given
            });
            self.put(at, renewed);
        } else {
            let ghost plugins = self.plugins@;
            self.plugins.push(entry);
            assert(self@.plugins =~= before.plugins.push(entry@));
            assert(self@ =~= before.with_plugins(before.plugins.push(entry@)));
        }
    }

    /// Sorts the list by name. Capital letters make no difference.
    pub fn sort(&mut self)
        ensures
            final(self)@ == old(self)@.with_plugins(stable_sorted(old(self)@.plugins)),
    {
        let ghost before = self@;
        let mut named: Vec<Named> = Vec::new();
        let mut at: usize = 0;
        while at < self.plugins.len()
            invariant
                self@ == before,
                at <= before.plugins.len(),
                named@.len() == at,
                forall|i: int|
                    0 <= i < at ==> (#[trigger] named@[i]).entry@ == before.plugins[i]
                        && named@[i].key@ == lowercase(before.plugins[i].label_text()),
            decreases before.plugins.len() - at,
        {
            let entry = self.plugins[at].duplicate();
            let key = chars_of(to_lowercase(entry.label()).as_str());
            named.push(Named { key, entry });
            at += 1;
        }
        let ghost f = |item: Named| item.entry@;
        let ghost unsorted = named@;
        proof {
            assert(mapped(unsorted, f) =~= before.plugins);
            stable_sort_of_images(unsorted, f);
        }
        let mut rest = sort_stable(named);
        let ghost sorted = rest@;
        let mut plugins: Vec<Entry> = Vec::new();
        while rest.len() > 0
            invariant
                rest@ == sorted.take(rest@.len() as int),
                rest@.len() + plugins@.len() == sorted.len(),
                forall|i: int|
                    0 <= i < plugins@.len() ==> (#[trigger] plugins@[i]) == sorted[rest@.len()
                        + i].entry,
            decreases rest@.len(),
        {
            let ghost left = rest@.len();
            let item = rest.pop().unwrap();
            assert(rest@ =~= sorted.take(rest@.len() as int));
            plugins.insert(0, item.entry);
        }
        self.plugins = plugins;
        proof {
            assert(self@.plugins =~= mapped(sorted, f));
            assert(self@ =~= before.with_plugins(stable_sorted(before.plugins)));
        }
    }
}

/// Whether no plugin is in a list twice.
pub open spec fn all_distinct(plugins: Seq<EntryView>) -> bool {
    forall|i: int, j: int|
        #![trigger plugins[i], plugins[j]]
        0 <= i < j < plugins.len() ==> !plugins[i].stands_for(plugins[j].path, plugins[j].id)
}

/// Putting a plugin in makes it be there, and once only. A star stays.
pub proof fn inserting_keeps_plugins_distinct(plugins: Seq<EntryView>, entry: EntryView)
    requires
        all_distinct(plugins),
    ensures
        all_distinct(with_entry(plugins, entry)),
        lists(with_entry(plugins, entry), entry.path, entry.id),
        ({
            let at = place_of(plugins, entry.path, entry.id);
            with_entry(plugins, entry)[at] == (EntryView {
                favorite: if at < plugins.len() {
                    plugins[at].favorite
                } else {
                    entry.favorite
                },
                ..entry
            })
        }),
{
    let at = place_of(plugins, entry.path, entry.id);
    lemma_first_place(plugins, entry.path, entry.id, 0);
    let after = with_entry(plugins, entry);
    assert(after[at].stands_for(entry.path, entry.id));
    assert forall|i: int, j: int|
        #![trigger after[i], after[j]]
        0 <= i < j < after.len() implies !after[i].stands_for(after[j].path, after[j].id) by {
        if at < plugins.len() {
            assert(!plugins[i].stands_for(plugins[j].path, plugins[j].id));
        } else if j < plugins.len() {
            assert(!plugins[i].stands_for(plugins[j].path, plugins[j].id));
        } else {
            assert(!plugins[i].stands_for(entry.path, entry.id));
        }
    }
}

/// Putting a plugin in changes no other one.
pub proof fn inserting_leaves_others_alone(plugins: Seq<EntryView>, entry: EntryView, i: int)
    requires
        0 <= i < plugins.len(),
        !plugins[i].stands_for(entry.path, entry.id),
    ensures
        with_entry(plugins, entry)[i] == plugins[i],
{
    lemma_first_place(plugins, entry.path, entry.id, 0);
}

/// Turning a star over twice leaves it as it was.
pub proof fn turning_a_star_twice_changes_nothing(
    plugins: Seq<EntryView>,
    path: PathView,
    id: Seq<char>,
)
    ensures
        with_star_turned(with_star_turned(plugins, path, id), path, id) == plugins,
{
    let once = with_star_turned(plugins, path, id);
    let at = place_of(plugins, path, id);
    lemma_first_place(plugins, path, id, 0);
    lemma_first_place(once, path, id, 0);
    let again = place_of(once, path, id);
    if at < plugins.len() {
        assert(once[at].stands_for(path, id));
        assert(again <= at);
        if again < at {
            assert(!plugins[again].stands_for(path, id));
        }
    }
    assert(with_star_turned(once, path, id) =~= plugins);
}

/// Taking a folder out splits the list: every plugin is either taken or kept,
/// and goes where it belongs.
pub proof fn taking_a_folder_splits_the_list(plugins: Seq<EntryView>, folder: PathView)
    ensures
        under(plugins, folder, true).to_multiset().add(under(plugins, folder, false).to_multiset())
            == plugins.to_multiset(),
        forall|i: int|
            0 <= i < under(plugins, folder, true).len() ==> (#[trigger] under(
                plugins,
                folder,
                true,
            )[i]).path.lies_under(folder),
        forall|i: int|
            0 <= i < under(plugins, folder, false).len() ==> !(#[trigger] under(
                plugins,
                folder,
                false,
            )[i]).path.lies_under(folder),
    decreases plugins.len(),
{
    broadcast use vstd::seq_lib::group_to_multiset_ensures;

    let taken = under(plugins, folder, true);
    let kept = under(plugins, folder, false);
    if plugins.len() > 0 {
        let shorter = plugins.drop_last();
        taking_a_folder_splits_the_list(shorter, folder);
        let before_taken = under(shorter, folder, true);
        let before_kept = under(shorter, folder, false);
        assert(plugins =~= shorter.push(plugins.last()));
        assert forall|i: int| 0 <= i < taken.len() implies (
        #[trigger] taken[i]).path.lies_under(folder) by {
            if i < before_taken.len() {
                assert(before_taken[i].path.lies_under(folder));
            }
        }
        assert forall|i: int| 0 <= i < kept.len() implies !(
        #[trigger] kept[i]).path.lies_under(folder) by {
            if i < before_kept.len() {
                assert(!before_kept[i].path.lies_under(folder));
            }
        }
        assert(taken.to_multiset().add(kept.to_multiset()) =~= plugins.to_multiset());
    } else {
        assert(taken =~= plugins);
        assert(kept =~= plugins);
        assert(taken.to_multiset().add(kept.to_multiset()) =~= plugins.to_multiset());
    }
}

/// Every plugin has exactly one role.
pub proof fn roles_split_the_list(plugins: Seq<EntryView>)
    ensures
        of_role(plugins, Role::Instrument).len() + of_role(plugins, Role::Effect).len() + of_role(
            plugins,
            Role::Unknown,
        ).len() == plugins.len(),
    decreases plugins.len(),
{
    if plugins.len() > 0 {
        roles_split_the_list(plugins.drop_last());
    }
}

/// Sorting twice is the same as sorting once, and no plugin is lost.
pub proof fn sorting_keeps_all_plugins(plugins: Seq<EntryView>)
    ensures
        stable_sorted(plugins).to_multiset() == plugins.to_multiset(),
        is_ascending(stable_sorted(plugins)),
        stable_sorted(stable_sorted(plugins)) == stable_sorted(plugins),
{
    stable_sort_orders(plugins);
    stable_sort_keeps_sorted(stable_sorted(plugins));
}

/// The list as it is written to a file.
#[derive(Debug)]
pub struct Stored {
    pub version: u32,
    pub folders: Vec<PluginPath>,
    pub plugins: Vec<Entry>,
    pub blocked: Vec<PluginPath>,
    pub scanner: u32,
    pub isolate: bool,
}

/// What a [`Stored`] holds.
#[verifier::ext_equal]
pub struct StoredView {
    pub version: u32,
    pub library: LibraryView,
}

impl View for Stored {
    type V = StoredView;

    open spec fn view(&self) -> StoredView {
        StoredView {
            version: self.version,
            library: LibraryView {
                folders: path_views(self.folders@),
                plugins: entry_views(self.plugins@),
                blocked: path_views(self.blocked@),
                scanner: self.scanner,
                isolate: self.isolate,
            },
        }
    }
}

/// The scanner's version in a file that does not say.
pub const FIRST_SCANNER_VERSION: u32 = 1;

/// The plugins that have a path and an id.
pub open spec fn with_targets(plugins: Seq<EntryView>) -> Seq<EntryView>
    decreases plugins.len(),
{
    if plugins.len() == 0 {
        plugins
    } else {
        let before = with_targets(plugins.drop_last());
        if plugins.last().path.text.len() > 0 && plugins.last().id.len() > 0 {
            before.push(plugins.last())
        } else {
            before
        }
    }
}

/// What is said of a file of a version that cannot be read.
pub open spec fn newer_message(version: u32) -> Seq<char> {
    "この一覧はバージョン "@ + decimal(version as nat)
        + " で保存されています。\nこのビルドが読めるのはバージョン "@ + decimal(VERSION as nat)
        + " までです。"@
}

/// Checks the version of a file before anything else of it is read.
pub fn check_version(version: u32) -> (result: Result<(), String>)
    ensures
        version <= VERSION ==> result is Ok,
        version > VERSION ==> (result matches Err(message) && message@ == newer_message(version)),
{
    if version > VERSION {
        let mut message = String::from_str("この一覧はバージョン ");
        message.append(decimal_text(version as u64).as_str());
        message.append(" で保存されています。\nこのビルドが読めるのはバージョン ");
        message.append(decimal_text(VERSION as u64).as_str());
        message.append(" までです。");
        Err(message)
    } else {
        Ok(())
    }
}

fn copy_paths(paths: &Vec<PluginPath>) -> (copy: Vec<PluginPath>)
    ensures
        path_views(copy@) == path_views(paths@),
{
    let mut copy: Vec<PluginPath> = Vec::new();
    let mut at: usize = 0;
    while at < paths.len()
        invariant
            at <= paths@.len(),
            copy@.len() == at,
            forall|i: int| 0 <= i < at ==> (#[trigger] copy@[i])@ == paths@[i]@,
        decreases paths@.len() - at,
    {
        copy.push(paths[at].duplicate());
        at += 1;
    }
    assert(path_views(copy@) =~= path_views(paths@));
    copy
}

/// The list as it is written to a file.
pub fn to_stored(library: &Library) -> (stored: Stored)
    ensures
        stored@ == (StoredView { version: VERSION, library: library@ }),
{
    let mut plugins: Vec<Entry> = Vec::new();
    let mut at: usize = 0;
    while at < library.plugins.len()
        invariant
            at <= library.plugins@.len(),
            plugins@.len() == at,
            forall|i: int| 0 <= i < at ==> (#[trigger] plugins@[i])@ == library.plugins@[i]@,
        decreases library.plugins@.len() - at,
    {
        plugins.push(library.plugins[at].duplicate());
        at += 1;
    }
    assert(entry_views(plugins@) =~= entry_views(library.plugins@));
    Stored {
        version: VERSION,
        folders: copy_paths(&library.folders),
        plugins,
        blocked: copy_paths(&library.blocked),
        scanner: library.scanner,
        isolate: library.isolate,
    }
}

/// The list out of what was read from a file. Plugins that nothing can be found
/// by are left out.
pub fn from_stored(stored: &Stored) -> (result: Result<Library, String>)
    ensures
        stored@.version <= VERSION ==> (result matches Ok(library) && library@
            == stored@.library.with_plugins(with_targets(stored@.library.plugins))),
        stored@.version > VERSION ==> (result matches Err(message) && message@ == newer_message(
            stored@.version,
        )),
{
    match check_version(stored.version) {
        Err(message) => {
            return Err(message);
        },
        Ok(()) => {},
    }
    let mut plugins: Vec<Entry> = Vec::new();
    let mut at: usize = 0;
    let ghost all = stored@.library.plugins;
    proof {
        assert(all.take(0) =~= Seq::empty());
        assert(entry_views(plugins@) =~= Seq::empty());
    }
    while at < stored.plugins.len()
        invariant
            all == stored@.library.plugins,
            at <= all.len(),
            entry_views(plugins@) == with_targets(all.take(at as int)),
        decreases all.len() - at,
    {
        let ghost before = plugins@;
        let entry = stored.plugins[at].duplicate();
        assert(all.take(at + 1).drop_last() =~= all.take(at as int));
        if entry.path.text.as_str().unicode_len() > 0 && entry.id.as_str().unicode_len() > 0 {
            plugins.push(entry);
            assert(entry_views(plugins@) =~= entry_views(before).push(entry@));
        }
        at += 1;
    }
    assert(all.take(at as int) =~= all);
    let library = Library {
        folders: copy_paths(&stored.folders),
        plugins,
        blocked: copy_paths(&stored.blocked),
        scanner: stored.scanner,
        isolate: stored.isolate,
    };
    assert(library@ =~= stored@.library.with_plugins(with_targets(all)));
    Ok(library)
}

/// What is told of a file that is no list.
pub open spec fn unreadable_message(detail: Seq<char>) -> Seq<char> {
    "プラグイン一覧として読めません:\n"@ + detail
}

fn unreadable(detail: &str) -> (message: String)
    ensures
        message@ == unreadable_message(detail@),
{
    let mut message = String::from_str("プラグイン一覧として読めません:\n");
    message.append(detail);
    message
}

/// Makes a list from what was read of a file: its version, which is read by
/// itself first, and all of it. A file of a newer version is refused whatever
/// else is in it.
pub fn from_str(version: Result<u32, String>, stored: Result<Stored, String>) -> (result: Result<
    Library,
    String,
>)
    ensures
        match version {
            Err(detail) => result matches Err(message) && message@ == unreadable_message(detail@),
            Ok(version) => if version > VERSION {
                result matches Err(message) && message@ == newer_message(version)
            } else {
                match stored {
                    Err(detail) => result matches Err(message) && message@ == unreadable_message(
                        detail@,
                    ),
                    Ok(stored) => if stored@.version > VERSION {
                        result matches Err(message) && message@ == newer_message(stored@.version)
                    } else {
                        result matches Ok(library) && library@ == stored@.library.with_plugins(
                            with_targets(stored@.library.plugins),
                        )
                    },
                }
            },
        },
{
    match version {
        Err(detail) => {
            return Err(unreadable(detail.as_str()));
        },
        Ok(version) => match check_version(version) {
            Err(message) => {
                return Err(message);
            },
            Ok(()) => {},
        },
    }
    match stored {
        Err(detail) => Err(unreadable(detail.as_str())),
        Ok(stored) => from_stored(&stored),
    }
}

/// A list comes back as it was written, if all its plugins have a path and an
/// id.
pub proof fn a_list_comes_back_as_written(plugins: Seq<EntryView>)
    requires
        forall|i: int|
            0 <= i < plugins.len() ==> (#[trigger] plugins[i]).path.text.len() > 0
                && plugins[i].id.len() > 0,
    ensures
        with_targets(plugins) == plugins,
    decreases plugins.len(),
{
    if plugins.len() > 0 {
        let shorter = plugins.drop_last();
        assert forall|i: int| 0 <= i < shorter.len() implies (
        #[trigger] shorter[i]).path.text.len() > 0 && shorter[i].id.len() > 0 by {
            assert(plugins[i].id.len() > 0);
        }
        a_list_comes_back_as_written(shorter);
        assert(plugins[plugins.len() - 1].id.len() > 0);
        assert(shorter.push(plugins.last()) =~= plugins);
    }
}

/// The list to start with, and what to tell the user: where a file could not be
/// read, its path and why. Where there is no file there is nothing to tell.
pub fn start_with(read: Option<Result<Library, String>>, path: &str) -> (start: (
    Library,
    Option<String>,
))
    ensures
        read is None ==> start.0@ == LibraryView::fresh() && start.1 is None,
        (read matches Some(Ok(library)) ==> start.0@ == library@ && start.1 is None),
        (read matches Some(Err(message)) ==> start.0@ == LibraryView::fresh() && (
        start.1 matches Some(told) && told@ == path@ + "\n\n"@ + message@)),
{
    match read {
        None => (Library::default(), None),
        Some(Ok(library)) => (library, None),
        Some(Err(message)) => {
            let mut told = String::from_str(path);
            told.append("\n\n");
            told.append(message.as_str());
            (Library::default(), Some(told))
        },
    }
}

/// The folder for settings: beside the program, or where that is not known, in
/// the working folder.
pub open spec fn config_folder(beside: Option<Seq<char>>, windows: bool) -> Seq<char> {
    match beside {
        Some(folder) => joined(folder, "config"@, windows),
        None => "config"@,
    }
}

/// The folder for settings, given the folder of the program.
pub fn config_dir(beside: Option<&str>, windows: bool) -> (path: String)
    ensures
        path@ == config_folder(
            match beside {
                Some(folder) => Some(folder@),
                None => None,
            },
            windows,
        ),
{
    match beside {
        Some(folder) => join(folder, "config", windows),
        None => String::from_str("config"),
    }
}

/// Where the list is kept, given the folder of the program.
pub fn config_path(beside: Option<&str>, windows: bool) -> (path: String)
    ensures
        path@ == joined(
            config_folder(
                match beside {
                    Some(folder) => Some(folder@),
                    None => None,
                },
                windows,
            ),
            "plugins.ron"@,
            windows,
        ),
{
    join(config_dir(beside, windows).as_str(), "plugins.ron", windows)
}

/// Where the file that is being opened is noted, given the folder of the
/// program.
pub fn scanning_path(beside: Option<&str>, windows: bool) -> (path: String)
    ensures
        path@ == joined(
            config_folder(
                match beside {
                    Some(folder) => Some(folder@),
                    None => None,
                },
                windows,
            ),
            "scanning.txt"@,
            windows,
        ),
{
    join(config_dir(beside, windows).as_str(), "scanning.txt", windows)
}

/// The file that the program crashed on, out of what was noted when it was
/// opened.
pub fn crashed_file(noted: &str) -> (path: Option<&str>)
    ensures
        match path {
            Some(path) => trimmed(noted@).len() > 0 && path@ == trimmed(noted@),
            None => trimmed(noted@).len() == 0,
        },
{
    let path = trim_text(noted);
    if path.unicode_len() == 0 {
        None
    } else {
        Some(path)
    }
}

/// Whether two entries are of the same plugin and say the same of it, but for
/// the star.
pub open spec fn says_the_same(a: Entry, b: Entry) -> bool {
    &&& a.kind == b.kind
    &&& a.path.text@ == b.path.text@
    &&& a.path@.is_same(b.path@)
    &&& a.id@ == b.id@
    &&& a.name@ == b.name@
    &&& a.vendor@ == b.vendor@
    &&& a.version@ == b.version@
    &&& a.role == b.role
    &&& a.stamp == b.stamp
}

/// Whether places in a list of some length are given in ascending order.
pub open spec fn are_places(places: Seq<int>, count: nat) -> bool {
    &&& forall|k: int| 0 <= k < places.len() ==> 0 <= #[trigger] places[k] < count
    &&& forall|k: int, l: int|
        #![trigger places[k], places[l]]
        0 <= k < l < places.len() ==> places[k] < places[l]
}

proof fn lemma_places_of_role(plugins: Seq<EntryView>, role: Role) -> (places: Seq<int>)
    ensures
        are_places(places, plugins.len()),
        places.len() == of_role(plugins, role).len(),
        forall|k: int|
            0 <= k < places.len() ==> of_role(plugins, role)[k] == plugins[#[trigger] places[k]],
        forall|i: int|
            0 <= i < plugins.len() ==> ((#[trigger] plugins[i]).role == role <==> places.contains(
                i,
            )),
    decreases plugins.len(),
{
    if plugins.len() == 0 {
        Seq::empty()
    } else {
        let last = plugins.len() - 1;
        let before = lemma_places_of_role(plugins.drop_last(), role);
        if plugins[last].role == role {
            let places = before.push(last);
            assert forall|i: int| 0 <= i < plugins.len() implies ((#[trigger] plugins[i]).role
                == role <==> places.contains(i)) by {
                if i < last {
                    assert(plugins.drop_last()[i] == plugins[i]);
                    if before.contains(i) {
                        let k = choose|k: int| 0 <= k < before.len() && before[k] == i;
                        assert(places[k] == i);
                    }
                } else {
                    assert(places[before.len() as int] == i);
                }
            }
            places
        } else {
            assert forall|i: int| 0 <= i < plugins.len() implies ((#[trigger] plugins[i]).role
                == role <==> before.contains(i)) by {
                if i < last {
                    assert(plugins.drop_last()[i] == plugins[i]);
                }
            }
            before
        }
    }
}

proof fn lemma_places_of_stars(plugins: Seq<EntryView>) -> (places: Seq<int>)
    ensures
        are_places(places, plugins.len()),
        places.len() == starred(plugins).len(),
        forall|k: int|
            0 <= k < places.len() ==> starred(plugins)[k] == plugins[#[trigger] places[k]],
        forall|i: int|
            0 <= i < plugins.len() ==> ((#[trigger] plugins[i]).favorite <==> places.contains(i)),
    decreases plugins.len(),
{
    if plugins.len() == 0 {
        Seq::empty()
    } else {
        let last = plugins.len() - 1;
        let before = lemma_places_of_stars(plugins.drop_last());
        if plugins[last].favorite {
            let places = before.push(last);
            assert forall|i: int| 0 <= i < plugins.len() implies ((#[trigger] plugins[i]).favorite
                <==> places.contains(i)) by {
                if i < last {
                    assert(plugins.drop_last()[i] == plugins[i]);
                    if before.contains(i) {
                        let k = choose|k: int| 0 <= k < before.len() && before[k] == i;
                        assert(places[k] == i);
                    }
                } else {
                    assert(places[before.len() as int] == i);
                }
            }
            places
        } else {
            assert forall|i: int| 0 <= i < plugins.len() implies ((#[trigger] plugins[i]).favorite
                <==> before.contains(i)) by {
                if i < last {
                    assert(plugins.drop_last()[i] == plugins[i]);
                }
            }
            before
        }
    }
}

/// The places of the plugins in a folder, or of those outside.
pub(crate) proof fn lemma_places_under(plugins: Seq<EntryView>, folder: PathView, inside: bool) -> (places:
    Seq<int>)
    ensures
        are_places(places, plugins.len()),
        places.len() == under(plugins, folder, inside).len(),
        forall|k: int|
            0 <= k < places.len() ==> under(plugins, folder, inside)[k]
                == plugins[#[trigger] places[k]],
        forall|i: int|
            0 <= i < plugins.len() ==> ((#[trigger] plugins[i]).path.lies_under(folder) == inside
                <==> places.contains(i)),
    decreases plugins.len(),
{
    if plugins.len() == 0 {
        Seq::empty()
    } else {
        let last = plugins.len() - 1;
        let before = lemma_places_under(plugins.drop_last(), folder, inside);
        if plugins[last].path.lies_under(folder) == inside {
            let places = before.push(last);
            assert forall|i: int| 0 <= i < plugins.len() implies ((
            #[trigger] plugins[i]).path.lies_under(folder) == inside <==> places.contains(i)) by {
                if i < last {
                    assert(plugins.drop_last()[i] == plugins[i]);
                    if before.contains(i) {
                        let k = choose|k: int| 0 <= k < before.len() && before[k] == i;
                        assert(places[k] == i);
                    }
                } else {
                    assert(places[before.len() as int] == i);
                }
            }
            places
        } else {
            assert forall|i: int| 0 <= i < plugins.len() implies ((
            #[trigger] plugins[i]).path.lies_under(folder) == inside <==> before.contains(i)) by {
                if i < last {
                    assert(plugins.drop_last()[i] == plugins[i]);
                }
            }
            before
        }
    }
}

proof fn lemma_places_of_targets(plugins: Seq<EntryView>) -> (places: Seq<int>)
    ensures
        are_places(places, plugins.len()),
        places.len() == with_targets(plugins).len(),
        forall|k: int|
            0 <= k < places.len() ==> with_targets(plugins)[k] == plugins[#[trigger] places[k]],
        forall|i: int|
            0 <= i < plugins.len() ==> ((#[trigger] plugins[i]).path.text.len() > 0
                && plugins[i].id.len() > 0 <==> places.contains(i)),
    decreases plugins.len(),
{
    if plugins.len() == 0 {
        Seq::empty()
    } else {
        let last = plugins.len() - 1;
        let before = lemma_places_of_targets(plugins.drop_last());
        if plugins[last].path.text.len() > 0 && plugins[last].id.len() > 0 {
            let places = before.push(last);
            assert forall|i: int| 0 <= i < plugins.len() implies ((
            #[trigger] plugins[i]).path.text.len() > 0 && plugins[i].id.len() > 0
                <==> places.contains(i)) by {
                if i < last {
                    assert(plugins.drop_last()[i] == plugins[i]);
                    if before.contains(i) {
                        let k = choose|k: int| 0 <= k < before.len() && before[k] == i;
                        assert(places[k] == i);
                    }
                } else {
                    assert(places[before.len() as int] == i);
                }
            }
            places
        } else {
            assert forall|i: int| 0 <= i < plugins.len() implies ((
            #[trigger] plugins[i]).path.text.len() > 0 && plugins[i].id.len() > 0
                <==> before.contains(i)) by {
                if i < last {
                    assert(plugins.drop_last()[i] == plugins[i]);
                }
            }
            before
        }
    }
}

/// Asked for a role, the list gives every plugin that has it, no other one, and
/// each in its turn. The places at which they stand are returned.
pub proof fn a_role_lists_its_plugins(library: Library, role: Role, found: Vec<&Entry>) -> (places:
    Seq<int>)
    requires
        borrowed_views(found@) == of_role(library@.plugins, role),
    ensures
        are_places(places, library.plugins@.len()),
        places.len() == found@.len(),
        forall|k: int|
            0 <= k < places.len() ==> says_the_same(
                *found@[k],
                library.plugins@[#[trigger] places[k]],
            ) && found@[k].favorite == library.plugins@[places[k]].favorite && found@[k].role
                == role,
        forall|i: int|
            0 <= i < library.plugins@.len() ==> ((#[trigger] library.plugins@[i]).role == role
                <==> places.contains(i)),
{
    let plugins = library@.plugins;
    let places = lemma_places_of_role(plugins, role);
    assert(found@.len() == borrowed_views(found@).len());
    assert forall|k: int| 0 <= k < places.len() implies says_the_same(
        *found@[k],
        library.plugins@[#[trigger] places[k]],
    ) && found@[k].favorite == library.plugins@[places[k]].favorite && found@[k].role == role by {
        assert(borrowed_views(found@)[k] == plugins[places[k]]);
        assert(places.contains(places[k]));
        assert(plugins[places[k]].role == role);
    }
    assert forall|i: int| 0 <= i < library.plugins@.len() implies ((
    #[trigger] library.plugins@[i]).role == role <==> places.contains(i)) by {
        assert(plugins[i].role == library.plugins@[i].role);
    }
    places
}

/// Asked for the stars, the list gives every plugin that has one, no other one,
/// and each in its turn.
pub proof fn the_stars_are_listed(library: Library, found: Vec<&Entry>) -> (places: Seq<int>)
    requires
        borrowed_views(found@) == starred(library@.plugins),
    ensures
        are_places(places, library.plugins@.len()),
        places.len() == found@.len(),
        forall|k: int|
            0 <= k < places.len() ==> says_the_same(
                *found@[k],
                library.plugins@[#[trigger] places[k]],
            ) && found@[k].favorite,
        forall|i: int|
            0 <= i < library.plugins@.len() ==> ((#[trigger] library.plugins@[i]).favorite
                <==> places.contains(i)),
{
    let plugins = library@.plugins;
    let places = lemma_places_of_stars(plugins);
    assert(found@.len() == borrowed_views(found@).len());
    assert forall|k: int| 0 <= k < places.len() implies says_the_same(
        *found@[k],
        library.plugins@[#[trigger] places[k]],
    ) && found@[k].favorite by {
        assert(borrowed_views(found@)[k] == plugins[places[k]]);
        assert(places.contains(places[k]));
        assert(plugins[places[k]].favorite);
    }
    assert forall|i: int| 0 <= i < library.plugins@.len() implies ((
    #[trigger] library.plugins@[i]).favorite <==> places.contains(i)) by {
        assert(plugins[i].favorite == library.plugins@[i].favorite);
    }
    places
}

/// Taking a folder out takes every plugin that lies in it and leaves every other
/// one, in their order. The places of those taken and of those left are
/// returned.
pub proof fn a_folder_takes_its_plugins(
    before: Library,
    folder: PathView,
    after: Library,
    taken: Vec<Entry>,
) -> (places: (Seq<int>, Seq<int>))
    requires
        after@ == before@.with_plugins(under(before@.plugins, folder, false)),
        entry_views(taken@) == under(before@.plugins, folder, true),
    ensures
        are_places(places.0, before.plugins@.len()),
        are_places(places.1, before.plugins@.len()),
        places.0.len() == taken@.len(),
        places.1.len() == after.plugins@.len(),
        forall|k: int|
            0 <= k < places.0.len() ==> says_the_same(
                taken@[k],
                before.plugins@[#[trigger] places.0[k]],
            ) && taken@[k].favorite == before.plugins@[places.0[k]].favorite,
        forall|k: int|
            0 <= k < places.1.len() ==> says_the_same(
                after.plugins@[k],
                before.plugins@[#[trigger] places.1[k]],
            ) && after.plugins@[k].favorite == before.plugins@[places.1[k]].favorite,
        forall|i: int|
            0 <= i < before.plugins@.len() ==> {
                &&& (#[trigger] before.plugins@[i]).path@.lies_under(folder) <==> places.0.contains(
                    i,
                )
                &&& !before.plugins@[i].path@.lies_under(folder) <==> places.1.contains(i)
            },
        path_views(after.folders@) == path_views(before.folders@),
        path_views(after.blocked@) == path_views(before.blocked@),
        after.scanner == before.scanner,
        after.isolate == before.isolate,
{
    let plugins = before@.plugins;
    let inside = lemma_places_under(plugins, folder, true);
    let outside = lemma_places_under(plugins, folder, false);
    assert(taken@.len() == entry_views(taken@).len());
    assert(after.plugins@.len() == entry_views(after.plugins@).len());
    assert(after@.folders == before@.folders && after@.blocked == before@.blocked);
    assert(after@.scanner == before@.scanner && after@.isolate == before@.isolate);
    assert forall|k: int| 0 <= k < inside.len() implies says_the_same(
        taken@[k],
        before.plugins@[#[trigger] inside[k]],
    ) && taken@[k].favorite == before.plugins@[inside[k]].favorite by {
        assert(entry_views(taken@)[k] == plugins[inside[k]]);
    }
    assert forall|k: int| 0 <= k < outside.len() implies says_the_same(
        after.plugins@[k],
        before.plugins@[#[trigger] outside[k]],
    ) && after.plugins@[k].favorite == before.plugins@[outside[k]].favorite by {
        assert(entry_views(after.plugins@)[k] == plugins[outside[k]]);
    }
    assert forall|i: int| 0 <= i < before.plugins@.len() implies {
        &&& (#[trigger] before.plugins@[i]).path@.lies_under(folder) <==> inside.contains(i)
        &&& !before.plugins@[i].path@.lies_under(folder) <==> outside.contains(i)
    } by {
        assert(plugins[i].path == before.plugins@[i].path@);
    }
    (inside, outside)
}

/// A plugin that was put in stands in the list with all that was said of it. If
/// it was there, it has the star that it had, and else the one it was given. The
/// others stay as they were. The place where it stands is returned.
pub proof fn an_inserted_plugin_is_listed(before: Library, entry: Entry, after: Library) -> (at:
    int)
    requires
        after@ == before@.with_plugins(with_entry(before@.plugins, entry@)),
    ensures
        0 <= at < after.plugins@.len(),
        says_the_same(after.plugins@[at], entry),
        at < before.plugins@.len() ==> {
            &&& before.plugins@[at].path@.is_same(entry.path@)
            &&& before.plugins@[at].id@ == entry.id@
            &&& after.plugins@[at].favorite == before.plugins@[at].favorite
            &&& after.plugins@.len() == before.plugins@.len()
        },
        at >= before.plugins@.len() ==> {
            &&& after.plugins@[at].favorite == entry.favorite
            &&& after.plugins@.len() == before.plugins@.len() + 1
            &&& forall|i: int|
                0 <= i < before.plugins@.len() ==> !((
                #[trigger] before.plugins@[i]).path@.is_same(entry.path@)
                    && before.plugins@[i].id@ == entry.id@)
        },
        forall|i: int|
            0 <= i < before.plugins@.len() && i != at ==> says_the_same(
                #[trigger] after.plugins@[i],
                before.plugins@[i],
            ) && after.plugins@[i].favorite == before.plugins@[i].favorite,
        path_views(after.folders@) == path_views(before.folders@),
        path_views(after.blocked@) == path_views(before.blocked@),
        after.scanner == before.scanner,
        after.isolate == before.isolate,
{
    let plugins = before@.plugins;
    let at = place_of(plugins, entry@.path, entry@.id);
    lemma_first_place(plugins, entry@.path, entry@.id, 0);
    assert(after.plugins@.len() == entry_views(after.plugins@).len());
    assert(after@.folders == before@.folders && after@.blocked == before@.blocked);
    assert(after@.scanner == before@.scanner && after@.isolate == before@.isolate);
    assert(after@.plugins[at] == after.plugins@[at]@);
    if at < plugins.len() {
        assert(plugins[at] == before.plugins@[at]@);
    } else {
        assert forall|i: int| 0 <= i < before.plugins@.len() implies !((
        #[trigger] before.plugins@[i]).path@.is_same(entry.path@) && before.plugins@[i].id@
            == entry.id@) by {
            assert(!plugins[i].stands_for(entry@.path, entry@.id));
        }
    }
    assert forall|i: int| 0 <= i < before.plugins@.len() && i != at implies says_the_same(
        #[trigger] after.plugins@[i],
        before.plugins@[i],
    ) && after.plugins@[i].favorite == before.plugins@[i].favorite by {
        assert(after@.plugins[i] == plugins[i]);
    }
    at
}

/// Turning a star over changes the star of the plugin with that path and id, and
/// nothing else. The place where it stands is returned; where it is not in the
/// list, that is the length.
pub proof fn a_star_is_turned_over(
    before: Library,
    path: PathView,
    id: Seq<char>,
    after: Library,
) -> (at: int)
    requires
        after@ == before@.with_plugins(with_star_turned(before@.plugins, path, id)),
    ensures
        after.plugins@.len() == before.plugins@.len(),
        0 <= at <= before.plugins@.len(),
        at < before.plugins@.len() ==> {
            &&& before.plugins@[at].path@.is_same(path)
            &&& before.plugins@[at].id@ == id
            &&& after.plugins@[at].favorite == !before.plugins@[at].favorite
        },
        at == before.plugins@.len() ==> forall|i: int|
            0 <= i < before.plugins@.len() ==> !((#[trigger] before.plugins@[i]).path@.is_same(path)
                && before.plugins@[i].id@ == id),
        forall|i: int|
            0 <= i < before.plugins@.len() ==> says_the_same(
                #[trigger] after.plugins@[i],
                before.plugins@[i],
            ),
        forall|i: int|
            0 <= i < before.plugins@.len() && i != at ==> (#[trigger] after.plugins@[i]).favorite
                == before.plugins@[i].favorite,
{
    let plugins = before@.plugins;
    let at = place_of(plugins, path, id);
    lemma_first_place(plugins, path, id, 0);
    assert(after.plugins@.len() == entry_views(after.plugins@).len());
    if at < plugins.len() {
        assert(plugins[at] == before.plugins@[at]@);
        assert(after@.plugins[at] == after.plugins@[at]@);
    } else {
        assert forall|i: int| 0 <= i < before.plugins@.len() implies !((
        #[trigger] before.plugins@[i]).path@.is_same(path) && before.plugins@[i].id@ == id) by {
            assert(!plugins[i].stands_for(path, id));
        }
    }
    assert forall|i: int| 0 <= i < before.plugins@.len() implies says_the_same(
        #[trigger] after.plugins@[i],
        before.plugins@[i],
    ) && (i != at ==> after.plugins@[i].favorite == before.plugins@[i].favorite) by {
        assert(after@.plugins[i] == after.plugins@[i]@);
        assert(plugins[i] == before.plugins@[i]@);
    }
    at
}

/// A sorted list goes by the names in lower case, and by the ids where there are
/// no names.
pub proof fn a_sorted_list_goes_by_name(before: Library, after: Library, i: int, j: int)
    requires
        after@ == before@.with_plugins(stable_sorted(before@.plugins)),
        0 <= i < j < after.plugins@.len(),
    ensures
        lexical_le(
            lowercase(
                if after.plugins@[i].name@.len() > 0 {
                    after.plugins@[i].name@
                } else {
                    after.plugins@[i].id@
                },
            ),
            lowercase(
                if after.plugins@[j].name@.len() > 0 {
                    after.plugins@[j].name@
                } else {
                    after.plugins@[j].id@
                },
            ),
        ),
        after.plugins@.len() == before.plugins@.len(),
{
    stable_sort_orders(before@.plugins);
    let sorted = after@.plugins;
    assert(sorted[i].rank_le(sorted[j]));
    assert(sorted[i] == after.plugins@[i]@ && sorted[j] == after.plugins@[j]@);
}

/// A list is written and read with everything that stands in it, but for the
/// plugins without a path or an id. The places of those that are read are
/// returned.
pub proof fn a_stored_list_is_read(stored: Stored, library: Library) -> (places: Seq<int>)
    requires
        library@ == stored@.library.with_plugins(with_targets(stored@.library.plugins)),
    ensures
        are_places(places, stored.plugins@.len()),
        places.len() == library.plugins@.len(),
        forall|k: int|
            0 <= k < places.len() ==> says_the_same(
                library.plugins@[k],
                stored.plugins@[#[trigger] places[k]],
            ) && library.plugins@[k].favorite == stored.plugins@[places[k]].favorite,
        forall|i: int|
            0 <= i < stored.plugins@.len() ==> ((#[trigger] stored.plugins@[i]).path.text@.len() > 0
                && stored.plugins@[i].id@.len() > 0 <==> places.contains(i)),
        path_views(library.folders@) == path_views(stored.folders@),
        path_views(library.blocked@) == path_views(stored.blocked@),
        library.scanner == stored.scanner,
        library.isolate == stored.isolate,
{
    let plugins = stored@.library.plugins;
    let places = lemma_places_of_targets(plugins);
    assert(library.plugins@.len() == entry_views(library.plugins@).len());
    assert(library@.folders == stored@.library.folders);
    assert(library@.blocked == stored@.library.blocked);
    assert(library@.scanner == stored@.library.scanner);
    assert(library@.isolate == stored@.library.isolate);
    assert forall|k: int| 0 <= k < places.len() implies says_the_same(
        library.plugins@[k],
        stored.plugins@[#[trigger] places[k]],
    ) && library.plugins@[k].favorite == stored.plugins@[places[k]].favorite by {
        assert(entry_views(library.plugins@)[k] == plugins[places[k]]);
    }
    assert forall|i: int| 0 <= i < stored.plugins@.len() implies ((
    #[trigger] stored.plugins@[i]).path.text@.len() > 0 && stored.plugins@[i].id@.len() > 0
        <==> places.contains(i)) by {
        assert(plugins[i] == stored.plugins@[i]@);
    }
    places
}

/// A list is written with everything that stands in it.
pub proof fn a_list_is_stored_as_it_is(library: Library, stored: Stored, i: int)
    requires
        stored@ == (StoredView { version: VERSION, library: library@ }),
    ensures
        stored.version == VERSION,
        stored.plugins@.len() == library.plugins@.len(),
        0 <= i < library.plugins@.len() ==> says_the_same(stored.plugins@[i], library.plugins@[i])
            && stored.plugins@[i].favorite == library.plugins@[i].favorite,
        path_views(stored.folders@) == path_views(library.folders@),
        path_views(stored.blocked@) == path_views(library.blocked@),
        stored.scanner == library.scanner,
        stored.isolate == library.isolate,
{
    assert(stored@.library.plugins.len() == stored.plugins@.len());
    assert(library@.plugins.len() == library.plugins@.len());
    assert(stored@.library.plugins == library@.plugins);
    assert(stored@.library.folders == library@.folders);
    assert(stored@.library.blocked == library@.blocked);
    if 0 <= i < library.plugins@.len() {
        assert(stored@.library.plugins[i] == stored.plugins@[i]@);
        assert(library@.plugins[i] == library.plugins@[i]@);
    }
}

/// The settings are kept in a folder beside the program, or in the current one
/// where the program's is not known.
pub proof fn settings_are_kept_beside_the_program(folder: Seq<char>, windows: bool)
    ensures
        config_folder(None, windows) == "config"@,
        folder.len() > 0 && !windows && folder.last() != '/' ==> config_folder(
            Some(folder),
            windows,
        ) == folder + "/config"@,
        folder.len() > 2 && windows && folder.last() != '/' && folder.last() != '\\'
            ==> config_folder(Some(folder), windows) == folder + "\\config"@,
{
    reveal_strlit("config");
    reveal_strlit("/config");
    reveal_strlit("\\config");
    if folder.len() > 0 && !windows && folder.last() != '/' {
        assert(joined(folder, "config"@, windows) =~= folder + "/config"@);
    }
    if folder.len() > 2 && windows && folder.last() != '/' && folder.last() != '\\' {
        assert(joined(folder, "config"@, windows) =~= folder + "\\config"@);
    }
}

} // verus!
