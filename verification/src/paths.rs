//! Paths as lists of parts.

use crate::sorting::Rank;
use crate::text::chars_of;
use vstd::prelude::*;
use vstd::string::StringExecFns;

verus! {

/// Whether `a` comes before `b` or has the same rank, item by item.
pub open spec fn lexical_le<T: Rank>(a: Seq<T>, b: Seq<T>) -> bool
    decreases a.len(),
{
    if a.len() == 0 {
        true
    } else if b.len() == 0 {
        false
    } else if !a[0].rank_le(b[0]) {
        false
    } else if !b[0].rank_le(a[0]) {
        true
    } else {
        lexical_le(a.skip(1), b.skip(1))
    }
}

/// Any two sequences can be compared.
pub proof fn lexical_total<T: Rank>(a: Seq<T>, b: Seq<T>)
    ensures
        lexical_le(a, b) || lexical_le(b, a),
    decreases a.len(),
{
    if a.len() > 0 && b.len() > 0 {
        T::rank_total(a[0], b[0]);
        lexical_total(a.skip(1), b.skip(1));
    }
}

/// The comparison of sequences is transitive.
pub proof fn lexical_transitive<T: Rank>(a: Seq<T>, b: Seq<T>, c: Seq<T>)
    requires
        lexical_le(a, b),
        lexical_le(b, c),
    ensures
        lexical_le(a, c),
    decreases a.len(),
{
    if a.len() > 0 {
        T::rank_transitive(a[0], b[0], c[0]);
        if c[0].rank_le(a[0]) {
            T::rank_transitive(c[0], a[0], b[0]);
            T::rank_transitive(b[0], c[0], a[0]);
            lexical_transitive(a.skip(1), b.skip(1), c.skip(1));
        }
    }
}

impl Rank for char {
    open spec fn rank_le(self, other: Self) -> bool {
        self <= other
    }

    proof fn rank_total(a: Self, b: Self) {
    }

    proof fn rank_transitive(a: Self, b: Self, c: Self) {
    }
}

/// Whether a text comes before another one or is the same, by the numbers of
/// its characters.
pub fn text_not_after(a: &Vec<char>, b: &Vec<char>) -> (yes: bool)
    ensures
        yes == lexical_le(a@, b@),
{
    let mut at: usize = 0;
    assert(a@.skip(0) =~= a@);
    assert(b@.skip(0) =~= b@);
    while at < a.len() && at < b.len()
        invariant
            at <= a@.len(),
            at <= b@.len(),
            lexical_le(a@, b@) == lexical_le(a@.skip(at as int), b@.skip(at as int)),
        decreases a@.len() - at,
    {
        let here: char = a[at];
        let there: char = b[at];
        if here > there {
            return false;
        }
        if here < there {
            return true;
        }
        proof {
            assert(a@.skip(at as int).skip(1) =~= a@.skip(at + 1));
            assert(b@.skip(at as int).skip(1) =~= b@.skip(at + 1));
        }
        at += 1;
    }
    at >= a.len()
}

/// A part of a path.
#[derive(Debug)]
pub enum PathPart {
    /// What stands before the root: a drive, or a share.
    Prefix(String),
    /// The root.
    Root,
    /// The folder itself, at the front of a path.
    Current,
    /// The folder above.
    Parent,
    /// A name.
    Normal(String),
}

/// What a [`PathPart`] holds.
#[verifier::ext_equal]
pub enum PartView {
    Prefix(Seq<char>),
    Root,
    Current,
    Parent,
    Normal(Seq<char>),
}

impl View for PathPart {
    type V = PartView;

    open spec fn view(&self) -> PartView {
        match self {
            PathPart::Prefix(text) => PartView::Prefix(text@),
            PathPart::Root => PartView::Root,
            PathPart::Current => PartView::Current,
            PathPart::Parent => PartView::Parent,
            PathPart::Normal(text) => PartView::Normal(text@),
        }
    }
}

impl PartView {
    /// The kinds of parts, in their order.
    pub open spec fn kind(self) -> int {
        match self {
            PartView::Prefix(_) => 0,
            PartView::Root => 1,
            PartView::Current => 2,
            PartView::Parent => 3,
            PartView::Normal(_) => 4,
        }
    }

    /// The text of a part that has one.
    pub open spec fn text(self) -> Seq<char> {
        match self {
            PartView::Prefix(text) => text,
            PartView::Normal(text) => text,
            _ => Seq::empty(),
        }
    }
}

/// Parts go by kind, then by text.
impl Rank for PartView {
    open spec fn rank_le(self, other: Self) -> bool {
        self.kind() < other.kind() || (self.kind() == other.kind() && lexical_le(
            self.text(),
            other.text(),
        ))
    }

    proof fn rank_total(a: Self, b: Self) {
        lexical_total(a.text(), b.text());
    }

    proof fn rank_transitive(a: Self, b: Self, c: Self) {
        if a.kind() == b.kind() && b.kind() == c.kind() {
            lexical_transitive(a.text(), b.text(), c.text());
        }
    }
}

/// The views of parts.
pub open spec fn part_views(parts: Seq<PathPart>) -> Seq<PartView> {
    Seq::new(parts.len(), |i: int| parts[i]@)
}

/// A path. The text is as it was given; the parts are what it means.
#[derive(Debug)]
pub struct PluginPath {
    pub text: String,
    pub parts: Vec<PathPart>,
}

/// What a [`PluginPath`] holds.
#[verifier::ext_equal]
pub struct PathView {
    pub text: Seq<char>,
    pub parts: Seq<PartView>,
}

impl View for PluginPath {
    type V = PathView;

    open spec fn view(&self) -> PathView {
        PathView { text: self.text@, parts: part_views(self.parts@) }
    }
}

impl PathView {
    /// Whether two paths mean the same, however they are written.
    pub open spec fn is_same(self, other: PathView) -> bool {
        self.parts == other.parts
    }

    /// Whether a path is a folder or lies in it.
    pub open spec fn lies_under(self, folder: PathView) -> bool {
        folder.parts.is_prefix_of(self.parts)
    }
}

/// Paths go by their parts.
impl Rank for PathView {
    open spec fn rank_le(self, other: Self) -> bool {
        lexical_le(self.parts, other.parts)
    }

    proof fn rank_total(a: Self, b: Self) {
        lexical_total(a.parts, b.parts);
    }

    proof fn rank_transitive(a: Self, b: Self, c: Self) {
        lexical_transitive(a.parts, b.parts, c.parts);
    }
}

/// The views of paths.
pub open spec fn path_views(paths: Seq<PluginPath>) -> Seq<PathView> {
    Seq::new(paths.len(), |i: int| paths[i]@)
}

impl PathPart {
    /// A copy of the part.
    pub fn duplicate(&self) -> (copy: PathPart)
        ensures
            copy@ == self@,
    {
        match self {
            PathPart::Prefix(text) => PathPart::Prefix(text.clone()),
            PathPart::Root => PathPart::Root,
            PathPart::Current => PathPart::Current,
            PathPart::Parent => PathPart::Parent,
            PathPart::Normal(text) => PathPart::Normal(text.clone()),
        }
    }

    /// Whether two parts are the same.
    pub fn same(&self, other: &PathPart) -> (yes: bool)
        ensures
            yes == (self@ == other@),
    {
        match (self, other) {
            (PathPart::Prefix(a), PathPart::Prefix(b)) => *a == *b,
            (PathPart::Normal(a), PathPart::Normal(b)) => *a == *b,
            (PathPart::Root, PathPart::Root) => true,
            (PathPart::Current, PathPart::Current) => true,
            (PathPart::Parent, PathPart::Parent) => true,
            _ => false,
        }
    }

    fn kind(&self) -> (kind: u8)
        ensures
            kind == self@.kind(),
    {
        match self {
            PathPart::Prefix(_) => 0,
            PathPart::Root => 1,
            PathPart::Current => 2,
            PathPart::Parent => 3,
            PathPart::Normal(_) => 4,
        }
    }

    fn chars(&self) -> (chars: Vec<char>)
        ensures
            chars@ == self@.text(),
    {
        match self {
            PathPart::Prefix(text) => chars_of(text.as_str()),
            PathPart::Normal(text) => chars_of(text.as_str()),
            _ => Vec::new(),
        }
    }

    /// Whether the part comes before another one or has the same rank.
    pub fn not_after(&self, other: &PathPart) -> (yes: bool)
        ensures
            yes == self@.rank_le(other@),
    {
        let here: u8 = self.kind();
        let there: u8 = other.kind();
        here < there || (here == there && text_not_after(&self.chars(), &other.chars()))
    }
}

impl PluginPath {
    /// A copy of the path.
    pub fn duplicate(&self) -> (copy: PluginPath)
        ensures
            copy@ == self@,
    {
        let mut parts: Vec<PathPart> = Vec::new();
        let mut at: usize = 0;
        while at < self.parts.len()
            invariant
                at <= self.parts@.len(),
                parts@.len() == at,
                forall|i: int| 0 <= i < at ==> (#[trigger] parts@[i])@ == self.parts@[i]@,
            decreases self.parts@.len() - at,
        {
            parts.push(self.parts[at].duplicate());
            at += 1;
        }
        assert(part_views(parts@) =~= part_views(self.parts@));
        PluginPath { text: self.text.clone(), parts }
    }

    /// Whether two paths mean the same.
    pub fn same(&self, other: &PluginPath) -> (yes: bool)
        ensures
            yes == self@.is_same(other@),
    {
        if self.parts.len() != other.parts.len() {
            assert(self@.parts.len() != other@.parts.len());
            return false;
        }
        let under: bool = self.starts_with(other);
        assert(self@.parts.len() == other@.parts.len());
        assert(under ==> self@.parts =~= other@.parts);
        under
    }

    /// Whether the path is a folder or lies in it.
    pub fn starts_with(&self, folder: &PluginPath) -> (yes: bool)
        ensures
            yes == self@.lies_under(folder@),
    {
        if self.parts.len() < folder.parts.len() {
            return false;
        }
        let mut at: usize = 0;
        while at < folder.parts.len()
            invariant
                at <= folder.parts@.len() <= self.parts@.len(),
                forall|i: int| 0 <= i < at ==> (#[trigger] folder.parts@[i])@ == self.parts@[i]@,
            decreases folder.parts@.len() - at,
        {
            if !folder.parts[at].same(&self.parts[at]) {
                assert(folder@.parts[at as int] != self@.parts[at as int]);
                assert(!self@.lies_under(folder@)) by {
                    if self@.lies_under(folder@) {
                        assert(folder@.parts[at as int] == self@.parts.subrange(
                            0,
                            folder@.parts.len() as int,
                        )[at as int]);
                    }
                }
                return false;
            }
            at += 1;
        }
        assert(folder@.parts =~= self@.parts.subrange(0, folder@.parts.len() as int));
        true
    }

    /// Whether the path comes before another one or means the same.
    pub fn not_after(&self, other: &PluginPath) -> (yes: bool)
        ensures
            yes == self@.rank_le(other@),
    {
        let mut at: usize = 0;
        assert(self@.parts.skip(0) =~= self@.parts);
        assert(other@.parts.skip(0) =~= other@.parts);
        while at < self.parts.len() && at < other.parts.len()
            invariant
                at <= self.parts@.len(),
                at <= other.parts@.len(),
                lexical_le(self@.parts, other@.parts) == lexical_le(
                    self@.parts.skip(at as int),
                    other@.parts.skip(at as int),
                ),
            decreases self.parts@.len() - at,
        {
            if !self.parts[at].not_after(&other.parts[at]) {
                return false;
            }
            if !other.parts[at].not_after(&self.parts[at]) {
                return true;
            }
            proof {
                assert(self@.parts.skip(at as int).skip(1) =~= self@.parts.skip(at + 1));
                assert(other@.parts.skip(at as int).skip(1) =~= other@.parts.skip(at + 1));
            }
            at += 1;
        }
        at >= self.parts.len()
    }
}

/// Whether a path is among others.
pub open spec fn has_path(paths: Seq<PathView>, path: PathView) -> bool {
    exists|i: int| 0 <= i < paths.len() && (#[trigger] paths[i]).is_same(path)
}

/// Whether a path is among others.
pub fn holds_path(paths: &Vec<PluginPath>, path: &PluginPath) -> (yes: bool)
    ensures
        yes == has_path(path_views(paths@), path@),
{
    let mut at: usize = 0;
    while at < paths.len()
        invariant
            at <= paths@.len(),
            forall|i: int| 0 <= i < at ==> !(#[trigger] paths@[i])@.is_same(path@),
        decreases paths@.len() - at,
    {
        if paths[at].same(path) {
            assert(path_views(paths@)[at as int].is_same(path@));
            return true;
        }
        at += 1;
    }
    assert forall|i: int| 0 <= i < path_views(paths@).len() implies !(#[trigger] path_views(
        paths@,
    )[i]).is_same(path@) by {
        assert(!paths@[i]@.is_same(path@));
    }
    false
}

/// Two paths of the same rank mean the same.
pub proof fn paths_of_a_rank_are_the_same(a: PathView, b: PathView)
    requires
        a.rank_le(b),
        b.rank_le(a),
    ensures
        a.is_same(b),
{
    lemma_parts_of_a_rank(a.parts, b.parts);
}

proof fn lemma_texts_of_a_rank(a: Seq<char>, b: Seq<char>)
    requires
        lexical_le(a, b),
        lexical_le(b, a),
    ensures
        a == b,
    decreases a.len(),
{
    if a.len() > 0 {
        lemma_texts_of_a_rank(a.skip(1), b.skip(1));
        assert(a[0] == b[0]);
        assert(a =~= seq![a[0]] + a.skip(1));
        assert(b =~= seq![b[0]] + b.skip(1));
    } else {
        assert(b.len() == 0);
        assert(a =~= b);
    }
}

proof fn lemma_parts_of_a_rank(a: Seq<PartView>, b: Seq<PartView>)
    requires
        lexical_le(a, b),
        lexical_le(b, a),
    ensures
        a == b,
    decreases a.len(),
{
    if a.len() > 0 {
        lemma_parts_of_a_rank(a.skip(1), b.skip(1));
        lemma_texts_of_a_rank(a[0].text(), b[0].text());
        assert(a[0] == b[0]);
        assert(a =~= seq![a[0]] + a.skip(1));
        assert(b =~= seq![b[0]] + b.skip(1));
    } else {
        assert(b.len() == 0);
        assert(a =~= b);
    }
}

/// A path joined with a name, as text. The separator is left out where there is
/// one already, behind an empty text, and behind a bare drive.
pub open spec fn joined(text: Seq<char>, name: Seq<char>, windows: bool) -> Seq<char> {
    if needs_separator(text, windows) {
        text + (if windows {
            seq!['\\']
        } else {
            seq!['/']
        }) + name
    } else {
        text + name
    }
}

/// Whether a separator is put behind a text.
pub open spec fn needs_separator(text: Seq<char>, windows: bool) -> bool {
    if text.len() == 0 {
        false
    } else if text.last() == '/' {
        false
    } else if !windows {
        true
    } else {
        text.last() != '\\' && !is_drive(text)
    }
}

/// Whether a text is a drive and nothing else.
pub open spec fn is_drive(text: Seq<char>) -> bool {
    text.len() == 2 && text[1] == ':' && ('a' <= text[0] <= 'z' || 'A' <= text[0] <= 'Z')
}

/// Joins a path and a name, as text.
pub fn join(text: &str, name: &str, windows: bool) -> (path: String)
    ensures
        path@ == joined(text@, name@, windows),
{
    let count: usize = text.unicode_len();
    let separator: bool = if count == 0 {
        false
    } else {
        let last: char = text.get_char(count - 1);
        if last == '/' {
            false
        } else if !windows {
            true
        } else {
            let drive: bool = if count == 2 {
                let first: char = text.get_char(0);
                last == ':' && (('a' <= first && first <= 'z') || ('A' <= first && first <= 'Z'))
            } else {
                false
            };
            last != '\\' && !drive
        }
    };
    let mut path = String::from_str(text);
    if separator {
        proof {
            reveal_strlit("\\");
            reveal_strlit("/");
            assert("\\"@ =~= seq!['\\']);
            assert("/"@ =~= seq!['/']);
        }
        if windows {
            path.append("\\");
        } else {
            path.append("/");
        }
    }
    path.append(name);
    path
}

/// Of two texts, the one that ends first, or that has the smaller character
/// where they part, comes first.
pub proof fn texts_go_by_their_first_difference(a: Seq<char>, b: Seq<char>, at: int)
    requires
        0 <= at <= a.len(),
        at <= b.len(),
        forall|i: int| 0 <= i < at ==> a[i] == b[i],
    ensures
        at == a.len() ==> lexical_le(a, b),
        at == b.len() && at < a.len() ==> !lexical_le(a, b),
        at < a.len() && at < b.len() && a[at] != b[at] ==> (lexical_le(a, b) <==> a[at] < b[at]),
    decreases at,
{
    if at > 0 {
        assert(a[0] == b[0]);
        assert forall|i: int| 0 <= i < at - 1 implies a.skip(1)[i] == b.skip(1)[i] by {
            assert(a[i + 1] == b[i + 1]);
        }
        texts_go_by_their_first_difference(a.skip(1), b.skip(1), at - 1);
    }
}

/// Paths are the same if they have the same parts, and one lies under another
/// if it begins with all the parts of that.
pub proof fn paths_go_by_their_parts(path: PluginPath, other: PluginPath)
    ensures
        path@.is_same(other@) <==> (path.parts@.len() == other.parts@.len() && forall|i: int|
            0 <= i < path.parts@.len() ==> (#[trigger] path.parts@[i])@ == other.parts@[i]@),
        path@.lies_under(other@) <==> (other.parts@.len() <= path.parts@.len() && forall|i: int|
            0 <= i < other.parts@.len() ==> (#[trigger] path.parts@[i])@ == other.parts@[i]@),
{
    let a = path@.parts;
    let b = other@.parts;
    if path@.is_same(other@) {
        assert forall|i: int| 0 <= i < path.parts@.len() implies (#[trigger] path.parts@[i])@
            == other.parts@[i]@ by {
            assert(a[i] == b[i]);
        }
    } else if path.parts@.len() == other.parts@.len() {
        if forall|i: int|
            0 <= i < path.parts@.len() ==> (#[trigger] path.parts@[i])@ == other.parts@[i]@ {
            assert(a =~= b);
        }
    }
    if path@.lies_under(other@) {
        assert forall|i: int| 0 <= i < other.parts@.len() implies (#[trigger] path.parts@[i])@
            == other.parts@[i]@ by {
            assert(a.subrange(0, b.len() as int)[i] == b[i]);
        }
    } else if other.parts@.len() <= path.parts@.len() {
        if forall|i: int|
            0 <= i < other.parts@.len() ==> (#[trigger] path.parts@[i])@ == other.parts@[i]@ {
            assert(b =~= a.subrange(0, b.len() as int));
        }
    }
}

/// Two parts mean the same if they are of one kind and have the same text.
pub proof fn parts_go_by_kind_and_text(part: PathPart, other: PathPart)
    ensures
        part@ == other@ <==> match (part, other) {
            (PathPart::Prefix(a), PathPart::Prefix(b)) => a@ == b@,
            (PathPart::Root, PathPart::Root) => true,
            (PathPart::Current, PathPart::Current) => true,
            (PathPart::Parent, PathPart::Parent) => true,
            (PathPart::Normal(a), PathPart::Normal(b)) => a@ == b@,
            _ => false,
        },
{
}

/// A name joined to a path stands at its end, and the path at its front. At most
/// one character stands between, and only where the path does not end in a
/// separator.
pub proof fn a_joined_path_holds_both(text: Seq<char>, name: Seq<char>, windows: bool)
    ensures
        ({
            let path = joined(text, name, windows);
            let count = path.len() - text.len() - name.len();
            &&& 0 <= count <= 1
            &&& path.take(text.len() as int) == text
            &&& path.skip(path.len() - name.len()) == name
            &&& count == 1 && windows ==> path[text.len() as int] == '\\'
            &&& count == 1 && !windows ==> path[text.len() as int] == '/'
            &&& text.len() == 0 ==> path == name
            &&& text.len() > 0 && text.last() == '/' ==> count == 0
            &&& text.len() > 0 && windows && text.last() == '\\' ==> count == 0
            &&& text.len() > 0 && !windows && text.last() != '/' ==> count == 1
            &&& text.len() > 2 && windows && text.last() != '/' && text.last() != '\\' ==> count
                == 1
        }),
{
    let path = joined(text, name, windows);
    assert(path.take(text.len() as int) =~= text);
    assert(path.skip(path.len() - name.len()) =~= name);
    if text.len() == 0 {
        assert(path =~= name);
    }
}

} // verus!
