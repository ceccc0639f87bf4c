//! Copying the host files a [`StagePlan`] names into the guest.
//!
//! The plan says *which* host paths the kitchen file references and where each
//! lands (see [`crate::config::staging`]); this module turns what is found there
//! into the members of an archive, and says what a previous stage left behind.
//!
//! Everything lands under [`GUEST_FILES_DIR`], never beside
//! `/opt/kitchen/mise.toml`, so a stage can never damage mise's system config.
//! Ownership travels in the archive rather than in a `chown` pass: members carry
//! chef's numeric uid and gid. Numeric, because chef does not exist as a *name*
//! until `mise bootstrap accounts apply` has run.

use vstd::prelude::*;
use vstd::utf8::encode_utf8;

use crate::broker::bindings::has_name;
use crate::config::schema::GuestUser;
use crate::config::staging::{SourceView, StagePlan, StagedSource, GUEST_FILES_DIR};
use crate::digest::{hex_text, sha256, sha256_of, short_digest, short_hash, to_hex};
use crate::maps::{text_before, text_lt, TextMap};
use crate::paths::{
    lemma_real_names_concat, lemma_real_names_of, lemma_resolve_dots_keep, path_parts, real_names,
    take_apart,
};
use crate::text::{
    after, chars, concat, concat3, concat4, contains_char, decimal, has_prefix, join, join_with,
    lemma_split_concat, lossy, lossy_text, push_decimal, push_signed, signed_decimal, split,
    split_at, starts_with, string_of, strip_prefix, trim, trimmed, views,
};

verus! {

// ---------------------------------------------------------------------------
// What is left out
// ---------------------------------------------------------------------------

/// A Unix shell pattern of the `glob` crate.
#[verifier::external_type_specification]
#[verifier::external_body]
pub struct ExPattern(glob::Pattern);

/// The text that a pattern was read from.
pub uninterp spec fn pattern_source(pattern: glob::Pattern) -> Seq<char>;

/// Whether a text is a Unix shell pattern.
pub uninterp spec fn is_glob_pattern(text: Seq<char>) -> bool;

/// Whether a text matches a Unix shell pattern.
pub uninterp spec fn pattern_matches(pattern: Seq<char>, text: Seq<char>) -> bool;

/// `glob::Pattern::new`: the pattern that a text writes, or `None`. Which texts
/// are patterns is left to the crate.
#[verifier::external_body]
fn read_pattern(text: &str) -> (r: Option<glob::Pattern>)
    ensures
        r is Some <==> is_glob_pattern(text@),
        r matches Some(pattern) ==> pattern_source(pattern) == text@,
{
    glob::Pattern::new(text).ok()
}

/// `glob::Pattern::matches`: whether a text matches a pattern, a function of the
/// two. What a pattern matches is left to the crate.
#[verifier::external_body]
fn is_match(pattern: &glob::Pattern, text: &str) -> (r: bool)
    ensures
        r == pattern_matches(pattern_source(*pattern), text@),
{
    pattern.matches(text)
}

/// Whether a text matches a Unix shell pattern. A text that is no pattern
/// matches nothing.
pub open spec fn glob_matches(pattern: Seq<char>, text: Seq<char>) -> bool {
    is_glob_pattern(pattern) && pattern_matches(pattern, text)
}

fn matches_glob(pattern: &str, text: &str) -> (r: bool)
    ensures
        r == glob_matches(pattern@, text@),
{
    match read_pattern(pattern) {
        Some(pattern) => is_match(&pattern, text),
        None => false,
    }
}

/// A text without its leading slashes.
pub open spec fn unrooted(s: Seq<char>) -> Seq<char>
    decreases s.len(),
{
    if s.len() > 0 && s[0] == '/' {
        unrooted(after(s, 1))
    } else {
        s
    }
}

fn strip_slashes(s: &str) -> (r: String)
    ensures
        r@ == unrooted(s@),
{
    let v = chars(s);
    let mut from: usize = 0;
    assert(after(v@, 0) =~= s@);
    while from < v.len() && v[from] == '/'
        invariant
            from <= v@.len(),
            unrooted(s@) == unrooted(after(v@, from as int)),
        decreases v@.len() - from,
    {
        assert(after(after(v@, from as int), 1) =~= after(v@, from + 1));
        from += 1;
    }
    string_of(&v, from, v.len())
}

/// Whether a pattern excludes a path. One holding `/` is anchored to the source
/// root, so a leading one is only a marker (`/mise.toml`); one without matches
/// any single name of the path.
pub open spec fn pattern_excludes(pattern: Seq<char>, relative: Seq<char>) -> bool {
    if pattern.contains('/') {
        glob_matches(unrooted(pattern), relative)
    } else {
        exists|i: int|
            0 <= i < path_parts(relative).names.len() && glob_matches(
                unrooted(pattern),
                #[trigger] path_parts(relative).names[i],
            )
    }
}

/// Whether a path below a source is excluded.
pub open spec fn is_excluded(relative: Seq<char>, patterns: Seq<Seq<char>>) -> bool {
    relative.len() > 0 && exists|i: int|
        0 <= i < patterns.len() && pattern_excludes(#[trigger] patterns[i], relative)
}

fn excludes(pattern: &str, relative: &str) -> (r: bool)
    ensures
        r == pattern_excludes(pattern@, relative@),
{
    let bare = strip_slashes(pattern);
    if contains_char(pattern, '/') {
        return matches_glob(bare.as_str(), relative);
    }
    let parts = take_apart(relative);
    let ghost names = path_parts(relative@).names;
    let mut i: usize = 0;
    while i < parts.names.len()
        invariant
            i <= parts.names@.len(),
            names == views(parts.names@),
            names == path_parts(relative@).names,
            !pattern@.contains('/'),
            bare@ == unrooted(pattern@),
            forall|k: int| 0 <= k < i ==> !glob_matches(bare@, #[trigger] names[k]),
        decreases parts.names@.len() - i,
    {
        if matches_glob(bare.as_str(), parts.names[i].as_str()) {
            assert(glob_matches(bare@, names[i as int]));
            return true;
        }
        i += 1;
    }
    false
}

/// Whether `relative` is excluded. A pattern holding `/` is anchored to the
/// source root; one without matches any single path component, as mise's is.
pub fn excluded(relative: &str, patterns: &Vec<String>) -> (r: bool)
    ensures
        r == is_excluded(relative@, views(patterns@)),
{
    if relative.is_empty() {
        assert(relative@.len() == 0);
        return false;
    }
    let ghost pv = views(patterns@);
    let mut i: usize = 0;
    while i < patterns.len()
        invariant
            i <= patterns@.len(),
            pv == views(patterns@),
            relative@.len() > 0,
            forall|k: int| 0 <= k < i ==> !pattern_excludes(#[trigger] pv[k], relative@),
        decreases patterns@.len() - i,
    {
        if excludes(patterns[i].as_str(), relative) {
            assert(pattern_excludes(pv[i as int], relative@));
            return true;
        }
        i += 1;
    }
    false
}

/// The path of the first `n` names.
pub open spec fn first_names(relative: Seq<char>, n: int) -> Seq<char> {
    join(path_parts(relative).names.subrange(0, n), "/"@)
}

/// Whether a path or a directory above it is excluded: what is in an excluded
/// directory is excluded with it.
pub open spec fn is_pruned(relative: Seq<char>, patterns: Seq<Seq<char>>) -> bool {
    exists|n: int|
        0 < n <= path_parts(relative).names.len() && #[trigger] is_excluded(
            first_names(relative, n),
            patterns,
        )
}

fn pruned(relative: &str, patterns: &Vec<String>) -> (r: bool)
    ensures
        r == is_pruned(relative@, views(patterns@)),
{
    let parts = take_apart(relative);
    let ghost names = path_parts(relative@).names;
    let mut above: Vec<String> = Vec::new();
    let mut i: usize = 0;
    while i < parts.names.len()
        invariant
            i <= parts.names@.len(),
            names == views(parts.names@),
            names == path_parts(relative@).names,
            views(above@) == names.subrange(0, i as int),
            forall|n: int|
                0 < n <= i ==> !(#[trigger] is_excluded(first_names(relative@, n), views(patterns@))),
        decreases parts.names@.len() - i,
    {
        let ghost done = views(above@);
        above.push(parts.names[i].clone());
        assert(views(above@) =~= done.push(names[i as int]));
        assert(views(above@) =~= names.subrange(0, i + 1));
        let path = join_with(&above, "/");
        if excluded(path.as_str(), patterns) {
            assert(is_excluded(first_names(relative@, i + 1), views(patterns@)));
            return true;
        }
        i += 1;
    }
    false
}

/// Whether a path is in git's index.
pub open spec fn is_tracked(relative: Seq<char>, index: Seq<Seq<char>>) -> bool {
    exists|i: int|
        0 <= i < index.len() && path_parts(#[trigger] index[i]) == path_parts(relative)
}

fn tracks(relative: &str, index: &Vec<String>) -> (r: bool)
    ensures
        r == is_tracked(relative@, views(index@)),
{
    let path = take_apart(relative);
    let ghost tv = views(index@);
    let mut i: usize = 0;
    while i < index.len()
        invariant
            i <= index@.len(),
            tv == views(index@),
            path@ == path_parts(relative@),
            forall|k: int| 0 <= k < i ==> path_parts(#[trigger] tv[k]) != path_parts(relative@),
        decreases index@.len() - i,
    {
        if take_apart(index[i].as_str()).equals(&path) {
            assert(path_parts(tv[i as int]) == path_parts(relative@));
            return true;
        }
        i += 1;
    }
    false
}

/// Whether something below a source is staged: it is not excluded, and with
/// `manifest = "git"` it is a directory or in git's index.
pub open spec fn is_wanted(
    exclude: Seq<Seq<char>>,
    index: Option<Seq<Seq<char>>>,
    relative: Seq<char>,
    dir: bool,
) -> bool {
    &&& !is_pruned(relative, exclude)
    &&& index matches Some(index) ==> dir || is_tracked(relative, index)
}

/// The texts of an index, where there is one.
pub open spec fn index_view(index: Option<Vec<String>>) -> Option<Seq<Seq<char>>> {
    match index {
        Some(paths) => Some(views(paths@)),
        None => None,
    }
}

pub fn wanted(source: &StagedSource, index: &Option<Vec<String>>, relative: &str, dir: bool) -> (r:
    bool)
    ensures
        r == is_wanted(source@.exclude, index_view(*index), relative@, dir),
{
    if pruned(relative, &source.exclude) {
        return false;
    }
    match index {
        Some(index) => dir || tracks(relative, index),
        None => true,
    }
}

/// The paths that `git ls-files -z` prints.
pub open spec fn index_paths(pieces: Seq<Seq<u8>>) -> Seq<Seq<char>>
    decreases pieces.len(),
{
    if pieces.len() == 0 {
        Seq::empty()
    } else if pieces.last().len() == 0 {
        index_paths(pieces.drop_last())
    } else {
        index_paths(pieces.drop_last()).push(lossy_text(pieces.last()))
    }
}

/// Paths in git's index, from what `git ls-files -z` printed.
pub fn git_manifest(stdout: &[u8]) -> (r: Vec<String>)
    ensures
        views(r@) == index_paths(split(stdout@, 0u8)),
{
    let mut paths: Vec<String> = Vec::new();
    let mut piece: Vec<u8> = Vec::new();
    let mut i: usize = 0;
    let ghost mut done: Seq<Seq<u8>> = Seq::empty();
    assert(views(paths@) =~= Seq::empty());
    assert(stdout@.subrange(0, 0) =~= Seq::empty());
    assert(split(stdout@.subrange(0, 0), 0u8) =~= done.push(piece@));
    while i < stdout.len()
        invariant
            i <= stdout@.len(),
            split(stdout@.subrange(0, i as int), 0u8) == done.push(piece@),
            views(paths@) == index_paths(done),
        decreases stdout@.len() - i,
    {
        let ghost head = stdout@.subrange(0, i as int);
        let ghost next = stdout@.subrange(0, i + 1);
        assert(next.drop_last() =~= head);
        assert(next.last() == stdout@[i as int]);
        let byte = stdout[i];
        if byte == 0 {
            let ghost before = done;
            let ghost ended = piece@;
            let ghost listed = views(paths@);
            proof {
                done = done.push(piece@);
                assert(done.drop_last() =~= before);
            }
            if piece.len() > 0 {
                paths.push(lossy(piece.as_slice()));
                assert(views(paths@) =~= listed.push(lossy_text(ended)));
            }
            piece = Vec::new();
            assert(split(next, 0u8) =~= done.push(piece@));
        } else {
            let ghost before = piece@;
            piece.push(byte);
            assert(done.push(before).drop_last() =~= done);
            assert(done.push(before).last() == before);
            assert(split(next, 0u8) =~= done.push(piece@));
        }
        i += 1;
    }
    assert(stdout@.subrange(0, stdout@.len() as int) =~= stdout@);
    let ghost listed = views(paths@);
    assert(done.push(piece@).drop_last() =~= done);
    if piece.len() > 0 {
        paths.push(lossy(piece.as_slice()));
        assert(views(paths@) =~= listed.push(lossy_text(piece@)));
    }
    paths
}

// ---------------------------------------------------------------------------
// What is staged
// ---------------------------------------------------------------------------

#[derive(Debug, Clone, Copy, PartialEq, Eq, Structural)]
pub enum Kind {
    File,
    Dir,
    Symlink,
}

/// Something found below a directory source.
#[derive(Debug, PartialEq, Eq)]
pub struct Found {
    /// Its path below the source; empty for the source itself.
    pub relative: String,
    /// What it is; `None` for sockets, fifos and devices.
    pub kind: Option<Kind>,
    /// Its permissions, and whatever else the system keeps with them.
    pub mode: u32,
    /// Where to read the bytes from.
    pub host: String,
    pub size: u64,
    /// Content hash, or the link target for [`Kind::Symlink`].
    pub fingerprint: String,
}

/// A [`Found`] by its contents.
#[verifier::ext_equal]
pub struct FoundView {
    pub relative: Seq<char>,
    pub kind: Option<Kind>,
    pub mode: u32,
    pub host: Seq<char>,
    pub size: u64,
    pub fingerprint: Seq<char>,
}

impl View for Found {
    type V = FoundView;

    open spec fn view(&self) -> FoundView {
        FoundView {
            relative: self.relative@,
            kind: self.kind,
            mode: self.mode,
            host: self.host@,
            size: self.size,
            fingerprint: self.fingerprint@,
        }
    }
}

/// What is found where a source points.
#[derive(Debug, PartialEq, Eq)]
pub enum Scan {
    /// Nothing. A missing source is reported at its line; a stage that runs
    /// anyway simply leaves it out.
    Missing,
    File { mode: u32, size: u64, fingerprint: String },
    /// With `manifest = "git"`, also what is in git's index.
    Dir { index: Option<Vec<String>>, found: Vec<Found> },
}

/// A [`Scan`] by its contents.
pub enum ScanView {
    Missing,
    File { mode: u32, size: u64, fingerprint: Seq<char> },
    Dir { index: Option<Seq<Seq<char>>>, found: Seq<FoundView> },
}

impl View for Scan {
    type V = ScanView;

    open spec fn view(&self) -> ScanView {
        match self {
            Scan::Missing => ScanView::Missing,
            Scan::File { mode, size, fingerprint } => ScanView::File {
                mode: *mode,
                size: *size,
                fingerprint: fingerprint@,
            },
            Scan::Dir { index, found } => ScanView::Dir {
                index: index_view(*index),
                found: views(found@),
            },
        }
    }
}

/// One archive member. Paths are relative to [`GUEST_FILES_DIR`], which is the
/// directory the guest extracts into.
#[derive(Debug, PartialEq, Eq)]
pub struct Entry {
    pub path: String,
    pub kind: Kind,
    pub mode: u32,
    /// Where to read the bytes from, for [`Kind::File`].
    pub host: String,
    pub size: u64,
    /// Content hash, or the link target for [`Kind::Symlink`].
    pub fingerprint: String,
}

/// An [`Entry`] by its contents.
#[verifier::ext_equal]
pub struct EntryView {
    pub path: Seq<char>,
    pub kind: Kind,
    pub mode: u32,
    pub host: Seq<char>,
    pub size: u64,
    pub fingerprint: Seq<char>,
}

impl View for Entry {
    type V = EntryView;

    open spec fn view(&self) -> EntryView {
        EntryView {
            path: self.path@,
            kind: self.kind,
            mode: self.mode,
            host: self.host@,
            size: self.size,
            fingerprint: self.fingerprint@,
        }
    }
}

/// The permissions of a mode.
pub open spec fn permissions(mode: u32) -> u32 {
    (mode % 0o10000) as u32
}

/// Entries with one more, unless its guest path is already taken, which happens
/// when two sources overlap. `taken` are the paths that count as taken.
pub open spec fn with_entry(
    entries: Seq<EntryView>,
    taken: Seq<Seq<char>>,
    entry: EntryView,
) -> (Seq<EntryView>, Seq<Seq<char>>) {
    if taken.contains(entry.path) {
        (entries, taken)
    } else {
        (entries.push(entry), taken.push(entry.path))
    }
}

/// The member of a thing found below a source that is staged at `base`.
pub open spec fn entry_of(base: Seq<char>, found: FoundView, kind: Kind) -> EntryView {
    EntryView {
        path: base + "/"@ + found.relative,
        kind,
        mode: permissions(found.mode),
        host: found.host,
        size: if kind == Kind::File {
            found.size
        } else {
            0
        },
        fingerprint: if kind == Kind::Dir {
            Seq::empty()
        } else {
            found.fingerprint
        },
    }
}

/// Entries with those of a directory source.
pub open spec fn with_found(
    entries: Seq<EntryView>,
    taken: Seq<Seq<char>>,
    base: Seq<char>,
    exclude: Seq<Seq<char>>,
    index: Option<Seq<Seq<char>>>,
    found: Seq<FoundView>,
) -> (Seq<EntryView>, Seq<Seq<char>>)
    decreases found.len(),
{
    if found.len() == 0 {
        (entries, taken)
    } else {
        let (entries, taken) = with_found(
            entries,
            taken,
            base,
            exclude,
            index,
            found.drop_last(),
        );
        let last = found.last();
        if last.relative.len() == 0 {
            // The source itself.
            (
                entries.push(
                    EntryView {
                        path: base,
                        kind: Kind::Dir,
                        mode: 0o755,
                        host: last.host,
                        size: 0,
                        fingerprint: Seq::empty(),
                    },
                ),
                taken,
            )
        } else if !is_wanted(exclude, index, last.relative, last.kind == Some(Kind::Dir)) {
            (entries, taken)
        } else {
            match last.kind {
                Some(kind) => with_entry(entries, taken, entry_of(base, last, kind)),
                // Nothing sensible to copy.
                None => (entries, taken),
            }
        }
    }
}

/// Where a source is staged, below [`GUEST_FILES_DIR`].
pub open spec fn base_of(guest: Seq<char>) -> Seq<char> {
    let prefix = GUEST_FILES_DIR@ + "/"@;
    if starts_with(guest, prefix) {
        after(guest, prefix.len() as int)
    } else {
        guest
    }
}

/// Entries with those of one source.
pub open spec fn with_scan(
    entries: Seq<EntryView>,
    taken: Seq<Seq<char>>,
    source: SourceView,
    scan: ScanView,
) -> (Seq<EntryView>, Seq<Seq<char>>) {
    let base = base_of(source.guest);
    match scan {
        ScanView::Missing => (entries, taken),
        ScanView::File { mode, size, fingerprint } => with_entry(
            entries,
            taken,
            EntryView {
                path: base,
                kind: Kind::File,
                mode: permissions(mode),
                host: source.host,
                size,
                fingerprint,
            },
        ),
        ScanView::Dir { index, found } => with_found(
            entries,
            taken,
            base,
            source.exclude,
            index,
            found,
        ),
    }
}

/// The entries of all sources, in the order in which they are found.
pub open spec fn with_scans(sources: Seq<SourceView>, scans: Seq<ScanView>) -> (
    Seq<EntryView>,
    Seq<Seq<char>>,
)
    decreases sources.len(),
{
    if sources.len() == 0 {
        (Seq::empty(), Seq::empty())
    } else {
        let (entries, taken) = with_scans(sources.drop_last(), scans);
        with_scan(entries, taken, sources.last(), scans[sources.len() - 1])
    }
}

/// Sorted entries with one more: behind those whose path is not greater.
pub open spec fn placed(sorted: Seq<EntryView>, entry: EntryView) -> Seq<EntryView>
    decreases sorted.len(),
{
    if sorted.len() > 0 && text_lt(entry.path, sorted.last().path) {
        placed(sorted.drop_last(), entry).push(sorted.last())
    } else {
        sorted.push(entry)
    }
}

/// Entries by path; equal paths stay in the order in which they were found.
pub open spec fn by_path(entries: Seq<EntryView>) -> Seq<EntryView>
    decreases entries.len(),
{
    if entries.len() == 0 {
        Seq::empty()
    } else {
        placed(by_path(entries.drop_last()), entries.last())
    }
}

/// The members of a stage.
pub open spec fn staged(sources: Seq<SourceView>, scans: Seq<ScanView>) -> Seq<EntryView> {
    by_path(with_scans(sources, scans).0)
}

pub open spec fn file_count(entries: Seq<EntryView>) -> nat
    decreases entries.len(),
{
    if entries.len() == 0 {
        0
    } else {
        file_count(entries.drop_last()) + if entries.last().kind == Kind::File {
            1nat
        } else {
            0
        }
    }
}

pub open spec fn byte_count(entries: Seq<EntryView>) -> nat
    decreases entries.len(),
{
    if entries.len() == 0 {
        0
    } else {
        byte_count(entries.drop_last()) + entries.last().size as nat
    }
}

/// The letter of a kind.
pub open spec fn kind_byte(kind: Kind) -> u8 {
    match kind {
        Kind::File => 0x66,
        Kind::Dir => 0x64,
        Kind::Symlink => 0x6c,
    }
}

/// Permissions as four octal digits.
pub open spec fn octal(mode: u32) -> Seq<u8> {
    seq![
        (0x30 + mode / 512 % 8) as u8,
        (0x30 + mode / 64 % 8) as u8,
        (0x30 + mode / 8 % 8) as u8,
        (0x30 + mode % 8) as u8,
    ]
}

/// What is hashed of a member: path, kind, permissions and content.
pub open spec fn entry_bytes(entry: EntryView) -> Seq<u8> {
    encode_utf8(entry.path) + seq![0u8, kind_byte(entry.kind), 0u8] + octal(entry.mode)
        + seq![0u8] + encode_utf8(entry.fingerprint) + seq![0x0au8]
}

pub open spec fn all_bytes(entries: Seq<EntryView>) -> Seq<u8>
    decreases entries.len(),
{
    if entries.len() == 0 {
        Seq::empty()
    } else {
        all_bytes(entries.drop_last()) + entry_bytes(entries.last())
    }
}

/// Digest of the staged contents. Host paths, times and ownership are left out:
/// ownership comes from the configuration, which is hashed on its own.
pub open spec fn digest_of(entries: Seq<EntryView>) -> Seq<char> {
    if entries.len() == 0 {
        Seq::empty()
    } else {
        short_hash(all_bytes(entries), 8)
    }
}

/// What a [`StagePlan`] expands to against the host filesystem right now.
#[derive(Debug, PartialEq, Eq)]
pub struct StageArchive {
    /// Guest paths this stage owns, so the next one can remove what is gone.
    pub roots: Vec<String>,
    /// Digest of the contents, for `remodel`'s change detection.
    pub digest: String,
    pub files: usize,
    pub bytes: u64,
    pub entries: Vec<Entry>,
}

impl StageArchive {
    pub fn is_empty(&self) -> (r: bool)
        ensures
            r == (self.entries@.len() == 0),
    {
        self.entries.len() == 0
    }
}

// ---------------------------------------------------------------------------
// Collecting
// ---------------------------------------------------------------------------

/// Add an entry unless its guest path is already taken.
fn push(entries: &mut Vec<Entry>, seen: &mut Vec<String>, entry: Entry)
    ensures
        (views(final(entries)@), views(final(seen)@)) == with_entry(
            views(old(entries)@),
            views(old(seen)@),
            entry@,
        ),
{
    let ghost had = views(entries@);
    let ghost taken = views(seen@);
    if !has_name(seen, entry.path.as_str()) {
        let ghost added = entry@;
        seen.push(entry.path.clone());
        assert(views(seen@) =~= taken.push(added.path));
        entries.push(entry);
        assert(views(entries@) =~= had.push(added));
    }
}

/// Go through a directory source, honouring `exclude` and git's index.
fn collect_dir(
    source: &StagedSource,
    base: &str,
    index: &Option<Vec<String>>,
    found: &Vec<Found>,
    entries: &mut Vec<Entry>,
    seen: &mut Vec<String>,
)
    ensures
        (views(final(entries)@), views(final(seen)@)) == with_found(
            views(old(entries)@),
            views(old(seen)@),
            base@,
            source@.exclude,
            index_view(*index),
            views(found@),
        ),
{
    let ghost fv = views(found@);
    let mut i: usize = 0;
    assert(fv.subrange(0, 0) =~= Seq::empty());
    while i < found.len()
        invariant
            i <= found@.len(),
            fv == views(found@),
            (views(entries@), views(seen@)) == with_found(
                views(old(entries)@),
                views(old(seen)@),
                base@,
                source@.exclude,
                index_view(*index),
                fv.subrange(0, i as int),
            ),
        decreases found@.len() - i,
    {
        assert(fv.subrange(0, i + 1).drop_last() =~= fv.subrange(0, i as int));
        assert(fv.subrange(0, i + 1).last() == found@[i as int]@);
        let item = &found[i];
        let ghost had = views(entries@);
        if item.relative.as_str().is_empty() {
            let root = Entry {
                path: base.to_owned(),
                kind: Kind::Dir,
                mode: 0o755,
                host: item.host.clone(),
                size: 0,
                fingerprint: String::new(),
            };
            let ghost added = root@;
            entries.push(root);
            assert(views(entries@) =~= had.push(added));
            assert(added.fingerprint =~= Seq::empty());
        } else {
            let dir = match item.kind {
                Some(Kind::Dir) => true,
                _ => false,
            };
            if wanted(source, index, item.relative.as_str(), dir) {
                if let Some(kind) = item.kind {
                    let is_file = matches!(kind, Kind::File);
                    let is_dir = matches!(kind, Kind::Dir);
                    let entry = Entry {
                        path: concat3(base, "/", item.relative.as_str()),
                        kind,
                        mode: item.mode % 0o10000,
                        host: item.host.clone(),
                        size: if is_file {
                            item.size
                        } else {
                            0
                        },
                        fingerprint: if is_dir {
                            String::new()
                        } else {
                            item.fingerprint.clone()
                        },
                    };
                    assert(entry@ =~= entry_of(base@, item@, kind));
                    push(entries, seen, entry);
                }
            }
        }
        i += 1;
    }
    assert(fv.subrange(0, fv.len() as int) =~= fv);
}

/// Put an entry where it belongs.
fn place(sorted: &mut Vec<Entry>, entry: Entry)
    ensures
        views(final(sorted)@) == placed(views(old(sorted)@), entry@),
    decreases old(sorted)@.len(),
{
    let ghost all = views(sorted@);
    let ghost added = entry@;
    if sorted.len() > 0 && text_before(entry.path.as_str(), sorted[sorted.len() - 1].path.as_str()) {
        if let Some(last) = sorted.pop() {
            assert(views(sorted@) =~= all.drop_last());
            let ghost greatest = last@;
            place(sorted, entry);
            let ghost rest = views(sorted@);
            sorted.push(last);
            assert(views(sorted@) =~= rest.push(greatest));
        }
    } else {
        sorted.push(entry);
        assert(views(sorted@) =~= all.push(added));
    }
}

impl Clone for Entry {
    fn clone(&self) -> (r: Self)
        ensures
            r@ == self@,
    {
        Entry {
            path: self.path.clone(),
            kind: self.kind,
            mode: self.mode,
            host: self.host.clone(),
            size: self.size,
            fingerprint: self.fingerprint.clone(),
        }
    }
}

fn sort(entries: &Vec<Entry>) -> (r: Vec<Entry>)
    ensures
        views(r@) == by_path(views(entries@)),
{
    let ghost ev = views(entries@);
    let mut sorted: Vec<Entry> = Vec::new();
    let mut i: usize = 0;
    assert(ev.subrange(0, 0) =~= Seq::empty());
    assert(views(sorted@) =~= Seq::empty());
    while i < entries.len()
        invariant
            i <= entries@.len(),
            ev == views(entries@),
            views(sorted@) == by_path(ev.subrange(0, i as int)),
        decreases entries@.len() - i,
    {
        assert(ev.subrange(0, i + 1).drop_last() =~= ev.subrange(0, i as int));
        assert(ev.subrange(0, i + 1).last() == entries@[i as int]@);
        place(&mut sorted, entries[i].clone());
        i += 1;
    }
    assert(ev.subrange(0, ev.len() as int) =~= ev);
    sorted
}

fn push_bytes(out: &mut Vec<u8>, bytes: &[u8])
    ensures
        final(out)@ == old(out)@ + bytes@,
{
    let mut i: usize = 0;
    while i < bytes.len()
        invariant
            i <= bytes@.len(),
            out@ == old(out)@ + bytes@.subrange(0, i as int),
        decreases bytes@.len() - i,
    {
        out.push(bytes[i]);
        assert(out@ =~= old(out)@ + bytes@.subrange(0, i + 1));
        i += 1;
    }
    assert(bytes@.subrange(0, bytes@.len() as int) =~= bytes@);
}

fn digest(entries: &Vec<Entry>) -> (r: String)
    ensures
        r@ == digest_of(views(entries@)),
{
    let ghost ev = views(entries@);
    if entries.len() == 0 {
        let none = String::new();
        assert(none@ =~= Seq::empty());
        return none;
    }
    let mut bytes: Vec<u8> = Vec::new();
    let mut i: usize = 0;
    assert(ev.subrange(0, 0) =~= Seq::empty());
    while i < entries.len()
        invariant
            i <= entries@.len(),
            ev == views(entries@),
            bytes@ == all_bytes(ev.subrange(0, i as int)),
        decreases entries@.len() - i,
    {
        assert(ev.subrange(0, i + 1).drop_last() =~= ev.subrange(0, i as int));
        assert(ev.subrange(0, i + 1).last() == entries@[i as int]@);
        let ghost before = bytes@;
        let entry = &entries[i];
        push_bytes(&mut bytes, entry.path.as_str().as_bytes());
        bytes.push(0);
        bytes.push(
            match entry.kind {
                Kind::File => 0x66,
                Kind::Dir => 0x64,
                Kind::Symlink => 0x6c,
            },
        );
        bytes.push(0);
        let mode: u32 = entry.mode;
        bytes.push((0x30 + mode / 512 % 8) as u8);
        bytes.push((0x30 + mode / 64 % 8) as u8);
        bytes.push((0x30 + mode / 8 % 8) as u8);
        bytes.push((0x30 + mode % 8) as u8);
        bytes.push(0);
        push_bytes(&mut bytes, entry.fingerprint.as_str().as_bytes());
        bytes.push(0x0a);
        assert(bytes@ =~= before + entry_bytes(entry@));
        i += 1;
    }
    assert(ev.subrange(0, ev.len() as int) =~= ev);
    short_digest(bytes.as_slice(), 8)
}

/// The fingerprint of a file with these contents.
pub fn fingerprint(contents: &[u8]) -> (r: String)
    ensures
        r@ == hex_text(sha256_of(contents@)),
{
    to_hex(sha256(contents).as_slice())
}

proof fn lemma_byte_count(entries: Seq<EntryView>, n: int)
    requires
        0 <= n <= entries.len(),
    ensures
        byte_count(entries.subrange(0, n)) <= byte_count(entries),
    decreases entries.len() - n,
{
    if n < entries.len() {
        lemma_byte_count(entries, n + 1);
        assert(entries.subrange(0, n + 1).drop_last() =~= entries.subrange(0, n));
    } else {
        assert(entries.subrange(0, n) =~= entries);
    }
}

fn count(entries: &Vec<Entry>) -> (r: (usize, u64))
    requires
        byte_count(views(entries@)) <= u64::MAX,
    ensures
        r.0 == file_count(views(entries@)),
        r.1 == byte_count(views(entries@)),
{
    let ghost ev = views(entries@);
    let mut files: usize = 0;
    let mut bytes: u64 = 0;
    let mut i: usize = 0;
    assert(ev.subrange(0, 0) =~= Seq::empty());
    while i < entries.len()
        invariant
            i <= entries@.len(),
            ev == views(entries@),
            byte_count(ev) <= u64::MAX,
            files <= i,
            files == file_count(ev.subrange(0, i as int)),
            bytes == byte_count(ev.subrange(0, i as int)),
        decreases entries@.len() - i,
    {
        assert(ev.subrange(0, i + 1).drop_last() =~= ev.subrange(0, i as int));
        assert(ev.subrange(0, i + 1).last() == entries@[i as int]@);
        proof {
            lemma_byte_count(ev, i + 1);
        }
        if matches!(entries[i].kind, Kind::File) {
            files += 1;
        }
        bytes += entries[i].size;
        i += 1;
    }
    assert(ev.subrange(0, ev.len() as int) =~= ev);
    (files, bytes)
}

/// Expand `plan` against what is found where its sources point, applying
/// `exclude` and `manifest = "git"` so filtered files never leave the host.
pub fn collect(plan: &StagePlan, scans: &Vec<Scan>) -> (r: StageArchive)
    requires
        scans@.len() == plan.sources@.len(),
        byte_count(staged(views(plan.sources@), views(scans@))) <= u64::MAX,
    ensures
        views(r.entries@) == staged(views(plan.sources@), views(scans@)),
        r.digest@ == digest_of(views(r.entries@)),
        r.files == file_count(views(r.entries@)),
        r.bytes == byte_count(views(r.entries@)),
        forall|i: int, j: int|
            0 <= i < j < r.roots@.len() ==> text_lt(
                (#[trigger] r.roots@[i])@,
                (#[trigger] r.roots@[j])@,
            ),
        forall|guest: Seq<char>| #[trigger]
            views(r.roots@).contains(guest) <==> exists|i: int|
                0 <= i < plan.sources@.len() && (#[trigger] plan.sources@[i])@.guest == guest,
{
    let ghost sv = views(plan.sources@);
    let ghost cv = views(scans@);
    let mut entries: Vec<Entry> = Vec::new();
    let mut seen: Vec<String> = Vec::new();
    let mut guests: TextMap<bool> = TextMap::new();
    let mut i: usize = 0;
    assert(sv.subrange(0, 0) =~= Seq::empty());
    assert(views(entries@) =~= Seq::empty());
    assert(views(seen@) =~= Seq::empty());
    let prefix = concat(GUEST_FILES_DIR, "/");
    while i < plan.sources.len()
        invariant
            i <= plan.sources@.len(),
            scans@.len() == plan.sources@.len(),
            sv == views(plan.sources@),
            cv == views(scans@),
            prefix@ == GUEST_FILES_DIR@ + "/"@,
            (views(entries@), views(seen@)) == with_scans(sv.subrange(0, i as int), cv),
            forall|guest: Seq<char>| #[trigger]
                guests@.contains_key(guest) <==> exists|k: int|
                    0 <= k < i && (#[trigger] plan.sources@[k])@.guest == guest,
        decreases plan.sources@.len() - i,
    {
        assert(sv.subrange(0, i + 1).drop_last() =~= sv.subrange(0, i as int));
        assert(sv.subrange(0, i + 1).last() == plan.sources@[i as int]@);
        let source = &plan.sources[i];
        let ghost known = guests@;
        guests.insert(source.guest.as_str(), true);
        assert forall|guest: Seq<char>| #[trigger]
            guests@.contains_key(guest) <==> exists|k: int|
                0 <= k < i + 1 && (#[trigger] plan.sources@[k])@.guest == guest by {
            if guest == source.guest@ {
                assert(plan.sources@[i as int]@.guest == guest);
            } else if guests@.contains_key(guest) {
                assert(known.contains_key(guest));
            }
        }
        let base = match strip_prefix(source.guest.as_str(), prefix.as_str()) {
            Some(rest) => rest,
            None => source.guest.clone(),
        };
        match &scans[i] {
            Scan::Missing => {},
            Scan::File { mode, size, fingerprint } => {
                let entry = Entry {
                    path: base,
                    kind: Kind::File,
                    mode: *mode % 0o10000,
                    host: source.host.clone(),
                    size: *size,
                    fingerprint: fingerprint.clone(),
                };
                push(&mut entries, &mut seen, entry);
            },
            Scan::Dir { index, found } => {
                collect_dir(source, base.as_str(), index, found, &mut entries, &mut seen);
            },
        }
        i += 1;
    }
    assert(sv.subrange(0, sv.len() as int) =~= sv);
    let entries = sort(&entries);
    let digest = digest(&entries);
    let (files, bytes) = count(&entries);
    let roots = keys(&guests);
    StageArchive { roots, digest, files, bytes, entries }
}

fn keys(guests: &TextMap<bool>) -> (r: Vec<String>)
    ensures
        forall|i: int, j: int|
            0 <= i < j < r@.len() ==> text_lt((#[trigger] r@[i])@, (#[trigger] r@[j])@),
        forall|guest: Seq<char>| #[trigger]
            views(r@).contains(guest) <==> guests@.contains_key(guest),
{
    let ghost pairs = guests.pairs();
    let n: usize = guests.len();
    let mut r: Vec<String> = Vec::new();
    let mut i: usize = 0;
    while i < n
        invariant
            i <= n,
            n == pairs.len(),
            pairs == guests.pairs(),
            r@.len() == i,
            forall|k: int| 0 <= k < i ==> (#[trigger] r@[k])@ == pairs[k].0,
        decreases n - i,
    {
        let (guest, _) = guests.at(i);
        r.push(guest.to_owned());
        i += 1;
    }
    proof {
        assert forall|a: int, b: int| 0 <= a < b < r@.len() implies text_lt(
            (#[trigger] r@[a])@,
            (#[trigger] r@[b])@,
        ) by {
            assert(text_lt(pairs[a].0, pairs[b].0));
        }
        assert forall|guest: Seq<char>| #[trigger]
            views(r@).contains(guest) <==> guests@.contains_key(guest) by {
            if views(r@).contains(guest) {
                let k = choose|k: int| 0 <= k < views(r@).len() && views(r@)[k] == guest;
                assert(pairs[k].0 == guest);
                crate::maps::lemma_to_map_at(pairs, k);
            }
            if guests@.contains_key(guest) {
                let k = crate::maps::key_index(pairs, guest);
                assert(crate::maps::has_key(pairs, guest));
                assert(pairs[k].0 == guest);
                assert(views(r@)[k] == guest);
            }
        }
    }
    r
}

// ---------------------------------------------------------------------------
// Copying
// ---------------------------------------------------------------------------

/// Whether a guest path recorded by an earlier stage may be deleted: it lies
/// inside the staged area.
pub open spec fn is_removable(path: Seq<char>) -> bool {
    let prefix = GUEST_FILES_DIR@ + "/"@;
    &&& starts_with(path, prefix)
    &&& path.len() > prefix.len()
    &&& !split(path, '/').contains(".."@)
}

/// Whether a guest path recorded by an earlier stage may be deleted. These
/// strings come from `state.json`, so they are checked rather than trusted.
pub fn removable(path: &str) -> (r: bool)
    ensures
        r == is_removable(path@),
{
    let prefix = concat(GUEST_FILES_DIR, "/");
    if !has_prefix(path, prefix.as_str()) {
        return false;
    }
    let v = chars(path);
    if v.len() <= prefix.as_str().unicode_len() {
        return false;
    }
    let pieces = split_at(&v, '/');
    !has_name(&pieces, "..")
}

/// A text for a shell's single quotes: each quote in it closes them, stands
/// behind a backslash, and opens them again.
pub open spec fn shell_escaped(text: Seq<char>) -> Seq<char>
    decreases text.len(),
{
    if text.len() == 0 {
        Seq::empty()
    } else if text[0] == '\'' {
        seq!['\'', '\\', '\'', '\''] + shell_escaped(text.drop_first())
    } else {
        seq![text[0]] + shell_escaped(text.drop_first())
    }
}

/// The word that a shell reads from a text of single-quoted parts and escaped
/// characters, from inside or outside quotes; `None` if it is anything else.
pub open spec fn shell_word(text: Seq<char>, inside: bool) -> Option<Seq<char>>
    decreases text.len(),
{
    if text.len() == 0 {
        if inside {
            None
        } else {
            Some(Seq::empty())
        }
    } else if text[0] == '\'' {
        shell_word(text.drop_first(), !inside)
    } else if inside {
        match shell_word(text.drop_first(), inside) {
            Some(rest) => Some(seq![text[0]] + rest),
            None => None,
        }
    } else if text[0] == '\\' && text.len() > 1 {
        match shell_word(text.subrange(2, text.len() as int), inside) {
            Some(rest) => Some(seq![text[1]] + rest),
            None => None,
        }
    } else {
        None
    }
}

/// The command that deletes a path.
pub open spec fn removal(path: Seq<char>) -> Seq<char> {
    "rm -rf -- "@ + ("'"@ + shell_escaped(path) + "'"@) + "\n"@
}

fn shell_quoted(text: &str) -> (r: String)
    ensures
        r@ == "'"@ + shell_escaped(text@) + "'"@,
{
    let v = chars(text);
    let mut r = "'".to_owned();
    let mut i: usize = 0;
    assert(v@.subrange(0, v@.len() as int) =~= v@);
    while i < v.len()
        invariant
            i <= v@.len(),
            r@ + shell_escaped(v@.subrange(i as int, v@.len() as int)) == "'"@ + shell_escaped(v@),
        decreases v@.len() - i,
    {
        let ghost left = v@.subrange(i as int, v@.len() as int);
        let ghost before = r@;
        assert(left.drop_first() =~= v@.subrange(i + 1, v@.len() as int));
        if v[i] == '\'' {
            r.push('\'');
            r.push('\\');
            r.push('\'');
            r.push('\'');
            assert(r@ =~= before + seq!['\'', '\\', '\'', '\'']);
        } else {
            r.push(v[i]);
            assert(r@ =~= before + seq![v@[i as int]]);
        }
        assert(r@ + shell_escaped(left.drop_first()) =~= before + shell_escaped(left));
        i += 1;
    }
    assert(v@.subrange(v@.len() as int, v@.len() as int) =~= Seq::empty());
    assert(r@ =~= "'"@ + shell_escaped(v@));
    r.push_str("'");
    r
}

/// The commands that delete what may be deleted.
pub open spec fn removals_of(stale: Seq<Seq<char>>) -> Seq<char>
    decreases stale.len(),
{
    if stale.len() == 0 {
        Seq::empty()
    } else if is_removable(stale.last()) {
        removals_of(stale.drop_last()) + removal(stale.last())
    } else {
        removals_of(stale.drop_last())
    }
}

/// What the guest runs to take the archive in from its standard input.
pub open spec fn copy_script(user: GuestUser, removals: Seq<char>) -> Seq<char> {
    "set -eu\ncommand -v tar >/dev/null 2>&1 || { echo 'microkitchen: tar is missing in the sandbox' >&2; exit 1; }\nmkdir -p /opt/kitchen/files\nchown "@
        + decimal(user.uid as nat) + ":"@ + decimal(user.gid as nat)
        + " /opt/kitchen/files\n"@ + removals
        + "tar -xf - -C /opt/kitchen/files --same-owner --no-overwrite-dir\n"@
}

/// What the guest runs to take `archive` in and delete the `stale` paths that a
/// previous stage left; `None` if there is nothing to do.
pub fn apply_script(archive: &StageArchive, user: GuestUser, stale: &Vec<String>) -> (r: Option<
    String,
>)
    ensures
        ({
            let removals = removals_of(views(stale@));
            if archive.entries@.len() == 0 && removals.len() == 0 {
                r is None
            } else {
                r matches Some(script) && script@ == copy_script(user, removals)
            }
        }),
{
    let ghost sv = views(stale@);
    let mut removals = String::new();
    let mut i: usize = 0;
    assert(sv.subrange(0, 0) =~= Seq::empty());
    assert(removals@ =~= Seq::empty());
    while i < stale.len()
        invariant
            i <= stale@.len(),
            sv == views(stale@),
            removals@ == removals_of(sv.subrange(0, i as int)),
        decreases stale@.len() - i,
    {
        assert(sv.subrange(0, i + 1).drop_last() =~= sv.subrange(0, i as int));
        assert(sv.subrange(0, i + 1).last() == sv[i as int]);
        let path = stale[i].as_str();
        if removable(path) {
            removals.push_str(concat3("rm -rf -- ", shell_quoted(path).as_str(), "\n").as_str());
        }
        i += 1;
    }
    assert(sv.subrange(0, sv.len() as int) =~= sv);
    if archive.is_empty() && removals.as_str().is_empty() {
        return None;
    }
    let mut script = "set -eu\ncommand -v tar >/dev/null 2>&1 || { echo 'microkitchen: tar is missing in the sandbox' >&2; exit 1; }\nmkdir -p /opt/kitchen/files\nchown ".to_owned();
    push_decimal(&mut script, user.uid as u64);
    script.push_str(":");
    push_decimal(&mut script, user.gid as u64);
    script.push_str(" /opt/kitchen/files\n");
    script.push_str(removals.as_str());
    script.push_str("tar -xf - -C /opt/kitchen/files --same-owner --no-overwrite-dir\n");
    Some(script)
}

/// What came of the copy: the guest's exit status, if it gave one, and what it
/// wrote to its standard error.
pub fn copied(exit: Option<i32>, stderr: &[u8]) -> (r: Result<(), String>)
    ensures
        match exit {
            Some(code) => if code == 0 {
                r is Ok
            } else {
                r matches Err(text) && text@
                    == "staging files into the sandbox failed with exit code "@ + signed_decimal(
                    code as int,
                ) + ": "@ + trim(lossy_text(stderr@))
            },
            None => r matches Err(text) && text@
                == "the staging copy ended without an exit status"@,
        },
{
    match exit {
        Some(code) => {
            if code == 0 {
                return Ok(());
            }
            let mut text = "staging files into the sandbox failed with exit code ".to_owned();
            push_signed(&mut text, code as i64);
            text.push_str(": ");
            text.push_str(trimmed(lossy(stderr).as_str()).as_str());
            Err(text)
        },
        None => Err("the staging copy ended without an exit status".to_owned()),
    }
}

/// Why git's index could not be had.
pub fn manifest_error(dir: &str, stderr: &[u8]) -> (r: String)
    ensures
        r@ == "`manifest = \"git\"` needs a git repository at "@ + dir@ + ": "@ + trim(
            lossy_text(stderr@),
        ),
{
    concat4(
        "`manifest = \"git\"` needs a git repository at ",
        dir,
        ": ",
        trimmed(lossy(stderr).as_str()).as_str(),
    )
}

// ---------------------------------------------------------------------------
// Laws
// ---------------------------------------------------------------------------

/// Whether an entry comes from something found below a source that is wanted,
/// or is the source itself.
pub open spec fn comes_from(
    entry: EntryView,
    base: Seq<char>,
    exclude: Seq<Seq<char>>,
    index: Option<Seq<Seq<char>>>,
    found: Seq<FoundView>,
) -> bool {
    entry.path == base || exists|i: int|
        0 <= i < found.len() && entry.path == base + "/"@ + (#[trigger] found[i]).relative
            && entry.kind == found[i].kind->0 && is_wanted(
            exclude,
            index,
            found[i].relative,
            found[i].kind == Some(Kind::Dir),
        )
}

proof fn lemma_comes_from_more(
    entry: EntryView,
    base: Seq<char>,
    exclude: Seq<Seq<char>>,
    index: Option<Seq<Seq<char>>>,
    found: Seq<FoundView>,
)
    requires
        found.len() > 0,
        comes_from(entry, base, exclude, index, found.drop_last()),
    ensures
        comes_from(entry, base, exclude, index, found),
{
    if entry.path != base {
        let init = found.drop_last();
        let i = choose|i: int|
            0 <= i < init.len() && entry.path == base + "/"@ + (#[trigger] init[i]).relative
                && entry.kind == init[i].kind->0 && is_wanted(
                exclude,
                index,
                init[i].relative,
                init[i].kind == Some(Kind::Dir),
            );
        assert(found[i] == init[i]);
    }
}

/// Excluded files never leave the host: whatever a directory source adds to the
/// archive is the directory itself, or something found in it that neither an
/// `exclude` pattern nor git's index leaves out.
pub proof fn law_excluded_files_never_leave_the_host(
    entries: Seq<EntryView>,
    taken: Seq<Seq<char>>,
    base: Seq<char>,
    exclude: Seq<Seq<char>>,
    index: Option<Seq<Seq<char>>>,
    found: Seq<FoundView>,
)
    ensures
        ({
            let after = with_found(entries, taken, base, exclude, index, found).0;
            &&& entries.len() <= after.len()
            &&& after.subrange(0, entries.len() as int) == entries
            &&& forall|i: int|
                entries.len() <= i < after.len() ==> comes_from(
                    #[trigger] after[i],
                    base,
                    exclude,
                    index,
                    found,
                )
        }),
    decreases found.len(),
{
    let after = with_found(entries, taken, base, exclude, index, found).0;
    if found.len() == 0 {
        assert(after.subrange(0, entries.len() as int) =~= entries);
    } else {
        law_excluded_files_never_leave_the_host(
            entries,
            taken,
            base,
            exclude,
            index,
            found.drop_last(),
        );
        let before = with_found(entries, taken, base, exclude, index, found.drop_last()).0;
        assert(after.subrange(0, entries.len() as int) =~= before.subrange(
            0,
            entries.len() as int,
        ));
        assert forall|i: int| entries.len() <= i < after.len() implies comes_from(
            #[trigger] after[i],
            base,
            exclude,
            index,
            found,
        ) by {
            if i < before.len() {
                assert(after[i] == before[i]);
                lemma_comes_from_more(before[i], base, exclude, index, found);
            } else {
                let last = found[found.len() - 1];
                assert(last == found.last());
            }
        }
    }
}

proof fn lemma_placed(sorted: Seq<EntryView>, entry: EntryView)
    requires
        forall|i: int, j: int|
            0 <= i < j < sorted.len() ==> !text_lt(
                (#[trigger] sorted[j]).path,
                (#[trigger] sorted[i]).path,
            ),
    ensures
        placed(sorted, entry).len() == sorted.len() + 1,
        placed(sorted, entry).to_multiset() == sorted.to_multiset().insert(entry),
        forall|i: int, j: int|
            0 <= i < j < placed(sorted, entry).len() ==> !text_lt(
                (#[trigger] placed(sorted, entry)[j]).path,
                (#[trigger] placed(sorted, entry)[i]).path,
            ),
    decreases sorted.len(),
{
    broadcast use vstd::seq_lib::group_to_multiset_ensures;

    let r = placed(sorted, entry);
    if sorted.len() > 0 && text_lt(entry.path, sorted.last().path) {
        let rest = sorted.drop_last();
        assert forall|i: int, j: int| 0 <= i < j < rest.len() implies !text_lt(
            (#[trigger] rest[j]).path,
            (#[trigger] rest[i]).path,
        ) by {
            assert(rest[i] == sorted[i] && rest[j] == sorted[j]);
        }
        lemma_placed(rest, entry);
        let inner = placed(rest, entry);
        assert(sorted =~= rest.push(sorted.last()));
        assert(r.to_multiset() =~= sorted.to_multiset().insert(entry));
        assert forall|i: int, j: int| 0 <= i < j < r.len() implies !text_lt(
            (#[trigger] r[j]).path,
            (#[trigger] r[i]).path,
        ) by {
            assert(r[i] == inner[i]);
            if j < inner.len() {
                assert(r[j] == inner[j]);
            } else {
                let x = inner[i];
                assert(inner.contains(x));
                assert(inner.to_multiset().contains(x));
                if x == entry {
                    crate::maps::lemma_text_lt_total(entry.path, sorted.last().path);
                    if text_lt(sorted.last().path, entry.path) {
                        crate::maps::lemma_text_lt_trans(
                            entry.path,
                            sorted.last().path,
                            entry.path,
                        );
                    }
                } else {
                    assert(rest.to_multiset().contains(x));
                    assert(rest.contains(x));
                    let k = choose|k: int| 0 <= k < rest.len() && rest[k] == x;
                    assert(sorted[k] == x);
                    assert(!text_lt(sorted[sorted.len() - 1].path, sorted[k].path));
                }
            }
        }
    } else {
        assert(r.to_multiset() =~= sorted.to_multiset().insert(entry));
        assert forall|i: int, j: int| 0 <= i < j < r.len() implies !text_lt(
            (#[trigger] r[j]).path,
            (#[trigger] r[i]).path,
        ) by {
            if j < sorted.len() {
                assert(r[i] == sorted[i] && r[j] == sorted[j]);
            } else if i < sorted.len() - 1 {
                let last = sorted[sorted.len() - 1];
                assert(!text_lt(last.path, sorted[i].path));
                assert(!text_lt(entry.path, last.path));
                if text_lt(entry.path, sorted[i].path) {
                    // entry < sorted[i] <= last
                    crate::maps::lemma_text_lt_total(sorted[i].path, last.path);
                    if text_lt(sorted[i].path, last.path) {
                        crate::maps::lemma_text_lt_trans(entry.path, sorted[i].path, last.path);
                    }
                }
            }
        }
    }
}

/// The same sources produce the same archive: its members are sorted by path,
/// and are those that were found, each as often as it was.
pub proof fn law_members_are_sorted(entries: Seq<EntryView>)
    ensures
        by_path(entries).to_multiset() == entries.to_multiset(),
        forall|i: int, j: int|
            0 <= i < j < by_path(entries).len() ==> !text_lt(
                (#[trigger] by_path(entries)[j]).path,
                (#[trigger] by_path(entries)[i]).path,
            ),
    decreases entries.len(),
{
    broadcast use vstd::seq_lib::group_to_multiset_ensures;

    if entries.len() > 0 {
        law_members_are_sorted(entries.drop_last());
        lemma_placed(by_path(entries.drop_last()), entries.last());
        assert(entries =~= entries.drop_last().push(entries.last()));
        assert(by_path(entries).to_multiset() =~= entries.to_multiset());
    } else {
        assert(by_path(entries) =~= entries);
    }
}

/// Removals stay inside the staged area: a path that may be deleted lies
/// strictly below [`GUEST_FILES_DIR`], wherever its `.` and `..` lead.
pub proof fn law_removals_stay_inside(path: Seq<char>)
    requires
        is_removable(path),
    ensures
        path_parts(path).normal().within(path_parts(GUEST_FILES_DIR@)),
        path_parts(path).normal() == path_parts(path),
{
    let prefix = GUEST_FILES_DIR@ + "/"@;
    let rest = after(path, prefix.len() as int);
    reveal_strlit("/");
    assert("/"@ =~= seq!['/']);
    assert(path =~= GUEST_FILES_DIR@ + seq!['/'] + rest) by {
        assert(path.subrange(0, prefix.len() as int) == prefix);
    }
    lemma_split_concat(GUEST_FILES_DIR@, rest, '/');
    let head = split(GUEST_FILES_DIR@, '/');
    let tail = split(rest, '/');
    lemma_real_names_concat(head, tail);
    let dir = path_parts(GUEST_FILES_DIR@);
    let parts = path_parts(path);
    assert(parts.names == dir.names + real_names(tail));
    assert(dir.absolute && parts.absolute) by {
        reveal_strlit("/opt/kitchen/files");
        assert(GUEST_FILES_DIR@[0] == '/');
        assert(path[0] == GUEST_FILES_DIR@[0]);
    }
    lemma_real_names_of(split(path, '/'));
    assert forall|i: int| 0 <= i < parts.names.len() implies #[trigger] parts.names[i] != ".."@ by {
        assert(split(path, '/').contains(parts.names[i]));
    }
    lemma_resolve_dots_keep(parts.names);
    assert(parts.normal() =~= parts);
    assert(parts.names.subrange(0, dir.names.len() as int) =~= dir.names);
}

proof fn lemma_shell_reads_back(text: Seq<char>)
    ensures
        shell_word(shell_escaped(text) + seq!['\''], true) == Some(text),
    decreases text.len(),
{
    let escaped = shell_escaped(text) + seq!['\''];
    if text.len() == 0 {
        assert(escaped.drop_first() =~= Seq::empty());
        assert(shell_word(escaped.drop_first(), false) == Some(Seq::<char>::empty()));
        assert(text =~= Seq::empty());
    } else {
        let rest = text.drop_first();
        lemma_shell_reads_back(rest);
        let tail = shell_escaped(rest) + seq!['\''];
        assert(seq![text[0]] + rest =~= text);
        if text[0] == '\'' {
            let outside = escaped.drop_first();
            assert(outside[0] == '\\' && outside[1] == '\'');
            let again = outside.subrange(2, outside.len() as int);
            assert(again[0] == '\'');
            assert(again.drop_first() =~= tail);
            assert(shell_word(again, false) == shell_word(tail, true));
            assert(shell_word(outside, false) == Some(seq!['\''] + rest));
        } else {
            assert(escaped.drop_first() =~= tail);
        }
    }
}

/// The script deletes nothing outside the staged area: what it removes are the
/// recorded paths that may be deleted, one command each, in order; the shell
/// reads each command's word as exactly that path, whatever it holds; and the
/// path lies strictly below [`GUEST_FILES_DIR`].
pub proof fn law_the_script_removes_only_staged_paths(stale: Seq<Seq<char>>, path: Seq<char>)
    ensures
        removals_of(stale.push(path)) == removals_of(stale) + if is_removable(path) {
            removal(path)
        } else {
            Seq::empty()
        },
        removals_of(Seq::empty()) == Seq::<char>::empty(),
        removal(path) == "rm -rf -- "@ + ("'"@ + shell_escaped(path) + "'"@) + "\n"@,
        shell_word("'"@ + shell_escaped(path) + "'"@, false) == Some(path),
        is_removable(path) ==> path_parts(path).normal().within(path_parts(GUEST_FILES_DIR@)),
{
    assert(stale.push(path).drop_last() =~= stale);
    assert(removals_of(stale) + Seq::<char>::empty() =~= removals_of(stale));
    reveal_strlit("'");
    lemma_shell_reads_back(path);
    let word = "'"@ + shell_escaped(path) + "'"@;
    assert(word[0] == '\'');
    assert(word.drop_first() =~= shell_escaped(path) + seq!['\'']);
    if is_removable(path) {
        law_removals_stay_inside(path);
    }
}

proof fn lemma_found_is_staged(
    entries: Seq<EntryView>,
    taken: Seq<Seq<char>>,
    base: Seq<char>,
    exclude: Seq<Seq<char>>,
    index: Option<Seq<Seq<char>>>,
    found: Seq<FoundView>,
    k: int,
)
    requires
        0 <= k < found.len(),
        found[k].relative.len() > 0,
        found[k].kind is Some,
        is_wanted(exclude, index, found[k].relative, found[k].kind == Some(Kind::Dir)),
        !taken.contains(base + "/"@ + found[k].relative),
        forall|j: int| 0 <= j < k ==> (#[trigger] found[j]).relative != found[k].relative,
    ensures
        with_found(entries, taken, base, exclude, index, found).0.contains(
            staged_as(base, found[k]),
        ),
    decreases found.len(),
{
    reveal_strlit("/");
    assert("/"@ =~= seq!['/']);
    let rest = found.drop_last();
    let (before, had) = with_found(entries, taken, base, exclude, index, rest);
    let after = with_found(entries, taken, base, exclude, index, found).0;
    if k < rest.len() {
        assert(rest[k] == found[k]);
        assert forall|j: int| 0 <= j < k implies (#[trigger] rest[j]).relative != rest[k].relative by {
            assert(rest[j] == found[j]);
        }
        lemma_found_is_staged(entries, taken, base, exclude, index, rest, k);
        let i = choose|i: int| 0 <= i < before.len() && before[i] == staged_as(base, found[k]);
        assert(after[i] == before[i]);
    } else {
        let path = base + "/"@ + found[k].relative;
        lemma_taken_paths(entries, taken, base, exclude, index, rest, path);
        if had.contains(path) {
            let j = choose|j: int|
                0 <= j < rest.len() && base + "/"@ + (#[trigger] rest[j]).relative == path;
            assert(rest[j] == found[j]);
            assert(rest[j].relative =~= path.subrange(base.len() as int + 1, path.len() as int));
            assert(found[k].relative =~= path.subrange(base.len() as int + 1, path.len() as int));
        }
        assert(after[before.len() as int] =~= staged_as(base, found[k]));
    }
}

proof fn lemma_taken_paths(
    entries: Seq<EntryView>,
    taken: Seq<Seq<char>>,
    base: Seq<char>,
    exclude: Seq<Seq<char>>,
    index: Option<Seq<Seq<char>>>,
    found: Seq<FoundView>,
    path: Seq<char>,
)
    ensures
        with_found(entries, taken, base, exclude, index, found).1.contains(path)
            ==> taken.contains(path) || exists|j: int|
            0 <= j < found.len() && base + "/"@ + (#[trigger] found[j]).relative == path,
    decreases found.len(),
{
    if found.len() > 0 {
        let rest = found.drop_last();
        let had = with_found(entries, taken, base, exclude, index, rest).1;
        let all = with_found(entries, taken, base, exclude, index, found).1;
        lemma_taken_paths(entries, taken, base, exclude, index, rest, path);
        if exists|j: int|
            0 <= j < rest.len() && base + "/"@ + (#[trigger] rest[j]).relative == path {
            let j = choose|j: int|
                0 <= j < rest.len() && base + "/"@ + (#[trigger] rest[j]).relative == path;
            assert(found[j] == rest[j]);
        }
        if all.contains(path) && !had.contains(path) {
            let i = choose|i: int| 0 <= i < all.len() && all[i] == path;
            if i < had.len() {
                assert(had[i] == path);
            }
            assert(found[found.len() - 1] == found.last());
        }
    }
}

/// What is staged of something that was found: its path below the source, its kind, its
/// permissions and what tells its contents; only a file has a size.
pub open spec fn staged_as(base: Seq<char>, found: FoundView) -> EntryView {
    EntryView {
        path: base + seq!['/'] + found.relative,
        kind: found.kind->0,
        mode: (found.mode % 4096) as u32,
        host: found.host,
        size: match found.kind {
            Some(Kind::File) => found.size,
            _ => 0,
        },
        fingerprint: match found.kind {
            Some(Kind::Dir) => Seq::empty(),
            _ => found.fingerprint,
        },
    }
}

/// Everything that is found in a source and not left out is staged as it is, unless
/// something else is staged at its path.
pub proof fn law_what_is_wanted_is_staged(
    entries: Seq<EntryView>,
    taken: Seq<Seq<char>>,
    source: SourceView,
    index: Option<Seq<Seq<char>>>,
    found: Seq<FoundView>,
    k: int,
)
    requires
        0 <= k < found.len(),
        found[k].relative.len() > 0,
        found[k].kind is Some,
        is_wanted(source.exclude, index, found[k].relative, found[k].kind == Some(Kind::Dir)),
        !taken.contains(base_of(source.guest) + seq!['/'] + found[k].relative),
        forall|j: int| 0 <= j < k ==> (#[trigger] found[j]).relative != found[k].relative,
    ensures
        with_scan(entries, taken, source, ScanView::Dir { index, found }).0.contains(
            staged_as(base_of(source.guest), found[k]),
        ),
{
    reveal_strlit("/");
    assert("/"@ =~= seq!['/']);
    lemma_found_is_staged(
        entries,
        taken,
        base_of(source.guest),
        source.exclude,
        index,
        found,
        k,
    );
}

/// A source that is a file is staged at its own path, unless something else is; one that
/// is missing is not staged; the directory itself is staged as one.
pub proof fn law_sources_are_staged(
    entries: Seq<EntryView>,
    taken: Seq<Seq<char>>,
    source: SourceView,
    mode: u32,
    size: u64,
    fingerprint: Seq<char>,
    found: FoundView,
)
    ensures
        with_scan(entries, taken, source, ScanView::Missing) == (entries, taken),
        !taken.contains(base_of(source.guest)) ==> with_scan(
            entries,
            taken,
            source,
            ScanView::File { mode, size, fingerprint },
        ) == (
            entries + seq![
                EntryView {
                    path: base_of(source.guest),
                    kind: Kind::File,
                    mode: (mode % 4096) as u32,
                    host: source.host,
                    size,
                    fingerprint,
                },
            ],
            taken + seq![base_of(source.guest)],
        ),
        taken.contains(base_of(source.guest)) ==> with_scan(
            entries,
            taken,
            source,
            ScanView::File { mode, size, fingerprint },
        ) == (entries, taken),
        found.relative.len() == 0 ==> with_scan(
            entries,
            taken,
            source,
            ScanView::Dir { index: None, found: seq![found] },
        ).0 == entries + seq![
            EntryView {
                path: base_of(source.guest),
                kind: Kind::Dir,
                mode: 0o755,
                host: found.host,
                size: 0,
                fingerprint: Seq::empty(),
            },
        ],
{
    let one = with_scan(entries, taken, source, ScanView::File { mode, size, fingerprint });
    if !taken.contains(base_of(source.guest)) {
        assert(one.0 =~= entries + seq![one.0.last()]);
        assert(one.1 =~= taken + seq![base_of(source.guest)]);
    }
    let all = seq![found];
    assert(all.drop_last() =~= Seq::empty());
    assert(all.last() == found);
    reveal_with_fuel(with_found, 2);
    if found.relative.len() == 0 {
        let dir = with_scan(entries, taken, source, ScanView::Dir { index: None, found: all });
        assert(dir.0 =~= entries + seq![dir.0.last()]);
    }
}

/// The sources are staged one after the other, and what is staged stands in the archive.
pub proof fn law_sources_are_staged_in_order(
    sources: Seq<SourceView>,
    scans: Seq<ScanView>,
    source: SourceView,
    entry: EntryView,
)
    requires
        scans.len() > sources.len(),
    ensures
        with_scans(sources.push(source), scans) == with_scan(
            with_scans(sources, scans).0,
            with_scans(sources, scans).1,
            source,
            scans[sources.len() as int],
        ),
        with_scans(Seq::empty(), scans).0.len() == 0,
        with_scans(Seq::empty(), scans).1.len() == 0,
        staged(sources, scans).contains(entry) <==> with_scans(sources, scans).0.contains(entry),
{
    broadcast use vstd::seq_lib::group_to_multiset_ensures;

    assert(sources.push(source).drop_last() =~= sources);
    let entries = with_scans(sources, scans).0;
    law_members_are_sorted(entries);
    assert(entries.contains(entry) <==> entries.to_multiset().contains(entry));
    assert(by_path(entries).contains(entry) <==> by_path(entries).to_multiset().contains(entry));
}

/// What is left out: what a pattern of `exclude` matches, with all that is below it, and
/// where git's index counts, every file that is not in it. A pattern with a slash is for
/// the whole path, one without for any name of it.
pub proof fn law_what_is_wanted(
    exclude: Seq<Seq<char>>,
    index: Option<Seq<Seq<char>>>,
    relative: Seq<char>,
    dir: bool,
    pattern: Seq<char>,
)
    ensures
        is_wanted(exclude, index, relative, dir) <==> !is_pruned(relative, exclude) && (
        index is None || dir || exists|i: int|
            0 <= i < index->0.len() && path_parts(#[trigger] index->0[i]) == path_parts(relative)),
        exclude.len() == 0 ==> !is_pruned(relative, exclude),
        pattern.contains('/') ==> (pattern_excludes(pattern, relative) <==> glob_matches(
            unrooted(pattern),
            relative,
        )),
        !pattern.contains('/') ==> (pattern_excludes(pattern, relative) <==> exists|i: int|
            0 <= i < path_parts(relative).names.len() && glob_matches(
                unrooted(pattern),
                #[trigger] path_parts(relative).names[i],
            )),
        exclude.contains(pattern) && relative.len() > 0 && pattern_excludes(pattern, relative)
            ==> is_excluded(relative, exclude),
        is_excluded(relative, exclude) ==> relative.len() > 0 && exists|i: int|
            0 <= i < exclude.len() && pattern_excludes(#[trigger] exclude[i], relative),
{
    if exclude.contains(pattern) && relative.len() > 0 && pattern_excludes(pattern, relative) {
        let i = choose|i: int| 0 <= i < exclude.len() && exclude[i] == pattern;
        assert(pattern_excludes(exclude[i], relative));
    }
}

/// Below a path that is left out everything is.
pub proof fn law_what_is_below_is_left_out_too(
    relative: Seq<char>,
    exclude: Seq<Seq<char>>,
    n: int,
)
    requires
        0 < n <= path_parts(relative).names.len(),
        is_excluded(join(path_parts(relative).names.subrange(0, n), seq!['/']), exclude),
    ensures
        is_pruned(relative, exclude),
{
    reveal_strlit("/");
    assert("/"@ =~= seq!['/']);
    assert(is_excluded(first_names(relative, n), exclude));
}

/// Leading slashes of a pattern do not count.
pub proof fn law_patterns_are_unrooted(pattern: Seq<char>)
    requires
        pattern.len() == 0 || pattern[0] != '/',
    ensures
        unrooted(pattern) == pattern,
        unrooted(seq!['/'] + pattern) == pattern,
{
    let longer = seq!['/'] + pattern;
    assert(after(longer, 1) =~= pattern);
    reveal_with_fuel(unrooted, 3);
}

/// The files and the bytes of an archive are counted one by one.
pub proof fn law_files_and_bytes_are_counted(entries: Seq<EntryView>)
    ensures
        file_count(entries) == entries.filter(|entry: EntryView| entry.kind == Kind::File).len(),
        byte_count(entries) == entries.map_values(|entry: EntryView| entry.size as int).fold_left(
            0,
            |sum: int, size: int| sum + size,
        ),
    decreases entries.len(),
{
    reveal(Seq::filter);
    let sizes = entries.map_values(|entry: EntryView| entry.size as int);
    if entries.len() > 0 {
        law_files_and_bytes_are_counted(entries.drop_last());
        assert(sizes.drop_last() =~= entries.drop_last().map_values(
            |entry: EntryView| entry.size as int,
        ));
        assert(sizes.last() == entries.last().size);
    }
}

/// A digest is that of every member: its path, kind, permissions and what tells its
/// contents. Without members there is none.
pub proof fn law_digests_are_of_every_member(entries: Seq<EntryView>)
    ensures
        entries.len() == 0 ==> digest_of(entries).len() == 0,
        entries.len() > 0 ==> digest_of(entries) == short_hash(
            entries.flat_map(
                |entry: EntryView|
                    encode_utf8(entry.path) + seq![
                        0u8,
                        match entry.kind {
                            Kind::File => 102u8,
                            Kind::Dir => 100u8,
                            Kind::Symlink => 108u8,
                        },
                        0u8,
                    ] + octal(entry.mode) + seq![0u8] + encode_utf8(entry.fingerprint) + seq![10u8],
            ),
            8,
        ),
{
    lemma_all_bytes(entries);
}

proof fn lemma_all_bytes(entries: Seq<EntryView>)
    ensures
        all_bytes(entries) == entries.flat_map(
            |entry: EntryView|
                encode_utf8(entry.path) + seq![
                    0u8,
                    match entry.kind {
                        Kind::File => 102u8,
                        Kind::Dir => 100u8,
                        Kind::Symlink => 108u8,
                    },
                    0u8,
                ] + octal(entry.mode) + seq![0u8] + encode_utf8(entry.fingerprint) + seq![10u8],
        ),
    decreases entries.len(),
{
    let f = |entry: EntryView|
        encode_utf8(entry.path) + seq![
            0u8,
            match entry.kind {
                Kind::File => 102u8,
                Kind::Dir => 100u8,
                Kind::Symlink => 108u8,
            },
            0u8,
        ] + octal(entry.mode) + seq![0u8] + encode_utf8(entry.fingerprint) + seq![10u8];
    crate::maps::lemma_flat_map_step(entries, f);
    if entries.len() > 0 {
        lemma_all_bytes(entries.drop_last());
        assert(entry_bytes(entries.last()) =~= f(entries.last()));
    }
}

/// Permissions are written as four octal digits.
pub proof fn law_permissions_are_octal(mode: u32)
    requires
        mode < 4096,
    ensures
        octal(mode).len() == 4,
        48 <= octal(mode)[0] <= 55 && 48 <= octal(mode)[1] <= 55,
        48 <= octal(mode)[2] <= 55 && 48 <= octal(mode)[3] <= 55,
        (octal(mode)[0] - 48) * 512 + (octal(mode)[1] - 48) * 64 + (octal(mode)[2] - 48) * 8 + (
        octal(mode)[3] - 48) == mode,
{
    let m = mode as int;
    let a = m / 512;
    let b = m / 64 % 8;
    let c = m / 8 % 8;
    let d = m % 8;
    assert(a * 512 + b * 64 + c * 8 + d == m && 0 <= a < 8) by {
        assert(m / 64 == m / 8 / 8 && m / 512 == m / 64 / 8);
    }
    assert(octal(mode)[0] == 48 + a && octal(mode)[1] == 48 + b);
    assert(octal(mode)[2] == 48 + c && octal(mode)[3] == 48 + d);
}

/// What may be deleted lies below the staged files and has no `..` in it.
pub proof fn law_what_may_be_deleted(path: Seq<char>)
    ensures
        is_removable(path) <==> (exists|rest: Seq<char>|
            rest.len() > 0 && path == #[trigger] ("/opt/kitchen/files/"@ + rest)) && !split(
            path,
            '/',
        ).contains(seq!['.', '.']),
{
    reveal_strlit("..");
    reveal_strlit("/");
    reveal_strlit("/opt/kitchen/files");
    reveal_strlit("/opt/kitchen/files/");
    assert(".."@ =~= seq!['.', '.']);
    let prefix = GUEST_FILES_DIR@ + "/"@;
    assert(prefix =~= "/opt/kitchen/files/"@);
    if starts_with(path, prefix) {
        assert(path =~= prefix + after(path, prefix.len() as int));
    }
    if exists|rest: Seq<char>| rest.len() > 0 && path == #[trigger] ("/opt/kitchen/files/"@ + rest) {
        let rest = choose|rest: Seq<char>|
            rest.len() > 0 && path == #[trigger] ("/opt/kitchen/files/"@ + rest);
        assert(path.subrange(0, prefix.len() as int) =~= prefix);
    }
}

/// Git's index names its files between zero bytes.
pub proof fn law_index_paths(pieces: Seq<Seq<u8>>)
    ensures
        index_paths(pieces) == pieces.filter(|piece: Seq<u8>| piece.len() > 0).map_values(
            |piece: Seq<u8>| lossy_text(piece),
        ),
    decreases pieces.len(),
{
    reveal(Seq::filter);
    let keep = |piece: Seq<u8>| piece.len() > 0;
    let read = |piece: Seq<u8>| lossy_text(piece);
    if pieces.len() > 0 {
        law_index_paths(pieces.drop_last());
    }
    assert(index_paths(pieces) =~= pieces.filter(keep).map_values(read));
}

/// A guest path is staged under what stands behind the directory of staged files.
pub proof fn law_archives_start_at_the_staged_files(rest: Seq<char>)
    ensures
        base_of("/opt/kitchen/files/"@ + rest) == rest,
{
    reveal_strlit("/");
    reveal_strlit("/opt/kitchen/files");
    reveal_strlit("/opt/kitchen/files/");
    let prefix = GUEST_FILES_DIR@ + "/"@;
    assert(prefix =~= "/opt/kitchen/files/"@);
    let guest = "/opt/kitchen/files/"@ + rest;
    assert(guest.subrange(0, prefix.len() as int) =~= prefix);
    assert(after(guest, prefix.len() as int) =~= rest);
}

} // verus!
