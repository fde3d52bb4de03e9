//! Paths as component lists.
//!
//! A path is judged as a list of components. On Windows a drive or a share may stand
//! before the root.
use vstd::prelude::*;
use vstd::slice::*;

use crate::rawpath::{
    drive_at, lemma_drive_name, lemma_lone_name, parse_path, parsed_windows, separates,
    unseparated, windows_name, Separators,
};
use crate::text::same_bytes;

verus! {

/// The platform whose rules a path follows.
#[derive(Debug, Clone, Copy, PartialEq, Eq, Structural)]
pub enum Platform {
    Unix,
    Windows,
}

/// What stands before the root of a Windows path.
#[derive(Debug, PartialEq, Eq)]
pub enum Prefix {
    /// `\\?\name`.
    Verbatim(Vec<u8>),
    /// `\\?\UNC\server\share`.
    VerbatimUnc(Vec<u8>, Vec<u8>),
    /// `\\?\C:`, by its upper-case letter.
    VerbatimDisk(u8),
    /// `\\.\name`.
    DeviceNs(Vec<u8>),
    /// `\\server\share`.
    Unc(Vec<u8>, Vec<u8>),
    /// `C:`, by its upper-case letter.
    Disk(u8),
}

/// The mathematical value of a [`Prefix`].
pub ghost enum PrefixView {
    Verbatim(Seq<u8>),
    VerbatimUnc(Seq<u8>, Seq<u8>),
    VerbatimDisk(u8),
    DeviceNs(Seq<u8>),
    Unc(Seq<u8>, Seq<u8>),
    Disk(u8),
}

impl View for Prefix {
    type V = PrefixView;

    open spec fn view(&self) -> PrefixView {
        match *self {
            Prefix::Verbatim(name) => PrefixView::Verbatim(name@),
            Prefix::VerbatimUnc(server, share) => PrefixView::VerbatimUnc(server@, share@),
            Prefix::VerbatimDisk(letter) => PrefixView::VerbatimDisk(letter),
            Prefix::DeviceNs(name) => PrefixView::DeviceNs(name@),
            Prefix::Unc(server, share) => PrefixView::Unc(server@, share@),
            Prefix::Disk(letter) => PrefixView::Disk(letter),
        }
    }
}

/// Whether a prefix begins with `\\?\`. What follows such a prefix is taken as it is
/// written.
pub open spec fn verbatim(prefix: PrefixView) -> bool {
    prefix is Verbatim || prefix is VerbatimUnc || prefix is VerbatimDisk
}

/// `\` and a share, or nothing where the share is empty.
pub open spec fn share_bytes(share: Seq<u8>) -> Seq<u8> {
    if share.len() > 0 {
        seq![92u8] + share
    } else {
        Seq::empty()
    }
}

/// The bytes of a prefix.
pub open spec fn prefix_bytes(prefix: PrefixView) -> Seq<u8> {
    match prefix {
        PrefixView::Verbatim(name) => seq![92u8, 92u8, 63u8, 92u8] + name,
        PrefixView::VerbatimUnc(server, share) => seq![92u8, 92u8, 63u8, 92u8, 85u8, 78u8, 67u8, 92u8]
            + server + share_bytes(share),
        PrefixView::VerbatimDisk(letter) => seq![92u8, 92u8, 63u8, 92u8, letter, 58u8],
        PrefixView::DeviceNs(name) => seq![92u8, 92u8, 46u8, 92u8] + name,
        PrefixView::Unc(server, share) => seq![92u8, 92u8] + server + share_bytes(share),
        PrefixView::Disk(letter) => seq![letter, 58u8],
    }
}

pub(crate) fn push_all(out: &mut Vec<u8>, bytes: &[u8])
    ensures
        final(out)@ == old(out)@ + bytes@,
{
    let mut more = slice_to_vec(bytes);
    out.append(&mut more);
}

fn push_share(out: &mut Vec<u8>, share: &[u8])
    ensures
        final(out)@ == old(out)@ + share_bytes(share@),
{
    let ghost before = out@;
    if share.len() > 0 {
        out.push(92);
        push_all(out, share);
    }
    assert(out@ =~= before + share_bytes(share@));
}

impl Prefix {
    /// The same prefix.
    pub fn copy(&self) -> (r: Prefix)
        ensures
            r@ == self@,
    {
        match self {
            Prefix::Verbatim(name) => Prefix::Verbatim(slice_to_vec(name.as_slice())),
            Prefix::VerbatimUnc(server, share) => Prefix::VerbatimUnc(
                slice_to_vec(server.as_slice()),
                slice_to_vec(share.as_slice()),
            ),
            Prefix::VerbatimDisk(letter) => Prefix::VerbatimDisk(*letter),
            Prefix::DeviceNs(name) => Prefix::DeviceNs(slice_to_vec(name.as_slice())),
            Prefix::Unc(server, share) => Prefix::Unc(
                slice_to_vec(server.as_slice()),
                slice_to_vec(share.as_slice()),
            ),
            Prefix::Disk(letter) => Prefix::Disk(*letter),
        }
    }

    /// Whether two prefixes are the same.
    pub fn same(&self, other: &Prefix) -> (r: bool)
        ensures
            r == (self@ == other@),
    {
        match (self, other) {
            (Prefix::Verbatim(a), Prefix::Verbatim(b)) => same_bytes(a.as_slice(), b.as_slice()),
            (Prefix::VerbatimUnc(a, c), Prefix::VerbatimUnc(b, d)) => same_bytes(
                a.as_slice(),
                b.as_slice(),
            ) && same_bytes(c.as_slice(), d.as_slice()),
            (Prefix::VerbatimDisk(a), Prefix::VerbatimDisk(b)) => *a == *b,
            (Prefix::DeviceNs(a), Prefix::DeviceNs(b)) => same_bytes(a.as_slice(), b.as_slice()),
            (Prefix::Unc(a, c), Prefix::Unc(b, d)) => same_bytes(a.as_slice(), b.as_slice())
                && same_bytes(c.as_slice(), d.as_slice()),
            (Prefix::Disk(a), Prefix::Disk(b)) => *a == *b,
            _ => false,
        }
    }

    /// Whether this prefix begins with `\\?\`.
    pub fn is_verbatim(&self) -> (r: bool)
        ensures
            r == verbatim(self@),
    {
        match self {
            Prefix::Verbatim(_) | Prefix::VerbatimUnc(_, _) | Prefix::VerbatimDisk(_) => true,
            _ => false,
        }
    }

    /// The bytes of this prefix.
    pub fn bytes(&self) -> (r: Vec<u8>)
        ensures
            r@ == prefix_bytes(self@),
    {
        let mut out: Vec<u8> = Vec::new();
        match self {
            Prefix::Disk(_) => {},
            _ => {
                out.push(92);
                out.push(92);
            },
        }
        match self {
            Prefix::Verbatim(name) => {
                out.push(63);
                out.push(92);
                assert(out@ =~= seq![92u8, 92u8, 63u8, 92u8]);
                push_all(&mut out, name.as_slice());
            },
            Prefix::VerbatimUnc(server, share) => {
                out.push(63);
                out.push(92);
                out.push(85);
                out.push(78);
                out.push(67);
                out.push(92);
                assert(out@ =~= seq![92u8, 92u8, 63u8, 92u8, 85u8, 78u8, 67u8, 92u8]);
                push_all(&mut out, server.as_slice());
                push_share(&mut out, share.as_slice());
            },
            Prefix::VerbatimDisk(letter) => {
                out.push(63);
                out.push(92);
                out.push(*letter);
                out.push(58);
            },
            Prefix::DeviceNs(name) => {
                out.push(46);
                out.push(92);
                assert(out@ =~= seq![92u8, 92u8, 46u8, 92u8]);
                push_all(&mut out, name.as_slice());
            },
            Prefix::Unc(server, share) => {
                assert(out@ =~= seq![92u8, 92u8]);
                push_all(&mut out, server.as_slice());
                push_share(&mut out, share.as_slice());
            },
            Prefix::Disk(letter) => {
                out.push(*letter);
                out.push(58);
            },
        }
        assert(out@ =~= prefix_bytes(self@));
        out
    }
}

/// One component of a path.
#[derive(Debug, PartialEq, Eq)]
pub enum Component {
    /// What stands before the root on a platform with drives and shares.
    Prefix(Prefix),
    /// The root directory.
    RootDir,
    /// A leading `.`.
    CurDir,
    /// A `..`.
    ParentDir,
    /// A plain name.
    Normal(Vec<u8>),
}

/// The mathematical value of a [`Component`].
pub ghost enum Part {
    Prefix(PrefixView),
    RootDir,
    CurDir,
    ParentDir,
    Normal(Seq<u8>),
}

impl View for Component {
    type V = Part;

    open spec fn view(&self) -> Part {
        match *self {
            Component::Prefix(prefix) => Part::Prefix(prefix@),
            Component::RootDir => Part::RootDir,
            Component::CurDir => Part::CurDir,
            Component::ParentDir => Part::ParentDir,
            Component::Normal(name) => Part::Normal(name@),
        }
    }
}

/// The values of a list of components.
pub open spec fn parts(list: Seq<Component>) -> Seq<Part> {
    Seq::new(list.len(), |i: int| list[i]@)
}

/// The byte that a platform itself writes between two names.
pub open spec fn main_separator(platform: Platform) -> u8 {
    match platform {
        Platform::Unix => 47u8,
        Platform::Windows => 92u8,
    }
}

/// A name that denotes one directory entry and nothing else: not empty, not `.`
/// or `..`, and free of the platform's separator.
pub open spec fn plain_name(name: Seq<u8>, platform: Platform) -> bool {
    &&& name.len() > 0
    &&& name != seq![46u8]
    &&& name != seq![46u8, 46u8]
    &&& !name.contains(main_separator(platform))
}

/// Every plain component of `path` is a [`plain_name`].
pub open spec fn plain_names(path: Seq<Part>, platform: Platform) -> bool {
    forall|i: int|
        0 <= i < path.len() ==> ((#[trigger] path[i]) matches Part::Normal(name) ==> plain_name(
            name,
            platform,
        ))
}

/// The bytes of one component.
pub open spec fn part_bytes(part: Part, platform: Platform) -> Seq<u8> {
    match part {
        Part::Prefix(prefix) => prefix_bytes(prefix),
        Part::RootDir => seq![main_separator(platform)],
        Part::CurDir => seq![46u8],
        Part::ParentDir => seq![46u8, 46u8],
        Part::Normal(name) => name,
    }
}

impl Component {
    /// A copy of this component.
    pub fn copy(&self) -> (r: Component)
        ensures
            r@ == self@,
    {
        match self {
            Component::Prefix(prefix) => Component::Prefix(prefix.copy()),
            Component::RootDir => Component::RootDir,
            Component::CurDir => Component::CurDir,
            Component::ParentDir => Component::ParentDir,
            Component::Normal(name) => Component::Normal(slice_to_vec(name.as_slice())),
        }
    }

    /// The bytes of this component.
    pub fn bytes(&self, platform: Platform) -> (r: Vec<u8>)
        ensures
            r@ == part_bytes(self@, platform),
    {
        let mut out: Vec<u8> = Vec::new();
        match self {
            Component::Prefix(prefix) => {
                out = prefix.bytes();
            },
            Component::Normal(name) => {
                out = slice_to_vec(name.as_slice());
            },
            Component::RootDir => match platform {
                Platform::Unix => {
                    out.push(47);
                },
                Platform::Windows => {
                    out.push(92);
                },
            },
            Component::CurDir => {
                out.push(46);
            },
            Component::ParentDir => {
                out.push(46);
                out.push(46);
            },
        }
        assert(out@ =~= part_bytes(self@, platform));
        out
    }

    /// Whether two components are the same.
    pub fn same(&self, other: &Component) -> (r: bool)
        ensures
            r == (self@ == other@),
    {
        match (self, other) {
            (Component::Prefix(a), Component::Prefix(b)) => a.same(b),
            (Component::Normal(a), Component::Normal(b)) => same_bytes(a.as_slice(), b.as_slice()),
            (Component::RootDir, Component::RootDir) => true,
            (Component::CurDir, Component::CurDir) => true,
            (Component::ParentDir, Component::ParentDir) => true,
            _ => false,
        }
    }
}

/// A copy of `path[from..to]`.
pub fn copy_range(path: &[Component], from: usize, to: usize) -> (r: Vec<Component>)
    requires
        from <= to <= path@.len(),
    ensures
        parts(r@) == parts(path@).subrange(from as int, to as int),
{
    let mut out: Vec<Component> = Vec::new();
    let mut i: usize = from;
    while i < to
        invariant
            from <= i <= to <= path@.len(),
            parts(out@) =~= parts(path@).subrange(from as int, i as int),
        decreases to - i,
    {
        let ghost before = out@;
        out.push(path[i].copy());
        assert(parts(out@) =~= parts(before).push(path@[i as int]@));
        i = i + 1;
    }
    out
}

/// A copy of `path`.
pub fn copy_path(path: &[Component]) -> (r: Vec<Component>)
    ensures
        parts(r@) == parts(path@),
{
    let r = copy_range(path, 0, path.len());
    assert(parts(path@).subrange(0, path@.len() as int) =~= parts(path@));
    r
}

/// Whether `path` begins with all of `start`.
pub open spec fn begins_with(path: Seq<Part>, start: Seq<Part>) -> bool {
    start.len() <= path.len() && path.take(start.len() as int) == start
}

/// Whether `path` begins with all of `start`.
pub fn starts_with(path: &[Component], start: &[Component]) -> (r: bool)
    ensures
        r == begins_with(parts(path@), parts(start@)),
{
    if start.len() > path.len() {
        return false;
    }
    let mut i: usize = 0;
    while i < start.len()
        invariant
            i <= start@.len() <= path@.len(),
            parts(path@).take(i as int) =~= parts(start@).take(i as int),
        decreases start@.len() - i,
    {
        if !path[i].same(&start[i]) {
            proof {
                if begins_with(parts(path@), parts(start@)) {
                    assert(parts(path@).take(start@.len() as int)[i as int] == parts(start@)[i as int]);
                }
            }
            return false;
        }
        assert(parts(path@).take(i + 1) =~= parts(path@).take(i as int).push(path@[i as int]@));
        assert(parts(start@).take(i + 1) =~= parts(start@).take(i as int).push(start@[i as int]@));
        i = i + 1;
    }
    assert(parts(start@).take(start@.len() as int) =~= parts(start@));
    true
}

/// Whether two paths have the same components.
pub fn same_path(a: &[Component], b: &[Component]) -> (r: bool)
    ensures
        r == (parts(a@) == parts(b@)),
{
    if a.len() != b.len() {
        assert(parts(a@).len() != parts(b@).len());
        return false;
    }
    let r = starts_with(a, b);
    assert(parts(a@).take(b@.len() as int) =~= parts(a@));
    r
}

/// Whether a path starts from a root: on Windows it takes a prefix too, and a drive
/// alone is no root.
pub open spec fn absolute(path: Seq<Part>, platform: Platform) -> bool {
    match platform {
        Platform::Unix => path.len() > 0 && path[0] is RootDir,
        Platform::Windows => path.len() > 0 && (path[0] matches Part::Prefix(prefix) && (!(prefix is Disk) || (
        path.len() > 1 && path[1] is RootDir))),
    }
}

/// Whether a path starts from a root.
pub fn is_absolute(path: &[Component], platform: Platform) -> (r: bool)
    ensures
        r == absolute(parts(path@), platform),
{
    if path.len() == 0 {
        return false;
    }
    assert(parts(path@)[0] == path@[0]@);
    match (&path[0], platform) {
        (Component::RootDir, Platform::Unix) => true,
        (Component::Prefix(Prefix::Disk(_)), Platform::Windows) => {
            if path.len() < 2 {
                return false;
            }
            assert(parts(path@)[1] == path@[1]@);
            match &path[1] {
                Component::RootDir => true,
                _ => false,
            }
        },
        (Component::Prefix(_), Platform::Windows) => true,
        _ => false,
    }
}

/// The path without its last component; a root, a prefix and the empty path have
/// none.
pub open spec fn parent_of(path: Seq<Part>) -> Option<Seq<Part>> {
    if path.len() == 0 || path.last() is RootDir || path.last() is Prefix {
        None
    } else {
        Some(path.drop_last())
    }
}

/// Whether `path` has a parent.
pub fn has_parent(path: &[Component]) -> (r: bool)
    ensures
        r == (parent_of(parts(path@)) is Some),
{
    if path.len() == 0 {
        return false;
    }
    let last = &path[path.len() - 1];
    assert(parts(path@).last() == last@);
    match last {
        Component::RootDir | Component::Prefix(_) => false,
        _ => true,
    }
}

/// Whether a path begins with a prefix after which everything is taken as it is
/// written.
pub open spec fn verbatim_path(path: Seq<Part>) -> bool {
    path.len() > 0 && (path[0] matches Part::Prefix(prefix) && verbatim(prefix))
}

/// The path reached by appending one component.
///
/// A root replaces everything but a prefix, a prefix replaces everything, and `.`
/// changes only the empty path. Below a verbatim prefix no `..` is kept: it removes
/// the plain name before it, and changes nothing where there is none.
pub open spec fn pushed(base: Seq<Part>, part: Part) -> Seq<Part> {
    match part {
        Part::Prefix(_) => seq![part],
        Part::RootDir => if base.len() > 0 && base[0] is Prefix {
            seq![base[0], part]
        } else {
            seq![part]
        },
        Part::CurDir => if base.len() == 0 {
            seq![part]
        } else {
            base
        },
        Part::ParentDir => if !verbatim_path(base) {
            base.push(part)
        } else if base.last() is Normal {
            base.drop_last()
        } else {
            base
        },
        Part::Normal(_) => base.push(part),
    }
}

fn is_verbatim_path(path: &[Component]) -> (r: bool)
    ensures
        r == verbatim_path(parts(path@)),
{
    if path.len() == 0 {
        return false;
    }
    assert(parts(path@)[0] == path@[0]@);
    match &path[0] {
        Component::Prefix(prefix) => prefix.is_verbatim(),
        _ => false,
    }
}

fn ends_with_name(path: &[Component]) -> (r: bool)
    ensures
        r == (path@.len() > 0 && parts(path@).last() is Normal),
{
    if path.len() == 0 {
        return false;
    }
    assert(parts(path@).last() == path@[path@.len() - 1]@);
    match &path[path.len() - 1] {
        Component::Normal(_) => true,
        _ => false,
    }
}

/// The path reached by appending one component.
pub fn push_component(base: &mut Vec<Component>, part: &Component)
    ensures
        parts(final(base)@) == pushed(parts(old(base)@), part@),
{
    let ghost before = base@;
    match part {
        Component::Prefix(_) => {
            base.clear();
            base.push(part.copy());
            assert(parts(base@) =~= seq![part@]);
        },
        Component::RootDir => {
            let keep = if base.len() > 0 {
                match &base[0] {
                    Component::Prefix(_) => true,
                    _ => false,
                }
            } else {
                false
            };
            if keep {
                base.truncate(1);
            } else {
                base.clear();
            }
            base.push(Component::RootDir);
            if keep {
                assert(parts(base@) =~= seq![parts(before)[0], part@]);
            } else {
                assert(parts(base@) =~= seq![part@]);
            }
        },
        Component::CurDir => {
            if base.len() == 0 {
                base.push(Component::CurDir);
                assert(parts(base@) =~= seq![part@]);
            }
        },
        Component::ParentDir => {
            if !is_verbatim_path(base.as_slice()) {
                base.push(Component::ParentDir);
                assert(parts(base@) =~= parts(before).push(part@));
            } else if ends_with_name(base.as_slice()) {
                base.truncate(base.len() - 1);
                assert(parts(base@) =~= parts(before).drop_last());
            }
        },
        Component::Normal(_) => {
            base.push(part.copy());
            assert(parts(base@) =~= parts(before).push(part@));
        },
    }
}

/// The path reached by appending every component of `tail`.
pub open spec fn appended(base: Seq<Part>, tail: Seq<Part>) -> Seq<Part>
    decreases tail.len(),
{
    if tail.len() == 0 {
        base
    } else {
        pushed(appended(base, tail.drop_last()), tail.last())
    }
}

/// Append `tail[from..]` to `base`.
pub fn append_from(base: Vec<Component>, tail: &[Component], from: usize) -> (r: Vec<Component>)
    requires
        from <= tail@.len(),
    ensures
        parts(r@) == appended(parts(base@), parts(tail@).skip(from as int)),
{
    let mut out = base;
    let ghost rest = parts(tail@).skip(from as int);
    let mut i: usize = from;
    assert(rest.take(0) =~= Seq::<Part>::empty());
    while i < tail.len()
        invariant
            from <= i <= tail@.len(),
            rest == parts(tail@).skip(from as int),
            parts(out@) == appended(parts(base@), rest.take(i - from)),
        decreases tail@.len() - i,
    {
        assert(rest.take(i + 1 - from).drop_last() =~= rest.take(i - from));
        assert(rest.take(i + 1 - from).last() == tail@[i as int]@);
        push_component(&mut out, &tail[i]);
        i = i + 1;
    }
    assert(rest.take(rest.len() as int) =~= rest);
    out
}

/// The path reached by appending one component as a path of its own.
///
/// On Windows a plain name may read as more than itself: one that begins with a drive
/// replaces everything before it, and one that holds a `/`, as only a verbatim path
/// lets a name do, is taken apart.
pub open spec fn entered(base: Seq<Part>, part: Part, platform: Platform) -> Seq<Part> {
    match (part, platform) {
        (Part::Normal(name), Platform::Windows) => appended(base, parsed_windows(name)),
        _ => pushed(base, part),
    }
}

/// The path reached by appending one component as a path of its own.
pub fn enter_component(base: &mut Vec<Component>, part: &Component, platform: Platform)
    ensures
        parts(final(base)@) == entered(parts(old(base)@), part@, platform),
{
    match (part, platform) {
        (Component::Normal(name), Platform::Windows) => {
            let list = parse_path(name.as_slice(), platform);
            assert(parts(list@).skip(0) =~= parts(list@));
            let whole = append_from(copy_path(base.as_slice()), list.as_slice(), 0);
            *base = whole;
        },
        _ => {
            push_component(base, part);
        },
    }
}

/// The path reached by appending every component of `tail` as a path of its own.
pub open spec fn entered_all(base: Seq<Part>, tail: Seq<Part>, platform: Platform) -> Seq<Part>
    decreases tail.len(),
{
    if tail.len() == 0 {
        base
    } else {
        entered(entered_all(base, tail.drop_last(), platform), tail.last(), platform)
    }
}

/// Append every component of `tail[from..]` to `base` as a path of its own.
pub fn enter_from(base: Vec<Component>, tail: &[Component], from: usize, platform: Platform) -> (r: Vec<
    Component,
>)
    requires
        from <= tail@.len(),
    ensures
        parts(r@) == entered_all(parts(base@), parts(tail@).skip(from as int), platform),
{
    let mut out = base;
    let ghost rest = parts(tail@).skip(from as int);
    let mut i: usize = from;
    assert(rest.take(0) =~= Seq::<Part>::empty());
    while i < tail.len()
        invariant
            from <= i <= tail@.len(),
            rest == parts(tail@).skip(from as int),
            parts(out@) == entered_all(parts(base@), rest.take(i - from), platform),
        decreases tail@.len() - i,
    {
        assert(rest.take(i + 1 - from).drop_last() =~= rest.take(i - from));
        assert(rest.take(i + 1 - from).last() == tail@[i as int]@);
        enter_component(&mut out, &tail[i], platform);
        i = i + 1;
    }
    assert(rest.take(rest.len() as int) =~= rest);
    out
}

/// One step of normalization: `.` vanishes, `..` removes the plain name before
/// it, and where there is none it stays, so that a path which climbs above its
/// start still reads as being outside of it.
pub open spec fn normalize_step(done: Seq<Part>, part: Part, platform: Platform) -> Seq<Part> {
    match part {
        Part::ParentDir => if done.len() > 0 && done.last() is Normal {
            done.drop_last()
        } else {
            done.push(part)
        },
        Part::CurDir => done,
        _ => entered(done, part, platform),
    }
}

/// The path with `.` and `..` resolved by name alone.
pub open spec fn normalized(path: Seq<Part>, platform: Platform) -> Seq<Part>
    decreases path.len(),
{
    if path.len() == 0 {
        path
    } else {
        normalize_step(normalized(path.drop_last(), platform), path.last(), platform)
    }
}

/// Resolve `.` and `..` by name alone, without touching the filesystem.
pub fn lexical_normalize(path: &[Component], platform: Platform) -> (r: Vec<Component>)
    ensures
        parts(r@) == normalized(parts(path@), platform),
{
    let mut out: Vec<Component> = Vec::new();
    let mut i: usize = 0;
    assert(parts(out@) =~= normalized(parts(path@).take(0), platform));
    while i < path.len()
        invariant
            i <= path@.len(),
            parts(out@) == normalized(parts(path@).take(i as int), platform),
        decreases path@.len() - i,
    {
        let ghost before = out@;
        assert(parts(path@).take(i + 1).drop_last() =~= parts(path@).take(i as int));
        assert(parts(path@).take(i + 1).last() == path@[i as int]@);
        match &path[i] {
            Component::ParentDir => {
                if ends_with_name(out.as_slice()) {
                    out.truncate(out.len() - 1);
                    assert(parts(out@) =~= parts(before).drop_last());
                } else {
                    out.push(Component::ParentDir);
                    assert(parts(out@) =~= parts(before).push(Part::ParentDir));
                }
            },
            Component::CurDir => {},
            part => {
                enter_component(&mut out, part, platform);
            },
        }
        i = i + 1;
    }
    assert(parts(path@).take(path@.len() as int) =~= parts(path@));
    out
}

/// A name that denotes one entry of the directory that it is appended to, and nothing
/// else: on Unix a plain name, on Windows one that also holds no `/` and does not begin
/// with a drive.
pub open spec fn entry_name(name: Seq<u8>, platform: Platform) -> bool {
    match platform {
        Platform::Unix => plain_name(name, platform),
        Platform::Windows => windows_name(name),
    }
}

fn holds_byte(name: &[u8], byte: u8) -> (r: bool)
    ensures
        r == name@.contains(byte),
{
    let mut i: usize = 0;
    while i < name.len()
        invariant
            i <= name@.len(),
            forall|k: int| 0 <= k < i ==> name@[k] != byte,
        decreases name@.len() - i,
    {
        if name[i] == byte {
            assert(name@[i as int] == byte);
            return true;
        }
        i = i + 1;
    }
    false
}

/// Whether a name denotes one entry of the directory that it is appended to, and
/// nothing else.
pub fn is_entry_name(name: &[u8], platform: Platform) -> (r: bool)
    ensures
        r == entry_name(name@, platform),
{
    if name.len() == 0 {
        return false;
    }
    if name.len() == 1 && name[0] == 46 {
        assert(name@ =~= seq![46u8]);
        return false;
    }
    if name.len() == 2 && name[0] == 46 && name[1] == 46 {
        assert(name@ =~= seq![46u8, 46u8]);
        return false;
    }
    let slash = holds_byte(name, 47);
    match platform {
        Platform::Unix => !slash,
        Platform::Windows => {
            let backslash = holds_byte(name, 92);
            let drive = name.len() >= 2 && name[1] == 58 && ((65 <= name[0] && name[0] <= 90) || (97
                <= name[0] && name[0] <= 122));
            proof {
                if !slash && !backslash {
                    assert forall|i: int| 0 <= i < name@.len() implies !separates(
                        #[trigger] name@[i],
                        Separators::Either,
                    ) by {
                        assert(name@.contains(name@[i]));
                    }
                } else if slash {
                    let k = choose|k: int| 0 <= k < name@.len() && name@[k] == 47u8;
                    assert(separates(name@[k], Separators::Either));
                }
            }
            !slash && !backslash && !drive
        },
    }
}

/// The names that `tail` lists; `None` where anything but names of entries and `.`
/// occurs in it.
pub open spec fn names_of(tail: Seq<Part>, platform: Platform) -> Option<Seq<Seq<u8>>>
    decreases tail.len(),
{
    if tail.len() == 0 {
        Some(Seq::empty())
    } else {
        match (names_of(tail.drop_last(), platform), tail.last()) {
            (Some(names), Part::Normal(name)) => if entry_name(name, platform) {
                Some(names.push(name))
            } else {
                None
            },
            (Some(names), Part::CurDir) => Some(names),
            _ => None,
        }
    }
}

/// The names that lead from `root` to `path`; `None` where `path` is not under
/// `root` or does not descend by names of entries alone.
pub open spec fn relative_names(root: Seq<Part>, path: Seq<Part>, platform: Platform) -> Option<
    Seq<Seq<u8>>,
> {
    if begins_with(path, root) {
        names_of(path.skip(root.len() as int), platform)
    } else {
        None
    }
}

/// The values of a list of names.
pub open spec fn name_list(list: Seq<Vec<u8>>) -> Seq<Seq<u8>> {
    Seq::new(list.len(), |i: int| list[i]@)
}

proof fn lemma_names_need_every_part(tail: Seq<Part>, n: int, platform: Platform)
    requires
        0 <= n <= tail.len(),
        names_of(tail.take(n), platform) is None,
    ensures
        names_of(tail, platform) is None,
    decreases tail.len() - n,
{
    if n < tail.len() {
        assert(tail.take(n + 1).drop_last() =~= tail.take(n));
        lemma_names_need_every_part(tail, n + 1, platform);
    } else {
        assert(tail.take(n) =~= tail);
    }
}

/// The names that lead from `root` to `path`.
pub fn relative_components(root: &[Component], path: &[Component], platform: Platform) -> (r: Option<
    Vec<Vec<u8>>,
>)
    ensures
        match r {
            Some(names) => relative_names(parts(root@), parts(path@), platform) == Some(name_list(names@)),
            None => relative_names(parts(root@), parts(path@), platform) is None,
        },
{
    if !starts_with(path, root) {
        return None;
    }
    let ghost tail = parts(path@).skip(root@.len() as int);
    let mut out: Vec<Vec<u8>> = Vec::new();
    let start: usize = root.len();
    let mut i: usize = start;
    assert(tail.take(0) =~= Seq::<Part>::empty());
    assert(name_list(out@) =~= Seq::<Seq<u8>>::empty());
    while i < path.len()
        invariant
            start == root@.len(),
            start <= i <= path@.len(),
            tail == parts(path@).skip(start as int),
            begins_with(parts(path@), parts(root@)),
            names_of(tail.take(i - start), platform) == Some(name_list(out@)),
        decreases path@.len() - i,
    {
        assert(tail.take(i + 1 - start).drop_last() =~= tail.take(i - start));
        assert(tail.take(i + 1 - start).last() == path@[i as int]@);
        match &path[i] {
            Component::Normal(name) => {
                if !is_entry_name(name.as_slice(), platform) {
                    proof {
                        lemma_names_need_every_part(tail, i + 1 - start, platform);
                    }
                    return None;
                }
                let ghost before = out@;
                out.push(slice_to_vec(name.as_slice()));
                assert(name_list(out@) =~= name_list(before).push(name@));
            },
            Component::CurDir => {},
            _ => {
                proof {
                    lemma_names_need_every_part(tail, i + 1 - start, platform);
                }
                return None;
            },
        }
        i = i + 1;
    }
    assert(tail.take(tail.len() as int) =~= tail);
    Some(out)
}

/// Whether `path` is `root` itself or lies beneath it.
pub fn is_within(path: &[Component], root: &[Component]) -> (r: bool)
    ensures
        r == begins_with(parts(path@), parts(root@)),
{
    starts_with(path, root)
}

/// The shape of a normalized path: no `.`, a prefix and a root only in front, and
/// no `..` right after a plain name.
pub open spec fn settled_shape(path: Seq<Part>) -> bool {
    &&& forall|i: int| 0 <= i < path.len() ==> !((#[trigger] path[i]) is CurDir)
    &&& forall|i: int| 0 < i < path.len() ==> !((#[trigger] path[i]) is Prefix)
    &&& forall|i: int|
        0 < i < path.len() && (#[trigger] path[i]) is RootDir ==> i == 1 && path[0] is Prefix
    &&& forall|i: int| 0 < i < path.len() && (#[trigger] path[i]) is ParentDir ==> !(path[i - 1] is Normal)
}

/// Whether every name of a path is plain and, on Windows, holds no separator.
pub open spec fn undivided(path: Seq<Part>, platform: Platform) -> bool {
    &&& plain_names(path, platform)
    &&& platform is Windows ==> forall|i: int|
        0 <= i < path.len() ==> ((#[trigger] path[i]) matches Part::Normal(name) ==> unseparated(
            name,
            Separators::Either,
        ))
}

/// Normalization leaves no `.`, and a `..` only where there is no name to cancel. On
/// Windows this leaves out names that hold a `/`.
pub proof fn lemma_normalized_shape(path: Seq<Part>, platform: Platform)
    requires
        platform is Unix || undivided(path, platform),
    ensures
        settled_shape(normalized(path, platform)),
    decreases path.len(),
{
    if path.len() > 0 {
        let front = path.drop_last();
        let last = path.last();
        let done = normalized(front, platform);
        assert(forall|i: int| 0 <= i < front.len() ==> #[trigger] front[i] == path[i]);
        assert(path[path.len() - 1] == last);
        lemma_normalized_shape(front, platform);
        let out = normalize_step(done, last, platform);
        if platform is Windows && last is Normal {
            let name = last->Normal_0;
            if drive_at(name, 0) {
                lemma_drive_name(name);
                lemma_prefix_replaces(done, parsed_windows(name));
            } else {
                lemma_lone_name(name);
                lemma_append_one(done, last);
            }
        }
        assert(settled_shape(out)) by {
            assert forall|i: int| 0 < i < out.len() && (#[trigger] out[i]) is ParentDir implies !(out[i
                - 1] is Normal) by {
                if i < done.len() && out[i] == done[i] {
                    assert(!(done[i - 1] is Normal));
                }
            }
        }
    }
}

proof fn lemma_append_one(base: Seq<Part>, part: Part)
    ensures
        appended(base, seq![part]) == pushed(base, part),
{
    reveal_with_fuel(appended, 2);
    assert(seq![part].drop_last() =~= Seq::<Part>::empty());
}

/// A prefix replaces whatever it is appended to.
proof fn lemma_prefix_replaces(base: Seq<Part>, tail: Seq<Part>)
    requires
        1 <= tail.len() <= 2,
        tail[0] is Prefix,
        tail.len() == 2 ==> tail[1] is Normal || (tail[1] is ParentDir && !verbatim_path(tail)),
    ensures
        appended(base, tail) == tail,
{
    reveal_with_fuel(appended, 3);
    assert(tail.drop_last().len() == tail.len() - 1);
    if tail.len() == 1 {
        assert(tail =~= seq![tail[0]]);
    } else {
        assert(tail.drop_last() =~= seq![tail[0]]);
        assert(tail =~= seq![tail[0]].push(tail[1]));
    }
}

/// Whether every name of a path is the name of an entry.
pub open spec fn entry_names(path: Seq<Part>, platform: Platform) -> bool {
    forall|i: int|
        0 <= i < path.len() ==> ((#[trigger] path[i]) matches Part::Normal(name) ==> entry_name(
            name,
            platform,
        ))
}

/// A path of that shape is left alone; on Windows its names must be names of entries.
pub proof fn lemma_normalize_keeps_settled(path: Seq<Part>, platform: Platform)
    requires
        settled_shape(path),
        platform is Windows ==> entry_names(path, platform),
    ensures
        normalized(path, platform) == path,
    decreases path.len(),
{
    if path.len() > 0 {
        let front = path.drop_last();
        let last = path.last();
        assert(settled_shape(front)) by {
            assert forall|i: int| 0 < i < front.len() && (#[trigger] front[i]) is ParentDir implies !(
            front[i - 1] is Normal) by {
                assert(path[i] == front[i]);
            }
            assert forall|i: int| 0 < i < front.len() && (#[trigger] front[i]) is RootDir implies i == 1
                && front[0] is Prefix by {
                assert(path[i] == front[i]);
            }
            assert forall|i: int| 0 < i < front.len() implies !((#[trigger] front[i]) is Prefix) by {
                assert(path[i] == front[i]);
            }
            assert forall|i: int| 0 <= i < front.len() implies !((#[trigger] front[i]) is CurDir) by {
                assert(path[i] == front[i]);
            }
        }
        assert(forall|i: int| 0 <= i < front.len() ==> #[trigger] front[i] == path[i]);
        lemma_normalize_keeps_settled(front, platform);
        assert(path[path.len() - 1] == last);
        if platform is Windows && last is Normal {
            lemma_lone_name(last->Normal_0);
            lemma_append_one(front, last);
        }
        assert(normalized(path, platform) =~= path);
    } else {
        assert(normalized(path, platform) =~= path);
    }
}

/// Normalizing twice is normalizing once. On Windows this leaves out paths of which
/// something is left that still reads as more than a list of entries.
pub proof fn lemma_normalize_twice(path: Seq<Part>, platform: Platform)
    requires
        platform is Windows ==> settled_shape(normalized(path, platform)) && entry_names(
            normalized(path, platform),
            platform,
        ),
    ensures
        normalized(normalized(path, platform), platform) == normalized(path, platform),
{
    if platform is Unix {
        lemma_normalized_shape(path, platform);
    }
    lemma_normalize_keeps_settled(normalized(path, platform), platform);
}

/// Whether every name of a list is the name of an entry.
pub open spec fn all_entries(names: Seq<Seq<u8>>, platform: Platform) -> bool {
    forall|i: int| 0 <= i < names.len() ==> entry_name(#[trigger] names[i], platform)
}

proof fn lemma_names_of_entries(tail: Seq<Part>, platform: Platform)
    ensures
        names_of(tail, platform) matches Some(names) ==> all_entries(names, platform),
    decreases tail.len(),
{
    if tail.len() > 0 {
        lemma_names_of_entries(tail.drop_last(), platform);
    }
}

/// The names that lead from a root to a path are names of entries.
pub proof fn lemma_relative_names_are_entries(root: Seq<Part>, path: Seq<Part>, platform: Platform)
    ensures
        relative_names(root, path, platform) matches Some(names) ==> all_entries(names, platform),
{
    if begins_with(path, root) {
        lemma_names_of_entries(path.skip(root.len() as int), platform);
    }
}

/// Which names are names of entries, byte by byte. On Unix every name is one that is not
/// empty, not `.`, not `..` and holds no `/`; a leading dot, a space or a byte that is no
/// text makes no difference. On Windows a name must also hold no `\`, and not begin with
/// a letter and a colon.
pub proof fn lemma_entry_names_by_their_bytes(name: Seq<u8>)
    ensures
        entry_name(name, Platform::Unix) == (name.len() > 0 && name != seq![46u8] && name != seq![
            46u8,
            46u8,
        ] && forall|i: int| 0 <= i < name.len() ==> #[trigger] name[i] != 47),
        entry_name(name, Platform::Windows) == (name.len() > 0 && name != seq![46u8] && name != seq![
            46u8,
            46u8,
        ] && (forall|i: int| 0 <= i < name.len() ==> #[trigger] name[i] != 47 && name[i] != 92) && !(
        name.len() >= 2 && name[1] == 58 && (65 <= name[0] <= 90 || 97 <= name[0] <= 122))),
{
    if forall|i: int| 0 <= i < name.len() ==> #[trigger] name[i] != 47 {
        assert(!name.contains(47u8));
    } else {
        let i = choose|i: int| 0 <= i < name.len() && !(#[trigger] name[i] != 47);
        assert(name.contains(name[i]));
    }
    if forall|i: int| 0 <= i < name.len() ==> #[trigger] name[i] != 47 && name[i] != 92 {
        assert(!name.contains(92u8));
        assert(unseparated(name, Separators::Either));
    } else {
        let i = choose|i: int| 0 <= i < name.len() && !(#[trigger] name[i] != 47 && name[i] != 92);
        assert(name.contains(name[i]));
        assert(separates(name[i], Separators::Either));
    }
}

/// A path begins with another if and only if it is that path and something after it.
pub proof fn lemma_begins_with_is_a_prefix(path: Seq<Part>, start: Seq<Part>, rest: Seq<Part>)
    ensures
        begins_with(start + rest, start),
        begins_with(path, start) ==> path == start + path.skip(start.len() as int),
{
    assert((start + rest).take(start.len() as int) =~= start);
    if begins_with(path, start) {
        assert(path =~= path.take(start.len() as int) + path.skip(start.len() as int));
    }
}

/// The names that lead from a root to a place below it are the names that follow the
/// root, all of them and in order; and no other place has any.
pub proof fn lemma_relative_names_are_what_follows(
    root: Seq<Part>,
    names: Seq<Seq<u8>>,
    path: Seq<Part>,
    platform: Platform,
)
    ensures
        all_entries(names, platform) ==> relative_names(
            root,
            root + Seq::new(names.len(), |i: int| Part::Normal(names[i])),
            platform,
        ) == Some(names),
        !begins_with(path, root) ==> relative_names(root, path, platform) is None,
        relative_names(root, path, platform) matches Some(found) ==> begins_with(path, root) && forall|
            i: int,
        |
            root.len() <= i < path.len() ==> (#[trigger] path[i]) is Normal || path[i] is CurDir,
{
    let tail = Seq::new(names.len(), |i: int| Part::Normal(names[i]));
    lemma_begins_with_is_a_prefix(path, root, tail);
    assert((root + tail).skip(root.len() as int) =~= tail);
    if all_entries(names, platform) {
        lemma_names_listed(names, platform);
    }
    if relative_names(root, path, platform) is Some {
        let rest = path.skip(root.len() as int);
        lemma_listed_parts(rest, platform);
        assert forall|i: int| root.len() <= i < path.len() implies (#[trigger] path[i]) is Normal
            || path[i] is CurDir by {
            assert(rest[i - root.len()] == path[i]);
        }
    }
}

proof fn lemma_listed_parts(tail: Seq<Part>, platform: Platform)
    requires
        names_of(tail, platform) is Some,
    ensures
        forall|i: int| 0 <= i < tail.len() ==> (#[trigger] tail[i]) is Normal || tail[i] is CurDir,
    decreases tail.len(),
{
    if tail.len() > 0 {
        let front = tail.drop_last();
        lemma_listed_parts(front, platform);
        assert forall|i: int| 0 <= i < tail.len() implies (#[trigger] tail[i]) is Normal || tail[i]
            is CurDir by {
            if i < front.len() {
                assert(front[i] == tail[i]);
            }
        }
    }
}

proof fn lemma_names_listed(names: Seq<Seq<u8>>, platform: Platform)
    requires
        all_entries(names, platform),
    ensures
        names_of(Seq::new(names.len(), |i: int| Part::Normal(names[i])), platform) == Some(names),
    decreases names.len(),
{
    let tail = Seq::new(names.len(), |i: int| Part::Normal(names[i]));
    if names.len() > 0 {
        let front = names.drop_last();
        assert(forall|i: int| 0 <= i < front.len() ==> #[trigger] front[i] == names[i]);
        lemma_names_listed(front, platform);
        assert(tail.drop_last() =~= Seq::new(front.len(), |i: int| Part::Normal(front[i])));
        assert(entry_name(names[names.len() - 1], platform));
        assert(front.push(names.last()) =~= names);
    } else {
        assert(names =~= Seq::<Seq<u8>>::empty());
    }
}

/// Normalizing goes component by component. A name is added; `.` adds nothing; `..` takes
/// the name before it away, and where there is none it stays. On Windows this is said of
/// names of entries.
pub proof fn lemma_normalize_step_by_step(path: Seq<Part>, name: Seq<u8>, platform: Platform)
    requires
        platform is Windows ==> entry_name(name, platform),
    ensures
        ({
            let done = normalized(path, platform);
            &&& normalized(path.push(Part::Normal(name)), platform) == done.push(Part::Normal(name))
            &&& normalized(path.push(Part::CurDir), platform) == done
            &&& normalized(path.push(Part::Normal(name)).push(Part::ParentDir), platform) == done
            &&& done.len() == 0 || !(done.last() is Normal) ==> normalized(
                path.push(Part::ParentDir),
                platform,
            ) == done.push(Part::ParentDir)
            &&& normalized(Seq::empty(), platform) == Seq::<Part>::empty()
            &&& normalized(path.push(Part::RootDir), platform) == pushed(done, Part::RootDir)
        }),
{
    let done = normalized(path, platform);
    assert(path.push(Part::RootDir).drop_last() =~= path);
    let named = path.push(Part::Normal(name));
    assert(named.drop_last() =~= path);
    assert(path.push(Part::CurDir).drop_last() =~= path);
    assert(path.push(Part::ParentDir).drop_last() =~= path);
    assert(named.push(Part::ParentDir).drop_last() =~= named);
    if platform is Windows {
        lemma_lone_name(name);
        reveal_with_fuel(appended, 2);
        assert(seq![Part::Normal(name)].drop_last() =~= Seq::<Part>::empty());
        assert(appended(done, seq![Part::Normal(name)]) == pushed(done, Part::Normal(name)));
    }
    assert(normalized(named, platform) == done.push(Part::Normal(name)));
    assert(done.push(Part::Normal(name)).drop_last() =~= done);
}

/// Names after a path that is settled stay where they are.
pub proof fn lemma_normalize_keeps_names(base: Seq<Part>, names: Seq<Seq<u8>>, platform: Platform)
    requires
        settled_shape(base),
        platform is Windows ==> entry_names(base, platform) && all_entries(names, platform),
    ensures
        ({
            let path = base + Seq::new(names.len(), |i: int| Part::Normal(names[i]));
            normalized(path, platform) == path
        }),
    decreases names.len(),
{
    let path = base + Seq::new(names.len(), |i: int| Part::Normal(names[i]));
    if names.len() == 0 {
        assert(path =~= base);
        lemma_normalize_keeps_settled(base, platform);
    } else {
        let front = names.drop_last();
        let before = base + Seq::new(front.len(), |i: int| Part::Normal(front[i]));
        assert(forall|i: int| 0 <= i < front.len() ==> #[trigger] front[i] == names[i]);
        lemma_normalize_keeps_names(base, front, platform);
        if platform is Windows {
            assert(entry_name(names[names.len() - 1], platform));
        }
        lemma_normalize_step_by_step(before, names.last(), platform);
        assert(before.push(Part::Normal(names.last())) =~= path);
    }
}

/// Whether a path starts at a fixed place: on Unix if and only if it begins with the
/// root, on Windows if and only if it has a prefix, and after a drive the root too.
pub proof fn lemma_absolute_paths(path: Seq<Part>, drive: u8)
    ensures
        absolute(path, Platform::Unix) == (path.len() > 0 && path[0] == Part::RootDir),
        !absolute(seq![Part::Prefix(PrefixView::Disk(drive))], Platform::Windows),
        path.len() > 0 && !(path[0] is Prefix) ==> !absolute(path, Platform::Windows),
        path.len() > 0 && path[0] == Part::Prefix(PrefixView::Disk(drive)) ==> absolute(
            path,
            Platform::Windows,
        ) == (path.len() > 1 && path[1] == Part::RootDir),
        path.len() > 0 && (path[0] matches Part::Prefix(prefix) && !(prefix is Disk)) ==> absolute(
            path,
            Platform::Windows,
        ),
{
}

/// The names below a root are collected component by component: a name of an entry is
/// added, `.` adds nothing, and anything else leaves none.
pub proof fn lemma_relative_names_component_by_component(
    root: Seq<Part>,
    path: Seq<Part>,
    name: Seq<u8>,
    platform: Platform,
)
    requires
        begins_with(path, root),
    ensures
        relative_names(root, root, platform) == Some(Seq::<Seq<u8>>::empty()),
        relative_names(root, path.push(Part::CurDir), platform) == relative_names(root, path, platform),
        relative_names(root, path.push(Part::ParentDir), platform) is None,
        relative_names(root, path.push(Part::RootDir), platform) is None,
        relative_names(root, path, platform) is None ==> relative_names(
            root,
            path.push(Part::Normal(name)),
            platform,
        ) is None,
        relative_names(root, path, platform) matches Some(names) ==> relative_names(
            root,
            path.push(Part::Normal(name)),
            platform,
        ) == if entry_name(name, platform) {
            Some(names.push(name))
        } else {
            None
        },
{
    let n = root.len() as int;
    assert(root.take(n) =~= root);
    assert(root.skip(n) =~= Seq::<Part>::empty());
    lemma_one_more_component(root, path, Part::CurDir);
    lemma_one_more_component(root, path, Part::ParentDir);
    lemma_one_more_component(root, path, Part::RootDir);
    lemma_one_more_component(root, path, Part::Normal(name));
}

proof fn lemma_one_more_component(root: Seq<Part>, path: Seq<Part>, part: Part)
    requires
        begins_with(path, root),
    ensures
        begins_with(path.push(part), root),
        path.push(part).skip(root.len() as int).drop_last() == path.skip(root.len() as int),
        path.push(part).skip(root.len() as int).last() == part,
        path.push(part).skip(root.len() as int).len() > 0,
{
    let n = root.len() as int;
    assert(path.push(part).take(n) =~= path.take(n));
    assert(path.push(part).skip(n).drop_last() =~= path.skip(n));
}

/// What appending one component makes of a path: a name follows; `.` is kept only where
/// nothing stands before it; `..` follows, and in a verbatim path it takes a name away
/// instead; a root leaves the prefix alone standing before it; a prefix replaces
/// everything. Appending several is appending one after the other.
pub proof fn lemma_appending_component_by_component(
    base: Seq<Part>,
    tail: Seq<Part>,
    part: Part,
    name: Seq<u8>,
    prefix: PrefixView,
)
    ensures
        pushed(base, Part::Normal(name)) == base.push(Part::Normal(name)),
        pushed(Seq::empty(), Part::CurDir) == seq![Part::CurDir],
        base.len() > 0 ==> pushed(base, Part::CurDir) == base,
        pushed(base, Part::Prefix(prefix)) == seq![Part::Prefix(prefix)],
        base.len() > 0 && base[0] is Prefix ==> pushed(base, Part::RootDir) == seq![base[0], Part::RootDir],
        base.len() == 0 || !(base[0] is Prefix) ==> pushed(base, Part::RootDir) == seq![Part::RootDir],
        ({
            let is_verbatim = base.len() > 0 && (base[0] matches Part::Prefix(p) && (p is Verbatim
                || p is VerbatimUnc || p is VerbatimDisk));
            &&& !is_verbatim ==> pushed(base, Part::ParentDir) == base.push(Part::ParentDir)
            &&& is_verbatim && base.last() is Normal ==> pushed(base, Part::ParentDir) == base.drop_last()
            &&& is_verbatim && !(base.last() is Normal) ==> pushed(base, Part::ParentDir) == base
        }),
        appended(base, Seq::empty()) == base,
        appended(base, tail.push(part)) == pushed(appended(base, tail), part),
        entered(base, part, Platform::Unix) == pushed(base, part),
        entered(base, Part::Normal(name), Platform::Windows) == appended(base, parsed_windows(name)),
        entered_all(base, Seq::empty(), Platform::Unix) == base,
        entered_all(base, tail.push(part), Platform::Unix) == entered(
            entered_all(base, tail, Platform::Unix),
            part,
            Platform::Unix,
        ),
        entered_all(base, tail.push(part), Platform::Windows) == entered(
            entered_all(base, tail, Platform::Windows),
            part,
            Platform::Windows,
        ),
{
    assert(tail.push(part).drop_last() =~= tail);
    assert(tail.push(part).last() == part);
}

/// What stands above a path is the path without its last component, unless that is a root
/// or a prefix, or there is none.
pub proof fn lemma_what_stands_above(path: Seq<Part>, name: Seq<u8>)
    ensures
        parent_of(path.push(Part::Normal(name))) == Some(path),
        parent_of(path.push(Part::ParentDir)) == Some(path),
        parent_of(path.push(Part::CurDir)) == Some(path),
        parent_of(path.push(Part::RootDir)) is None,
        parent_of(Seq::empty()) is None,
{
    assert(path.push(Part::Normal(name)).drop_last() =~= path);
    assert(path.push(Part::ParentDir).drop_last() =~= path);
    assert(path.push(Part::CurDir).drop_last() =~= path);
}

} // verus!
