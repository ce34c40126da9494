//! File paths. A path is opaque: what the library reads of it are its components, and the
//! bytes and the text in which it is written. File names, extensions, prefixes and the order of paths are
//! computed on the components.

use std::path::{Component, PathBuf, Prefix};

use vstd::prelude::*;
use vstd::slice::slice_subrange;
use vstd::utf8::{decode_utf8, encode_utf8, valid_utf8};

use crate::order::{bytes_decided_at, key_before, key_view, lemma_bytes_decided};
use crate::order::{bytes_equal, key_less};
use crate::text::from_utf8;

verus! {

/// `std::path::PathBuf`, an owned path.
#[verifier::external_type_specification]
#[verifier::external_body]
pub struct ExPathBuf(std::path::PathBuf);

/// The prefix with which a path can begin on Windows, such as `C:`. Names are held as the bytes
/// of their platform encoding.
pub enum PathPrefix {
    Verbatim(Vec<u8>),
    VerbatimUnc(Vec<u8>, Vec<u8>),
    DeviceNs(Vec<u8>),
    Unc(Vec<u8>, Vec<u8>),
    VerbatimDisk(u8),
    Disk(u8),
}

/// What a [`PathPrefix`] holds.
pub enum PrefixView {
    Verbatim(Seq<u8>),
    VerbatimUnc(Seq<u8>, Seq<u8>),
    DeviceNs(Seq<u8>),
    Unc(Seq<u8>, Seq<u8>),
    VerbatimDisk(u8),
    Disk(u8),
}

impl View for PathPrefix {
    type V = PrefixView;

    open spec fn view(&self) -> PrefixView {
        match self {
            PathPrefix::Verbatim(a) => PrefixView::Verbatim(a@),
            PathPrefix::VerbatimUnc(a, b) => PrefixView::VerbatimUnc(a@, b@),
            PathPrefix::DeviceNs(a) => PrefixView::DeviceNs(a@),
            PathPrefix::Unc(a, b) => PrefixView::Unc(a@, b@),
            PathPrefix::VerbatimDisk(d) => PrefixView::VerbatimDisk(*d),
            PathPrefix::Disk(d) => PrefixView::Disk(*d),
        }
    }
}

/// The contents of an optional prefix.
pub open spec fn prefix_view(prefix: Option<PathPrefix>) -> Option<PrefixView> {
    match prefix {
        Some(p) => Some(p@),
        None => None,
    }
}

/// One component of a path. Names are held as the bytes of their platform encoding, which
/// extends UTF-8. A prefix is `None` where it has not been looked into.
pub enum Part {
    Prefix(Option<PathPrefix>),
    RootDir,
    CurDir,
    ParentDir,
    Normal(Vec<u8>),
}

/// What a [`Part`] holds.
pub enum PartView {
    Prefix(Option<PrefixView>),
    RootDir,
    CurDir,
    ParentDir,
    Normal(Seq<u8>),
}

impl View for Part {
    type V = PartView;

    open spec fn view(&self) -> PartView {
        match self {
            Part::Prefix(prefix) => PartView::Prefix(prefix_view(*prefix)),
            Part::RootDir => PartView::RootDir,
            Part::CurDir => PartView::CurDir,
            Part::ParentDir => PartView::ParentDir,
            Part::Normal(bytes) => PartView::Normal(bytes@),
        }
    }
}

/// What a list of components holds.
pub open spec fn part_views(parts: Seq<Part>) -> Seq<PartView> {
    parts.map_values(|p: Part| p@)
}

/// The components that a path holds, its prefix not looked into.
pub uninterp spec fn path_steps(path: PathBuf) -> Seq<PartView>;

/// The prefix with which a path begins, if it begins with one.
pub uninterp spec fn path_prefix(path: PathBuf) -> Option<PrefixView>;

/// The texts of those components of a path that are names, as `OsStr::to_string_lossy` gives
/// them; `None` for any other component.
pub uninterp spec fn path_names(path: PathBuf) -> Seq<Option<Seq<char>>>;

/// A drive letter as a capital.
pub open spec fn capital(d: u8) -> u8 {
    if 97 <= d <= 122 {
        (d - 32) as u8
    } else {
        d
    }
}

/// A prefix with its drive letter as a capital: the case of drive letters does not count.
pub open spec fn folded(prefix: PrefixView) -> PrefixView {
    match prefix {
        PrefixView::VerbatimDisk(d) => PrefixView::VerbatimDisk(capital(d)),
        PrefixView::Disk(d) => PrefixView::Disk(capital(d)),
        _ => prefix,
    }
}

/// The components that a path holds. Only the first one can be a prefix.
pub open spec fn path_components(path: PathBuf) -> Seq<PartView> {
    let steps = path_steps(path);
    if steps.len() > 0 && steps[0] is Prefix {
        let prefix = match path_prefix(path) {
            Some(p) => Some(folded(p)),
            None => None,
        };
        steps.update(0, PartView::Prefix(prefix))
    } else {
        steps
    }
}

/// The bytes of a path in its platform encoding, as `OsStr::as_encoded_bytes` gives them.
pub uninterp spec fn path_bytes(path: PathBuf) -> Seq<u8>;

/// The text in which `Path::display` shows a path.
pub uninterp spec fn path_shown(path: PathBuf) -> Seq<char>;

/// `Path::components` takes a path apart. Of a prefix only that it is there is told.
#[verifier::external_body]
fn steps(path: &PathBuf) -> (parts: Vec<Part>)
    ensures
        part_views(parts@) == path_steps(*path),
{
    path.components().map(|c| match c {
        Component::Prefix(_) => Part::Prefix(None),
        Component::RootDir => Part::RootDir,
        Component::CurDir => Part::CurDir,
        Component::ParentDir => Part::ParentDir,
        Component::Normal(name) => Part::Normal(name.as_encoded_bytes().to_vec()),
    }).collect()
}

/// `PrefixComponent::kind` tells which prefix a path begins with.
#[verifier::external_body]
fn prefix(path: &PathBuf) -> (prefix: Option<PathPrefix>)
    ensures
        prefix_view(prefix) == path_prefix(*path),
{
    match path.components().next() {
        Some(Component::Prefix(p)) => Some(match p.kind() {
            Prefix::Verbatim(a) => PathPrefix::Verbatim(a.as_encoded_bytes().to_vec()),
            Prefix::VerbatimUNC(a, b) => PathPrefix::VerbatimUnc(a.as_encoded_bytes().to_vec(), b.as_encoded_bytes().to_vec()),
            Prefix::DeviceNS(a) => PathPrefix::DeviceNs(a.as_encoded_bytes().to_vec()),
            Prefix::UNC(a, b) => PathPrefix::Unc(a.as_encoded_bytes().to_vec(), b.as_encoded_bytes().to_vec()),
            Prefix::VerbatimDisk(d) => PathPrefix::VerbatimDisk(d),
            Prefix::Disk(d) => PathPrefix::Disk(d),
        }),
        _ => None,
    }
}

/// A drive letter as a capital.
fn to_capital(d: u8) -> (r: u8)
    ensures
        r == capital(d),
{
    if 97 <= d && d <= 122 {
        d - 32
    } else {
        d
    }
}

/// Writes the drive letter of a prefix as a capital.
pub fn fold(prefix: PathPrefix) -> (r: PathPrefix)
    ensures
        r@ == folded(prefix@),
{
    match prefix {
        PathPrefix::VerbatimDisk(d) => PathPrefix::VerbatimDisk(to_capital(d)),
        PathPrefix::Disk(d) => PathPrefix::Disk(to_capital(d)),
        PathPrefix::Verbatim(a) => PathPrefix::Verbatim(a),
        PathPrefix::VerbatimUnc(a, b) => PathPrefix::VerbatimUnc(a, b),
        PathPrefix::DeviceNs(a) => PathPrefix::DeviceNs(a),
        PathPrefix::Unc(a, b) => PathPrefix::Unc(a, b),
    }
}

/// Takes a path apart into its components.
pub fn components(path: &PathBuf) -> (parts: Vec<Part>)
    ensures
        part_views(parts@) == path_components(*path),
{
    let mut parts = steps(path);
    if parts.len() > 0 {
        assert(part_views(parts@)[0] == parts@[0]@);
        if let Part::Prefix(_) = &parts[0] {
            let ghost before = parts@;
            let first: Option<PathPrefix> = match prefix(path) {
                Some(p) => Some(fold(p)),
                None => None,
            };
            parts.set(0, Part::Prefix(first));
            assert(part_views(parts@) =~= part_views(before).update(0, PartView::Prefix(prefix_view(first))));
        }
    }
    parts
}

/// Whether a component and its text agree: names have a text, which is the name itself if it is
/// Unicode.
pub open spec fn name_agrees(part: PartView, text: Option<Seq<char>>) -> bool {
    match part {
        PartView::Normal(bytes) => text is Some && (valid_utf8(bytes) ==> text == Some(decode_utf8(bytes))),
        _ => text is None,
    }
}

/// The contents of a list of optional texts.
pub open spec fn text_views(list: Seq<Option<String>>) -> Seq<Option<Seq<char>>> {
    list.map_values(|t: Option<String>| text_view(t))
}

/// `OsStr::to_string_lossy` gives the text of a name, with replacement characters for what is
/// not Unicode. Here it is given for each component of a path that is a name.
#[verifier::external_body]
pub(crate) fn name_texts(path: &PathBuf) -> (list: Vec<Option<String>>)
    ensures
        text_views(list@) == path_names(*path),
        list@.len() == path_components(*path).len(),
        forall|i: int|
            0 <= i < list@.len() ==> name_agrees(path_components(*path)[i], text_view(#[trigger] list@[i])),
{
    path.components().map(|c| match c {
        Component::Normal(name) => Some(name.to_string_lossy().into_owned()),
        Component::Prefix(_) => None,
        Component::RootDir => None,
        Component::CurDir => None,
        Component::ParentDir => None,
    }).collect()
}

/// `OsStr::as_encoded_bytes` gives the bytes of a path.
#[verifier::external_body]
pub(crate) fn to_bytes(path: &PathBuf) -> (bytes: Vec<u8>)
    ensures
        bytes@ == path_bytes(*path),
{
    path.as_os_str().as_encoded_bytes().to_vec()
}

/// `Path::display` shows a path to a reader.
#[verifier::external_body]
pub(crate) fn display(path: &PathBuf) -> (text: String)
    ensures
        text@ == path_shown(*path),
{
    path.display().to_string()
}

/// Whether a path has a parent: it has components and does not end in a root or a prefix.
pub open spec fn has_parent(parts: Seq<PartView>) -> bool {
    &&& parts.len() > 0
    &&& !(parts.last() is RootDir)
    &&& !(parts.last() is Prefix)
}

/// What `Path::parent` makes of a path.
pub uninterp spec fn parent_path(path: PathBuf) -> Option<PathBuf>;

/// `Path::parent` gives the path without its final component. There is none if the path is
/// empty or ends in a root or a prefix.
#[verifier::external_body]
pub(crate) fn parent(path: &PathBuf) -> (up: Option<PathBuf>)
    ensures
        up == parent_path(*path),
        match up {
            Some(p) => has_parent(path_components(*path)) && path_components(p)
                == path_components(*path).drop_last(),
            None => !has_parent(path_components(*path)),
        },
{
    path.parent().map(|p| p.to_path_buf())
}

/// `PathBuf::from` makes a path of its text. A single dot is the current directory.
#[verifier::external_body]
fn path_from(text: &str) -> (path: PathBuf)
    ensures
        path_shown(path) == text@,
        path_bytes(path) == encode_utf8(text@),
        text@ == "."@ ==> path_components(path) == seq![PartView::CurDir],
{
    PathBuf::from(text)
}

/// Whether a path is that of the current directory, a single dot.
pub open spec fn is_current_dir(path: PathBuf) -> bool {
    &&& path_components(path) == seq![PartView::CurDir]
    &&& path_shown(path) == "."@
    &&& path_bytes(path) == encode_utf8("."@)
}

/// The path of the current directory.
pub fn current_dir() -> (path: PathBuf)
    ensures
        is_current_dir(path),
{
    path_from(".")
}

/// What `Path::join` makes of two paths.
pub uninterp spec fn joined_path(base: PathBuf, path: PathBuf) -> PathBuf;

/// `Path::join` puts one path behind another. A bare name behind the current directory becomes
/// its second component. Of other paths only the name of the result is given: what becomes of
/// their components depends on the platform.
#[verifier::external_body]
fn join(base: &PathBuf, path: &PathBuf) -> (joined: PathBuf)
    ensures
        joined == joined_path(*base, *path),
        path_components(*base) == seq![PartView::CurDir] && path_components(*path).len() == 1
            && path_components(*path)[0] is Normal ==> path_components(joined) == path_components(*base)
            + path_components(*path),
{
    base.join(path)
}

/// Whether a folder is the one that holds the file of a path: the parent of the path, or the
/// current directory if the parent is empty.
pub open spec fn is_holder(folder: PathBuf, path: PathBuf) -> bool {
    let parts = path_components(path);
    &&& has_parent(parts)
    &&& if parts.len() > 1 {
        parent_path(path) == Some(folder) && path_components(folder) == parts.drop_last()
    } else {
        is_current_dir(folder)
    }
}

/// The folder that holds the file of a path, if the path has a parent.
pub fn holder(path: &PathBuf) -> (folder: Option<PathBuf>)
    ensures
        match folder {
            Some(f) => is_holder(f, *path),
            None => !has_parent(path_components(*path)),
        },
{
    match parent(path) {
        Some(up) => {
            let parts = components(&up);
            assert(part_views(parts@).len() == parts@.len());
            if parts.len() > 0 {
                Some(up)
            } else {
                Some(current_dir())
            }
        },
        None => None,
    }
}

/// Whether a path is that under which a walk through the folder that holds a file meets the
/// file: its own path, or behind that of the current directory if it is a bare name.
pub open spec fn is_met_as(met: PathBuf, folder: PathBuf, path: PathBuf) -> bool {
    let parts = path_components(path);
    if parts.len() == 1 && parts[0] is Normal {
        &&& met == joined_path(folder, path)
        &&& path_components(folder) == seq![PartView::CurDir] ==> path_components(met) == path_components(folder)
            + parts
    } else {
        met == path
    }
}

/// The path under which a walk through the folder that holds a file meets the file.
pub fn met_as(folder: &PathBuf, path: &PathBuf) -> (met: PathBuf)
    ensures
        is_met_as(met, *folder, *path),
{
    let parts = components(path);
    if parts.len() == 1 {
        assert(part_views(parts@)[0] == parts@[0]@);
        if let Part::Normal(_) = &parts[0] {
            return join(folder, path);
        }
    }
    path.clone()
}

/// Cloning a path gives the same path.
pub assume_specification[ <std::path::PathBuf as Clone>::clone ](
    path: &std::path::PathBuf,
) -> (copy: std::path::PathBuf)
    ensures
        copy == *path,
;

/// The file name that a path ends with, if it ends with one.
pub open spec fn last_name(parts: Seq<PartView>) -> Option<Seq<u8>> {
    if parts.len() > 0 {
        match parts.last() {
            PartView::Normal(name) => Some(name),
            _ => None,
        }
    } else {
        None
    }
}

/// The file name that a list of components ends with.
pub fn name_of(parts: &Vec<Part>) -> (name: Option<&Vec<u8>>)
    ensures
        match name {
            Some(n) => last_name(part_views(parts@)) == Some(n@),
            None => last_name(part_views(parts@)) is None,
        },
{
    let n = parts.len();
    if n == 0 {
        return None;
    }
    assert(part_views(parts@).last() == parts@[n - 1]@);
    match &parts[n - 1] {
        Part::Normal(name) => Some(name),
        _ => None,
    }
}

/// The place of the last dot in a name, or -1 if there is none.
pub open spec fn last_dot(name: Seq<u8>) -> int
    decreases name.len(),
{
    if name.len() == 0 {
        -1
    } else if name.last() == 46 {
        name.len() - 1
    } else {
        last_dot(name.drop_last())
    }
}

/// The extension of a file name: what follows its last dot, unless there is none or it only
/// begins the name.
pub open spec fn extension_of(name: Seq<u8>) -> Option<Seq<u8>> {
    if last_dot(name) > 0 {
        Some(name.skip(last_dot(name) + 1))
    } else {
        None
    }
}

/// The stem of a file name: the name without its extension and the dot before it.
pub open spec fn stem_of(name: Seq<u8>) -> Seq<u8> {
    if last_dot(name) > 0 {
        name.take(last_dot(name))
    } else {
        name
    }
}

/// Takes a file name apart into its stem and its extension.
pub fn split_name(name: &[u8]) -> (parts: (&[u8], Option<&[u8]>))
    ensures
        parts.0@ == stem_of(name@),
        match parts.1 {
            Some(ext) => extension_of(name@) == Some(ext@),
            None => extension_of(name@) is None,
        },
{
    let mut n: usize = name.len();
    assert(name@.take(n as int) =~= name@);
    while n > 0 && name[n - 1] != 46
        invariant
            n <= name@.len(),
            last_dot(name@.take(n as int)) == last_dot(name@),
        decreases n,
    {
        assert(name@.take(n as int).drop_last() =~= name@.take(n - 1));
        n -= 1;
    }
    if n > 1 {
        assert(last_dot(name@) == n - 1);
        assert(name@.skip(n as int) =~= name@.subrange(n as int, name@.len() as int));
        assert(name@.take(n - 1) =~= name@.subrange(0, n - 1));
        (slice_subrange(name, 0, n - 1), Some(slice_subrange(name, n, name.len())))
    } else {
        (name, None)
    }
}

/// The extension of the file that a path names, as text.
pub open spec fn text_extension(parts: Seq<PartView>) -> Option<Seq<char>> {
    match last_name(parts) {
        Some(name) => match extension_of(name) {
            Some(ext) => if valid_utf8(ext) {
                Some(decode_utf8(ext))
            } else {
                None
            },
            None => None,
        },
        None => None,
    }
}

/// The stem of the file that a path names, as text.
pub open spec fn text_stem(parts: Seq<PartView>) -> Option<Seq<char>> {
    match last_name(parts) {
        Some(name) => if valid_utf8(stem_of(name)) {
            Some(decode_utf8(stem_of(name)))
        } else {
            None
        },
        None => None,
    }
}

/// The contents of an optional text.
pub open spec fn text_view(text: Option<String>) -> Option<Seq<char>> {
    match text {
        Some(s) => Some(s@),
        None => None,
    }
}

/// The extension of the file that a path names, if it has one and it is Unicode.
pub fn extension_text(parts: &Vec<Part>) -> (ext: Option<String>)
    ensures
        text_view(ext) == text_extension(part_views(parts@)),
{
    match name_of(parts) {
        Some(name) => match split_name(name.as_slice()).1 {
            Some(ext) => from_utf8(ext),
            None => None,
        },
        None => None,
    }
}

/// The stem of the file that a path names, if it names one and the stem is Unicode.
pub fn stem_text(parts: &Vec<Part>) -> (stem: Option<String>)
    ensures
        text_view(stem) == text_stem(part_views(parts@)),
{
    match name_of(parts) {
        Some(name) => from_utf8(split_name(name.as_slice()).0),
        None => None,
    }
}

/// The byte strings by which a prefix is ordered: its kind, and then its names or its drive.
pub open spec fn prefix_keys(prefix: Option<PrefixView>) -> Seq<Seq<u8>> {
    match prefix {
        None => seq![seq![0u8]],
        Some(PrefixView::Verbatim(a)) => seq![seq![0u8, 1u8], a],
        Some(PrefixView::VerbatimUnc(a, b)) => seq![seq![0u8, 2u8], a, b],
        Some(PrefixView::DeviceNs(a)) => seq![seq![0u8, 3u8], a],
        Some(PrefixView::Unc(a, b)) => seq![seq![0u8, 4u8], a, b],
        Some(PrefixView::VerbatimDisk(d)) => seq![seq![0u8, 5u8], seq![d]],
        Some(PrefixView::Disk(d)) => seq![seq![0u8, 6u8], seq![d]],
    }
}

/// The byte strings by which a component is ordered: kinds of components come one after the
/// other, and names are ordered by their bytes.
pub open spec fn part_keys(part: PartView) -> Seq<Seq<u8>> {
    match part {
        PartView::Prefix(prefix) => prefix_keys(prefix),
        PartView::RootDir => seq![seq![1u8]],
        PartView::CurDir => seq![seq![2u8]],
        PartView::ParentDir => seq![seq![3u8]],
        PartView::Normal(bytes) => seq![seq![4u8] + bytes],
    }
}

/// The key by which a path is ordered: paths are compared component by component.
pub open spec fn path_key(parts: Seq<PartView>) -> Seq<Seq<u8>>
    decreases parts.len(),
{
    if parts.len() == 0 {
        seq![]
    } else {
        part_keys(parts[0]) + path_key(parts.skip(1))
    }
}

/// Where two keys agree, so do the components that they begin with, and what follows.
proof fn lemma_part_keys(a: PartView, x: Seq<Seq<u8>>, b: PartView, y: Seq<Seq<u8>>)
    requires
        part_keys(a) + x == part_keys(b) + y,
    ensures
        a == b,
        x == y,
{
    let k = part_keys(a) + x;
    let l = part_keys(b) + y;
    let p = part_keys(a);
    let q = part_keys(b);
    assert(k[0] == p[0] && l[0] == q[0]);
    assert(k[0].len() == l[0].len());
    assert(k[0][0] == l[0][0]);
    if k[0].len() > 1 {
        assert(k[0][1] == l[0][1]);
    }
    assert(p.len() == q.len());
    assert(p =~= k.take(p.len() as int));
    assert(q =~= l.take(q.len() as int));
    assert(x =~= k.skip(p.len() as int));
    assert(y =~= l.skip(q.len() as int));
    match (a, b) {
        (PartView::Normal(m), PartView::Normal(n)) => {
            assert(p[0].skip(1) =~= m);
            assert(q[0].skip(1) =~= n);
        },
        (PartView::Prefix(Some(m)), PartView::Prefix(Some(n))) => {
            assert(p[1] == q[1]);
            if p.len() > 2 {
                assert(p[2] == q[2]);
            }
            if let (PrefixView::Disk(_), PrefixView::Disk(_)) = (m, n) {
                assert(p[1][0] == q[1][0]);
            }
            if let (PrefixView::VerbatimDisk(_), PrefixView::VerbatimDisk(_)) = (m, n) {
                assert(p[1][0] == q[1][0]);
            }
        },
        _ => (),
    }
}

/// Paths with one key have the same components.
pub proof fn law_path_key_exact(a: Seq<PartView>, b: Seq<PartView>)
    ensures
        path_key(a) == path_key(b) <==> a == b,
    decreases a.len(),
{
    if path_key(a) == path_key(b) {
        if a.len() > 0 && b.len() > 0 {
            lemma_part_keys(a[0], path_key(a.skip(1)), b[0], path_key(b.skip(1)));
            law_path_key_exact(a.skip(1), b.skip(1));
            assert(a =~= seq![a[0]] + a.skip(1));
            assert(b =~= seq![b[0]] + b.skip(1));
        } else if a.len() > 0 {
            assert(part_keys(a[0]).len() > 0);
        } else if b.len() > 0 {
            assert(part_keys(b[0]).len() > 0);
        } else {
            assert(a =~= b);
        }
    }
}

/// A byte in front of a byte string.
fn prepend(first: u8, bytes: &Vec<u8>) -> (r: Vec<u8>)
    ensures
        r@ == seq![first] + bytes@,
{
    let mut r: Vec<u8> = Vec::new();
    r.push(first);
    r.extend_from_slice(bytes.as_slice());
    assert(r@ =~= seq![first] + bytes@);
    r
}

/// Appends the byte strings by which a prefix is ordered.
fn push_prefix_keys(key: &mut Vec<Vec<u8>>, prefix: &Option<PathPrefix>)
    ensures
        key_view(final(key)@) == key_view(old(key)@) + prefix_keys(prefix_view(*prefix)),
{
    let ghost before = key@;
    match prefix {
        None => {
            key.push(vec![0u8]);
        },
        Some(PathPrefix::Verbatim(a)) => {
            key.push(vec![0u8, 1u8]);
            key.push(a.clone());
        },
        Some(PathPrefix::VerbatimUnc(a, b)) => {
            key.push(vec![0u8, 2u8]);
            key.push(a.clone());
            key.push(b.clone());
        },
        Some(PathPrefix::DeviceNs(a)) => {
            key.push(vec![0u8, 3u8]);
            key.push(a.clone());
        },
        Some(PathPrefix::Unc(a, b)) => {
            key.push(vec![0u8, 4u8]);
            key.push(a.clone());
            key.push(b.clone());
        },
        Some(PathPrefix::VerbatimDisk(d)) => {
            key.push(vec![0u8, 5u8]);
            key.push(vec![*d]);
        },
        Some(PathPrefix::Disk(d)) => {
            key.push(vec![0u8, 6u8]);
            key.push(vec![*d]);
        },
    }
    assert(key_view(key@) =~~= key_view(before) + prefix_keys(prefix_view(*prefix)));
}

/// Computes the key by which a path is ordered.
pub fn sort_key(parts: &Vec<Part>) -> (key: Vec<Vec<u8>>)
    ensures
        key_view(key@) == path_key(part_views(parts@)),
{
    let ghost all = part_views(parts@);
    let mut key: Vec<Vec<u8>> = Vec::new();
    let mut i: usize = 0;
    assert(all.skip(0) =~= all);
    assert(key_view(key@) + path_key(all) =~= path_key(all));
    while i < parts.len()
        invariant
            all == part_views(parts@),
            i <= parts@.len(),
            key_view(key@) + path_key(all.skip(i as int)) == path_key(all),
        decreases parts@.len() - i,
    {
        let ghost before = key_view(key@);
        let ghost rest = path_key(all.skip(i + 1));
        match &parts[i] {
            Part::Prefix(prefix) => push_prefix_keys(&mut key, prefix),
            Part::RootDir => key.push(vec![1u8]),
            Part::CurDir => key.push(vec![2u8]),
            Part::ParentDir => key.push(vec![3u8]),
            Part::Normal(bytes) => key.push(prepend(4, bytes)),
        }
        proof {
            let part = all[i as int];
            assert(all.skip(i as int)[0] == part && part == parts@[i as int]@);
            assert(all.skip(i as int).skip(1) =~= all.skip(i + 1));
            assert(key_view(key@) =~~= before + part_keys(part));
            assert(before + (part_keys(part) + rest) =~= key_view(key@) + rest);
        }
        i += 1;
    }
    assert(all.skip(i as int) =~= seq![]);
    assert(key_view(key@) + path_key(all.skip(i as int)) =~= key_view(key@));
    key
}

/// Whether two prefixes are the same.
fn same_prefix(a: &PathPrefix, b: &PathPrefix) -> (r: bool)
    ensures
        r == (a@ == b@),
{
    match (a, b) {
        (PathPrefix::Verbatim(x), PathPrefix::Verbatim(y)) => bytes_equal(x.as_slice(), y.as_slice()),
        (PathPrefix::VerbatimUnc(x, v), PathPrefix::VerbatimUnc(y, w)) => bytes_equal(x.as_slice(), y.as_slice())
            && bytes_equal(v.as_slice(), w.as_slice()),
        (PathPrefix::DeviceNs(x), PathPrefix::DeviceNs(y)) => bytes_equal(x.as_slice(), y.as_slice()),
        (PathPrefix::Unc(x, v), PathPrefix::Unc(y, w)) => bytes_equal(x.as_slice(), y.as_slice()) && bytes_equal(
            v.as_slice(),
            w.as_slice(),
        ),
        (PathPrefix::VerbatimDisk(x), PathPrefix::VerbatimDisk(y)) => *x == *y,
        (PathPrefix::Disk(x), PathPrefix::Disk(y)) => *x == *y,
        _ => false,
    }
}

/// Whether two components are the same.
fn same_part(a: &Part, b: &Part) -> (r: bool)
    ensures
        r == (a@ == b@),
{
    match (a, b) {
        (Part::Prefix(Some(x)), Part::Prefix(Some(y))) => same_prefix(x, y),
        (Part::Prefix(None), Part::Prefix(None)) => true,
        (Part::RootDir, Part::RootDir) => true,
        (Part::CurDir, Part::CurDir) => true,
        (Part::ParentDir, Part::ParentDir) => true,
        (Part::Normal(x), Part::Normal(y)) => bytes_equal(x.as_slice(), y.as_slice()),
        _ => false,
    }
}

/// Whether a path begins with all the components of another.
pub open spec fn starts_with(parts: Seq<PartView>, base: Seq<PartView>) -> bool {
    base.len() <= parts.len() && parts.take(base.len() as int) == base
}

/// Tests whether a path begins with all the components of another.
pub fn has_base(parts: &Vec<Part>, base: &Vec<Part>) -> (r: bool)
    ensures
        r == starts_with(part_views(parts@), part_views(base@)),
{
    let ghost p = part_views(parts@);
    let ghost b = part_views(base@);
    if base.len() > parts.len() {
        return false;
    }
    let mut i: usize = 0;
    while i < base.len()
        invariant
            p == part_views(parts@),
            b == part_views(base@),
            b.len() <= p.len(),
            i <= base@.len(),
            forall|j: int| 0 <= j < i ==> p[j] == b[j],
        decreases base@.len() - i,
    {
        if !same_part(&parts[i], &base[i]) {
            assert(p.take(b.len() as int)[i as int] != b[i as int]);
            return false;
        }
        i += 1;
    }
    assert(p.take(b.len() as int) =~= b);
    true
}

/// Whether two paths are the same: they have the same components.
pub fn same_path(a: &PathBuf, b: &PathBuf) -> (r: bool)
    ensures
        r == (path_components(*a) == path_components(*b)),
{
    let x = components(a);
    let y = components(b);
    proof {
        let p = part_views(x@);
        assert(p.take(p.len() as int) =~= p);
    }
    x.len() == y.len() && has_base(&x, &y)
}

/// How many components of a path a base takes up; none if the path does not begin with it.
pub open spec fn base_len(parts: Seq<PartView>, base: Seq<PartView>) -> nat {
    if starts_with(parts, base) {
        base.len()
    } else {
        0
    }
}

/// The texts that are there in a list of optional ones.
pub open spec fn present(list: Seq<Option<Seq<char>>>) -> Seq<Seq<char>>
    decreases list.len(),
{
    if list.len() == 0 {
        seq![]
    } else {
        match list.last() {
            Some(text) => present(list.drop_last()).push(text),
            None => present(list.drop_last()),
        }
    }
}

/// The contents of a list of texts.
pub open spec fn texts(list: Seq<String>) -> Seq<Seq<char>> {
    list.map_values(|s: String| s@)
}

/// The names among the components of a path behind a base. `names` holds the texts of those
/// components that are names.
pub fn relative_names(parts: &Vec<Part>, base: &Vec<Part>, names: &Vec<Option<String>>) -> (list: Vec<String>)
    requires
        names@.len() == parts@.len(),
    ensures
        texts(list@) == present(
            text_views(names@).skip(base_len(part_views(parts@), part_views(base@)) as int),
        ),
{
    let start: usize = if has_base(parts, base) { base.len() } else { 0 };
    let ghost rel = text_views(names@).skip(start as int);
    let mut list: Vec<String> = Vec::new();
    let mut i: usize = start;
    assert(rel.take(0) =~= seq![]);
    assert(texts(list@) =~= seq![]);
    while i < names.len()
        invariant
            start <= i <= names@.len(),
            rel == text_views(names@).skip(start as int),
            texts(list@) == present(rel.take(i - start)),
        decreases names@.len() - i,
    {
        let ghost before = list@;
        assert(rel.take(i + 1 - start).drop_last() =~= rel.take(i - start));
        assert(rel.take(i + 1 - start).last() == text_view(names@[i as int]));
        if let Some(name) = &names[i] {
            list.push(name.clone());
            assert(texts(list@) =~= texts(before).push(name@));
        }
        i += 1;
    }
    assert(rel.take(i - start) =~= rel);
    list
}

/// The last dot of a name stands before what holds none.
pub proof fn lemma_last_dot(stem: Seq<u8>, ext: Seq<u8>)
    requires
        !ext.contains(46),
    ensures
        last_dot(stem + seq![46u8] + ext) == stem.len(),
    decreases ext.len(),
{
    let name = stem + seq![46u8] + ext;
    if ext.len() > 0 {
        let init = ext.drop_last();
        assert(ext.contains(ext[ext.len() - 1]));
        assert(!init.contains(46)) by {
            if init.contains(46) {
                let i = init.index_of(46);
                assert(ext[i] == 46);
            }
        }
        assert(name.drop_last() =~= stem + seq![46u8] + init);
        assert(name.last() == ext[ext.len() - 1]);
        lemma_last_dot(stem, init);
    } else {
        assert(name.last() == 46);
    }
}

/// A name without a dot behind its first byte has no last dot there.
pub proof fn lemma_no_dot(name: Seq<u8>)
    requires
        forall|i: int| 1 <= i < name.len() ==> #[trigger] name[i] != 46,
    ensures
        last_dot(name) <= 0,
    decreases name.len(),
{
    if name.len() > 1 {
        assert(name[name.len() - 1] != 46);
        let init = name.drop_last();
        assert forall|i: int| 1 <= i < init.len() implies #[trigger] init[i] != 46 by {
            assert(name[i] != 46);
        }
        lemma_no_dot(init);
    } else if name.len() == 1 {
        assert(last_dot(name.drop_last()) == -1);
    }
}

/// What a name with an extension is taken apart into.
pub proof fn lemma_split(stem: Seq<u8>, ext: Seq<u8>)
    requires
        stem.len() > 0,
        !ext.contains(46),
    ensures
        stem_of(stem + seq![46u8] + ext) == stem,
        extension_of(stem + seq![46u8] + ext) == Some(ext),
{
    let name = stem + seq![46u8] + ext;
    lemma_last_dot(stem, ext);
    assert(name.take(stem.len() as int) =~= stem);
    assert(name.skip(stem.len() as int + 1) =~= ext);
}

/// Every name with an extension is a stem, a dot and the extension.
pub proof fn lemma_rejoined(name: Seq<u8>)
    ensures
        -1 <= last_dot(name) < name.len(),
        match extension_of(name) {
            Some(ext) => {
                &&& stem_of(name).len() > 0
                &&& !ext.contains(46)
                &&& name == stem_of(name) + seq![46u8] + ext
            },
            None => stem_of(name) == name,
        },
    decreases name.len(),
{
    if name.len() > 0 {
        if name.last() == 46 {
            if name.len() > 1 {
                assert(name.skip(name.len() as int) =~= seq![]);
                assert(name =~= name.take(name.len() - 1) + seq![46u8] + seq![]);
            }
        } else {
            let init = name.drop_last();
            lemma_rejoined(init);
            let d = last_dot(name);
            if d > 0 {
                let ext = name.skip(d + 1);
                assert(ext =~= init.skip(d + 1).push(name.last()));
                assert(!ext.contains(46)) by {
                    if ext.contains(46) {
                        let i = ext.index_of(46);
                        if i < ext.len() - 1 {
                            assert(init.skip(d + 1)[i] == 46);
                            assert(init.skip(d + 1).contains(46));
                        }
                    }
                }
                assert(init == init.take(d) + seq![46u8] + init.skip(d + 1));
                assert(init[d] == 46);
                assert(name =~= name.take(d) + seq![46u8] + ext);
            }
        }
    }
}

/// A file name is taken apart at its last dot: what stands before is the stem, what follows is
/// the extension, both whole.
pub proof fn law_name_split(name: &[u8], parts: (&[u8], Option<&[u8]>), stem: Seq<u8>, ext: Seq<u8>)
    requires
        call_ensures(split_name, (name,), parts),
        name@ == stem + seq![46u8] + ext,
        stem.len() > 0,
        !ext.contains(46),
    ensures
        parts.0@ == stem,
        parts.1 is Some,
        parts.1->0@ == ext,
{
    lemma_split(stem, ext);
}

/// A name without a dot, or with one at its beginning only, is all stem.
pub proof fn law_name_without_extension(name: &[u8], parts: (&[u8], Option<&[u8]>))
    requires
        call_ensures(split_name, (name,), parts),
        forall|i: int| 1 <= i < name@.len() ==> #[trigger] name@[i] != 46,
    ensures
        parts.0@ == name@,
        parts.1 is None,
{
    lemma_no_dot(name@);
}

/// The extension and the stem of the file that a path names are those of its last component, as
/// text where they are Unicode.
pub proof fn law_file_name_texts(
    parts: &Vec<Part>,
    ext_text: Option<String>,
    stem_text_of: Option<String>,
    dir: Seq<PartView>,
    stem: Seq<u8>,
    ext: Seq<u8>,
)
    requires
        call_ensures(extension_text, (parts,), ext_text),
        call_ensures(stem_text, (parts,), stem_text_of),
        part_views(parts@) == dir.push(PartView::Normal(stem + seq![46u8] + ext)),
        stem.len() > 0,
        !ext.contains(46),
    ensures
        ext_text is Some <==> valid_utf8(ext),
        ext_text is Some ==> ext_text->0@ == decode_utf8(ext),
        stem_text_of is Some <==> valid_utf8(stem),
        stem_text_of is Some ==> stem_text_of->0@ == decode_utf8(stem),
{
    lemma_split(stem, ext);
    assert(part_views(parts@).last() == PartView::Normal(stem + seq![46u8] + ext));
}

/// A path begins with a base exactly if it is the base and more components behind it.
pub proof fn law_base_is_beginning(parts: &Vec<Part>, base: &Vec<Part>, r: bool)
    requires
        call_ensures(has_base, (parts, base), r),
    ensures
        r <==> exists|rest: Seq<PartView>| part_views(parts@) == #[trigger] (part_views(base@) + rest),
{
    let p = part_views(parts@);
    let b = part_views(base@);
    if r {
        assert(p =~= b + p.skip(b.len() as int));
    }
    if exists|rest: Seq<PartView>| p == #[trigger] (b + rest) {
        let rest = choose|rest: Seq<PartView>| p == #[trigger] (b + rest);
        assert(p.take(b.len() as int) =~= b);
    }
}

/// The key of a path is that of its beginning and that of its rest.
proof fn lemma_path_key_split(a: Seq<PartView>, b: Seq<PartView>)
    ensures
        path_key(a + b) == path_key(a) + path_key(b),
    decreases a.len(),
{
    if a.len() == 0 {
        assert(a + b =~= b);
        assert(path_key(a) + path_key(b) =~= path_key(b));
    } else {
        let rest = a.skip(1);
        lemma_path_key_split(rest, b);
        assert((a + b)[0] == a[0]);
        assert((a + b).skip(1) =~= rest + b);
        assert(part_keys(a[0]) + (path_key(rest) + path_key(b)) =~= (part_keys(a[0]) + path_key(rest)) + path_key(b));
    }
}

/// Keys with the same beginning are ordered by what follows.
proof fn lemma_same_key_beginning(p: Seq<Seq<u8>>, x: Seq<Seq<u8>>, y: Seq<Seq<u8>>)
    ensures
        key_before(p + x, p + y) == key_before(x, y),
    decreases p.len(),
{
    if p.len() == 0 {
        assert(p + x =~= x && p + y =~= y);
    } else {
        lemma_same_key_beginning(p.drop_first(), x, y);
        assert((p + x).drop_first() =~= p.drop_first() + x);
        assert((p + y).drop_first() =~= p.drop_first() + y);
    }
}

/// Paths are ordered by the first component in which they differ: names by their bytes.
pub proof fn law_paths_ordered_by_name(
    a: &Vec<Part>,
    b: &Vec<Part>,
    ka: Vec<Vec<u8>>,
    kb: Vec<Vec<u8>>,
    less: bool,
    common: Seq<PartView>,
    x: Seq<u8>,
    y: Seq<u8>,
    ra: Seq<PartView>,
    rb: Seq<PartView>,
)
    requires
        call_ensures(sort_key, (a,), ka),
        call_ensures(sort_key, (b,), kb),
        call_ensures(key_less, (&ka, &kb), less),
        part_views(a@) == common + (seq![PartView::Normal(x)] + ra),
        part_views(b@) == common + (seq![PartView::Normal(y)] + rb),
        x != y,
    ensures
        less <==> exists|k: int| bytes_decided_at(x, y, k),
{
    let sa = seq![PartView::Normal(x)] + ra;
    let sb = seq![PartView::Normal(y)] + rb;
    lemma_path_key_split(common, sa);
    lemma_path_key_split(common, sb);
    lemma_same_key_beginning(path_key(common), path_key(sa), path_key(sb));
    assert(sa.skip(1) =~= ra && sb.skip(1) =~= rb);
    let p = seq![4u8] + x;
    let q = seq![4u8] + y;
    assert(path_key(sa)[0] == p && path_key(sb)[0] == q);
    assert(p.drop_first() =~= x && q.drop_first() =~= y);
    assert(p != q);
    lemma_bytes_decided(x, y);
}

/// A folder comes before what lies in it.
pub proof fn law_folder_before_contents(
    a: &Vec<Part>,
    b: &Vec<Part>,
    ka: Vec<Vec<u8>>,
    kb: Vec<Vec<u8>>,
    less: bool,
    rest: Seq<PartView>,
)
    requires
        call_ensures(sort_key, (a,), ka),
        call_ensures(sort_key, (b,), kb),
        call_ensures(key_less, (&ka, &kb), less),
        part_views(b@) == part_views(a@) + rest,
        rest.len() > 0,
    ensures
        less,
{
    let p = path_key(part_views(a@));
    lemma_path_key_split(part_views(a@), rest);
    lemma_same_key_beginning(p, seq![], path_key(rest));
    assert(p + Seq::<Seq<u8>>::empty() =~= p);
    assert(part_keys(rest[0]).len() > 0);
}

/// The case of a drive letter does not count; all other prefixes are kept.
pub proof fn law_drive_letters_folded(p: PathPrefix, q: PathPrefix, fp: PathPrefix, fq: PathPrefix)
    requires
        call_ensures(fold, (p,), fp),
        call_ensures(fold, (q,), fq),
    ensures
        (p matches PathPrefix::Disk(d) && q matches PathPrefix::Disk(e) && 65 <= d <= 90 && (e == d || e == d + 32))
            ==> fp@ == PrefixView::Disk(p->Disk_0) && fq@ == fp@,
        (p matches PathPrefix::VerbatimDisk(d) && q matches PathPrefix::VerbatimDisk(e) && 65 <= d <= 90 && (e == d || e
            == d + 32)) ==> fp@ == PrefixView::VerbatimDisk(p->VerbatimDisk_0) && fq@ == fp@,
        !(p is Disk) && !(p is VerbatimDisk) ==> fp@ == p@,
{
}

/// Texts that are all there are all handed on.
pub proof fn lemma_present(list: Seq<Seq<char>>)
    ensures
        present(list.map_values(|t: Seq<char>| Some(t))) == list,
    decreases list.len(),
{
    let all = list.map_values(|t: Seq<char>| Some(t));
    if list.len() > 0 {
        let init = list.drop_last();
        lemma_present(init);
        assert(all.drop_last() =~= init.map_values(|t: Seq<char>| Some(t)));
        assert(all.last() == Some(list.last()));
        assert(init.push(list.last()) =~= list);
    } else {
        assert(list =~= seq![]);
    }
}

/// What is there in two lists one behind the other is what is there in each.
pub proof fn lemma_present_split(a: Seq<Option<Seq<char>>>, b: Seq<Option<Seq<char>>>)
    ensures
        present(a + b) == present(a) + present(b),
    decreases b.len(),
{
    if b.len() == 0 {
        assert(a + b =~= a);
        assert(present(a) + present(b) =~= present(a));
    } else {
        lemma_present_split(a, b.drop_last());
        assert((a + b).drop_last() =~= a + b.drop_last());
        assert((a + b).last() == b.last());
        match b.last() {
            Some(t) => {
                assert((present(a) + present(b.drop_last())).push(t) =~= present(a) + present(b.drop_last()).push(t));
            },
            None => (),
        }
    }
}

/// The names behind a base are all handed on, in order; components that are no names are left
/// out.
pub proof fn law_relative_names(
    parts: &Vec<Part>,
    base: &Vec<Part>,
    names: &Vec<Option<String>>,
    list: Vec<String>,
    rest: Seq<PartView>,
    first: Seq<Seq<char>>,
    second: Seq<Seq<char>>,
)
    requires
        names@.len() == parts@.len(),
        call_ensures(relative_names, (parts, base, names), list),
        part_views(parts@) == part_views(base@) + rest,
        text_views(names@).skip(base@.len() as int) == first.map_values(|t: Seq<char>| Some(t)) + second.map_values(
            |t: Seq<char>| Some(t),
        ) || text_views(names@).skip(base@.len() as int) == first.map_values(|t: Seq<char>| Some(t)) + seq![
            None::<Seq<char>>,
        ] + second.map_values(|t: Seq<char>| Some(t)),
    ensures
        texts(list@) == first + second,
{
    let f = |t: Seq<char>| Some(t);
    let p = part_views(parts@);
    let b = part_views(base@);
    assert(b.len() == base@.len());
    assert(p.take(b.len() as int) =~= b);
    lemma_present(first);
    lemma_present(second);
    lemma_present_split(first.map_values(f), second.map_values(f));
    lemma_present_split(first.map_values(f) + seq![None::<Seq<char>>], second.map_values(f));
    lemma_present_split(first.map_values(f), seq![None::<Seq<char>>]);
    reveal_with_fuel(present, 2);
    assert(seq![None::<Seq<char>>].drop_last() =~= seq![]);
    assert(present(seq![None::<Seq<char>>]) =~= seq![]);
    assert(first + Seq::<Seq<char>>::empty() =~= first);
}

} // verus!
