//! File paths: the platform's own path type, the text by which a path is
//! shown, and the order in which paths are listed.

use std::path::Component::{CurDir, Normal, ParentDir, Prefix, RootDir};
use std::path::PathBuf;
use std::path::Prefix::{DeviceNS, Disk, Verbatim, VerbatimDisk, VerbatimUNC, UNC};

use vstd::prelude::*;
use vstd::relations::total_ordering;

use crate::order::{
    bytes_at_most, byte_order, compare_bytes, lemma_byte_order, lemma_lex_antisymmetric,
    lemma_lex_reflexive, lemma_lex_total, lemma_lex_transitive, lex_at_most, Ranked,
};

verus! {

/// An owned path of the platform.
#[verifier::external_type_specification]
#[verifier::external_body]
pub struct ExPathBuf(PathBuf);

/// The bytes that a path holds, in the platform's own encoding.
pub uninterp spec fn path_bytes(path: PathBuf) -> Seq<u8>;

/// The components of the path that holds the given bytes, as the platform that
/// the library is built for splits paths, each as a [`PathPart`] is viewed.
pub uninterp spec fn path_components(bytes: Seq<u8>) -> Seq<(u8, Seq<u8>, Seq<u8>)>;

/// The text into which the path that holds the given bytes is turned.
pub uninterp spec fn path_text(bytes: Seq<u8>) -> Seq<char>;

/// The text by which the path that holds the given bytes is printed.
pub uninterp spec fn path_display(bytes: Seq<u8>) -> Seq<char>;

/// One component of a path. Platforms that have drives put one of the first six
/// before the root.
pub enum PathPart {
    /// A verbatim prefix (`\\?\name`).
    Verbatim(Vec<u8>),
    /// A verbatim prefix for a share (`\\?\UNC\server\share`).
    VerbatimShare(Vec<u8>, Vec<u8>),
    /// A verbatim prefix for a drive (`\\?\C:`), with the letter in upper case.
    VerbatimDisk(u8),
    /// A device (`\\.\name`).
    Device(Vec<u8>),
    /// A share (`\\server\share`).
    Share(Vec<u8>, Vec<u8>),
    /// A drive (`C:`), with the letter in upper case.
    Disk(u8),
    /// The root directory.
    Root,
    /// The current directory, `.`.
    Current,
    /// The parent directory, `..`.
    Parent,
    /// The name of a file or directory.
    Normal(Vec<u8>),
}

/// What a component is viewed as: its kind, numbered in the order in which
/// kinds sort, and the bytes of its names.
pub type PartView = (u8, Seq<u8>, Seq<u8>);

impl View for PathPart {
    type V = PartView;

    open spec fn view(&self) -> PartView {
        match self {
            PathPart::Verbatim(name) => (0, name@, Seq::empty()),
            PathPart::VerbatimShare(server, share) => (1, server@, share@),
            PathPart::VerbatimDisk(letter) => (2, seq![*letter], Seq::empty()),
            PathPart::Device(name) => (3, name@, Seq::empty()),
            PathPart::Share(server, share) => (4, server@, share@),
            PathPart::Disk(letter) => (5, seq![*letter], Seq::empty()),
            PathPart::Root => (6, Seq::empty(), Seq::empty()),
            PathPart::Current => (7, Seq::empty(), Seq::empty()),
            PathPart::Parent => (8, Seq::empty(), Seq::empty()),
            PathPart::Normal(name) => (9, name@, Seq::empty()),
        }
    }
}

/// Calls `Path::components`. Trusted: the components come out in the order in
/// which they stand in the path, each as the variant of the same meaning with
/// the bytes of its names, and they depend on the bytes of the path alone.
#[verifier::external_body]
fn parts_of(path: &PathBuf) -> (parts: Vec<PathPart>)
    ensures
        parts@.map_values(|part: PathPart| part@) == path_components(path_bytes(*path)),
{
    path.components().map(|part| match part {
        Prefix(prefix) => match prefix.kind() {
            Verbatim(a) => PathPart::Verbatim(a.as_encoded_bytes().to_vec()),
            VerbatimUNC(a, b) => PathPart::VerbatimShare(
                a.as_encoded_bytes().to_vec(), b.as_encoded_bytes().to_vec()),
            VerbatimDisk(letter) => PathPart::VerbatimDisk(letter),
            DeviceNS(a) => PathPart::Device(a.as_encoded_bytes().to_vec()),
            UNC(a, b) => PathPart::Share(
                a.as_encoded_bytes().to_vec(), b.as_encoded_bytes().to_vec()),
            Disk(letter) => PathPart::Disk(letter),
        },
        RootDir => PathPart::Root, CurDir => PathPart::Current, ParentDir => PathPart::Parent,
        Normal(name) => PathPart::Normal(name.as_encoded_bytes().to_vec()),
    }).collect()
}

/// Calls `Path::to_string_lossy`. Trusted: the text depends on the bytes of
/// the path alone, and where those are UTF-8 it is the text that they encode.
#[verifier::external_body]
pub(crate) fn text_of(path: &PathBuf) -> (text: String)
    ensures
        text@ == path_text(path_bytes(*path)),
        vstd::utf8::valid_utf8(path_bytes(*path)) ==> text@ == vstd::utf8::decode_utf8(
            path_bytes(*path),
        ),
{
    path.to_string_lossy().into_owned()
}

/// Calls `Path::display` and formats what it returns. Trusted: the text depends
/// on the bytes of the path alone.
#[verifier::external_body]
pub(crate) fn display_of(path: &PathBuf) -> (text: String)
    ensures
        text@ == path_display(path_bytes(*path)),
{
    format!("{}", path.display())
}

/// The order on components: by kind, and names byte by byte.
pub open spec fn part_order() -> spec_fn(PartView, PartView) -> bool {
    |p: PartView, q: PartView|
        p.0 < q.0 || (p.0 == q.0 && ((bytes_at_most(p.1, q.1) && p.1 != q.1) || (p.1 == q.1
            && bytes_at_most(p.2, q.2))))
}

/// The components of a path.
pub open spec fn components(path: PathBuf) -> Seq<PartView> {
    path_components(path_bytes(path))
}

/// Whether one path is listed no later than another: they are compared
/// component by component.
pub open spec fn path_at_most(a: PathBuf, b: PathBuf) -> bool {
    lex_at_most(components(a), components(b), part_order())
}

/// The order on components is a total order.
pub proof fn lemma_part_order()
    ensures
        total_ordering(part_order()),
{
    lemma_byte_order();
    let le = part_order();
    assert forall|p: PartView| #[trigger] le(p, p) by {
        lemma_lex_reflexive(p.2, byte_order());
    }
    assert forall|p: PartView, q: PartView| #[trigger] le(p, q) && #[trigger] le(q, p) implies p
        == q by {
        if p.1 == q.1 {
            lemma_lex_antisymmetric(p.2, q.2, byte_order());
        } else {
            lemma_lex_antisymmetric(p.1, q.1, byte_order());
        }
    }
    assert forall|p: PartView, q: PartView| #[trigger] le(p, q) || #[trigger] le(q, p) by {
        lemma_lex_total(p.1, q.1, byte_order());
        lemma_lex_total(p.2, q.2, byte_order());
    }
    assert forall|p: PartView, q: PartView, r: PartView| #[trigger]
        le(p, q) && #[trigger] le(q, r) implies le(p, r) by {
        if p.0 == q.0 && q.0 == r.0 {
            if p.1 == q.1 && q.1 == r.1 {
                lemma_lex_transitive(p.2, q.2, r.2, byte_order());
            } else if p.1 != q.1 && q.1 != r.1 {
                lemma_lex_transitive(p.1, q.1, r.1, byte_order());
                if p.1 == r.1 {
                    lemma_lex_antisymmetric(p.1, q.1, byte_order());
                }
            }
        }
    }
}

/// What a path is sorted by: its components.
pub struct PathKey {
    parts: Vec<PathPart>,
}

impl View for PathKey {
    type V = Seq<PartView>;

    closed spec fn view(&self) -> Seq<PartView> {
        self.parts@.map_values(|part: PathPart| part@)
    }
}

/// What `path` is sorted by.
pub fn path_key(path: &PathBuf) -> (key: PathKey)
    ensures
        key@ == components(*path),
{
    PathKey { parts: parts_of(path) }
}

impl PathPart {
    /// The number of this component's kind, in the order in which kinds sort.
    fn kind(&self) -> (kind: u8)
        ensures
            kind == self@.0,
    {
        match self {
            PathPart::Verbatim(_) => 0,
            PathPart::VerbatimShare(_, _) => 1,
            PathPart::VerbatimDisk(_) => 2,
            PathPart::Device(_) => 3,
            PathPart::Share(_, _) => 4,
            PathPart::Disk(_) => 5,
            PathPart::Root => 6,
            PathPart::Current => 7,
            PathPart::Parent => 8,
            PathPart::Normal(_) => 9,
        }
    }

    /// Whether this component comes no later than the other.
    fn is_at_most(&self, other: &PathPart) -> (r: bool)
        ensures
            r == part_order()(self@, other@),
    {
        proof {
            lemma_part_order();
            assert(part_order()(self@, self@));
        }
        if self.kind() != other.kind() {
            return self.kind() < other.kind();
        }
        match (self, other) {
            (PathPart::Verbatim(a), PathPart::Verbatim(b)) => names_at_most(a, b),
            (PathPart::VerbatimShare(a, c), PathPart::VerbatimShare(b, d)) => {
                pairs_at_most(a, c, b, d)
            },
            (PathPart::VerbatimDisk(a), PathPart::VerbatimDisk(b)) => letters_at_most(*a, *b),
            (PathPart::Device(a), PathPart::Device(b)) => names_at_most(a, b),
            (PathPart::Share(a, c), PathPart::Share(b, d)) => pairs_at_most(a, c, b, d),
            (PathPart::Disk(a), PathPart::Disk(b)) => letters_at_most(*a, *b),
            (PathPart::Normal(a), PathPart::Normal(b)) => names_at_most(a, b),
            _ => true,
        }
    }
}

/// Whether one pair of names comes no later than another.
spec fn pair_order(a: Seq<u8>, c: Seq<u8>, b: Seq<u8>, d: Seq<u8>) -> bool {
    (bytes_at_most(a, b) && a != b) || (a == b && bytes_at_most(c, d))
}

/// Whether one name comes no later than another.
fn names_at_most(a: &Vec<u8>, b: &Vec<u8>) -> (r: bool)
    ensures
        r == pair_order(a@, Seq::empty(), b@, Seq::empty()),
{
    proof {
        lemma_byte_order();
        lemma_lex_reflexive(Seq::<u8>::empty(), byte_order());
        lemma_lex_reflexive(a@, byte_order());
    }
    compare_bytes(a.as_slice(), b.as_slice())
}

/// Whether one pair of names comes no later than another.
fn pairs_at_most(a: &Vec<u8>, c: &Vec<u8>, b: &Vec<u8>, d: &Vec<u8>) -> (r: bool)
    ensures
        r == pair_order(a@, c@, b@, d@),
{
    proof {
        lemma_byte_order();
        lemma_lex_reflexive(a@, byte_order());
        if bytes_at_most(a@, b@) && bytes_at_most(b@, a@) {
            lemma_lex_antisymmetric(a@, b@, byte_order());
        }
    }
    let not_after = compare_bytes(a.as_slice(), b.as_slice());
    let not_before = compare_bytes(b.as_slice(), a.as_slice());
    not_after && (!not_before || compare_bytes(c.as_slice(), d.as_slice()))
}

/// Whether one letter comes no later than another.
fn letters_at_most(a: u8, b: u8) -> (r: bool)
    ensures
        r == pair_order(seq![a], Seq::empty(), seq![b], Seq::empty()),
{
    let first: Vec<u8> = vec![a];
    let second: Vec<u8> = vec![b];
    assert(first@ == seq![a] && second@ == seq![b]);
    names_at_most(&first, &second)
}

impl Ranked for PathKey {
    open spec fn at_most(self, other: PathKey) -> bool {
        lex_at_most(self@, other@, part_order())
    }

    proof fn lemma_total(a: PathKey, b: PathKey) {
        lemma_part_order();
        lemma_lex_total(a@, b@, part_order());
    }

    proof fn lemma_transitive(a: PathKey, b: PathKey, c: PathKey) {
        lemma_part_order();
        lemma_lex_transitive(a@, b@, c@, part_order());
    }

    fn is_at_most(&self, other: &PathKey) -> (r: bool) {
        let mut i: usize = 0;
        proof {
            lemma_part_order();
        }
        assert(self@.skip(0) == self@ && other@.skip(0) == other@);
        while i < self.parts.len() && i < other.parts.len()
            invariant
                i <= self.parts.len(),
                i <= other.parts.len(),
                total_ordering(part_order()),
                self.at_most(*other) == lex_at_most(
                    self@.skip(i as int),
                    other@.skip(i as int),
                    part_order(),
                ),
            decreases self.parts.len() - i,
        {
            let not_after = self.parts[i].is_at_most(&other.parts[i]);
            let not_before = other.parts[i].is_at_most(&self.parts[i]);
            assert(self@.skip(i as int)[0] == self.parts[i as int]@);
            assert(other@.skip(i as int)[0] == other.parts[i as int]@);
            if !not_after || !not_before {
                return not_after;
            }
            assert(self.parts[i as int]@ == other.parts[i as int]@);
            assert(self@.skip(i as int).drop_first() == self@.skip(i + 1));
            assert(other@.skip(i as int).drop_first() == other@.skip(i + 1));
            i = i + 1;
        }
        i == self.parts.len()
    }
}

} // verus!
