//! Unix paths as byte strings.

use vstd::prelude::*;
use vstd::slice::slice_subrange;

use crate::util::{self, DOT, SLASH};

verus! {

/// A single component of a path.
#[derive(Clone, Copy, Debug)]
pub enum Component<'a> {
    /// The leading slash of an absolute path.
    RootDir,

    /// A leading `.`.
    CurDir,

    /// `..`
    ParentDir,

    /// A name.
    Normal(&'a [u8]),
}

/// What a [`Component`] stands for.
pub enum ComponentView {
    RootDir,
    CurDir,
    ParentDir,
    Normal(Seq<u8>),
}

impl<'a> View for Component<'a> {
    type V = ComponentView;

    open spec fn view(&self) -> ComponentView {
        match *self {
            Component::RootDir => ComponentView::RootDir,
            Component::CurDir => ComponentView::CurDir,
            Component::ParentDir => ComponentView::ParentDir,
            Component::Normal(name) => ComponentView::Normal(name@),
        }
    }
}

/// The number of bytes before the first slash.
pub open spec fn piece_len(path: Seq<u8>) -> nat
    decreases path.len(),
{
    if path.len() == 0 || path[0] == SLASH {
        0
    } else {
        1 + piece_len(path.skip(1))
    }
}

/// What follows the first slash.
pub open spec fn after_piece(path: Seq<u8>) -> Seq<u8> {
    if piece_len(path) < path.len() {
        path.skip(piece_len(path) as int + 1)
    } else {
        Seq::empty()
    }
}

/// The component that a piece between slashes stands for, if it is one.
pub open spec fn piece_component(piece: Seq<u8>) -> Seq<ComponentView> {
    if piece.len() == 0 || piece == seq![DOT] {
        Seq::empty()
    } else if piece == seq![DOT, DOT] {
        seq![ComponentView::ParentDir]
    } else {
        seq![ComponentView::Normal(piece)]
    }
}

pub proof fn lemma_piece_len(path: Seq<u8>)
    ensures
        piece_len(path) <= path.len(),
        forall|i: int| 0 <= i < piece_len(path) ==> path[i] != SLASH,
        piece_len(path) < path.len() ==> path[piece_len(path) as int] == SLASH,
        path.len() > 0 ==> after_piece(path).len() < path.len(),
    decreases path.len(),
{
    if path.len() == 0 || path[0] == SLASH {
    } else {
        let rest = path.skip(1);
        lemma_piece_len(rest);
        assert forall|i: int| 0 <= i < piece_len(path) implies path[i] != SLASH by {
            if i > 0 {
                assert(rest[i - 1] == path[i]);
            }
        }
        if piece_len(path) < path.len() {
            assert(rest[piece_len(rest) as int] == path[piece_len(path) as int]);
        }
    }
}

/// The components between the slashes. Repeated slashes and `.` count for nothing.
pub open spec fn inner_components(path: Seq<u8>) -> Seq<ComponentView>
    decreases path.len(),
{
    if path.len() == 0 {
        Seq::empty()
    } else {
        proof {
            lemma_piece_len(path);
        }
        piece_component(path.take(piece_len(path) as int)) + inner_components(after_piece(path))
    }
}

/// The components of a path. Only a `.` at the start of a relative path is a component.
pub open spec fn components_of(path: Seq<u8>) -> Seq<ComponentView> {
    let first = if path.len() > 0 && path[0] == SLASH {
        seq![ComponentView::RootDir]
    } else if path.take(piece_len(path) as int) == seq![DOT] {
        seq![ComponentView::CurDir]
    } else {
        Seq::empty()
    };
    first + inner_components(path)
}

/// The last component, where that is a name.
pub open spec fn file_name_of(path: Seq<u8>) -> Option<Seq<u8>> {
    let c = components_of(path);
    if c.len() > 0 {
        match c.last() {
            ComponentView::Normal(name) => Some(name),
            _ => None,
        }
    } else {
        None
    }
}

/// `path` with `name` in the directory that it names.
pub open spec fn joined(path: Seq<u8>, name: Seq<u8>) -> Seq<u8> {
    if path.len() > 0 && path.last() != SLASH {
        path + seq![SLASH] + name
    } else {
        path + name
    }
}

/// Views of a list of components.
pub open spec fn component_views(c: Seq<Component>) -> Seq<ComponentView> {
    c.map_values(|c: Component| c@)
}

/// Find the end of the piece that starts at `start`.
fn piece_end(path: &[u8], start: usize) -> (end: usize)
    requires
        start <= path@.len(),
    ensures
        start <= end <= path@.len(),
        end - start == piece_len(path@.skip(start as int)),
{
    let mut end: usize = start;
    proof {
        assert(path@.skip(start as int) =~= path@.skip(end as int));
    }
    while end < path.len() && path[end] != SLASH
        invariant
            start <= end <= path@.len(),
            end - start + piece_len(path@.skip(end as int)) == piece_len(path@.skip(start as int)),
        decreases path@.len() - end,
    {
        proof {
            assert(path@.skip(end as int).skip(1) =~= path@.skip(end + 1));
        }
        end = end + 1;
    }
    end
}

/// Check whether a byte string is `.`.
fn is_dot(piece: &[u8]) -> (r: bool)
    ensures
        r == (piece@ == seq![DOT]),
{
    let r = piece.len() == 1 && piece[0] == DOT;
    proof {
        if r {
            assert(piece@ =~= seq![DOT]);
        }
    }
    r
}

/// Check whether a byte string is `..`.
fn is_dot_dot(piece: &[u8]) -> (r: bool)
    ensures
        r == (piece@ == seq![DOT, DOT]),
{
    let r = piece.len() == 2 && piece[0] == DOT && piece[1] == DOT;
    proof {
        if r {
            assert(piece@ =~= seq![DOT, DOT]);
        }
    }
    r
}

/// Split a path into its components.
pub fn components<'a>(path: &'a [u8]) -> (out: Vec<Component<'a>>)
    ensures
        component_views(out@) == components_of(path@),
{
    let mut out: Vec<Component<'a>> = Vec::new();
    proof {
        assert(path@.skip(0) =~= path@);
    }
    if path.len() > 0 && path[0] == SLASH {
        out.push(Component::RootDir);
    } else {
        let end: usize = piece_end(path, 0);
        if is_dot(slice_subrange(path, 0, end)) {
            out.push(Component::CurDir);
        }
    }
    let ghost first = component_views(out@);
    let mut at: usize = 0;
    while at < path.len()
        invariant
            at <= path@.len(),
            component_views(out@) + inner_components(path@.skip(at as int)) == first
                + inner_components(path@),
        decreases path@.len() - at,
    {
        let ghost rest = path@.skip(at as int);
        let end: usize = piece_end(path, at);
        let piece = slice_subrange(path, at, end);
        let ghost before = component_views(out@);
        proof {
            lemma_piece_len(rest);
            assert(rest.take(piece_len(rest) as int) =~= piece@);
        }
        if piece.len() == 0 || is_dot(piece) {
        } else if is_dot_dot(piece) {
            out.push(Component::ParentDir);
        } else {
            out.push(Component::Normal(piece));
        }
        proof {
            assert(component_views(out@) =~= before + piece_component(piece@));
            assert(before + (piece_component(piece@) + inner_components(after_piece(rest))) =~= (
            before + piece_component(piece@)) + inner_components(after_piece(rest)));
        }
        if end < path.len() {
            proof {
                assert(path@.skip(end + 1) =~= after_piece(rest));
            }
            at = end + 1;
        } else {
            proof {
                assert(path@.skip(end as int) =~= after_piece(rest));
            }
            at = end;
        }
    }
    proof {
        assert(path@.skip(at as int) =~= Seq::<u8>::empty());
        assert(component_views(out@) + Seq::<ComponentView>::empty() =~= component_views(out@));
        assert(component_views(out@) =~= components_of(path@)) by {
            assert(path@.subrange(0, piece_len(path@) as int) =~= path@.take(
                piece_len(path@) as int,
            ));
        }
    }
    out
}

/// Get the last component of a path, where that is a name.
pub fn file_name<'a>(path: &'a [u8]) -> (r: Option<&'a [u8]>)
    ensures
        match r {
            Some(name) => file_name_of(path@) == Some(name@),
            None => file_name_of(path@) is None,
        },
{
    let parts = components(path);
    proof {
        assert(component_views(parts@).len() == parts@.len());
    }
    if parts.len() == 0 {
        return None;
    }
    let last = parts[parts.len() - 1];
    proof {
        assert(component_views(parts@).last() == last@);
    }
    match last {
        Component::Normal(name) => Some(name),
        _ => None,
    }
}

/// Check whether two components are the same.
fn same_component(a: &Component, b: &Component) -> (r: bool)
    ensures
        r == (a@ == b@),
{
    match (*a, *b) {
        (Component::RootDir, Component::RootDir) => true,
        (Component::CurDir, Component::CurDir) => true,
        (Component::ParentDir, Component::ParentDir) => true,
        (Component::Normal(x), Component::Normal(y)) => util::bytes_eq(x, y),
        _ => false,
    }
}

/// Check whether two paths have the same components.
pub fn same_path(a: &[u8], b: &[u8]) -> (r: bool)
    ensures
        r == (components_of(a@) == components_of(b@)),
{
    let x = components(a);
    let y = components(b);
    let ghost xs = component_views(x@);
    let ghost ys = component_views(y@);
    if x.len() != y.len() {
        proof {
            assert(xs.len() != ys.len());
        }
        return false;
    }
    let mut i: usize = 0;
    while i < x.len()
        invariant
            i <= x@.len(),
            x@.len() == y@.len(),
            xs == component_views(x@),
            ys == component_views(y@),
            xs == components_of(a@),
            ys == components_of(b@),
            forall|j: int| 0 <= j < i ==> xs[j] == ys[j],
        decreases x@.len() - i,
    {
        if !same_component(&x[i], &y[i]) {
            proof {
                assert(xs[i as int] != ys[i as int]);
            }
            return false;
        }
        proof {
            assert(xs[i as int] == ys[i as int]);
        }
        i = i + 1;
    }
    proof {
        assert(xs =~= ys);
    }
    true
}

/// Append a relative path.
pub fn push(path: &mut Vec<u8>, name: &[u8])
    ensures
        final(path)@ == joined(old(path)@, name@),
{
    let len: usize = path.len();
    if len > 0 && path[len - 1] != SLASH {
        path.push(SLASH);
    }
    util::extend(path, name);
    proof {
        assert(path@ =~= joined(old(path)@, name@));
    }
}

/// A byte string without slashes, other than `.` and `..`, is a path of one component: itself.
pub proof fn lemma_name_is_component(name: Seq<u8>)
    requires
        name.len() > 0,
        !name.contains(SLASH),
        name != seq![DOT],
        name != seq![DOT, DOT],
    ensures
        components_of(name) == seq![ComponentView::Normal(name)],
        file_name_of(name) == Some(name),
{
    lemma_piece_len(name);
    if piece_len(name) < name.len() {
        assert(name.contains(name[piece_len(name) as int]));
    }
    assert(name.take(name.len() as int) =~= name);
    assert(inner_components(Seq::<u8>::empty()) =~= Seq::<ComponentView>::empty());
    assert(inner_components(name) =~= seq![ComponentView::Normal(name)]);
    assert(name.contains(name[0]));
    assert(components_of(name) =~= seq![ComponentView::Normal(name)]);
}

/// The names in a path are paths of one component.
pub proof fn lemma_inner_names(path: Seq<u8>)
    ensures
        forall|i: int|
            0 <= i < inner_components(path).len() ==> match #[trigger] inner_components(path)[i] {
                ComponentView::Normal(name) => components_of(name) == seq![
                    ComponentView::Normal(name),
                ],
                c => c is ParentDir,
            },
    decreases path.len(),
{
    if path.len() > 0 {
        lemma_piece_len(path);
        let piece = path.take(piece_len(path) as int);
        let rest = after_piece(path);
        lemma_inner_names(rest);
        let first = piece_component(piece);
        if first.len() > 0 && first[0] is Normal {
            assert(!piece.contains(SLASH));
            lemma_name_is_component(piece);
        }
        assert forall|i: int| 0 <= i < inner_components(path).len() implies match
            #[trigger] inner_components(path)[i] {
            ComponentView::Normal(name) => components_of(name) == seq![ComponentView::Normal(name)],
            c => c is ParentDir,
        } by {
            if i >= first.len() {
                assert(inner_components(path)[i] == inner_components(rest)[i - first.len()]);
            }
        }
    }
}

/// Joining a name appends its component.
pub proof fn law_joined_components(path: Seq<u8>, name: Seq<u8>)
    requires
        path.len() > 0,
        name.len() > 0,
        !name.contains(SLASH),
        name != seq![DOT],
        name != seq![DOT, DOT],
    ensures
        components_of(joined(path, name)) == components_of(path).push(ComponentView::Normal(name)),
{
    let full = joined(path, name);
    lemma_joined_inner(path, name);
    lemma_piece_len(path);
    lemma_piece_len(full);
    assert(full[0] == path[0]);
    if path[0] != SLASH {
        lemma_joined_piece(path, name);
    }
    assert(components_of(full) =~= components_of(path).push(ComponentView::Normal(name)));
}

proof fn lemma_joined_piece(path: Seq<u8>, name: Seq<u8>)
    requires
        path.len() > 0,
        path[0] != SLASH,
        !name.contains(SLASH),
    ensures
        piece_len(joined(path, name)) == piece_len(path),
        joined(path, name).take(piece_len(path) as int) == path.take(piece_len(path) as int),
    decreases path.len(),
{
    let full = joined(path, name);
    if path.len() == 1 {
        let rest = full.skip(1);
        assert(rest =~= seq![SLASH] + name);
        assert(path.skip(1) =~= Seq::<u8>::empty());
        assert(piece_len(path.skip(1)) == 0);
        assert(rest[0] == SLASH);
        assert(piece_len(rest) == 0);
        assert(full[0] == path[0]);
    } else {
        assert(full.skip(1) =~= joined(path.skip(1), name)) by {
            assert(path.skip(1).last() == path.last());
        }
        assert(full[0] == path[0]);
        if path[1] != SLASH {
            assert(path.skip(1)[0] == path[1]);
            lemma_joined_piece(path.skip(1), name);
        } else {
            assert(path.skip(1)[0] == SLASH);
            assert(full.skip(1)[0] == SLASH);
            assert(piece_len(path.skip(1)) == 0);
            assert(piece_len(full.skip(1)) == 0);
        }
    }
    lemma_piece_len(path);
    assert(full.take(piece_len(path) as int) =~= path.take(piece_len(path) as int));
}

proof fn lemma_joined_inner(path: Seq<u8>, name: Seq<u8>)
    requires
        path.len() > 0,
        name.len() > 0,
        !name.contains(SLASH),
        name != seq![DOT],
        name != seq![DOT, DOT],
    ensures
        inner_components(joined(path, name)) == inner_components(path).push(
            ComponentView::Normal(name),
        ),
    decreases path.len(),
{
    let full = joined(path, name);
    lemma_piece_len(path);
    lemma_piece_len(full);
    lemma_name_is_component(name);
    lemma_piece_len(name);
    assert(inner_components(name) =~= seq![ComponentView::Normal(name)]) by {
        assert(name.contains(name[0]));
        assert(name.take(piece_len(name) as int) =~= name) by {
            if piece_len(name) < name.len() {
                assert(name.contains(name[piece_len(name) as int]));
            }
        }
        assert(inner_components(after_piece(name)) =~= Seq::<ComponentView>::empty());
    }
    assert(inner_components(Seq::<u8>::empty()) =~= Seq::<ComponentView>::empty());
    if path[0] == SLASH {
        assert(after_piece(path) =~= path.skip(1));
        assert(after_piece(full) =~= full.skip(1));
        assert(path.take(0) =~= Seq::<u8>::empty());
        assert(full.take(0) =~= Seq::<u8>::empty());
        if path.len() == 1 {
            assert(full.skip(1) =~= name);
            assert(path.skip(1) =~= Seq::<u8>::empty());
        } else {
            assert(full.skip(1) =~= joined(path.skip(1), name)) by {
                assert(path.skip(1).last() == path.last());
            }
            lemma_joined_inner(path.skip(1), name);
        }
    } else {
        lemma_joined_piece(path, name);
        let n = piece_len(path) as int;
        if n < path.len() {
            if n + 1 == path.len() {
                assert(after_piece(path) =~= Seq::<u8>::empty());
                assert(after_piece(full) =~= name);
            } else {
                assert(after_piece(full) =~= joined(after_piece(path), name)) by {
                    assert(after_piece(path).last() == path.last());
                }
                lemma_joined_inner(after_piece(path), name);
            }
        } else {
            assert(after_piece(path) =~= Seq::<u8>::empty());
            assert(path.last() != SLASH) by {
                assert(path[path.len() - 1] != SLASH);
            }
            assert(after_piece(full) =~= name);
        }
    }
    assert(inner_components(full) =~= inner_components(path).push(ComponentView::Normal(name)));
}

/// What a piece between slashes stands for: a name, a way up, or nothing where it is empty or `.`.
pub open spec fn meaning_of(piece: Seq<u8>) -> Seq<ComponentView> {
    if piece.len() == 0 || piece == seq![0x2eu8] {
        Seq::empty()
    } else if piece == seq![0x2eu8, 0x2eu8] {
        seq![ComponentView::ParentDir]
    } else {
        seq![ComponentView::Normal(piece)]
    }
}

proof fn lemma_one_piece(piece: Seq<u8>)
    requires
        !piece.contains(0x2f),
    ensures
        inner_components(piece) == meaning_of(piece),
        piece.take(piece_len(piece) as int) == piece,
{
    lemma_piece_len(piece);
    if piece_len(piece) < piece.len() {
        assert(piece.contains(piece[piece_len(piece) as int]));
    }
    assert(piece.take(piece.len() as int) =~= piece);
    assert(inner_components(Seq::<u8>::empty()) =~= Seq::<ComponentView>::empty());
    assert(inner_components(piece) =~= meaning_of(piece));
}

/// The first piece of a path is not changed by what is put behind a slash.
proof fn lemma_first_piece(path: Seq<u8>, more: Seq<u8>)
    ensures
        piece_len(path + seq![0x2fu8] + more) == piece_len(path),
        (path + seq![0x2fu8] + more).take(piece_len(path) as int) == path.take(
            piece_len(path) as int,
        ),
    decreases path.len(),
{
    let full = path + seq![0x2fu8] + more;
    lemma_piece_len(path);
    if path.len() > 0 && path[0] != SLASH {
        assert(full.skip(1) =~= path.skip(1) + seq![0x2fu8] + more);
        lemma_first_piece(path.skip(1), more);
    }
    assert(full.take(piece_len(path) as int) =~= path.take(piece_len(path) as int));
}

proof fn lemma_appended_inner(path: Seq<u8>, piece: Seq<u8>)
    requires
        !piece.contains(0x2f),
    ensures
        inner_components(path + seq![0x2fu8] + piece) == inner_components(path) + meaning_of(piece),
    decreases path.len(),
{
    let full = path + seq![0x2fu8] + piece;
    lemma_piece_len(path);
    lemma_piece_len(full);
    lemma_first_piece(path, piece);
    lemma_one_piece(piece);
    let n = piece_len(path) as int;
    let first = piece_component(path.take(n));
    assert(inner_components(Seq::<u8>::empty()) =~= Seq::<ComponentView>::empty());
    if n < path.len() {
        assert(after_piece(full) =~= after_piece(path) + seq![0x2fu8] + piece);
        lemma_appended_inner(after_piece(path), piece);
        assert(first + (inner_components(after_piece(path)) + meaning_of(piece)) =~= first
            + inner_components(after_piece(path)) + meaning_of(piece));
    } else {
        assert(after_piece(full) =~= piece);
        assert(path.take(n) =~= path);
        if path.len() > 0 {
            assert(inner_components(path) =~= first);
        }
        assert(inner_components(full) =~= inner_components(path) + meaning_of(piece));
    }
}

/// A path without slashes stands for what its only piece stands for, but that a `.` stands for
/// itself. A slash in front makes a path absolute, and what is put behind another slash adds what
/// it stands for: nothing where it is empty or `.`.
pub proof fn law_components(path: Seq<u8>, piece: Seq<u8>)
    requires
        !piece.contains(0x2f),
    ensures
        components_of(piece) == (if piece == seq![0x2eu8] {
            seq![ComponentView::CurDir]
        } else {
            meaning_of(piece)
        }),
        components_of(seq![0x2fu8] + piece) == seq![ComponentView::RootDir] + meaning_of(piece),
        path.len() > 0 ==> components_of(path + seq![0x2fu8] + piece) == components_of(path)
            + meaning_of(piece),
{
    lemma_one_piece(piece);
    if piece.len() > 0 && piece[0] == SLASH {
        assert(piece.contains(0x2f));
    }
    assert(components_of(piece) =~= if piece == seq![0x2eu8] {
        seq![ComponentView::CurDir]
    } else {
        meaning_of(piece)
    });
    let empty = Seq::<u8>::empty();
    lemma_appended_inner(empty, piece);
    assert(empty + seq![0x2fu8] + piece =~= seq![0x2fu8] + piece);
    assert(inner_components(empty) =~= Seq::<ComponentView>::empty());
    assert(components_of(seq![0x2fu8] + piece) =~= seq![ComponentView::RootDir] + meaning_of(piece));
    if path.len() > 0 {
        let full = path + seq![0x2fu8] + piece;
        lemma_appended_inner(path, piece);
        lemma_first_piece(path, piece);
        assert(full[0] == path[0]);
        assert(components_of(full) =~= components_of(path) + meaning_of(piece));
    }
}

/// The file name of a path is what follows the last slash, where that is a name; slashes at the end
/// and a `.` do not matter.
pub proof fn law_file_name(path: Seq<u8>, name: Seq<u8>)
    requires
        !name.contains(0x2f),
        meaning_of(name) == seq![ComponentView::Normal(name)],
    ensures
        file_name_of(name) == Some(name),
        file_name_of(path + seq![0x2fu8] + name) == Some(name),
        path.len() > 0 ==> file_name_of(path + seq![0x2fu8]) == file_name_of(path),
        path.len() > 0 ==> file_name_of(path + seq![0x2fu8, 0x2eu8]) == file_name_of(path),
        file_name_of(path + seq![0x2fu8, 0x2eu8, 0x2eu8]) is None,
        file_name_of(Seq::<u8>::empty()) is None,
        file_name_of(seq![0x2fu8]) is None,
{
    let empty = Seq::<u8>::empty();
    law_components(path, name);
    law_components(path, empty);
    law_components(path, seq![0x2eu8]);
    law_components(path, seq![0x2eu8, 0x2eu8]);
    law_components(empty, empty);
    assert(path + seq![0x2fu8] + empty =~= path + seq![0x2fu8]);
    assert(path + seq![0x2fu8] + seq![0x2eu8] =~= path + seq![0x2fu8, 0x2eu8]);
    assert(path + seq![0x2fu8] + seq![0x2eu8, 0x2eu8] =~= path + seq![0x2fu8, 0x2eu8, 0x2eu8]);
    assert(seq![0x2fu8] + empty =~= seq![0x2fu8]);
    assert(components_of(path) + Seq::<ComponentView>::empty() =~= components_of(path));
    if path.len() == 0 {
        assert(path + seq![0x2fu8] + name =~= seq![0x2fu8] + name);
        assert(path + seq![0x2fu8, 0x2eu8, 0x2eu8] =~= seq![0x2fu8] + seq![0x2eu8, 0x2eu8]);
    }
}

/// Joining puts a name behind a path, with one slash in between unless the path ends in one or is
/// empty.
pub proof fn law_joined(path: Seq<u8>, name: Seq<u8>)
    ensures
        joined(Seq::<u8>::empty(), name) == name,
        joined(path + seq![0x2fu8], name) == path + seq![0x2fu8] + name,
        path.len() > 0 && path.last() != 0x2f ==> joined(path, name) == path + seq![0x2fu8] + name,
{
    assert(Seq::<u8>::empty() + name =~= name);
}

} // verus!
