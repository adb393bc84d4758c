//! When two texts name the same path.

use vstd::prelude::*;

use crate::text;

verus! {

/// The pieces of a path between its slashes.
pub open spec fn pieces(path: Seq<char>) -> Seq<Seq<char>>
    decreases path.len(),
{
    if path.len() == 0 {
        seq![Seq::empty()]
    } else {
        let before = pieces(path.drop_last());
        if path.last() == '/' {
            before.push(Seq::empty())
        } else {
            before.drop_last().push(before.last().push(path.last()))
        }
    }
}

/// The piece names something: it is neither empty nor a single dot.
pub open spec fn is_name(piece: Seq<char>) -> bool {
    piece.len() > 0 && piece != seq!['.']
}

/// The pieces that name something.
pub open spec fn names(all: Seq<Seq<char>>) -> Seq<Seq<char>>
    decreases all.len(),
{
    if all.len() == 0 {
        Seq::empty()
    } else if is_name(all.last()) {
        names(all.drop_last()).push(all.last())
    } else {
        names(all.drop_last())
    }
}

/// The path starts at the root.
pub open spec fn is_rooted(path: Seq<char>) -> bool {
    path.len() > 0 && path[0] == '/'
}

/// The path's first piece is a single dot.
pub open spec fn starts_here(path: Seq<char>) -> bool {
    path.len() > 0 && path[0] == '.' && (path.len() == 1 || path[1] == '/')
}

/// The texts name the same path: repeated and trailing slashes do not count, nor
/// do single dots, except one that a relative path starts with.
pub open spec fn same_path(a: Seq<char>, b: Seq<char>) -> bool {
    &&& is_rooted(a) == is_rooted(b)
    &&& starts_here(a) == starts_here(b)
    &&& names(pieces(a)) == names(pieces(b))
}

/// What the texts hold.
pub open spec fn views(v: Seq<Vec<char>>) -> Seq<Seq<char>> {
    Seq::new(v.len(), |i: int| v[i]@)
}

/// Appends the piece, if it names something.
fn push_name(out: &mut Vec<Vec<char>>, piece: Vec<char>)
    ensures
        views(final(out)@) == (if is_name(piece@) {
            views(old(out)@).push(piece@)
        } else {
            views(old(out)@)
        }),
{
    let dot = piece.len() == 1 && piece[0] == '.';
    assert(dot == (piece@ == seq!['.'])) by {
        if piece@.len() == 1 && piece@[0] == '.' {
            assert(piece@ =~= seq!['.']);
        }
    }
    if piece.len() > 0 && !dot {
        out.push(piece);
        assert(views(out@) =~= views(old(out)@).push(piece@));
    }
}

/// The names along a path.
fn names_of(path: &Vec<char>) -> (r: Vec<Vec<char>>)
    ensures
        views(r@) == names(pieces(path@)),
{
    let n: usize = path.len();
    let mut out: Vec<Vec<char>> = Vec::new();
    let mut piece: Vec<char> = Vec::new();
    let mut i: usize = 0;
    proof {
        assert(path@.take(0) =~= Seq::empty());
        assert(pieces(path@.take(0)) =~= seq![Seq::<char>::empty()]);
        assert(pieces(path@.take(0)).drop_last() =~= Seq::<Seq<char>>::empty());
        assert(views(out@) =~= Seq::<Seq<char>>::empty());
    }
    while i < n
        invariant
            i <= n,
            n == path@.len(),
            pieces(path@.take(i as int)).len() > 0,
            pieces(path@.take(i as int)).last() == piece@,
            views(out@) == names(pieces(path@.take(i as int)).drop_last()),
        decreases n - i,
    {
        let ghost before = pieces(path@.take(i as int));
        assert(path@.take(i + 1).drop_last() =~= path@.take(i as int));
        assert(path@.take(i + 1).last() == path@[i as int]);
        if path[i] == '/' {
            push_name(&mut out, piece);
            piece = Vec::new();
            assert(before.push(Seq::<char>::empty()).drop_last() =~= before);
        } else {
            let ghost longer = piece@.push(path@[i as int]);
            piece.push(path[i]);
            assert(before.drop_last().push(longer).drop_last() =~= before.drop_last());
        }
        i = i + 1;
    }
    assert(path@.take(n as int) =~= path@);
    push_name(&mut out, piece);
    out
}

/// Whether two lists of names are the same.
fn names_equal(a: &Vec<Vec<char>>, b: &Vec<Vec<char>>) -> (r: bool)
    ensures
        r == (views(a@) == views(b@)),
{
    if a.len() != b.len() {
        assert(views(a@).len() != views(b@).len());
        return false;
    }
    let n: usize = a.len();
    let mut i: usize = 0;
    while i < n
        invariant
            i <= n,
            n == a@.len(),
            n == b@.len(),
            forall|k: int| 0 <= k < i ==> views(a@)[k] == views(b@)[k],
        decreases n - i,
    {
        if !text::chars_equal(a[i].as_slice(), b[i].as_slice()) {
            assert(views(a@)[i as int] != views(b@)[i as int]);
            return false;
        }
        i = i + 1;
    }
    assert(views(a@) =~= views(b@));
    true
}

/// Whether two texts name the same path.
pub fn paths_equal(a: &str, b: &str) -> (r: bool)
    ensures
        r == same_path(a@, b@),
{
    let x = text::chars_of(a);
    let y = text::chars_of(b);
    let rooted = (x.len() > 0 && x[0] == '/') == (y.len() > 0 && y[0] == '/');
    let here = (x.len() > 0 && x[0] == '.' && (x.len() == 1 || x[1] == '/')) == (y.len() > 0 && y[0]
        == '.' && (y.len() == 1 || y[1] == '/'));
    if !rooted || !here {
        return false;
    }
    let p = names_of(&x);
    let q = names_of(&y);
    names_equal(&p, &q)
}

/// Slashes and single dots at the end of a path do not change what it names.
pub proof fn law_tail_does_not_count(path: Seq<char>)
    requires
        path.len() > 0,
        path != seq!['.'],
    ensures
        same_path(path.push('/'), path),
        same_path(path.push('/').push('.'), path),
{
    let slash = path.push('/');
    let dot = slash.push('.');
    assert(slash.drop_last() =~= path);
    assert(dot.drop_last() =~= slash);
    let base = pieces(path);
    let with_slash = pieces(slash);
    assert(with_slash == base.push(Seq::empty()));
    assert(with_slash.drop_last() =~= base);
    let with_dot = pieces(dot);
    assert(with_dot.drop_last() =~= base);
    assert(with_dot.last() =~= seq!['.']);
    if path.len() == 1 {
        assert(path =~= seq![path[0]]);
        assert(path[0] != '.');
    }
}

} // verus!
