//! Paths and the names of array partitions.

use vstd::prelude::*;

use crate::array::config;
use crate::array::path;
use crate::laws::text as number_text;

verus! {

// ---------------------------------------------------------------------------
// Paths
// ---------------------------------------------------------------------------

/// The name has no slash in it, and is neither empty nor a single dot.
pub open spec fn plain_name(name: Seq<char>) -> bool {
    &&& name.len() > 0
    &&& name != seq!['.']
    &&& forall|i: int| 0 <= i < name.len() ==> #[trigger] name[i] != '/'
}

/// The names, each behind a slash.
pub open spec fn spelled(names: Seq<Seq<char>>) -> Seq<char>
    decreases names.len(),
{
    if names.len() == 0 {
        Seq::empty()
    } else {
        spelled(names.drop_last()).push('/') + names.last()
    }
}

/// What stands behind a slash comes after all pieces before it.
proof fn lemma_pieces_behind_slash(front: Seq<char>, back: Seq<char>)
    ensures
        path::pieces(front.push('/') + back) == path::pieces(front) + path::pieces(back),
        path::pieces(back).len() > 0,
    decreases back.len(),
{
    let whole = front.push('/') + back;
    if back.len() == 0 {
        assert(whole =~= front.push('/'));
        assert(whole.drop_last() =~= front);
        assert(path::pieces(whole) =~= path::pieces(front) + path::pieces(back));
    } else {
        lemma_pieces_behind_slash(front, back.drop_last());
        assert(whole.drop_last() =~= front.push('/') + back.drop_last());
        assert(whole.last() == back.last());
        let before = path::pieces(whole.drop_last());
        let inner = path::pieces(back.drop_last());
        assert(before == path::pieces(front) + inner);
        assert(before.last() == inner.last());
        assert(path::pieces(whole) =~= path::pieces(front) + path::pieces(back));
    }
}

proof fn lemma_pieces_of_name(name: Seq<char>)
    requires
        forall|i: int| 0 <= i < name.len() ==> #[trigger] name[i] != '/',
    ensures
        path::pieces(name) == seq![name],
    decreases name.len(),
{
    if name.len() > 0 {
        let front = name.drop_last();
        assert forall|i: int| 0 <= i < front.len() implies #[trigger] front[i] != '/' by {
            assert(front[i] == name[i]);
        }
        lemma_pieces_of_name(front);
        assert(name[name.len() - 1] != '/');
        assert(front.push(name.last()) =~= name);
        assert(path::pieces(name) =~= seq![name]);
    } else {
        assert(name =~= Seq::empty());
    }
}

proof fn lemma_names_joined(a: Seq<Seq<char>>, b: Seq<Seq<char>>)
    ensures
        path::names(a + b) == path::names(a) + path::names(b),
    decreases b.len(),
{
    if b.len() == 0 {
        assert(a + b =~= a);
        assert(path::names(a + b) =~= path::names(a) + path::names(b));
    } else {
        lemma_names_joined(a, b.drop_last());
        assert((a + b).drop_last() =~= a + b.drop_last());
        assert((a + b).last() == b.last());
        assert(path::names(a + b) =~= path::names(a) + path::names(b));
    }
}

proof fn lemma_names_of_one(name: Seq<char>)
    ensures
        path::names(seq![name]) == (if name.len() > 0 && name != seq!['.'] {
            seq![name]
        } else {
            Seq::empty()
        }),
{
    assert(seq![name].drop_last() =~= Seq::<Seq<char>>::empty());
    assert(seq![name].last() == name);
    let one = seq![name];
    let none = Seq::<Seq<char>>::empty();
    assert(path::names(none) =~= none);
    if path::is_name(name) {
        assert(path::names(one) == none.push(name));
        assert(none.push(name) =~= one);
    }
}

proof fn lemma_spelled(names: Seq<Seq<char>>)
    requires
        forall|i: int| 0 <= i < names.len() ==> plain_name(#[trigger] names[i]),
    ensures
        path::names(path::pieces(spelled(names))) == names,
        names.len() > 0 ==> spelled(names).len() > 0 && spelled(names)[0] == '/',
    decreases names.len(),
{
    let none = Seq::<char>::empty();
    if names.len() == 0 {
        lemma_names_of_one(none);
        assert(spelled(names) =~= none);
        assert(path::pieces(none) =~= seq![none]);
        assert(path::names(path::pieces(spelled(names))) =~= names);
    } else {
        let front = names.drop_last();
        let last = names.last();
        assert forall|i: int| 0 <= i < front.len() implies plain_name(#[trigger] front[i]) by {
            assert(front[i] == names[i]);
        }
        lemma_spelled(front);
        assert(plain_name(names[names.len() - 1]));
        lemma_pieces_behind_slash(spelled(front), last);
        lemma_pieces_of_name(last);
        lemma_names_joined(path::pieces(spelled(front)), seq![last]);
        lemma_names_of_one(last);
        assert(front + seq![last] =~= names);
    }
}

/// Two paths from the root are the same just where they go by the same names, in
/// the same order.
pub proof fn law_paths_are_their_names(a: Seq<Seq<char>>, b: Seq<Seq<char>>)
    requires
        a.len() > 0,
        b.len() > 0,
        forall|i: int| 0 <= i < a.len() ==> plain_name(#[trigger] a[i]),
        forall|i: int| 0 <= i < b.len() ==> plain_name(#[trigger] b[i]),
    ensures
        path::same_path(spelled(a), spelled(b)) <==> a == b,
{
    lemma_spelled(a);
    lemma_spelled(b);
}

/// A path from the root is never one that is not.
pub proof fn law_root_counts(a: Seq<char>, b: Seq<char>)
    requires
        a.len() > 0,
        a[0] == '/',
        b.len() == 0 || b[0] != '/',
    ensures
        !path::same_path(a, b),
        !path::same_path(b, a),
{
}

/// A second slash does not count, nor does a dot between slashes.
pub proof fn law_slashes_and_dots_do_not_count(front: Seq<char>, back: Seq<char>)
    ensures
        path::same_path(front.push('/') + back, front.push('/').push('/') + back),
        path::same_path(front.push('/') + back, front.push('/').push('.').push('/') + back),
{
    let none = Seq::<char>::empty();
    let dot = seq!['.'];
    let slash = front.push('/');
    let dotted = slash.push('.');
    assert(slash =~= slash + none);
    assert(dotted =~= slash + dot);
    lemma_pieces_behind_slash(front, back);
    lemma_pieces_behind_slash(slash, back);
    lemma_pieces_behind_slash(dotted, back);
    lemma_pieces_behind_slash(front, none);
    lemma_pieces_behind_slash(front, dot);
    lemma_pieces_of_name(none);
    lemma_pieces_of_name(dot);
    lemma_names_of_one(none);
    lemma_names_of_one(dot);
    lemma_names_joined(path::pieces(front), path::pieces(back));
    lemma_names_joined(path::pieces(slash), path::pieces(back));
    lemma_names_joined(path::pieces(dotted), path::pieces(back));
    lemma_names_joined(path::pieces(front), seq![none]);
    lemma_names_joined(path::pieces(front), seq![dot]);
    let empty = Seq::<Seq<char>>::empty();
    assert(path::names(path::pieces(front)) + empty =~= path::names(path::pieces(front)));
    let x = slash + back;
    let y = slash.push('/') + back;
    let z = dotted.push('/') + back;
    assert(x[0] == y[0] && x[0] == z[0]);
    if front.len() > 0 {
        assert(x[1] == y[1] && x[1] == z[1]);
    }
}

// ---------------------------------------------------------------------------
// Array partitions
// ---------------------------------------------------------------------------

/// The text is a directory's: empty, or with a slash at its end.
pub open spec fn is_directory(dir: Seq<char>) -> bool {
    dir.len() == 0 || dir.last() == '/'
}

proof fn lemma_after_slash(dir: Seq<char>, name: Seq<char>)
    requires
        is_directory(dir),
        forall|i: int| 0 <= i < name.len() ==> #[trigger] name[i] != '/',
    ensures
        config::after_slash(dir + name) == name,
    decreases name.len(),
{
    let whole = dir + name;
    if name.len() == 0 {
        assert(whole =~= dir);
        assert(config::after_slash(whole) =~= name);
    } else {
        let front = name.drop_last();
        assert forall|i: int| 0 <= i < front.len() implies #[trigger] front[i] != '/' by {
            assert(front[i] == name[i]);
        }
        lemma_after_slash(dir, front);
        assert(whole.drop_last() =~= dir + front);
        assert(whole.last() == name[name.len() - 1]);
        assert(front.push(name.last()) =~= name);
    }
}

proof fn lemma_leading_digits(digits: Seq<char>, rest: Seq<char>)
    requires
        forall|i: int| 0 <= i < digits.len() ==> '0' <= #[trigger] digits[i] <= '9',
        rest.len() == 0 || !('0' <= rest[0] <= '9'),
    ensures
        config::leading_digits(digits + rest) == digits.len(),
    decreases digits.len(),
{
    let whole = digits + rest;
    if digits.len() == 0 {
        assert(whole =~= rest);
    } else {
        let d = digits.drop_first();
        assert forall|i: int| 0 <= i < d.len() implies '0' <= #[trigger] d[i] <= '9' by {
            assert(d[i] == digits[i + 1]);
        }
        lemma_leading_digits(d, rest);
        assert(whole.drop_first() =~= d + rest);
        assert(whole[0] == digits[0]);
    }
}

/// An array partition is in the slot that its digits say: `nmd`, the digits, `p`
/// and a partition, in whatever directory. Without the `p` and a partition there
/// is no slot, nor without digits, nor in a name that does not start with `nmd`.
pub proof fn law_partition_is_in_its_slot(
    dir: Seq<char>,
    digits: Seq<char>,
    part: Seq<char>,
    name: Seq<char>,
    v: u64,
)
    requires
        is_directory(dir),
        forall|i: int| 0 <= i < digits.len() ==> '0' <= #[trigger] digits[i] <= '9',
        forall|i: int| 0 <= i < part.len() ==> #[trigger] part[i] != '/',
        forall|i: int| 0 <= i < name.len() ==> #[trigger] name[i] != '/',
    ensures
        digits.len() > 0 && number_text::number(digits, 10) == v && part.len() > 0
            ==> config::partition_slot(dir + seq!['n', 'm', 'd'] + digits + seq!['p'] + part)
            == Some(v as nat),
        digits.len() == 0 || part.len() == 0 ==> config::partition_slot(
            dir + seq!['n', 'm', 'd'] + digits + seq!['p'] + part,
        ) is None,
        part.len() > 0 && part[0] != 'p' && !('0' <= part[0] <= '9') ==> config::partition_slot(
            dir + seq!['n', 'm', 'd'] + digits + part,
        ) is None,
        config::partition_slot(dir + seq!['n', 'm', 'd'] + digits) is None,
        name.len() > 0 && name[0] != 'n' && name[0] != '.' ==> config::partition_slot(dir + name)
            is None,
{
    reveal_strlit("nmd");
    let nmd = seq!['n', 'm', 'd'];
    assert("nmd"@ =~= nmd);
    let p = seq!['p'];
    lemma_named(dir, nmd + digits + p + part);
    assert(dir + nmd + digits + p + part =~= dir + (nmd + digits + p + part));
    let rest = digits + (p + part);
    assert((nmd + digits + p + part).skip(3) =~= rest);
    assert((nmd + digits + p + part).take(3) =~= nmd);
    lemma_leading_digits(digits, p + part);
    assert(rest.take(digits.len() as int) =~= digits);
    if digits.len() > 0 {
        assert('0' <= digits[0] <= '9');
        assert(number_text::unsigned(digits) == digits);
        assert(number_text::all_digits(digits, 10)) by {
            assert forall|i: int| 0 <= i < digits.len() implies number_text::worth(
                #[trigger] digits[i],
            ) < 10 by {
                assert('0' <= digits[i] <= '9');
            }
        }
        number_text::law_text_is_read_as_its_number(digits, 10, u64::MAX as nat);
    }
    if part.len() > 0 && part[0] != 'p' && !('0' <= part[0] <= '9') {
        let other = nmd + digits + part;
        lemma_named(dir, other);
        assert(dir + nmd + digits + part =~= dir + other);
        lemma_leading_digits(digits, part);
        assert(other.skip(3) =~= digits + part);
        assert(other.take(3) =~= nmd);
        assert((digits + part)[digits.len() as int] == part[0]);
    }
    let bare = nmd + digits;
    lemma_named(dir, bare);
    assert(dir + nmd + digits =~= dir + bare);
    lemma_leading_digits(digits, Seq::empty());
    assert(digits + Seq::empty() =~= digits);
    assert(bare.skip(3) =~= digits);
    if name.len() > 0 && name[0] != 'n' && name[0] != '.' {
        lemma_named(dir, name);
        if name.len() >= 3 {
            assert(name.take(3)[0] != nmd[0]);
        }
    }
}

proof fn lemma_named(dir: Seq<char>, name: Seq<char>)
    requires
        is_directory(dir),
        name.len() > 0,
        name[0] != '.',
        forall|i: int| 0 <= i < name.len() ==> #[trigger] name[i] != '/',
    ensures
        config::after_slash(config::without_tail(dir + name)) == name,
{
    let whole = dir + name;
    assert(whole.last() == name[name.len() - 1]);
    if name.len() > 1 {
        assert(whole[whole.len() - 2] == name[name.len() - 2]);
    }
    assert(config::without_tail(whole) == whole);
    lemma_after_slash(dir, name);
}

} // verus!
