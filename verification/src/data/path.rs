//! The order and the extension of file paths, by their components.

use vstd::prelude::*;

use crate::text;

verus! {

/// How many characters stand before the first slash.
pub open spec fn piece_len(s: Seq<char>) -> nat
    decreases s.len(),
{
    if s.len() == 0 || s[0] == '/' {
        0
    } else {
        1 + piece_len(s.drop_first())
    }
}

proof fn piece_len_bound(s: Seq<char>)
    ensures
        piece_len(s) <= s.len(),
    decreases s.len(),
{
    if s.len() > 0 && s[0] != '/' {
        piece_len_bound(s.drop_first());
    }
}

/// What follows the first slash.
pub open spec fn behind_slash(s: Seq<char>) -> Seq<char> {
    if piece_len(s) < s.len() {
        s.skip(piece_len(s) as int + 1)
    } else {
        Seq::empty()
    }
}

/// Whether a piece between slashes counts: an empty one does not, and a dot
/// only at the start of a relative path.
pub open spec fn counts(piece: Seq<char>, first: bool) -> bool {
    piece.len() > 0 && (piece == seq!['.'] ==> first)
}

/// The components between the slashes of `s`.
pub open spec fn pieces(s: Seq<char>, first: bool) -> Seq<Seq<char>>
    decreases s.len(),
    via pieces_shrink
{
    if s.len() == 0 {
        Seq::empty()
    } else {
        let piece = s.take(piece_len(s) as int);
        if counts(piece, first) {
            seq![piece] + pieces(behind_slash(s), false)
        } else {
            pieces(behind_slash(s), false)
        }
    }
}

#[via_fn]
proof fn pieces_shrink(s: Seq<char>, first: bool) {
    piece_len_bound(s);
}

/// Whether a path starts at the root.
pub open spec fn rooted(path: Seq<char>) -> bool {
    path.len() > 0 && path[0] == '/'
}

/// The components of a path, its root left out.
pub open spec fn components(path: Seq<char>) -> Seq<Seq<char>> {
    if rooted(path) {
        pieces(path.skip(1), false)
    } else {
        pieces(path, true)
    }
}

/// The last component, unless it leads nowhere or up.
pub open spec fn file_name(path: Seq<char>) -> Option<Seq<char>> {
    let all = components(path);
    if all.len() > 0 && all.last() != seq!['.'] && all.last() != seq!['.', '.'] {
        Some(all.last())
    } else {
        None
    }
}

/// Where a dot last stands in `s`, -1 for nowhere.
pub open spec fn last_dot(s: Seq<char>) -> int
    decreases s.len(),
{
    if s.len() == 0 {
        -1
    } else if s.last() == '.' {
        s.len() - 1
    } else {
        last_dot(s.drop_last())
    }
}

/// What follows the last dot of the file name, where the name does not start
/// with that dot.
pub open spec fn extension(path: Seq<char>) -> Option<Seq<char>> {
    match file_name(path) {
        Some(name) => if last_dot(name) > 0 {
            Some(name.skip(last_dot(name) + 1))
        } else {
            None
        },
        None => None,
    }
}

/// The rank of each character of a name.
pub open spec fn name_ranks(name: Seq<char>) -> Seq<int> {
    name.map_values(|c: char| c as int + 5)
}

/// The rank of a component, and of each character of a name: an entry of the
/// root, of the path itself, of the parent, then the names.
pub open spec fn piece_key(piece: Seq<char>) -> Seq<int> {
    if piece == seq!['.'] {
        seq![2int]
    } else if piece == seq!['.', '.'] {
        seq![3int]
    } else {
        seq![4int] + name_ranks(piece)
    }
}

/// The ranks of a list of components.
pub open spec fn pieces_key(all: Seq<Seq<char>>) -> Seq<int>
    decreases all.len(),
{
    if all.len() == 0 {
        Seq::empty()
    } else {
        pieces_key(all.drop_last()) + piece_key(all.last())
    }
}

/// By what paths are ordered: component by component, and names character by
/// character.
pub open spec fn key(path: Seq<char>) -> Seq<int> {
    if rooted(path) {
        seq![1int] + pieces_key(components(path))
    } else {
        pieces_key(components(path))
    }
}

/// `a` does not come after `b` in the dictionary.
pub open spec fn key_le(a: Seq<int>, b: Seq<int>) -> bool
    decreases a.len(),
{
    if a.len() == 0 {
        true
    } else if b.len() == 0 {
        false
    } else {
        a[0] < b[0] || (a[0] == b[0] && key_le(a.drop_first(), b.drop_first()))
    }
}

/// `a` does not come after `b` among paths.
pub open spec fn path_le(a: Seq<char>, b: Seq<char>) -> bool {
    key_le(key(a), key(b))
}

/// Of any two paths one does not come after the other.
pub proof fn paths_compare(a: Seq<int>, b: Seq<int>)
    ensures
        key_le(a, b) || key_le(b, a),
    decreases a.len(),
{
    if a.len() > 0 && b.len() > 0 {
        paths_compare(a.drop_first(), b.drop_first());
    }
}

/// The order of paths is transitive.
pub proof fn path_order_chains(a: Seq<int>, b: Seq<int>, c: Seq<int>)
    requires
        key_le(a, b),
        key_le(b, c),
    ensures
        key_le(a, c),
    decreases a.len(),
{
    if a.len() > 0 && a[0] == b[0] && b[0] == c[0] {
        path_order_chains(a.drop_first(), b.drop_first(), c.drop_first());
    }
}

/// The components of a path, each as its characters.
fn components_of(path: &str) -> (out: Vec<Vec<char>>)
    ensures
        out.len() == components(path@).len(),
        forall|i: int| 0 <= i < out.len() ==> #[trigger] out[i]@ == components(path@)[i],
{
    let chars = text::chars_of(path);
    let mut first = !(chars.len() > 0 && chars[0] == '/');
    let mut i: usize = if first {
        0
    } else {
        1
    };
    let mut out: Vec<Vec<char>> = Vec::new();
    let ghost all = components(path@);
    assert(path@.skip(0) =~= path@);
    while i < chars.len()
        invariant
            chars@ == path@,
            i <= chars.len(),
            all == components(path@),
            all.len() == out.len() + pieces(path@.skip(i as int), first).len(),
            forall|k: int| 0 <= k < out.len() ==> #[trigger] out[k]@ == all[k],
            forall|k: int|
                0 <= k < pieces(path@.skip(i as int), first).len() ==> all[out.len() + k]
                    == #[trigger] pieces(path@.skip(i as int), first)[k],
        decreases chars.len() - i,
    {
        let ghost rest = path@.skip(i as int);
        let ghost was = first;
        let start = i;
        let mut piece: Vec<char> = Vec::new();
        while i < chars.len() && chars[i] != '/'
            invariant
                chars@ == path@,
                start <= i <= chars.len(),
                piece@ == path@.subrange(start as int, i as int),
                piece_len(path@.skip(start as int)) == i - start + piece_len(
                    path@.skip(i as int),
                ),
            decreases chars.len() - i,
        {
            assert(path@.skip(i as int).drop_first() =~= path@.skip(i + 1));
            piece.push(chars[i]);
            i = i + 1;
            assert(piece@ =~= path@.subrange(start as int, i as int));
        }
        proof {
            assert(piece_len(path@.skip(i as int)) == 0);
            assert(piece_len(rest) == i - start);
            assert(rest.take(i - start) =~= piece@);
        }
        if i < chars.len() {
            i = i + 1;
            assert(behind_slash(rest) =~= path@.skip(i as int));
        } else {
            assert(behind_slash(rest) =~= path@.skip(i as int));
        }
        let dot = piece.len() == 1 && piece[0] == '.';
        assert(dot == (piece@ =~= seq!['.']));
        if piece.len() > 0 && (!dot || first) {
            proof {
                assert(counts(piece@, first));
                assert(pieces(rest, was) == seq![piece@] + pieces(path@.skip(i as int), false));
                assert(all[out.len() as int] == pieces(rest, was)[0]);
                assert forall|k: int|
                    0 <= k < pieces(path@.skip(i as int), false).len() implies all[out.len() + 1
                    + k] == #[trigger] pieces(path@.skip(i as int), false)[k] by {
                    assert(pieces(rest, was)[k + 1] == pieces(path@.skip(i as int), false)[k]);
                }
            }
            out.push(piece);
        } else {
            assert(!counts(piece@, was));
            assert(pieces(rest, was) == pieces(path@.skip(i as int), false));
        }
        first = false;
    }
    assert(path@.skip(i as int).len() == 0);
    out
}

fn is_dots(piece: &Vec<char>, dots: usize) -> (r: bool)
    requires
        dots == 1 || dots == 2,
    ensures
        r == (piece@ == if dots == 1 {
            seq!['.']
        } else {
            seq!['.', '.']
        }),
{
    let r = piece.len() == dots && piece[0] == '.' && piece[dots - 1] == '.';
    assert(r == (piece@ =~= if dots == 1 {
        seq!['.']
    } else {
        seq!['.', '.']
    }));
    r
}

/// The last component of a path, unless it leads nowhere or up.
pub fn file_name_of(path: &str) -> (r: Option<Vec<char>>)
    ensures
        match r {
            Some(name) => file_name(path@) == Some(name@),
            None => file_name(path@) is None,
        },
{
    let mut all = components_of(path);
    match all.pop() {
        Some(name) => {
            assert(name@ == components(path@).last());
            if is_dots(&name, 1) || is_dots(&name, 2) {
                None
            } else {
                Some(name)
            }
        },
        None => None,
    }
}

/// The extension of a path.
pub fn extension_of(path: &str) -> (r: Option<Vec<char>>)
    ensures
        match r {
            Some(e) => extension(path@) == Some(e@),
            None => extension(path@) is None,
        },
{
    let name = match file_name_of(path) {
        Some(name) => name,
        None => {
            return None;
        },
    };
    let mut at: usize = name.len();
    assert(name@.take(at as int) =~= name@);
    while at > 0 && name[at - 1] != '.'
        invariant
            at <= name.len(),
            last_dot(name@) == last_dot(name@.take(at as int)),
        decreases at,
    {
        assert(name@.take(at as int).drop_last() =~= name@.take(at - 1));
        at = at - 1;
    }
    if at <= 1 {
        return None;
    }
    assert(name@.take(at as int).last() == '.');
    let mut out: Vec<char> = Vec::new();
    let mut i: usize = at;
    while i < name.len()
        invariant
            at <= i <= name.len(),
            out@ == name@.subrange(at as int, i as int),
        decreases name.len() - i,
    {
        out.push(name[i]);
        i = i + 1;
        assert(out@ =~= name@.subrange(at as int, i as int));
    }
    assert(out@ =~= name@.skip(at as int));
    Some(out)
}

/// A list of ranks, as integers.
pub open spec fn ranks(keys: Seq<u32>) -> Seq<int> {
    keys.map_values(|k: u32| k as int)
}

fn char_rank(c: char) -> (r: u32)
    ensures
        r == c as int + 5,
{
    c as u32 + 5
}

/// By what a path is ordered.
pub fn key_of(path: &str) -> (out: Vec<u32>)
    ensures
        ranks(out@) == key(path@),
{
    let all = components_of(path);
    let ghost pieces = components(path@);
    let mut out: Vec<u32> = Vec::new();
    let ghost root: Seq<int> = if rooted(path@) {
        seq![1int]
    } else {
        Seq::empty()
    };
    let chars = text::chars_of(path);
    if chars.len() > 0 && chars[0] == '/' {
        out.push(1);
    }
    let mut i: usize = 0;
    assert(ranks(out@) =~= root + pieces_key(pieces.take(0)));
    while i < all.len()
        invariant
            i <= all.len() == pieces.len(),
            forall|k: int| 0 <= k < all.len() ==> #[trigger] all[k]@ == pieces[k],
            ranks(out@) == root + pieces_key(pieces.take(i as int)),
        decreases all.len() - i,
    {
        let piece = &all[i];
        let ghost before = ranks(out@);
        proof {
            assert(piece@ == pieces[i as int]);
            assert(pieces.take(i + 1).drop_last() =~= pieces.take(i as int));
        }
        if is_dots(piece, 1) {
            out.push(2);
        } else if is_dots(piece, 2) {
            out.push(3);
        } else {
            out.push(4);
            let mut j: usize = 0;
            assert(ranks(out@) =~= before + seq![4int] + name_ranks(piece@.take(0)));
            while j < piece.len()
                invariant
                    j <= piece.len(),
                    ranks(out@) == before + seq![4int] + name_ranks(piece@.take(j as int)),
                decreases piece.len() - j,
            {
                let ghost was = out@;
                let rank = char_rank(piece[j]);
                out.push(rank);
                proof {
                    assert(ranks(out@) =~= ranks(was).push(rank as int));
                    assert(piece@.take(j + 1) =~= piece@.take(j as int).push(piece@[j as int]));
                    assert(name_ranks(piece@.take(j + 1)) =~= name_ranks(
                        piece@.take(j as int),
                    ).push(rank as int));
                    assert(ranks(out@) =~= before + seq![4int] + name_ranks(piece@.take(j + 1)));
                }
                j = j + 1;
            }
            assert(piece@.take(j as int) =~= piece@);
        }
        i = i + 1;
        assert(ranks(out@) =~= before + piece_key(piece@));
        assert(ranks(out@) =~= root + pieces_key(pieces.take(i as int)));
    }
    assert(pieces.take(i as int) =~= pieces);
    assert(ranks(out@) =~= key(path@));
    out
}

/// Whether one path does not come after another, by their keys.
pub fn keys_le(a: &Vec<u32>, b: &Vec<u32>) -> (r: bool)
    ensures
        r == key_le(ranks(a@), ranks(b@)),
{
    let ghost x = ranks(a@);
    let ghost y = ranks(b@);
    let mut i: usize = 0;
    assert(x.skip(0) =~= x && y.skip(0) =~= y);
    while i < a.len() && i < b.len() && a[i] == b[i]
        invariant
            i <= a.len(),
            i <= b.len(),
            x == ranks(a@),
            y == ranks(b@),
            key_le(x, y) == key_le(x.skip(i as int), y.skip(i as int)),
        decreases a.len() - i,
    {
        assert(x.skip(i as int).drop_first() =~= x.skip(i + 1));
        assert(y.skip(i as int).drop_first() =~= y.skip(i + 1));
        i = i + 1;
    }
    i == a.len() || (i < b.len() && a[i] < b[i])
}

proof fn insert_counts(s: Seq<String>, at: int, new: String)
    requires
        0 <= at <= s.len(),
    ensures
        s.insert(at, new).to_multiset() == s.to_multiset().insert(new),
{
    let grown = s.insert(at, new);
    assert(grown.remove(at) =~= s);
    vstd::seq_lib::to_multiset_remove(grown, at);
    assert(grown[at] == new);
    grown.to_multiset_ensures();
    assert(grown.to_multiset().count(new) > 0);
    assert(grown.to_multiset() =~= s.to_multiset().insert(new));
}

/// `paths` ascend.
pub open spec fn sorted(paths: Seq<String>) -> bool {
    forall|i: int, j: int|
        0 <= i < j < paths.len() ==> path_le(#[trigger] paths[i]@, #[trigger] paths[j]@)
}

/// The same paths in ascending order.
pub fn sort(paths: Vec<String>) -> (out: Vec<String>)
    ensures
        sorted(out@),
        out@.to_multiset() == paths@.to_multiset(),
{
    broadcast use vstd::seq_lib::group_to_multiset_ensures;

    let ghost all = paths@;
    let mut keys: Vec<Vec<u32>> = Vec::new();
    let mut out: Vec<String> = Vec::new();
    assert(out@ =~= all.take(0));
    for path in it: paths
        invariant
            it.seq() == all,
            keys.len() == out.len(),
            forall|i: int|
                0 <= i < out.len() ==> #[trigger] ranks(keys[i]@) == key(
                    out[i]@,
                ),
            sorted(out@),
            out@.to_multiset() == all.take(it.index() as int).to_multiset(),
    {
        let new = key_of(path.as_str());
        let mut at: usize = out.len();
        while at > 0 && !keys_le(&keys[at - 1], &new)
            invariant
                at <= out.len(),
                keys.len() == out.len(),
                ranks(new@) == key(path@),
                forall|i: int|
                    0 <= i < out.len() ==> #[trigger] ranks(keys[i]@) == key(
                        out[i]@,
                    ),
                forall|i: int| at <= i < out.len() ==> path_le(path@, #[trigger] out[i]@),
            decreases at,
        {
            proof {
                assert(ranks(keys[at - 1]@) == key(out[at - 1]@));
                paths_compare(key(path@), key(out[at - 1]@));
            }
            at = at - 1;
        }
        let ghost before = out@;
        let ghost done = all.take(it.index() as int);
        proof {
            assert(all.take(it.index() + 1) =~= done.push(path));
            let grown = before.insert(at as int, path);
            insert_counts(before, at as int, path);
            vstd::seq_lib::to_multiset_build(done, path);
            assert forall|i: int, j: int| 0 <= i < j < grown.len() implies path_le(
                #[trigger] grown[i]@,
                #[trigger] grown[j]@,
            ) by {
                if i == at {
                    assert(grown[j] == before[j - 1]);
                } else if j == at {
                    assert(ranks(keys[at - 1]@) == key(out[at - 1]@));
                    if i < at - 1 {
                        assert(path_le(before[i]@, before[at - 1]@));
                        path_order_chains(key(before[i]@), key(before[at - 1]@), key(path@));
                    }
                } else {
                    let a = if i < at { i } else { i - 1 };
                    let b = if j < at { j } else { j - 1 };
                    assert(path_le(before[a]@, before[b]@));
                }
            }
        }
        out.insert(at, path);
        keys.insert(at, new);
    }
    assert(all.take(all.len() as int) =~= all);
    out
}

/// The path of `name` under `root`.
pub open spec fn join(root: Seq<char>, name: Seq<char>) -> Seq<char> {
    if root.len() == 0 {
        name
    } else if root.last() == '/' {
        root + name
    } else {
        root.push('/') + name
    }
}

/// `name` is one component: it has characters, no slash among them, and leads
/// elsewhere.
pub open spec fn is_name(name: Seq<char>) -> bool {
    &&& name.len() > 0
    &&& !name.contains('/')
    &&& name != seq!['.']
    &&& name != seq!['.', '.']
}

/// Append the path of `name` under `root`.
pub fn joined(root: &str, name: &str) -> (r: String)
    ensures
        r@ == join(root@, name@),
{
    proof {
        reveal_strlit("/");
    }
    let mut out = root.to_owned();
    let len = root.unicode_len();
    if len > 0 && root.get_char(len - 1) != '/' {
        out.append("/");
        assert(out@ =~= root@.push('/'));
    }
    out.append(name);
    assert(out@ =~= join(root@, name@));
    out
}

proof fn piece_len_stops(s: Seq<char>, t: Seq<char>)
    requires
        piece_len(s) < s.len(),
    ensures
        piece_len(s + t) == piece_len(s),
        s[piece_len(s) as int] == '/',
    decreases s.len(),
{
    assert((s + t)[0] == s[0]);
    if s[0] != '/' {
        assert((s + t).drop_first() =~= s.drop_first() + t);
        piece_len_stops(s.drop_first(), t);
    }
}

proof fn piece_len_runs(s: Seq<char>)
    requires
        !s.contains('/'),
    ensures
        piece_len(s) == s.len(),
    decreases s.len(),
{
    if s.len() > 0 {
        assert(s.contains(s[0]));
        assert forall|i: int| 0 <= i < s.drop_first().len() implies s.drop_first()[i] != '/' by {
            assert(s.contains(s[i + 1]));
        }
        piece_len_runs(s.drop_first());
    }
}

proof fn piece_len_reaches(s: Seq<char>, t: Seq<char>)
    requires
        piece_len(s) == s.len(),
        t.len() > 0,
        t[0] == '/',
    ensures
        piece_len(s + t) == s.len(),
    decreases s.len(),
{
    if s.len() > 0 {
        assert((s + t).drop_first() =~= s.drop_first() + t);
        assert((s + t)[0] == s[0]);
        piece_len_reaches(s.drop_first(), t);
    } else {
        assert(s + t =~= t);
    }
}

proof fn pieces_of_child(s: Seq<char>, name: Seq<char>, first: bool)
    requires
        s.len() == 0 || s.last() == '/',
        is_name(name),
    ensures
        pieces(s + name, first) == pieces(s, first).push(name),
    decreases s.len(),
{
    if s.len() == 0 {
        assert(s + name =~= name);
        piece_len_runs(name);
        assert(name.take(name.len() as int) =~= name);
        assert(behind_slash(name) == Seq::<char>::empty());
        assert(pieces(Seq::<char>::empty(), false) == Seq::<Seq<char>>::empty());
        assert(pieces(name, first) =~= seq![name]);
        assert(pieces(s, first).push(name) =~= seq![name]);
    } else {
        piece_len_bound(s);
        if piece_len(s) == s.len() {
            piece_len_full(s);
        }
        piece_len_stops(s, name);
        let k = piece_len(s) as int;
        assert((s + name).take(k) =~= s.take(k));
        assert(behind_slash(s + name) =~= behind_slash(s) + name);
        pieces_of_child(behind_slash(s), name, false);
        let piece = s.take(k);
        let rest = pieces(behind_slash(s), false);
        if counts(piece, first) {
            assert((seq![piece] + rest).push(name) =~= seq![piece] + rest.push(name));
        }
    }
}

proof fn piece_len_full(s: Seq<char>)
    requires
        piece_len(s) == s.len(),
        s.len() > 0,
    ensures
        s.last() != '/',
    decreases s.len(),
{
    if s.len() > 1 {
        piece_len_full(s.drop_first());
        assert(s.drop_first().last() == s.last());
    }
}

proof fn pieces_of_slash(s: Seq<char>, first: bool)
    ensures
        pieces(s.push('/'), first) == pieces(s, first),
    decreases s.len(),
{
    let slash = seq!['/'];
    assert(s.push('/') =~= s + slash);
    let t = s + slash;
    piece_len_bound(s);
    if s.len() == 0 {
        assert(t =~= slash);
        assert(piece_len(slash) == 0);
        assert(behind_slash(slash) =~= Seq::<char>::empty());
        assert(pieces(Seq::<char>::empty(), false) == Seq::<Seq<char>>::empty());
    } else if piece_len(s) < s.len() {
        piece_len_stops(s, slash);
        let k = piece_len(s) as int;
        assert(t.take(k) =~= s.take(k));
        assert(behind_slash(t) =~= behind_slash(s) + slash);
        assert(behind_slash(s) + slash =~= behind_slash(s).push('/'));
        pieces_of_slash(behind_slash(s), false);
    } else {
        piece_len_reaches(s, slash);
        assert(t.take(s.len() as int) =~= s);
        assert(s.take(s.len() as int) =~= s);
        assert(behind_slash(t) =~= Seq::<char>::empty());
    }
}

/// A path under `root` has the components of `root` and one more.
pub proof fn children_add_a_component(root: Seq<char>, name: Seq<char>)
    requires
        is_name(name),
    ensures
        components(join(root, name)) == components(root).push(name),
        rooted(join(root, name)) == rooted(root),
{
    assert(name.contains(name[0]));
    if root.len() == 0 {
        pieces_of_child(root, name, true);
        assert(root + name =~= name);
    } else {
        let base = if root.last() == '/' {
            root
        } else {
            root.push('/')
        };
        assert(join(root, name)[0] == root[0]);
        if rooted(root) {
            assert(join(root, name).skip(1) =~= base.skip(1) + name);
            pieces_of_child(base.skip(1), name, false);
            if root.last() != '/' {
                assert(base.skip(1) =~= root.skip(1).push('/'));
                pieces_of_slash(root.skip(1), false);
            }
        } else {
            pieces_of_child(base, name, true);
            if root.last() != '/' {
                pieces_of_slash(root, true);
            }
        }
    }
}

/// By what a list of paths is ordered.
pub open spec fn keys(paths: Seq<String>) -> Seq<Seq<int>> {
    paths.map_values(|path: String| key(path@))
}

proof fn keys_count_alike(a: Seq<String>, b: Seq<String>)
    requires
        a.to_multiset() == b.to_multiset(),
    ensures
        a.len() == b.len(),
        keys(a).to_multiset() == keys(b).to_multiset(),
    decreases a.len(),
{
    a.to_multiset_ensures();
    b.to_multiset_ensures();
    if a.len() == 0 {
        assert(a =~= b);
    } else {
        let x = a.last();
        assert(a.contains(a[a.len() - 1]));
        assert(b.to_multiset().count(x) > 0);
        let j = choose|j: int| 0 <= j < b.len() && b[j] == x;
        let (rest, other) = (a.remove(a.len() - 1), b.remove(j));
        vstd::seq_lib::to_multiset_remove(a, a.len() - 1);
        vstd::seq_lib::to_multiset_remove(b, j);
        keys_count_alike(rest, other);
        let (ka, kb) = (keys(a), keys(b));
        assert(ka.remove(a.len() - 1) =~= keys(rest));
        assert(kb.remove(j) =~= keys(other));
        vstd::seq_lib::to_multiset_remove(ka, a.len() - 1);
        vstd::seq_lib::to_multiset_remove(kb, j);
        ka.to_multiset_ensures();
        kb.to_multiset_ensures();
        let k = key(x@);
        assert(ka[a.len() - 1] == k && kb[j] == k);
        assert(ka.contains(k) && kb.contains(k));
        assert(ka.to_multiset() =~= ka.to_multiset().remove(k).insert(k));
        assert(kb.to_multiset() =~= kb.to_multiset().remove(k).insert(k));
    }
}

proof fn one_place(a: Seq<int>, b: Seq<int>)
    requires
        key_le(a, b),
        key_le(b, a),
    ensures
        a == b,
    decreases a.len(),
{
    if a.len() > 0 {
        one_place(a.drop_first(), b.drop_first());
        assert(a =~= seq![a[0]] + a.drop_first());
        assert(b =~= seq![b[0]] + b.drop_first());
    } else {
        assert(a =~= b);
    }
}

/// The order in which files are come by does not matter: the same files sort
/// into the same paths, spelled as they may be.
pub proof fn listing_order_does_not_matter(a: Seq<String>, b: Seq<String>)
    requires
        sorted(a),
        sorted(b),
        a.to_multiset() == b.to_multiset(),
    ensures
        a.len() == b.len(),
        forall|i: int| 0 <= i < a.len() ==> key(#[trigger] a[i]@) == key(b[i]@),
{
    keys_count_alike(a, b);
    let le = |x: Seq<int>, y: Seq<int>| key_le(x, y);
    assert(vstd::relations::total_ordering(le)) by {
        assert forall|x: Seq<int>| #[trigger] le(x, x) by {
            paths_compare(x, x);
        }
        assert forall|x: Seq<int>, y: Seq<int>| #[trigger] le(x, y) && #[trigger] le(y, x) implies x
            == y by {
            one_place(x, y);
        }
        assert forall|x: Seq<int>, y: Seq<int>, z: Seq<int>| #[trigger]
            le(x, y) && #[trigger] le(y, z) implies le(x, z) by {
            path_order_chains(x, y, z);
        }
        assert forall|x: Seq<int>, y: Seq<int>| #[trigger] le(x, y) || #[trigger] le(y, x) by {
            paths_compare(x, y);
        }
    }
    let (ka, kb) = (keys(a), keys(b));
    assert forall|i: int, j: int| 0 <= i < j < ka.len() implies #[trigger] le(ka[i], ka[j]) by {
        assert(path_le(a[i]@, a[j]@));
    }
    assert forall|i: int, j: int| 0 <= i < j < kb.len() implies #[trigger] le(kb[i], kb[j]) by {
        assert(path_le(b[i]@, b[j]@));
    }
    vstd::seq_lib::lemma_sorted_unique(ka, kb, le);
    assert forall|i: int| 0 <= i < a.len() implies key(#[trigger] a[i]@) == key(b[i]@) by {
        assert(ka[i] == kb[i]);
    }
}

/// A slash parts a path: the components of what is before it come first, then
/// those of what is behind it, where a dot no longer counts.
pub proof fn slashes_part_components(s: Seq<char>, t: Seq<char>)
    ensures
        components(s.push('/') + t) == components(s) + pieces(t, false),
        rooted(s.push('/') + t) == (s.len() == 0 || rooted(s)),
{
    let all = s.push('/') + t;
    if s.len() == 0 {
        assert(all.skip(1) =~= t);
        assert(components(s) + pieces(t, false) =~= pieces(t, false));
    } else {
        assert(all[0] == s[0]);
        if rooted(s) {
            assert(all.skip(1) =~= s.skip(1).push('/') + t);
            slashes_part_pieces(s.skip(1), t, false);
        } else {
            slashes_part_pieces(s, t, true);
        }
    }
}

proof fn slashes_part_pieces(s: Seq<char>, t: Seq<char>, first: bool)
    ensures
        pieces(s.push('/') + t, first) == pieces(s, first) + pieces(t, false),
    decreases s.len(),
{
    let tail = seq!['/'] + t;
    let all = s + tail;
    assert(s.push('/') + t =~= all);
    piece_len_bound(s);
    if s.len() == 0 {
        assert(all =~= tail);
        assert(piece_len(tail) == 0);
        assert(tail.take(0).len() == 0);
        assert(behind_slash(tail) =~= t);
        assert(pieces(s, first) + pieces(t, false) =~= pieces(t, false));
    } else if piece_len(s) < s.len() {
        piece_len_stops(s, tail);
        let k = piece_len(s) as int;
        assert(all.take(k) =~= s.take(k));
        assert(behind_slash(all) =~= behind_slash(s).push('/') + t);
        slashes_part_pieces(behind_slash(s), t, false);
        assert(pieces(all, first) =~= pieces(s, first) + pieces(t, false));
    } else {
        piece_len_reaches(s, tail);
        assert(all.take(s.len() as int) =~= s);
        assert(s.take(s.len() as int) =~= s);
        assert(behind_slash(all) =~= t);
        assert(pieces(Seq::<char>::empty(), false) == Seq::<Seq<char>>::empty());
        assert(pieces(all, first) =~= pieces(s, first) + pieces(t, false));
    }
}

/// What has no slash in it is one component, unless it is empty, or a dot behind
/// another component.
pub proof fn a_name_is_one_component(name: Seq<char>, first: bool)
    requires
        !name.contains('/'),
    ensures
        name.len() > 0 && (first || name != seq!['.']) ==> pieces(name, first) == seq![name],
        name.len() == 0 || (!first && name == seq!['.']) ==> pieces(name, first) == Seq::<
            Seq<char>,
        >::empty(),
{
    piece_len_runs(name);
    if name.len() > 0 {
        assert(name.take(name.len() as int) =~= name);
        assert(behind_slash(name) == Seq::<char>::empty());
        assert(pieces(Seq::<char>::empty(), false) == Seq::<Seq<char>>::empty());
        if counts(name, first) {
            assert(pieces(name, first) =~= seq![name]);
        }
    }
}

proof fn last_dot_is(a: Seq<char>, b: Seq<char>)
    requires
        !b.contains('.'),
    ensures
        last_dot(a.push('.') + b) == a.len(),
        last_dot(b) == -1,
    decreases b.len(),
{
    if b.len() > 0 {
        let rest = b.drop_last();
        assert(b.contains(b[b.len() - 1]));
        assert forall|i: int| 0 <= i < rest.len() implies rest[i] != '.' by {
            assert(b.contains(b[i]));
        }
        last_dot_is(a, rest);
        assert((a.push('.') + b).drop_last() =~= a.push('.') + rest);
        assert((a.push('.') + b).last() == b.last());
    } else {
        assert((a.push('.') + b).last() == '.');
    }
}

/// The extension of a file is what follows the last dot of its name, unless the
/// name starts with that dot or has none.
pub proof fn extensions_follow_the_last_dot(
    path: Seq<char>,
    stem: Seq<char>,
    ext: Seq<char>,
)
    requires
        !ext.contains('.'),
    ensures
        file_name(path) == Some(stem.push('.') + ext) ==> extension(path) == if stem.len() > 0 {
            Some(ext)
        } else {
            None
        },
        file_name(path) == Some(ext) ==> extension(path) is None,
        file_name(path) is None ==> extension(path) is None,
{
    last_dot_is(stem, ext);
    let name = stem.push('.') + ext;
    assert(name.skip(stem.len() as int + 1) =~= ext);
}

/// The name of a file is its last component, and a path that ends nowhere in
/// particular names none.
pub proof fn files_are_named_by_their_last_component(root: Seq<char>, name: Seq<char>)
    ensures
        is_name(name) ==> file_name(join(root, name)) == Some(name),
        file_name(Seq::empty()) is None,
        file_name(root.push('/') + seq!['.', '.']) is None,
{
    if is_name(name) {
        children_add_a_component(root, name);
        assert(components(root).push(name).last() == name);
    }
    let up = seq!['.', '.'];
    assert(!up.contains('/'));
    assert(up != seq!['.']) by {
        assert(up.len() != seq!['.'].len());
    }
    a_name_is_one_component(up, false);
    slashes_part_components(root, up);
    assert((components(root) + seq![up]).last() == up);
}

/// `a` comes before `b` in the dictionary, or is the same.
pub open spec fn in_order(a: Seq<char>, b: Seq<char>) -> bool {
    exists|i: int|
        {
            &&& 0 <= i <= a.len()
            &&& i <= b.len()
            &&& #[trigger] a.take(i) == b.take(i)
            &&& i == a.len() || (i < b.len() && a[i] < b[i])
        }
}

proof fn ranks_are_in_order(a: Seq<char>, b: Seq<char>)
    ensures
        key_le(name_ranks(a), name_ranks(b)) <==> in_order(a, b),
    decreases a.len(),
{
    if a.len() == 0 {
        assert(a.take(0) =~= b.take(0));
    } else if b.len() == 0 {
        if in_order(a, b) {
            let i = choose|i: int|
                {
                    &&& 0 <= i <= a.len()
                    &&& i <= b.len()
                    &&& #[trigger] a.take(i) == b.take(i)
                    &&& i == a.len() || (i < b.len() && a[i] < b[i])
                };
            assert(false);
        }
    } else {
        let (x, y) = (a.drop_first(), b.drop_first());
        ranks_are_in_order(x, y);
        assert(name_ranks(a).drop_first() =~= name_ranks(x));
        assert(name_ranks(b).drop_first() =~= name_ranks(y));
        if a[0] < b[0] {
            assert(a.take(0) =~= b.take(0));
        } else if a[0] == b[0] {
            if in_order(x, y) {
                let i = choose|i: int|
                    {
                        &&& 0 <= i <= x.len()
                        &&& i <= y.len()
                        &&& #[trigger] x.take(i) == y.take(i)
                        &&& i == x.len() || (i < y.len() && x[i] < y[i])
                    };
                assert forall|k: int| 0 <= k < i + 1 implies a[k] == b[k] by {
                    if k > 0 {
                        assert(x.take(i)[k - 1] == y.take(i)[k - 1]);
                    }
                }
                assert(a.take(i + 1) =~= b.take(i + 1));
            }
            if in_order(a, b) {
                let i = choose|i: int|
                    {
                        &&& 0 <= i <= a.len()
                        &&& i <= b.len()
                        &&& #[trigger] a.take(i) == b.take(i)
                        &&& i == a.len() || (i < b.len() && a[i] < b[i])
                    };
                assert forall|k: int| 0 <= k < i - 1 implies x[k] == y[k] by {
                    assert(a.take(i)[k + 1] == b.take(i)[k + 1]);
                }
                assert(x.take(i - 1) =~= y.take(i - 1));
            }
        } else if in_order(a, b) {
            let i = choose|i: int|
                {
                    &&& 0 <= i <= a.len()
                    &&& i <= b.len()
                    &&& #[trigger] a.take(i) == b.take(i)
                    &&& i == a.len() || (i < b.len() && a[i] < b[i])
                };
            if i > 0 {
                assert(a.take(i)[0] == b.take(i)[0]);
            }
        }
    }
}

proof fn same_lead(x: Seq<int>, a: Seq<int>, b: Seq<int>)
    ensures
        key_le(x + a, x + b) == key_le(a, b),
    decreases x.len(),
{
    if x.len() == 0 {
        assert(x + a =~= a);
        assert(x + b =~= b);
    } else {
        assert((x + a).drop_first() =~= x.drop_first() + a);
        assert((x + b).drop_first() =~= x.drop_first() + b);
        same_lead(x.drop_first(), a, b);
    }
}

proof fn key_of_child(root: Seq<char>, name: Seq<char>)
    requires
        is_name(name),
    ensures
        key(join(root, name)) == key(root) + (seq![4int] + name_ranks(name)),
{
    children_add_a_component(root, name);
    let all = components(root);
    assert(all.push(name).drop_last() =~= all);
    assert(all.push(name).last() == name);
    assert(key(join(root, name)) =~= key(root) + (seq![4int] + name_ranks(name)));
}

proof fn ranks_are_above(c: char)
    ensures
        c as int >= 0,
{
}

proof fn folder_before(a: Seq<char>, b: Seq<char>, rest: Seq<int>)
    requires
        in_order(a, b),
        a != b,
    ensures
        key_le(name_ranks(a) + (seq![4int] + rest), name_ranks(b)),
    decreases a.len(),
{
    let i = choose|i: int|
        {
            &&& 0 <= i <= a.len()
            &&& i <= b.len()
            &&& #[trigger] a.take(i) == b.take(i)
            &&& i == a.len() || (i < b.len() && a[i] < b[i])
        };
    let (ra, rb) = (name_ranks(a) + (seq![4int] + rest), name_ranks(b));
    if i == a.len() && i == b.len() {
        assert(a.take(i) =~= a);
        assert(b.take(i) =~= b);
    } else {
        let lead = name_ranks(a.take(i));
        assert forall|k: int| 0 <= k < i implies a[k] == b[k] by {
            assert(a.take(i)[k] == b.take(i)[k]);
        }
        assert(ra =~= lead + ra.skip(i));
        assert(rb =~= lead + rb.skip(i));
        same_lead(lead, ra.skip(i), rb.skip(i));
        assert(rb.skip(i)[0] == b[i] as int + 5);
        assert(ra.skip(i)[0] == if i < a.len() {
            a[i] as int + 5
        } else {
            4
        });
        ranks_are_above(b[i]);
        assert(key_le(ra.skip(i), rb.skip(i)));
        assert(key_le(lead + ra.skip(i), lead + rb.skip(i)));
    }
}

/// Files of one directory are ordered as their names are in the dictionary, and
/// each of them comes behind the directory. What is in a directory comes before
/// every sibling that the directory itself comes before.
pub proof fn paths_are_ordered_by_their_names(
    root: Seq<char>,
    a: Seq<char>,
    b: Seq<char>,
    x: Seq<char>,
)
    requires
        is_name(a),
        is_name(b),
        is_name(x),
    ensures
        path_le(join(root, a), join(root, b)) <==> in_order(a, b),
        path_le(root, join(root, a)),
        !path_le(join(root, a), root),
        in_order(a, b) && a != b ==> path_le(join(join(root, a), x), join(root, b)),
{
    key_of_child(root, a);
    key_of_child(root, b);
    key_of_child(join(root, a), x);
    let k = key(root);
    let four = seq![4int];
    let (ra, rb, rx) = (name_ranks(a), name_ranks(b), name_ranks(x));
    same_lead(k, four + ra, four + rb);
    same_lead(four, ra, rb);
    ranks_are_in_order(a, b);
    let none = Seq::<int>::empty();
    assert(k + none =~= k);
    same_lead(k, none, four + ra);
    same_lead(k, four + ra, none);
    if in_order(a, b) && a != b {
        folder_before(a, b, rx);
        let deep = ra + (four + rx);
        assert(key(join(join(root, a), x)) =~= k + (four + deep));
        same_lead(k, four + deep, four + rb);
        same_lead(four, deep, rb);
    }
}

/// Sorting puts the same paths in their order.
pub proof fn sorting_keeps_the_paths(paths: Vec<String>, out: Vec<String>, i: int, j: int)
    requires
        call_ensures(sort, (paths,), out),
        0 <= i < j < out@.len(),
    ensures
        out@.to_multiset() == paths@.to_multiset(),
        path_le(out@[i]@, out@[j]@),
{
}

/// A name under a directory is written behind it, with one slash between them,
/// unless the directory ends in one or is nowhere.
pub proof fn names_are_written_behind_their_directories(root: &str, name: &str, r: String)
    requires
        call_ensures(joined, (root, name), r),
    ensures
        ({
            let n = r@.len() - name@.len();
            &&& r@.skip(n) == name@
            &&& r@.take(root@.len() as int) == root@
            &&& n == root@.len() || (n == root@.len() + 1 && r@[n - 1] == '/' && root@.last() != '/')
            &&& root@.len() > 0 ==> r@[n - 1] == '/'
        }),
{
    let n = r@.len() - name@.len();
    assert(r@.skip(n) =~= name@);
    assert(r@.take(root@.len() as int) =~= root@);
}

proof fn key_of_first(all: Seq<Seq<char>>)
    requires
        all.len() > 0,
    ensures
        pieces_key(all) == piece_key(all[0]) + pieces_key(all.drop_first()),
    decreases all.len(),
{
    if all.len() == 1 {
        assert(all.drop_last() =~= Seq::<Seq<char>>::empty());
        assert(all.drop_first() =~= Seq::<Seq<char>>::empty());
        assert(pieces_key(all.drop_last()) == Seq::<int>::empty());
        assert(pieces_key(all) =~= piece_key(all[0]) + pieces_key(all.drop_first()));
    } else {
        let rest = all.drop_last();
        key_of_first(rest);
        assert(rest.drop_first() =~= all.drop_first().drop_last());
        assert(all.drop_first().last() == all.last());
        assert(pieces_key(all) =~= piece_key(all[0]) + pieces_key(all.drop_first()));
    }
}

/// The kind of a component, by which it is ordered before its name: the directory
/// itself, the one above it, then the names.
pub open spec fn component_kind(piece: Seq<char>) -> int {
    if piece == seq!['.'] {
        0
    } else if piece == seq!['.', '.'] {
        1
    } else {
        2
    }
}

/// Paths from the root come before all others, and those before nothing at all;
/// the others are ordered by the kind of their first component, where those differ.
pub proof fn paths_from_the_root_come_first(a: Seq<char>, b: Seq<char>)
    ensures
        rooted(a) && !rooted(b) && components(b).len() > 0 ==> path_le(a, b) && !path_le(b, a),
        !rooted(b) && components(b).len() == 0 ==> path_le(b, a),
        !rooted(a) && !rooted(b) && components(a).len() > 0 && components(b).len() > 0
            && component_kind(components(a)[0]) < component_kind(components(b)[0]) ==> path_le(
            a,
            b,
        ) && !path_le(b, a),
{
    let (x, y) = (components(a), components(b));
    if y.len() > 0 {
        key_of_first(y);
        assert(pieces_key(y)[0] == piece_key(y[0])[0]);
    }
    if x.len() > 0 {
        key_of_first(x);
        assert(pieces_key(x)[0] == piece_key(x[0])[0]);
    }
    assert(piece_key(seq!['.'])[0] == 2);
    if rooted(a) {
        assert(key(a)[0] == 1);
    }
}

} // verus!
