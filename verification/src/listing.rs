//! Which secrets a tree holds.

use vstd::prelude::*;

use crate::path;
use crate::text;
use crate::text::{
    begins_with, from_chars, is_before, split_chars, to_chars,
};
use crate::tree;
use crate::tree::{Files, Tree};

verus! {

/// Whether a listing shows a path: its last segment is not empty, and none of its
/// directories is hidden, that is, starts with a dot.
pub open spec fn visible(p: Seq<char>) -> bool {
    let segs = text::pieces(p, '/');
    &&& segs.last().len() > 0
    &&& forall|i: int|
        0 <= i < segs.len() - 1 ==> !((#[trigger] segs[i]).len() > 0 && segs[i][0] == '.')
}

/// Whether the files below `root` hold a secret at `p`. Links are passed over.
pub open spec fn listed(files: Files, root: Seq<char>, p: Seq<char>) -> bool {
    &&& files.contains_key(path::file_of(root, p))
    &&& !files[path::file_of(root, p)].linked
    &&& visible(p)
}

/// Whether `ps` are the paths of the secrets below `root`, in ascending order.
pub open spec fn is_walk(ps: Seq<Seq<char>>, files: Files, root: Seq<char>) -> bool {
    &&& text::ascending(ps)
    &&& forall|p: Seq<char>| #[trigger] ps.contains(p) <==> listed(files, root, p)
}

/// The paths of the secrets below `root`, in ascending order.
pub open spec fn walked(files: Files, root: Seq<char>) -> Seq<Seq<char>> {
    choose|ps: Seq<Seq<char>>| #[trigger] is_walk(ps, files, root)
}

/// There is one such sequence.
pub proof fn lemma_walked_is(ps: Seq<Seq<char>>, files: Files, root: Seq<char>)
    requires
        is_walk(ps, files, root),
    ensures
        walked(files, root) == ps,
{
    let other = walked(files, root);
    assert(is_walk(other, files, root));
    assert forall|k: Seq<char>| other.contains(k) <==> #[trigger] ps.contains(k) by {
        assert(listed(files, root, k) <==> other.contains(k));
    }
    text::lemma_ascending_unique(other, ps);
}

fn is_visible(p: &[char]) -> (r: bool)
    ensures
        r == visible(p@),
{
    proof {
        text::lemma_pieces_nonempty(p@, '/');
    }
    let segs = split_chars(p, '/');
    let last: usize = segs.len() - 1;
    assert(segs@[last as int]@ == text::pieces(p@, '/').last());
    if segs[last].len() == 0 {
        return false;
    }
    for i in 0..last
        invariant
            last == segs@.len() - 1,
            segs@.len() == text::pieces(p@, '/').len(),
            forall|j: int| 0 <= j < segs@.len() ==> #[trigger] segs@[j]@ == text::pieces(p@, '/')[j],
            forall|j: int|
                0 <= j < i ==> !((#[trigger] text::pieces(p@, '/')[j]).len() > 0 && text::pieces(
                    p@,
                    '/',
                )[j][0] == '.'),
    {
        let seg = &segs[i];
        assert(seg@ == text::pieces(p@, '/')[i as int]);
        if seg.len() > 0 && seg[0] == '.' {
            return false;
        }
    }
    true
}

/// The logical path whose file below `root` has the name, if it has one.
pub open spec fn path_of_file(root: Seq<char>, name: Seq<char>) -> Option<Seq<char>> {
    if root.is_prefix_of(name) && name.len() >= root.len() + 4 && name.skip(name.len() - 4)
        == path::extension() {
        Some(name.subrange(root.len() as int, name.len() - 4))
    } else {
        None
    }
}

proof fn lemma_path_of_file(root: Seq<char>, name: Seq<char>)
    ensures
        path_of_file(root, name) matches Some(p) ==> path::file_of(root, p) == name,
        forall|p: Seq<char>|
            #[trigger] path::file_of(root, p) == name ==> path_of_file(root, name) == Some(p),
{
    if let Some(p) = path_of_file(root, name) {
        assert(path::file_of(root, p) =~= name);
    }
    assert forall|p: Seq<char>| #[trigger] path::file_of(root, p) == name implies path_of_file(
        root,
        name,
    ) == Some(p) by {
        assert(root =~= name.subrange(0, root.len() as int));
        assert(name.skip(name.len() - 4) =~= path::extension());
        assert(p =~= name.subrange(root.len() as int, name.len() - 4));
    }
}

/// The logical path of a file below `root`.
pub fn from_file(root: &str, name: &str) -> (r: Option<String>)
    ensures
        match path_of_file(root@, name@) {
            Some(p) => r matches Some(x) && x@ == p,
            None => r is None,
        },
{
    let rc = to_chars(root);
    let nc = to_chars(name);
    if nc.len() < 4 || nc.len() - 4 < rc.len() || !begins_with(nc.as_slice(), rc.as_slice()) {
        return None;
    }
    let n: usize = nc.len();
    let ghost end = name@.skip(n - 4);
    if nc[n - 4] == '.' && nc[n - 3] == 'a' && nc[n - 2] == 'g' && nc[n - 1] == 'e' {
        assert(end =~= path::extension());
        Some(from_chars(vstd::slice::slice_subrange(nc.as_slice(), rc.len(), n - 4)))
    } else {
        assert(end[0] == nc@[n - 4]);
        assert(end[1] == nc@[n - 3]);
        assert(end[2] == nc@[n - 2]);
        assert(end[3] == nc@[n - 1]);
        None
    }
}

/// Puts a text where it belongs in an ascending list that does not hold it.
fn insert_sorted(list: &mut Vec<String>, s: String)
    requires
        text::ascending(text::views(old(list)@)),
        !text::views(old(list)@).contains(s@),
    ensures
        text::ascending(text::views(final(list)@)),
        forall|x: Seq<char>| #[trigger]
            text::views(final(list)@).contains(x) <==> x == s@ || text::views(
                old(list)@,
            ).contains(x),
{
    let ghost keys = text::views(list@);
    let mut at: usize = 0;
    while at < list.len() && is_before(list[at].as_str(), s.as_str())
        invariant
            at <= list@.len(),
            keys == text::views(list@),
            forall|j: int| 0 <= j < at ==> text::text_before(#[trigger] keys[j], s@),
        decreases list@.len() - at,
    {
        assert(keys[at as int] == list@[at as int]@);
        at = at + 1;
    }
    let ghost name = s@;
    proof {
        assert forall|j: int| at <= j < keys.len() implies text::text_before(
            name,
            #[trigger] keys[j],
        ) by {
            assert(keys[at as int] == list@[at as int]@);
            text::lemma_text_before_total(name, keys[at as int]);
            assert(keys.contains(keys[at as int]));
            if j > at {
                assert(text::text_before(keys[at as int], keys[j]));
                text::lemma_text_before_transitive(name, keys[at as int], keys[j]);
            }
        }
        text::lemma_ascending_insert(keys, at as int, name);
    }
    list.insert(at, s);
    assert(text::views(list@) =~= keys.insert(at as int, name));
}

/// Finitely many files have such a sequence.
pub proof fn lemma_walk_exists(files: Files, root: Seq<char>)
    requires
        files.dom().finite(),
    ensures
        is_walk(walked(files, root), files, root),
    decreases files.dom().len(),
{
    if files.dom().len() == 0 {
        let none: Seq<Seq<char>> = Seq::empty();
        assert forall|p: Seq<char>| #[trigger] none.contains(p) <==> listed(files, root, p) by {
            if listed(files, root, p) {
                assert(files.dom().contains(path::file_of(root, p)));
            }
        }
        assert(is_walk(none, files, root));
    } else {
        let n = files.dom().choose();
        assert(files.contains_key(n));
        let rest = files.remove(n);
        lemma_walk_exists(rest, root);
        let ps = walked(rest, root);
        lemma_path_of_file(root, n);
        let new = path_of_file(root, n);
        if new is Some && listed(files, root, new->0) {
            let k = new->0;
            let at = text::lemma_insertion_point(ps, k);
            assert(!ps.contains(k)) by {
                if ps.contains(k) {
                    assert(listed(rest, root, k));
                }
            }
            assert forall|j: int| at <= j < ps.len() implies text::text_before(
                k,
                #[trigger] ps[j],
            ) by {
                assert(ps.contains(ps[j]));
            }
            text::lemma_ascending_insert(ps, at, k);
            let more = ps.insert(at, k);
            assert forall|p: Seq<char>| #[trigger] more.contains(p) <==> listed(files, root, p) by {
                if p != k {
                    assert(ps.contains(p) <==> listed(rest, root, p));
                }
            }
            assert(is_walk(more, files, root));
        } else {
            assert forall|p: Seq<char>| #[trigger] ps.contains(p) <==> listed(files, root, p) by {
                assert(ps.contains(p) <==> listed(rest, root, p));
            }
            assert(is_walk(ps, files, root));
        }
    }
}

/// Lists the secrets below `root`, in ascending order of their paths.
pub fn walk(t: &Tree, root: &str) -> (r: Vec<String>)
    requires
        t.wf(),
    ensures
        text::views(r@) == walked(t.files(), root@),
        is_walk(text::views(r@), t.files(), root@),
{
    let mut out: Vec<String> = Vec::new();
    let count: usize = t.len();
    let ghost files = t.files();
    assert(text::views(out@) =~= Seq::empty());
    for i in 0..count
        invariant
            t.wf(),
            files == t.files(),
            count == t.names().len(),
            text::ascending(text::views(out@)),
            forall|p: Seq<char>| #[trigger]
                text::views(out@).contains(p) ==> listed(files, root@, p) && t.names().take(
                    i as int,
                ).contains(path::file_of(root@, p)),
            forall|p: Seq<char>|
                listed(files, root@, p) && t.names().take(i as int).contains(
                    #[trigger] path::file_of(root@, p),
                ) ==> text::views(out@).contains(p),
    {
        let (name, linked) = t.entry(i);
        let ghost before = text::views(out@);
        let ghost names = t.names();
        proof {
            lemma_path_of_file(root@, name@);
            assert(names.take(i + 1) =~= names.take(i as int).push(name@));
            assert(!names.take(i as int).contains(name@)) by {
                t.lemma_distinct(i as int);
            }
            assert forall|x: Seq<char>| names.take(i + 1).contains(x) <==> x == name@
                || #[trigger] names.take(i as int).contains(x) by {
                if names.take(i as int).contains(x) {
                    let j = names.take(i as int).index_of(x);
                    assert(names.take(i + 1)[j] == x);
                }
                if x == name@ {
                    assert(names.take(i + 1)[i as int] == x);
                }
                if names.take(i + 1).contains(x) {
                    let j = names.take(i + 1).index_of(x);
                    assert(names.take(i + 1)[j] == x);
                    if j < i {
                        assert(names.take(i as int)[j] == x);
                    }
                }
            }
        }
        if !linked {
            if let Some(p) = from_file(root, name) {
                let cs = to_chars(p.as_str());
                if is_visible(cs.as_slice()) {
                    assert(listed(files, root@, p@));
                    let ghost q = p@;
                    insert_sorted(&mut out, p);
                    assert(path::file_of(root@, q) == name@);
                    assert forall|x: Seq<char>| #[trigger] text::views(out@).contains(x) implies listed(
                        files,
                        root@,
                        x,
                    ) && names.take(i + 1).contains(path::file_of(root@, x)) by {
                        if x != q {
                            assert(before.contains(x));
                        }
                    }
                }
            }
        }
        assert forall|p: Seq<char>|
            listed(files, root@, p) && names.take(i + 1).contains(
                #[trigger] path::file_of(root@, p),
            ) implies text::views(out@).contains(p) by {
            if path::file_of(root@, p) != name@ {
                assert(names.take(i as int).contains(path::file_of(root@, p)));
                assert(before.contains(p));
            }
        }
    }
    proof {
        assert(t.names().take(count as int) =~= t.names());
        t.lemma_names();
        assert forall|p: Seq<char>| #[trigger] text::views(out@).contains(p) <==> listed(
            files,
            root@,
            p,
        ) by {
            if listed(files, root@, p) {
                assert(t.names().contains(path::file_of(root@, p)));
            }
        }
        lemma_walked_is(text::views(out@), files, root@);
    }
    out
}

/// A path without a slash is shown unless it is empty; one with a slash is shown exactly
/// if what stands before its first slash does not begin with a dot, and what stands
/// behind it is shown.
pub proof fn law_visible(a: Seq<char>, b: Seq<char>)
    requires
        !a.contains('/'),
    ensures
        visible(a) <==> a.len() > 0,
        visible(a + seq!['/'] + b) <==> !(a.len() > 0 && a[0] == '.') && visible(b),
{
    text::lemma_pieces_single(a, '/');
    text::lemma_pieces_concat(a, b, '/');
    text::lemma_pieces_nonempty(b, '/');
    let x = text::pieces(a, '/');
    let y = text::pieces(b, '/');
    let z = text::pieces(a + seq!['/'] + b, '/');
    assert(z == x + y);
    assert(z.last() == y.last());
    assert(z[0] == a);
    if visible(a + seq!['/'] + b) {
        assert forall|i: int| 0 <= i < y.len() - 1 implies !((#[trigger] y[i]).len() > 0 && y[i][0]
            == '.') by {
            assert(z[i + 1] == y[i]);
        }
    }
    if !(a.len() > 0 && a[0] == '.') && visible(b) {
        assert forall|i: int| 0 <= i < z.len() - 1 implies !((#[trigger] z[i]).len() > 0 && z[i][0]
            == '.') by {
            if i > 0 {
                assert(z[i] == y[i - 1]);
            }
        }
    }
}

/// A file below a root stands for a path exactly if its name is the root, the path and the
/// extension `.age`.
pub proof fn law_path_of_file(root: Seq<char>, name: Seq<char>, p: Seq<char>)
    ensures
        path_of_file(root, name) == Some(p) <==> name == root + p + ".age"@,
{
    path::law_file_name(root, p);
    lemma_path_of_file(root, name);
}

} // verus!
