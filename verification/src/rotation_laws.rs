//! What holds of changes of the recipients, also of those that are interrupted.
//!
//! A rotation makes its changes one after the other. If it is interrupted, some
//! first part of them has been made; the laws say what resolving the interruption
//! then leads to.

use vstd::prelude::*;

use crate::crypto;
use crate::crypto::Recipient;
use crate::envelope;
use crate::error::Failure;
use crate::generations::GENERATIONS_FILE;
use crate::health;
use crate::laws;
use crate::listing;
use crate::move_laws;
use crate::moves;
use crate::path;
use crate::recipients;
use crate::recipients::RECIPIENTS_FILE;
use crate::rotation;
use crate::rotation::{
    RotationRecovery, ROTATE_DIR, ROTATE_READY, ROTATE_RECIPIENTS, ROTATE_SECRETS,
};
use crate::secret::Payload;
use crate::secrets;
use crate::text;
use crate::tree;
use crate::tree::{Effect, Files};

verus! {

/// The names of a rotation's journal.
proof fn lemma_rotate_names(p: Seq<char>)
    ensures
        tree::inside(ROTATE_DIR@, ROTATE_RECIPIENTS@),
        tree::inside(ROTATE_DIR@, ROTATE_READY@),
        tree::inside(ROTATE_DIR@, rotation::staged_file(p)),
        !tree::inside(ROTATE_DIR@, GENERATIONS_FILE@),
        !tree::inside(ROTATE_DIR@, RECIPIENTS_FILE@),
        RECIPIENTS_FILE@ != GENERATIONS_FILE@,
        RECIPIENTS_FILE@ != ROTATE_DIR@,
        ROTATE_RECIPIENTS@ != ROTATE_READY@,
        rotation::staged_file(p) != ROTATE_RECIPIENTS@,
        rotation::staged_file(p) != ROTATE_READY@,
        !tree::inside(ROTATE_READY@, ROTATE_RECIPIENTS@),
        !tree::inside(ROTATE_READY@, ROTATE_READY@),
        !tree::inside(ROTATE_READY@, rotation::staged_file(p)),
        !ROTATE_DIR@.contains('/'),
        ROTATE_DIR@.len() > 0,
        ROTATE_DIR@[0] == '.',
        secrets::live_file(p) != ROTATE_DIR@,
        ROTATE_DIR@.len() >= 4,
        ROTATE_DIR@.skip(ROTATE_DIR@.len() - 4) != path::extension(),
        !RECIPIENTS_FILE@.contains('/'),
        RECIPIENTS_FILE@.len() > 0,
        RECIPIENTS_FILE@[0] == '.',
{
    reveal_strlit(".ks-rotate");
    reveal_strlit(".ks-rotate/RECIPIENTS");
    reveal_strlit(".ks-rotate/READY");
    reveal_strlit(".ks-rotate/secrets/");
    reveal_strlit(".ks-generations");
    reveal_strlit(".age-recipients");
    let d = ROTATE_DIR@ + seq!['/'];
    let staged = rotation::staged_file(p);
    assert(ROTATE_RECIPIENTS@.subrange(0, 11) =~= d);
    assert(ROTATE_READY@.subrange(0, 11) =~= d);
    assert(staged.subrange(0, 11) =~= d);
    assert(GENERATIONS_FILE@.subrange(0, 11)[4] != d[4]);
    assert(RECIPIENTS_FILE@.subrange(0, 11)[4] != d[4]);
    assert(RECIPIENTS_FILE@[1] != GENERATIONS_FILE@[1]);
    assert(staged[11] == 's');
    assert(ROTATE_RECIPIENTS@[12] == 'E' && ROTATE_RECIPIENTS@[13] == 'C');
    assert(ROTATE_READY@[12] == 'E' && ROTATE_READY@[13] == 'A');
    let ready = ROTATE_READY@ + seq!['/'];
    assert(ready[11] == 'R' && ready[13] == 'A');
    move_laws::lemma_prefix_index(ready, ROTATE_RECIPIENTS@, 13);
    move_laws::lemma_prefix_index(ready, staged, 11);
    let live = secrets::live_file(p);
    assert(live.skip(live.len() - 4) =~= path::extension());
    assert(ROTATE_DIR@.skip(6)[0] == 't');
}

/// What a rotation is about: the secrets, their new ciphertexts and the recipients.
#[verifier::ext_equal]
pub struct Rotation {
    pub paths: Seq<Seq<char>>,
    pub cts: Seq<Seq<u8>>,
    pub list: Seq<Seq<char>>,
}

/// Whether a name is the file of one of the first `j` secrets.
pub open spec fn is_rotated(r: Rotation, j: int, n: Seq<char>) -> bool {
    exists|i: int| 0 <= i < j && n == secrets::live_file(#[trigger] r.paths[i])
}

/// The files after a rotation: new ciphertexts, new recipient list.
pub open spec fn after_rotation(files: Files, r: Rotation) -> Files {
    Map::new(
        |n: Seq<char>| files.contains_key(n) || n == RECIPIENTS_FILE@,
        |n: Seq<char>|
            if n == RECIPIENTS_FILE@ {
                tree::plain(recipients::recipients_body(r.list))
            } else if is_rotated(r, r.paths.len() as int, n) {
                let i = choose|i: int|
                    0 <= i < r.paths.len() && n == secrets::live_file(#[trigger] r.paths[i]);
                tree::plain(r.cts[i])
            } else {
                files[n]
            },
    )
}

/// What is the same for every rotation: the secrets are those of the tree, with
/// valid paths; the recipients are well-formed; nothing is staged before; and no file
/// stands in the way of another or of the recipient list.
#[verifier::opaque]
pub open spec fn sound(files: Files, r: Rotation, key: Seq<u8>) -> bool {
    &&& listing::is_walk(r.paths, files, secrets::top())
    &&& r.cts.len() == r.paths.len()
    &&& forall|i: int| 0 <= i < r.paths.len() ==> path::valid_path(#[trigger] r.paths[i])
    &&& forall|i: int|
        0 <= i < r.paths.len() ==> rotation::rotates(
            files,
            #[trigger] r.paths[i],
            key,
            r.list,
            r.cts[i],
        )
    &&& r.list.len() > 0
    &&& forall|i: int| 0 <= i < r.list.len() ==> Recipient::canonical(#[trigger] r.list[i])
    &&& laws::belongs(key, r.list)
    &&& !tree::present(files, ROTATE_DIR@)
    &&& tree::coherent(files)
    &&& !tree::has_dir(files, RECIPIENTS_FILE@)
}

/// Whether a tree stands in the middle of a rotation that is committed, with the
/// first `j` ciphertexts in place.
#[verifier::opaque]
pub open spec fn midway(x: Files, files: Files, r: Rotation, j: int) -> bool {
    &&& 0 <= j <= r.paths.len()
    &&& x.contains_key(ROTATE_RECIPIENTS@)
    &&& x[ROTATE_RECIPIENTS@] == tree::plain(recipients::recipients_body(r.list))
    &&& x.contains_key(ROTATE_READY@)
    &&& forall|i: int|
        #![trigger r.paths[i]]
        j <= i < r.paths.len() ==> x.contains_key(rotation::staged_file(r.paths[i]))
            && x[rotation::staged_file(r.paths[i])] == tree::plain(r.cts[i])
    &&& forall|i: int|
        #![trigger r.paths[i]]
        0 <= i < j ==> x.contains_key(secrets::live_file(r.paths[i])) && x[secrets::live_file(
            r.paths[i],
        )] == tree::plain(r.cts[i])
    &&& forall|n: Seq<char>| #[trigger]
        x.contains_key(n) && tree::inside(ROTATE_DIR@, n) ==> n == ROTATE_RECIPIENTS@ || n
            == ROTATE_READY@ || exists|i: int|
            j <= i < r.paths.len() && n == rotation::staged_file(#[trigger] r.paths[i])
    &&& forall|n: Seq<char>|
        !tree::inside(ROTATE_DIR@, n) && n != RECIPIENTS_FILE@ ==> (#[trigger] x.contains_key(n)
            <==> files.contains_key(n)) && (!is_rotated(r, j, n) ==> x[n] == files[n])
}

/// Of every secret: it is listed, its file is outside the staging directory, and
/// is not the recipient list or the index.
proof fn lemma_sound_path(files: Files, r: Rotation, key: Seq<u8>, i: int)
    requires
        sound(files, r, key),
        0 <= i < r.paths.len(),
    ensures
        listing::listed(files, secrets::top(), r.paths[i]),
        files.contains_key(secrets::live_file(r.paths[i])),
        !tree::inside(ROTATE_DIR@, secrets::live_file(r.paths[i])),
        secrets::live_file(r.paths[i]) != RECIPIENTS_FILE@,
        secrets::live_file(r.paths[i]) != GENERATIONS_FILE@,
        listing::visible(r.paths[i]),
{
    reveal(sound);
    let p = r.paths[i];
    assert(r.paths.contains(p));
    lemma_rotate_names(p);
    rotation::lemma_visible_not_hidden(ROTATE_DIR@, p);
    secrets::lemma_live_file_name(p);
}

/// In the middle of a rotation nothing stands in the way of a secret's file.
proof fn lemma_unblocked(x: Files, files: Files, r: Rotation, key: Seq<u8>, j: int, i: int)
    requires
        sound(files, r, key),
        midway(x, files, r, j),
        0 <= i < r.paths.len(),
    ensures
        !tree::blocked(x, secrets::live_file(r.paths[i])),
{
    reveal(sound);
    reveal(midway);
    let p = r.paths[i];
    let live = secrets::live_file(p);
    lemma_rotate_names(p);
    lemma_sound_path(files, r, key, i);
    assert forall|n: Seq<char>| #[trigger] x.contains_key(n) implies !tree::inside(live, n)
        && !tree::inside(n, live) by {
        if tree::inside(ROTATE_DIR@, n) {
            move_laws::lemma_staging_apart(ROTATE_DIR@, p, n);
            if tree::inside(n, live) {
                tree::lemma_inside_inside(ROTATE_DIR@, n, live);
            }
        } else if n == RECIPIENTS_FILE@ {
            tree::lemma_not_inside(live, n);
            rotation::lemma_visible_not_hidden(n, p);
        } else {
            assert(files.contains_key(n));
        }
    }
}

/// In the middle of a rotation nothing stands in the way of the recipient list.
proof fn lemma_list_unblocked(x: Files, files: Files, r: Rotation, key: Seq<u8>, j: int)
    requires
        sound(files, r, key),
        midway(x, files, r, j),
    ensures
        !tree::blocked(x, RECIPIENTS_FILE@),
{
    reveal(sound);
    reveal(midway);
    lemma_rotate_names(Seq::empty());
    reveal_strlit(".ks-rotate");
    reveal_strlit(".age-recipients");
    assert forall|n: Seq<char>| #[trigger] x.contains_key(n) implies !tree::inside(
        RECIPIENTS_FILE@,
        n,
    ) && !tree::inside(n, RECIPIENTS_FILE@) by {
        tree::lemma_not_inside(n, RECIPIENTS_FILE@);
        if tree::inside(RECIPIENTS_FILE@, n) {
            if tree::inside(ROTATE_DIR@, n) {
                move_laws::lemma_prefix_index(ROTATE_DIR@ + seq!['/'], n, 1);
                move_laws::lemma_prefix_index(RECIPIENTS_FILE@ + seq!['/'], n, 1);
            } else {
                assert(n != RECIPIENTS_FILE@);
                assert(files.contains_key(n));
            }
        }
    }
}

/// Putting one more ciphertext in place goes one step further.
#[verifier::spinoff_prover]
proof fn lemma_install_one(x: Files, files: Files, r: Rotation, key: Seq<u8>, j: int)
    requires
        sound(files, r, key),
        midway(x, files, r, j),
        j < r.paths.len(),
    ensures
        midway(
            tree::applied(
                x,
                Effect::Replace {
                    from: rotation::staged_file(r.paths[j]),
                    to: secrets::live_file(r.paths[j]),
                },
            ),
            files,
            r,
            j + 1,
        ),
{
    reveal(sound);
    reveal(midway);
    let p = r.paths[j];
    let staged = rotation::staged_file(p);
    let live = secrets::live_file(p);
    let y = tree::applied(x, Effect::Replace { from: staged, to: live });
    lemma_rotate_names(p);
    lemma_sound_path(files, r, key, j);
    text::lemma_ascending_distinct(r.paths);
    assert forall|i: int| #![trigger r.paths[i]] j + 1 <= i < r.paths.len() implies y.contains_key(
        rotation::staged_file(r.paths[i]),
    ) && y[rotation::staged_file(r.paths[i])] == tree::plain(r.cts[i]) by {
        lemma_rotate_names(r.paths[i]);
        if rotation::staged_file(r.paths[i]) == staged {
            path::lemma_file_injective(ROTATE_SECRETS@, r.paths[i], p);
        }
    }
    assert forall|i: int| #![trigger r.paths[i]] 0 <= i < j + 1 implies y.contains_key(
        secrets::live_file(r.paths[i]),
    ) && y[secrets::live_file(r.paths[i])] == tree::plain(r.cts[i]) by {
        lemma_sound_path(files, r, key, i);
        if i < j && secrets::live_file(r.paths[i]) == live {
            path::lemma_file_injective(secrets::top(), r.paths[i], p);
        }
    }
    assert forall|n: Seq<char>| #[trigger]
        y.contains_key(n) && tree::inside(ROTATE_DIR@, n) implies n == ROTATE_RECIPIENTS@ || n
        == ROTATE_READY@ || exists|i: int|
        j + 1 <= i < r.paths.len() && n == rotation::staged_file(#[trigger] r.paths[i]) by {
        assert(x.contains_key(n));
        if n != ROTATE_RECIPIENTS@ && n != ROTATE_READY@ {
            let i = choose|i: int|
                j <= i < r.paths.len() && n == rotation::staged_file(#[trigger] r.paths[i]);
            assert(i != j);
        }
    }
    assert forall|n: Seq<char>|
        !tree::inside(ROTATE_DIR@, n) && n != RECIPIENTS_FILE@ implies (#[trigger] y.contains_key(
        n,
    ) <==> files.contains_key(n)) && (!is_rotated(r, j + 1, n) ==> y[n] == files[n]) by {
        assert(x.contains_key(n) <==> files.contains_key(n));
        if !is_rotated(r, j + 1, n) {
            assert(n != live) by {
                assert(live == secrets::live_file(r.paths[j]));
            }
            if is_rotated(r, j, n) {
                let i = choose|i: int|
                    0 <= i < j && n == secrets::live_file(#[trigger] r.paths[i]);
                assert(n == secrets::live_file(r.paths[i]));
            }
        }
    }
}

/// The changes that put the ciphertexts at `a..b` in place.
pub open spec fn replaces(paths: Seq<Seq<char>>) -> Seq<Effect> {
    Seq::new(
        paths.len(),
        |i: int|
            Effect::Replace {
                from: rotation::staged_file(paths[i]),
                to: secrets::live_file(paths[i]),
            },
    )
}

/// Putting some more ciphertexts in place goes as many steps further.
proof fn lemma_install_some(
    x: Files,
    files: Files,
    r: Rotation,
    key: Seq<u8>,
    j: int,
    t: int,
)
    requires
        sound(files, r, key),
        midway(x, files, r, j),
        0 <= t,
        j + t <= r.paths.len(),
    ensures
        midway(
            tree::replayed(x, replaces(r.paths.subrange(j, j + t))),
            files,
            r,
            j + t,
        ),
    decreases t,
{
    reveal(sound);
    reveal(midway);
    if t == 0 {
        assert(replaces(r.paths.subrange(j, j)) =~= Seq::empty());
    } else {
        lemma_install_some(x, files, r, key, j, t - 1);
        let before = replaces(r.paths.subrange(j, j + t - 1));
        let e = Effect::Replace {
            from: rotation::staged_file(r.paths[j + t - 1]),
            to: secrets::live_file(r.paths[j + t - 1]),
        };
        assert(replaces(r.paths.subrange(j, j + t)) =~= before.push(e));
        tree::lemma_replayed_push(x, before, e);
        lemma_install_one(tree::replayed(x, before), files, r, key, j + t - 1);
    }
}

/// All remaining ciphertexts are put in place.
proof fn lemma_installation(
    x: Files,
    files: Files,
    r: Rotation,
    key: Seq<u8>,
    j: int,
    t: int,
)
    requires
        sound(files, r, key),
        midway(x, files, r, j),
        0 <= t,
        j + t <= r.paths.len(),
    ensures
        ({
            let install = rotation::installation(x, r.paths.subrange(j, j + t));
            install.result is Ok && install.effects == replaces(r.paths.subrange(j, j + t))
        }),
    decreases t,
{
    reveal(sound);
    let some = r.paths.subrange(j, j + t);
    assert(0 <= j) by {
        reveal(midway);
    }
    if t == 0 {
        assert(replaces(some) =~= Seq::empty());
    } else {
        let i = j + t - 1;
        lemma_installation(x, files, r, key, j, t - 1);
        lemma_install_some(x, files, r, key, j, t - 1);
        assert(some.drop_last() =~= r.paths.subrange(j, i));
        assert(some.last() == r.paths[i]);
        lemma_unblocked(
            tree::replayed(x, replaces(r.paths.subrange(j, i))),
            files,
            r,
            key,
            i,
            i,
        );
        assert(rotation::installation(x, some).effects =~= replaces(some));
    }
}

/// The ciphertexts that are still staged are those of the remaining secrets.
proof fn lemma_midway_walk(x: Files, files: Files, r: Rotation, key: Seq<u8>, j: int)
    requires
        sound(files, r, key),
        midway(x, files, r, j),
    ensures
        listing::walked(x, ROTATE_SECRETS@) == r.paths.skip(j),
{
    reveal(sound);
    reveal(midway);
    let rest = r.paths.skip(j);
    assert(text::ascending(rest)) by {
        assert forall|a: int, b: int| 0 <= a < b < rest.len() implies text::text_before(
            #[trigger] rest[a],
            #[trigger] rest[b],
        ) by {
            assert(text::text_before(r.paths[a + j], r.paths[b + j]));
        }
    }
    assert forall|p: Seq<char>| #[trigger] rest.contains(p) <==> listing::listed(
        x,
        ROTATE_SECRETS@,
        p,
    ) by {
        if rest.contains(p) {
            let i = rest.index_of(p);
            assert(r.paths[i + j] == p);
            lemma_sound_path(files, r, key, i + j);
        }
        if listing::listed(x, ROTATE_SECRETS@, p) {
            lemma_rotate_names(p);
            let n = rotation::staged_file(p);
            assert(x.contains_key(n));
            let i = choose|i: int|
                j <= i < r.paths.len() && n == rotation::staged_file(#[trigger] r.paths[i]);
            path::lemma_file_injective(ROTATE_SECRETS@, p, r.paths[i]);
            assert(rest[i - j] == p);
        }
    }
    listing::lemma_walked_is(rest, x, ROTATE_SECRETS@);
}

/// The end of a rotation, from where all ciphertexts are in place.
#[verifier::spinoff_prover]
proof fn lemma_adoption(x: Files, files: Files, r: Rotation, key: Seq<u8>)
    requires
        sound(files, r, key),
        midway(x, files, r, r.paths.len() as int),
    ensures
        ({
            let n = r.paths.len() as int;
            let adopt = rotation::adoption(x);
            let write = Effect::Write {
                file: RECIPIENTS_FILE@,
                bytes: recipients::recipients_body(r.list),
            };
            &&& adopt.result is Ok
            &&& adopt.effects == seq![write, Effect::RemoveTree { dir: ROTATE_DIR@ }]
            &&& midway(tree::applied(x, write), files, r, n)
            &&& tree::replayed(x, adopt.effects) == after_rotation(files, r)
        }),
{
    reveal(sound);
    reveal(midway);
    let n = r.paths.len() as int;
    recipients::law_recipients_roundtrip(r.list);
    lemma_rotate_names(Seq::empty());
    lemma_list_unblocked(x, files, r, key, n);
    let write = Effect::Write {
        file: RECIPIENTS_FILE@,
        bytes: recipients::recipients_body(r.list),
    };
    let drop = Effect::RemoveTree { dir: ROTATE_DIR@ };
    let x1 = tree::applied(x, write);
    assert(x1.contains_key(ROTATE_READY@));
    assert(tree::present(x1, ROTATE_DIR@));
    let adopt = rotation::adoption(x);
    assert(adopt.effects =~= seq![write, drop]);
    assert(adopt.effects =~= Seq::empty().push(write).push(drop));
    tree::lemma_replayed_push(x, Seq::empty(), write);
    tree::lemma_replayed_push(x, Seq::empty().push(write), drop);
    assert forall|i: int| #![trigger r.paths[i]] 0 <= i < n implies x1.contains_key(
        secrets::live_file(r.paths[i]),
    ) && x1[secrets::live_file(r.paths[i])] == tree::plain(r.cts[i]) by {
        lemma_sound_path(files, r, key, i);
    }
    assert(midway(x1, files, r, n)) by {
        assert forall|m: Seq<char>| #[trigger]
            x1.contains_key(m) && tree::inside(ROTATE_DIR@, m) implies m == ROTATE_RECIPIENTS@
            || m == ROTATE_READY@ || exists|i: int|
            n <= i < r.paths.len() && m == rotation::staged_file(#[trigger] r.paths[i]) by {
            assert(x.contains_key(m));
        }
        assert forall|m: Seq<char>|
            !tree::inside(ROTATE_DIR@, m) && m != RECIPIENTS_FILE@ implies (
        #[trigger] x1.contains_key(m) <==> files.contains_key(m)) && (!is_rotated(r, n, m)
            ==> x1[m] == files[m]) by {
            assert(x.contains_key(m) <==> files.contains_key(m));
        }
    }
    let end = tree::without_tree(x1, ROTATE_DIR@);
    let goal = after_rotation(files, r);
    assert forall|m: Seq<char>| #[trigger] end.contains_key(m) <==> goal.contains_key(m) by {
        if tree::inside(ROTATE_DIR@, m) {
            if files.contains_key(m) {
                assert(tree::has_dir(files, ROTATE_DIR@));
            }
        } else if m != RECIPIENTS_FILE@ {
            assert(x1.contains_key(m) <==> files.contains_key(m));
        }
    }
    assert forall|m: Seq<char>| #[trigger] end.contains_key(m) implies end[m] == goal[m] by {
        if m != RECIPIENTS_FILE@ {
            assert(x1.contains_key(m) <==> files.contains_key(m));
            if is_rotated(r, n, m) {
                let i = choose|i: int|
                    0 <= i < r.paths.len() && m == secrets::live_file(#[trigger] r.paths[i]);
                assert(x1[secrets::live_file(r.paths[i])] == tree::plain(r.cts[i]));
            }
        }
    }
    assert(end =~= goal);
}

/// The staged ciphertexts of some remaining secrets are valid.
proof fn lemma_midway_valid(
    x: Files,
    files: Files,
    r: Rotation,
    key: Seq<u8>,
    j: int,
    t: int,
)
    requires
        sound(files, r, key),
        midway(x, files, r, j),
        0 <= t,
        j + t <= r.paths.len(),
    ensures
        rotation::staged_validity(x, r.paths.subrange(j, j + t), key) is Ok,
    decreases t,
{
    reveal(sound);
    reveal(midway);
    let some = r.paths.subrange(j, j + t);
    if t > 0 {
        lemma_midway_valid(x, files, r, key, j, t - 1);
        assert(some.drop_last() =~= r.paths.subrange(j, j + t - 1));
        let p = r.paths[j + t - 1];
        assert(some.last() == p);
        let c = secrets::checked(files, p, key)->Ok_0;
        assert(rotation::rotates(files, p, key, r.list, r.cts[j + t - 1]));
        laws::lemma_unsealed(x, ROTATE_SECRETS@, p, c, r.list, key);
    }
}

/// Completing a rotation from the middle leads to the files after it.
#[verifier::spinoff_prover]
proof fn lemma_midway_commit(x: Files, files: Files, r: Rotation, key: Seq<u8>, j: int)
    requires
        sound(files, r, key),
        midway(x, files, r, j),
    ensures
        rotation::rotation_commit(x).result is Ok,
        rotation::rotation_commit(x).effects == replaces(r.paths.skip(j)) + rotation::adoption(
            tree::replayed(x, replaces(r.paths.skip(j))),
        ).effects,
        midway(
            tree::replayed(x, replaces(r.paths.skip(j))),
            files,
            r,
            r.paths.len() as int,
        ),
        tree::replayed(x, rotation::rotation_commit(x).effects) == after_rotation(files, r),
        rotation::rotation_recovery(x, key).result == Ok::<RotationRecovery, Failure>(
            RotationRecovery::Completed,
        ),
        rotation::rotation_recovery(x, key).effects == rotation::rotation_commit(x).effects,
{
    reveal(sound);
    reveal(midway);
    let n = r.paths.len() as int;
    let rest = r.paths.skip(j);
    lemma_midway_walk(x, files, r, key, j);
    assert(rest =~= r.paths.subrange(j, n));
    lemma_installation(x, files, r, key, j, n - j);
    lemma_install_some(x, files, r, key, j, n - j);
    let y = tree::replayed(x, replaces(rest));
    lemma_adoption(y, files, r, key);
    tree::lemma_replayed_concat(x, replaces(rest), rotation::adoption(y).effects);
    lemma_rotate_names(Seq::empty());
    assert(tree::present(x, ROTATE_DIR@));
    recipients::law_recipients_roundtrip(r.list);
    lemma_midway_valid(x, files, r, key, j, n - j);
}

/// What writes inside a directory leave alone, and what they add.
proof fn lemma_writes_inside(files: Files, effects: Seq<Effect>, dir: Seq<char>)
    requires
        forall|i: int|
            0 <= i < effects.len() ==> (#[trigger] effects[i]) is Write && tree::inside(
                dir,
                effects[i]->Write_file,
            ),
    ensures
        ({
            let x = tree::replayed(files, effects);
            &&& forall|n: Seq<char>|
                !tree::inside(dir, n) ==> (#[trigger] x.contains_key(n) <==> files.contains_key(n))
                    && x[n] == files[n]
            &&& forall|n: Seq<char>| #[trigger]
                x.contains_key(n) && !files.contains_key(n) ==> exists|i: int|
                    0 <= i < effects.len() && n == (#[trigger] effects[i])->Write_file
        }),
    decreases effects.len(),
{
    if effects.len() > 0 {
        let rest = effects.drop_last();
        assert forall|i: int| 0 <= i < rest.len() implies (#[trigger] rest[i]) is Write
            && tree::inside(dir, rest[i]->Write_file) by {
            assert(rest[i] == effects[i]);
        }
        lemma_writes_inside(files, rest, dir);
        let before = tree::replayed(files, rest);
        let x = tree::replayed(files, effects);
        let last = effects[effects.len() - 1];
        assert(last is Write);
        assert forall|n: Seq<char>| #[trigger]
            x.contains_key(n) && !files.contains_key(n) implies exists|i: int|
            0 <= i < effects.len() && n == (#[trigger] effects[i])->Write_file by {
            if n == last->Write_file {
                assert(n == effects[effects.len() - 1]->Write_file);
            } else {
                assert(before.contains_key(n));
                let i = choose|i: int|
                    0 <= i < rest.len() && n == (#[trigger] rest[i])->Write_file;
                assert(effects[i] == rest[i]);
            }
        }
    }
}

/// All changes that stage a rotation.
pub open spec fn all_staging(r: Rotation) -> Seq<Effect> {
    rotation::staged_writes(r.paths, r.cts) + rotation::marker_writes(r.list)
}

proof fn lemma_all_staging(r: Rotation)
    requires
        r.cts.len() == r.paths.len(),
    ensures
        all_staging(r).len() == r.paths.len() + 2,
        forall|i: int|
            0 <= i < all_staging(r).len() ==> (#[trigger] all_staging(r)[i]) is Write
                && tree::inside(ROTATE_DIR@, all_staging(r)[i]->Write_file),
        forall|i: int|
            0 <= i < r.paths.len() ==> #[trigger] all_staging(r)[i] == (Effect::Write {
                file: rotation::staged_file(r.paths[i]),
                bytes: r.cts[i],
            }),
        all_staging(r)[r.paths.len() as int]->Write_file == ROTATE_RECIPIENTS@,
        all_staging(r)[r.paths.len() as int + 1]->Write_file == ROTATE_READY@,
{
    let n = r.paths.len() as int;
    lemma_rotate_names(Seq::empty());
    assert forall|i: int| 0 <= i < all_staging(r).len() implies (
    #[trigger] all_staging(r)[i]) is Write && tree::inside(
        ROTATE_DIR@,
        all_staging(r)[i]->Write_file,
    ) by {
        if i < n {
            lemma_rotate_names(r.paths[i]);
        } else if i == n {
            assert(all_staging(r)[i] == rotation::marker_writes(r.list)[0]);
        } else {
            assert(all_staging(r)[i] == rotation::marker_writes(r.list)[1]);
        }
    }
}

/// Dropping what was staged gives the files from before.
proof fn lemma_staging_rolls_back(files: Files, effects: Seq<Effect>, dir: Seq<char>)
    requires
        !tree::present(files, dir),
        forall|i: int|
            0 <= i < effects.len() ==> (#[trigger] effects[i]) is Write && tree::inside(
                dir,
                effects[i]->Write_file,
            ),
    ensures
        ({
            let x = tree::replayed(files, effects);
            tree::replayed(x, moves::dropped(x, dir)) == files
        }),
{
    let x = tree::replayed(files, effects);
    lemma_writes_inside(files, effects, dir);
    let e = Effect::RemoveTree { dir };
    tree::lemma_replayed_push(x, Seq::empty(), e);
    assert(Seq::empty().push(e) =~= seq![e]);
    let y = tree::without_tree(x, dir);
    assert forall|n: Seq<char>| #[trigger] files.contains_key(n) <==> y.contains_key(n) by {
        if tree::inside(dir, n) {
            if files.contains_key(n) {
                assert(tree::has_dir(files, dir));
            }
        } else {
            assert(x.contains_key(n) <==> files.contains_key(n));
        }
    }
    assert forall|n: Seq<char>| #[trigger] y.contains_key(n) implies y[n] == files[n] by {
        assert(x.contains_key(n) <==> files.contains_key(n));
    }
    assert(y =~= files);
    if !tree::present(x, dir) {
        assert forall|n: Seq<char>| #[trigger] x.contains_key(n) implies !tree::inside(
            dir,
            n,
        ) by {
            if tree::inside(dir, n) {
                assert(tree::has_dir(x, dir));
            }
        }
        assert(x =~= y);
    }
}

/// Before the commit marker is written, resolving an interruption gives the files
/// from before.
#[verifier::spinoff_prover]
#[verifier::rlimit(40)]
proof fn lemma_rotation_rolls_back(files: Files, r: Rotation, key: Seq<u8>, k: int)
    requires
        sound(files, r, key),
        0 <= k < r.paths.len() + 2,
    ensures
        ({
            let x = tree::replayed(files, all_staging(r).take(k));
            let recovery = rotation::rotation_recovery(x, key);
            recovery.result is Ok && tree::replayed(x, recovery.effects) == files
        }),
{
    reveal(sound);
    let n = r.paths.len() as int;
    let effects = all_staging(r).take(k);
    let x = tree::replayed(files, effects);
    lemma_all_staging(r);
    assert forall|i: int| 0 <= i < effects.len() implies (#[trigger] effects[i]) is Write
        && tree::inside(ROTATE_DIR@, effects[i]->Write_file) by {
        assert(effects[i] == all_staging(r)[i]);
    }
    lemma_writes_inside(files, effects, ROTATE_DIR@);
    lemma_staging_rolls_back(files, effects, ROTATE_DIR@);
    lemma_rotate_names(Seq::empty());
    assert forall|m: Seq<char>| #[trigger] x.contains_key(m) && tree::inside(
        ROTATE_DIR@,
        m,
    ) implies m != ROTATE_READY@ && !tree::inside(ROTATE_READY@, m) by {
        if files.contains_key(m) {
            assert(tree::has_dir(files, ROTATE_DIR@));
        }
        let i = choose|i: int| 0 <= i < effects.len() && m == (#[trigger] effects[i])->Write_file;
        assert(effects[i] == all_staging(r)[i]);
        if i < n {
            lemma_rotate_names(r.paths[i]);
        }
    }
    assert(!tree::present(x, ROTATE_READY@)) by {
        if tree::has_dir(x, ROTATE_READY@) {
            let m = choose|m: Seq<char>| #[trigger]
                x.contains_key(m) && tree::inside(ROTATE_READY@, m);
            assert(tree::inside(ROTATE_DIR@, ROTATE_READY@));
            tree::lemma_inside_inside(ROTATE_DIR@, ROTATE_READY@, m);
        }
    }
}

/// A rotation that is completely staged stands in the middle, with no ciphertext in
/// place.
#[verifier::spinoff_prover]
proof fn lemma_staged_is_midway(files: Files, r: Rotation, key: Seq<u8>)
    requires
        sound(files, r, key),
    ensures
        midway(tree::replayed(files, all_staging(r)), files, r, 0),
{
    reveal(sound);
    reveal(midway);
    let n = r.paths.len() as int;
    let all = all_staging(r);
    let x = tree::replayed(files, all);
    lemma_all_staging(r);
    lemma_writes_inside(files, all, ROTATE_DIR@);
    lemma_rotate_names(Seq::empty());
    let w = rotation::staged_writes(r.paths, r.cts);
    let marks = rotation::marker_writes(r.list);
    assert(all =~= w.push(marks[0]).push(marks[1]));
    tree::lemma_replayed_push(files, w, marks[0]);
    tree::lemma_replayed_push(files, w.push(marks[0]), marks[1]);
    assert forall|i: int| #![trigger r.paths[i]] 0 <= i < n implies x.contains_key(
        rotation::staged_file(r.paths[i]),
    ) && x[rotation::staged_file(r.paths[i])] == tree::plain(r.cts[i]) by {
        lemma_rotate_names(r.paths[i]);
        lemma_write_present(files, r, i, n);
        assert(r.cts.take(n) =~= r.cts);
    }
    assert forall|m: Seq<char>| #[trigger] x.contains_key(m) && tree::inside(
        ROTATE_DIR@,
        m,
    ) implies m == ROTATE_RECIPIENTS@ || m == ROTATE_READY@ || exists|i: int|
        0 <= i < r.paths.len() && m == rotation::staged_file(#[trigger] r.paths[i]) by {
        if files.contains_key(m) {
            assert(tree::has_dir(files, ROTATE_DIR@));
        }
        let i = choose|i: int| 0 <= i < all.len() && m == (#[trigger] all[i])->Write_file;
        if i < n {
            assert(m == rotation::staged_file(r.paths[i]));
        } else if i == n {
            assert(m == ROTATE_RECIPIENTS@);
        } else {
            assert(m == ROTATE_READY@);
        }
    }
    assert forall|m: Seq<char>|
        !tree::inside(ROTATE_DIR@, m) && m != RECIPIENTS_FILE@ implies (#[trigger] x.contains_key(
        m,
    ) <==> files.contains_key(m)) && (!is_rotated(r, 0, m) ==> x[m] == files[m]) by {}
    assert(x.contains_key(ROTATE_RECIPIENTS@));
    assert(x[ROTATE_RECIPIENTS@] == tree::plain(recipients::recipients_body(r.list)));
    assert(x.contains_key(ROTATE_READY@));
}

/// A staged ciphertext stays while more are staged.
proof fn lemma_write_present(files: Files, r: Rotation, i: int, k: int)
    requires
        text::ascending(r.paths),
        r.cts.len() == r.paths.len(),
        0 <= i < k <= r.paths.len(),
    ensures
        ({
            let x = tree::replayed(files, rotation::staged_writes(r.paths, r.cts.take(k)));
            x.contains_key(rotation::staged_file(r.paths[i])) && x[rotation::staged_file(
                r.paths[i],
            )] == tree::plain(r.cts[i])
        }),
    decreases k,
{
    let before = rotation::staged_writes(r.paths, r.cts.take(k - 1));
    let all = rotation::staged_writes(r.paths, r.cts.take(k));
    let e = Effect::Write { file: rotation::staged_file(r.paths[k - 1]), bytes: r.cts[k - 1] };
    assert(all =~= before.push(e));
    tree::lemma_replayed_push(files, before, e);
    if i < k - 1 {
        lemma_write_present(files, r, i, k - 1);
        text::lemma_ascending_distinct(r.paths);
        if rotation::staged_file(r.paths[i]) == rotation::staged_file(r.paths[k - 1]) {
            path::lemma_file_injective(ROTATE_SECRETS@, r.paths[i], r.paths[k - 1]);
        }
    }
}

/// What a rotation starts from: every secret has a valid path, the new recipients
/// are well-formed and hold one's own key, nothing is staged, and no file stands in
/// the way of another or of the recipient list.
pub open spec fn can_rotate(files: Files, list: Seq<Seq<char>>, key: Seq<u8>) -> bool {
    &&& files.dom().finite()
    &&& !tree::present(files, ROTATE_DIR@)
    &&& forall|p: Seq<char>| #[trigger] health::live(files).contains(p) ==> path::valid_path(p)
    &&& forall|i: int| 0 <= i < list.len() ==> Recipient::canonical(#[trigger] list[i])
    &&& laws::belongs(key, list)
    &&& tree::coherent(files)
    &&& !tree::has_dir(files, RECIPIENTS_FILE@)
}

/// The rotation of all secrets to some recipients.
pub open spec fn rotation_of(files: Files, list: Seq<Seq<char>>, cts: Seq<Seq<u8>>) -> Rotation {
    Rotation { paths: health::live(files), cts, list }
}

proof fn lemma_can_rotate(
    files: Files,
    list: Seq<Seq<char>>,
    key: Seq<u8>,
    cts: Seq<Seq<u8>>,
)
    requires
        can_rotate(files, list, key),
        rotation::reencrypts(files, list, key, cts),
        cts.len() == health::live(files).len(),
    ensures
        sound(files, rotation_of(files, list, cts), key),
        tree::replayed(files, moves::dropped(files, ROTATE_DIR@)) == files,
{
    reveal(sound);
    let r = rotation_of(files, list, cts);
    listing::lemma_walk_exists(files, secrets::top());
    let p = crypto::age_public(key)->0;
    assert(list.contains(p));
    assert forall|i: int| 0 <= i < r.paths.len() implies path::valid_path(#[trigger] r.paths[i]) by {
        assert(r.paths.contains(r.paths[i]));
    }
    assert forall|i: int| 0 <= i < r.paths.len() implies rotation::rotates(
        files,
        #[trigger] r.paths[i],
        key,
        r.list,
        r.cts[i],
    ) by {
        assert(rotation::rotates(files, r.paths[i], key, list, cts[i]));
    }
}

/// The changes that a rotation makes, and what they lead to.
pub proof fn lemma_rotation_shape(
    files: Files,
    list: Seq<Seq<char>>,
    key: Seq<u8>,
    cts: Seq<Seq<u8>>,
)
    requires
        can_rotate(files, list, key),
        secrets::index_at(files) is Ok,
        rotation::reencrypts(files, list, key, cts),
        cts.len() == health::live(files).len(),
    ensures
        ({
            let r = rotation_of(files, list, cts);
            let x = tree::replayed(files, all_staging(r));
            let work = rotation::rotation_work(files, list, key, cts);
            &&& work.result == Ok::<nat, Failure>(cts.len())
            &&& work.effects == all_staging(r) + rotation::rotation_commit(x).effects
            &&& tree::replayed(files, work.effects) == after_rotation(files, r)
        }),
{
    let r = rotation_of(files, list, cts);
    let x = tree::replayed(files, all_staging(r));
    lemma_can_rotate(files, list, key, cts);
    lemma_staged_is_midway(files, r, key);
    lemma_midway_commit(x, files, r, key, 0);
    let none = Seq::<Effect>::empty();
    let writes = rotation::staged_writes(r.paths, cts);
    let marks = rotation::marker_writes(list);
    assert(none + writes + marks =~= all_staging(r));
    tree::lemma_replayed_concat(files, writes, marks);
    tree::lemma_replayed_concat(
        files,
        all_staging(r),
        rotation::rotation_commit(x).effects,
    );
}

/// A rotation that is interrupted anywhere is resolved without loss: before the
/// commit marker was written the files are again those before the rotation; from
/// then on they are those after it.
#[verifier::spinoff_prover]
pub proof fn law_rotation_is_crash_consistent(
    files: Files,
    list: Seq<Seq<char>>,
    key: Seq<u8>,
    cts: Seq<Seq<u8>>,
    k: int,
)
    requires
        can_rotate(files, list, key),
        secrets::index_at(files) is Ok,
        rotation::reencrypts(files, list, key, cts),
        cts.len() == health::live(files).len(),
        0 <= k <= rotation::rotation_work(files, list, key, cts).effects.len(),
    ensures
        ({
            let all = rotation::rotation_work(files, list, key, cts).effects;
            let interrupted = tree::replayed(files, all.take(k));
            let recovery = rotation::rotation_recovery(interrupted, key);
            let marker = cts.len() + rotation::marker_writes(list).len();
            &&& recovery.result is Ok
            &&& k < marker ==> tree::replayed(interrupted, recovery.effects) == files
            &&& k >= marker ==> tree::replayed(interrupted, recovery.effects) == tree::replayed(
                files,
                all,
            )
        }),
{
    let r = rotation_of(files, list, cts);
    let n = r.paths.len() as int;
    let staging = all_staging(r);
    let x = tree::replayed(files, staging);
    let commit = rotation::rotation_commit(x).effects;
    let all = rotation::rotation_work(files, list, key, cts).effects;
    lemma_can_rotate(files, list, key, cts);
    lemma_rotation_shape(files, list, key, cts);
    lemma_all_staging(r);
    if k < n + 2 {
        assert(all.take(k) =~= staging.take(k));
        lemma_rotation_rolls_back(files, r, key, k);
    } else {
        let t = k - (n + 2);
        assert(all.take(k) =~= staging + commit.take(t));
        tree::lemma_replayed_concat(files, staging, commit.take(t));
        let y = tree::replayed(x, commit.take(t));
        lemma_staged_is_midway(files, r, key);
        lemma_midway_commit(x, files, r, key, 0);
        assert(r.paths.skip(0) =~= r.paths);
        let z = tree::replayed(x, replaces(r.paths));
        lemma_adoption(z, files, r, key);
        assert(commit.len() == n + 2);
        if t <= n {
            assert(commit.take(t) =~= replaces(r.paths.subrange(0, t)));
            lemma_install_some(x, files, r, key, 0, t);
            lemma_midway_commit(y, files, r, key, t);
        } else if t == n + 1 {
            let write = rotation::adoption(z).effects[0];
            assert(commit.take(t) =~= replaces(r.paths).push(write));
            tree::lemma_replayed_push(x, replaces(r.paths), write);
            lemma_midway_commit(y, files, r, key, n);
        } else {
            assert(commit.take(t) =~= commit);
            assert(y == after_rotation(files, r));
            lemma_rotate_names(Seq::empty());
            assert(!tree::present(y, ROTATE_DIR@)) by {
                if tree::has_dir(y, ROTATE_DIR@) {
                    let m = choose|m: Seq<char>| #[trigger]
                        y.contains_key(m) && tree::inside(ROTATE_DIR@, m);
                    if files.contains_key(m) {
                        assert(tree::has_dir(files, ROTATE_DIR@));
                    }
                }
            }
        }
    }
}

/// After a rotation every secret reads as before, with the key of every new
/// recipient; its generation and the index are the same, and the recipient list is
/// the new one.
pub proof fn law_rotation_keeps_secrets(
    files: Files,
    list: Seq<Seq<char>>,
    key: Seq<u8>,
    cts: Seq<Seq<u8>>,
    p: Seq<char>,
    reader: Seq<u8>,
)
    requires
        can_rotate(files, list, key),
        rotation::reencrypts(files, list, key, cts),
        cts.len() == health::live(files).len(),
        health::live(files).contains(p),
        laws::belongs(reader, list),
    ensures
        ({
            let after = tree::replayed(
                files,
                rotation::rotation_work(files, list, key, cts).effects,
            );
            &&& secrets::unsealed(after, p, reader) == secrets::unsealed(files, p, key)
            &&& secrets::got(after, p, reader) == secrets::got(files, p, key)
            &&& secrets::got(after, p, reader) is Ok
            &&& secrets::index_in(after) == secrets::index_in(files)
            &&& secrets::recipients_at(after, RECIPIENTS_FILE@) == Ok::<
                Seq<Seq<char>>,
                Failure,
            >(list)
        }),
{
    reveal(sound);
    let r = rotation_of(files, list, cts);
    lemma_can_rotate(files, list, key, cts);
    let after = after_rotation(files, r);
    let i = r.paths.index_of(p);
    assert(r.paths[i] == p);
    assert(rotation::rotates(files, r.paths[i], key, list, cts[i]));
    lemma_rotation_shape(files, list, key, cts);
    lemma_sound_path(files, r, key, i);
    lemma_rotate_names(p);
    recipients::law_recipients_roundtrip(list);
    let live = secrets::live_file(p);
    assert(is_rotated(r, r.paths.len() as int, live));
    let j = choose|j: int|
        0 <= j < r.paths.len() && live == secrets::live_file(#[trigger] r.paths[j]);
    path::lemma_file_injective(secrets::top(), p, r.paths[j]);
    assert(rotation::rotates(files, r.paths[j], key, list, cts[j]));
    let c = secrets::checked(files, p, key)->Ok_0;
    laws::lemma_unsealed(after, secrets::top(), p, c, list, reader);
    assert(secrets::index_at(after) == secrets::index_at(files)) by {
        assert forall|m: Seq<char>| tree::inside(GENERATIONS_FILE@, m) implies (
        #[trigger] after.contains_key(m) <==> files.contains_key(m)) by {
            tree::lemma_not_inside(GENERATIONS_FILE@, RECIPIENTS_FILE@);
        }
        tree::lemma_same_dir(after, files, GENERATIONS_FILE@);
        if is_rotated(r, r.paths.len() as int, GENERATIONS_FILE@) {
            let q = choose|q: int|
                0 <= q < r.paths.len() && GENERATIONS_FILE@ == secrets::live_file(
                    #[trigger] r.paths[q],
                );
            secrets::lemma_live_file_name(r.paths[q]);
        }
    }
}

/// After a rotation nobody but the new recipients reads: every secret is made for them
/// alone, and a key that belongs to none of them is refused, if what was made for
/// others keeps it out; also if it could read before.
pub proof fn law_rotation_revokes(
    files: Files,
    list: Seq<Seq<char>>,
    key: Seq<u8>,
    cts: Seq<Seq<u8>>,
    p: Seq<char>,
    reader: Seq<u8>,
)
    requires
        can_rotate(files, list, key),
        rotation::reencrypts(files, list, key, cts),
        cts.len() == health::live(files).len(),
        health::live(files).contains(p),
        crypto::is_stranger(reader, list),
        crypto::keeps_out(
            tree::replayed(
                files,
                rotation::rotation_work(files, list, key, cts).effects,
            )[secrets::live_file(p)].bytes,
            list,
            reader,
        ),
    ensures
        ({
            let after = tree::replayed(
                files,
                rotation::rotation_work(files, list, key, cts).effects,
            );
            secrets::got(after, p, reader) == Err::<Payload, Failure>(Failure::Decrypt)
        }),
{
    reveal(sound);
    let r = rotation_of(files, list, cts);
    lemma_can_rotate(files, list, key, cts);
    let after = after_rotation(files, r);
    let i = r.paths.index_of(p);
    assert(r.paths[i] == p);
    assert(rotation::rotates(files, r.paths[i], key, list, cts[i]));
    lemma_rotation_shape(files, list, key, cts);
    lemma_sound_path(files, r, key, i);
    let live = secrets::live_file(p);
    assert(is_rotated(r, r.paths.len() as int, live));
    let j = choose|j: int|
        0 <= j < r.paths.len() && live == secrets::live_file(#[trigger] r.paths[j]);
    path::lemma_file_injective(secrets::top(), p, r.paths[j]);
    assert(rotation::rotates(files, r.paths[j], key, list, cts[j]));
    let c = secrets::checked(files, p, key)->Ok_0;
    let plaintext = envelope::sealed(p, c.kind, c.generation, c.payload);
    laws::lemma_shut(after, secrets::top(), p, plaintext, list, reader);
}

/// A rotation that cannot read the index, or comes upon a secret that it cannot read,
/// changes nothing.
pub proof fn law_failed_rotation_changes_nothing(
    files: Files,
    list: Seq<Seq<char>>,
    key: Seq<u8>,
    cts: Seq<Seq<u8>>,
)
    requires
        !tree::present(files, ROTATE_DIR@),
        rotation::reencrypts(files, list, key, cts),
        rotation::rotation_fault(files, health::live(files), key, cts.len() as int) is Some,
    ensures
        ({
            let work = rotation::rotation_work(files, list, key, cts);
            work.result is Err && tree::replayed(files, work.effects) == files
        }),
{
    let paths = health::live(files);
    let writes = rotation::staged_writes(paths, cts);
    let x = tree::replayed(files, writes);
    assert forall|i: int| 0 <= i < writes.len() implies (#[trigger] writes[i]) is Write
        && tree::inside(ROTATE_DIR@, writes[i]->Write_file) by {
        lemma_rotate_names(paths[i]);
    }
    lemma_staging_rolls_back(files, writes, ROTATE_DIR@);
    let none = Seq::<Effect>::empty();
    assert(moves::dropped(files, ROTATE_DIR@) == none);
    assert(none + writes =~= writes);
    tree::lemma_replayed_concat(files, writes, moves::dropped(x, ROTATE_DIR@));
}

/// Putting ciphertexts in place makes no file with the staging directory's name.
proof fn lemma_installation_apart(files: Files, paths: Seq<Seq<char>>)
    requires
        !files.contains_key(ROTATE_DIR@),
    ensures
        !tree::replayed(files, rotation::installation(files, paths).effects).contains_key(ROTATE_DIR@),
    decreases paths.len(),
{
    if paths.len() > 0 {
        let before = rotation::installation(files, paths.drop_last());
        lemma_installation_apart(files, paths.drop_last());
        if before.result is Ok && path::valid_path(paths.last()) {
            lemma_rotate_names(paths.last());
            tree::lemma_replayed_push(
                files,
                before.effects,
                Effect::Replace {
                    from: rotation::staged_file(paths.last()),
                    to: secrets::live_file(paths.last()),
                },
            );
        }
    }
}

/// Resolving an interrupted rotation leaves nothing to resolve, as long as no file
/// has the name of the staging directory.
pub proof fn law_rotation_recovery_is_final(files: Files, key: Seq<u8>)
    requires
        rotation::rotation_recovery(files, key).result is Ok,
        !files.contains_key(ROTATE_DIR@),
    ensures
        ({
            let settled = tree::replayed(files, rotation::rotation_recovery(files, key).effects);
            let again = rotation::rotation_recovery(settled, key);
            again.result == Ok::<RotationRecovery, Failure>(RotationRecovery::Clean)
                && again.effects.len() == 0
        }),
{
    let settled = tree::replayed(files, rotation::rotation_recovery(files, key).effects);
    assert(!tree::present(settled, ROTATE_DIR@)) by {
        if tree::present(files, ROTATE_DIR@) {
            if !tree::present(files, ROTATE_READY@) {
                move_laws::lemma_dropped(files, ROTATE_DIR@);
                assert(moves::dropped(files, ROTATE_DIR@) == seq![
                    Effect::RemoveTree { dir: ROTATE_DIR@ },
                ]);
            } else {
                lemma_rotate_names(Seq::empty());
                let paths = listing::walked(files, ROTATE_SECRETS@);
                let install = rotation::installation(files, paths).effects;
                let f1 = tree::replayed(files, install);
                lemma_installation_apart(files, paths);
                let adopt = rotation::adoption(f1).effects;
                let write = adopt[0];
                let f2 = tree::applied(f1, write);
                tree::lemma_replayed_push(f1, Seq::empty(), write);
                assert(Seq::empty().push(write) =~= seq![write]);
                tree::lemma_replayed_concat(f1, seq![write], moves::dropped(f2, ROTATE_DIR@));
                move_laws::lemma_dropped(f2, ROTATE_DIR@);
                tree::lemma_replayed_concat(files, install, adopt);
                assert(adopt == seq![write] + moves::dropped(f2, ROTATE_DIR@));
            }
        }
    }
}

/// Putting ciphertexts in place leaves the staged recipient list.
proof fn lemma_installation_keeps_list(files: Files, paths: Seq<Seq<char>>)
    ensures
        ({
            let after = tree::replayed(files, rotation::installation(files, paths).effects);
            files.contains_key(ROTATE_RECIPIENTS@) ==> after.contains_key(ROTATE_RECIPIENTS@)
                && after[ROTATE_RECIPIENTS@] == files[ROTATE_RECIPIENTS@]
        }),
    decreases paths.len(),
{
    if paths.len() > 0 {
        let before = rotation::installation(files, paths.drop_last());
        let p = paths.last();
        lemma_installation_keeps_list(files, paths.drop_last());
        if before.result is Ok && path::valid_path(p) {
            lemma_rotate_names(p);
            reveal_strlit(".ks-rotate/RECIPIENTS");
            assert(secrets::live_file(p).last() == 'e') by {
                secrets::lemma_live_file_name(p);
            }
            assert(ROTATE_RECIPIENTS@.last() == 'S');
            tree::lemma_replayed_push(
                files,
                before.effects,
                Effect::Replace {
                    from: rotation::staged_file(p),
                    to: secrets::live_file(p),
                },
            );
        }
    }
}

/// A rotation that is completed on recovery leaves a recipient list that holds one's
/// own key: a staged list without it is refused.
pub proof fn law_recovered_list_holds_own_key(files: Files, key: Seq<u8>)
    requires
        rotation::rotation_recovery(files, key).result == Ok::<RotationRecovery, Failure>(
            RotationRecovery::Completed,
        ),
    ensures
        ({
            let after = tree::replayed(files, rotation::rotation_recovery(files, key).effects);
            let list = secrets::recipients_at(files, ROTATE_RECIPIENTS@)->Ok_0;
            &&& list.contains(rotation::own(key))
            &&& after.contains_key(RECIPIENTS_FILE@)
            &&& after[RECIPIENTS_FILE@].bytes == recipients::recipients_body(list)
        }),
{
    let paths = listing::walked(files, ROTATE_SECRETS@);
    let install = rotation::installation(files, paths).effects;
    let f1 = tree::replayed(files, install);
    lemma_installation_keeps_list(files, paths);
    lemma_rotate_names(Seq::empty());
    let list = secrets::recipients_at(files, ROTATE_RECIPIENTS@)->Ok_0;
    assert(files.contains_key(ROTATE_RECIPIENTS@));
    let write = Effect::Write {
        file: RECIPIENTS_FILE@,
        bytes: recipients::recipients_body(list),
    };
    let f2 = tree::applied(f1, write);
    let drop = moves::dropped(f2, ROTATE_DIR@);
    tree::lemma_replayed_push(f1, Seq::empty(), write);
    assert(Seq::empty().push(write) =~= seq![write]);
    tree::lemma_replayed_concat(f1, seq![write], drop);
    tree::lemma_replayed_concat(files, install, seq![write] + drop);
    let e = Effect::RemoveTree { dir: ROTATE_DIR@ };
    tree::lemma_replayed_push(f2, Seq::empty(), e);
    assert(Seq::empty().push(e) =~= seq![e]);
}

/// An interrupted rotation is completed only if its commit marker is there, the staged
/// list holds one's own key, and every staged ciphertext has an acceptable path and
/// opens there.
pub proof fn law_completed_rotation_was_valid(files: Files, key: Seq<u8>)
    requires
        files.dom().finite(),
        rotation::rotation_recovery(files, key).result == Ok::<RotationRecovery, Failure>(
            RotationRecovery::Completed,
        ),
    ensures
        tree::present(files, ".ks-rotate/READY"@),
        secrets::recipients_at(files, ".ks-rotate/RECIPIENTS"@) matches Ok(list) && list.contains(
            rotation::own(key),
        ),
        forall|p: Seq<char>| #[trigger]
            listing::listed(files, ".ks-rotate/secrets/"@, p) ==> path::valid_path(p)
                && secrets::unsealed_at(files, ".ks-rotate/secrets/"@, p, key) is Ok,
{
    let paths = listing::walked(files, ROTATE_SECRETS@);
    listing::lemma_walk_exists(files, ROTATE_SECRETS@);
    assert forall|p: Seq<char>| #[trigger]
        listing::listed(files, ".ks-rotate/secrets/"@, p) implies path::valid_path(p)
        && secrets::unsealed_at(files, ".ks-rotate/secrets/"@, p, key) is Ok by {
        assert(paths.contains(p));
        let i = paths.index_of(p);
        lemma_staged_valid(files, paths, key, i);
    }
}

/// Where staged ciphertexts are valid, each of them is.
proof fn lemma_staged_valid(files: Files, paths: Seq<Seq<char>>, key: Seq<u8>, i: int)
    requires
        0 <= i < paths.len(),
        rotation::staged_validity(files, paths, key) is Ok,
    ensures
        path::valid_path(paths[i]),
        secrets::unsealed_at(files, ROTATE_SECRETS@, paths[i], key) is Ok,
    decreases paths.len(),
{
    if i < paths.len() - 1 {
        assert(paths.drop_last()[i] == paths[i]);
        lemma_staged_valid(files, paths.drop_last(), key, i);
    }
}

/// A committed rotation whose list cannot be read or leaves out one's own key, or of which
/// a staged ciphertext does not open, is refused, and nothing changes.
pub proof fn law_invalid_rotation_is_refused(files: Files, key: Seq<u8>)
    requires
        files.dom().finite(),
        tree::present(files, ".ks-rotate"@),
        tree::present(files, ".ks-rotate/READY"@),
        (secrets::recipients_at(files, ".ks-rotate/RECIPIENTS"@) matches Ok(list)
            ==> !list.contains(rotation::own(key))) || exists|p: Seq<char>| #[trigger]
            listing::listed(files, ".ks-rotate/secrets/"@, p) && !(path::valid_path(p)
                && secrets::unsealed_at(files, ".ks-rotate/secrets/"@, p, key) is Ok),
    ensures
        rotation::rotation_recovery(files, key).result is Err,
        rotation::rotation_recovery(files, key).effects.len() == 0,
{
    let paths = listing::walked(files, ROTATE_SECRETS@);
    listing::lemma_walk_exists(files, ROTATE_SECRETS@);
    if rotation::rotation_validity(files, key) is Ok {
        let p = choose|p: Seq<char>| #[trigger]
            listing::listed(files, ".ks-rotate/secrets/"@, p) && !(path::valid_path(p)
                && secrets::unsealed_at(files, ".ks-rotate/secrets/"@, p, key) is Ok);
        assert(paths.contains(p));
        lemma_staged_valid(files, paths, key, paths.index_of(p));
    }
}

/// A staged rotation without its commit marker is dropped; where nothing is staged there
/// is nothing to do.
pub proof fn law_uncommitted_rotation_is_dropped(files: Files, key: Seq<u8>, n: Seq<char>)
    requires
        !tree::present(files, ".ks-rotate/READY"@),
    ensures
        ({
            let r = rotation::rotation_recovery(files, key);
            let after = tree::replayed(files, r.effects);
            &&& tree::present(files, ".ks-rotate"@) ==> r.result == Ok::<
                RotationRecovery,
                Failure,
            >(RotationRecovery::RolledBack) && (tree::inside(".ks-rotate"@, n)
                ==> !after.contains_key(n)) && (!tree::inside(".ks-rotate"@, n)
                ==> after.contains_key(n) == files.contains_key(n) && (files.contains_key(n)
                ==> after[n] == files[n]))
            &&& !tree::present(files, ".ks-rotate"@) ==> r.result == Ok::<
                RotationRecovery,
                Failure,
            >(RotationRecovery::Clean) && after == files
        }),
{
    let e = Effect::RemoveTree { dir: ROTATE_DIR@ };
    tree::lemma_replayed_push(files, Seq::empty(), e);
    assert(Seq::empty().push(e) =~= seq![e]);
}

} // verus!
