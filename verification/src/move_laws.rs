//! What holds of moves and copies, also of moves that are interrupted.
//!
//! A move makes its changes one after the other. If it is interrupted, some first
//! part of them has been made; the laws say what resolving the interruption then
//! leads to.

use vstd::prelude::*;
use vstd::utf8;

use crate::crypto;
use crate::envelope;
use crate::envelope::Contents;
use crate::error;
use crate::error::{Error, Failure};
use crate::generations;
use crate::generations::GENERATIONS_FILE;
use crate::laws;
use crate::moves;
use crate::moves::{
    MoveNote, MoveRecovery, MOVE_DIR, MOVE_FROM, MOVE_GEN, MOVE_READY, MOVE_SECRETS, MOVE_TO,
};
use crate::path;
use crate::secret::Payload;
use crate::secrets;
use crate::text;
use crate::tree;
use crate::tree::{Effect, Files, Tree};

verus! {

/// Whether the secret at a path is kept outside a staging directory.
pub open spec fn outside(dir: Seq<char>, p: Seq<char>) -> bool {
    !tree::inside(dir, secrets::live_file(p))
}

// ---------------------------------------------------------------------------
// Moves
// ---------------------------------------------------------------------------

/// The names of a move's journal.
proof fn lemma_move_names(to: Seq<char>)
    ensures
        tree::inside(MOVE_DIR@, MOVE_FROM@),
        tree::inside(MOVE_DIR@, MOVE_TO@),
        tree::inside(MOVE_DIR@, MOVE_GEN@),
        tree::inside(MOVE_DIR@, MOVE_READY@),
        tree::inside(MOVE_DIR@, moves::staged_file(to)),
        !tree::inside(MOVE_DIR@, GENERATIONS_FILE@),
        MOVE_FROM@ != MOVE_TO@,
        MOVE_FROM@ != MOVE_GEN@,
        MOVE_FROM@ != MOVE_READY@,
        MOVE_TO@ != MOVE_GEN@,
        MOVE_TO@ != MOVE_READY@,
        MOVE_GEN@ != MOVE_READY@,
        moves::staged_file(to) != MOVE_FROM@,
        moves::staged_file(to) != MOVE_TO@,
        moves::staged_file(to) != MOVE_GEN@,
        moves::staged_file(to) != MOVE_READY@,
        !tree::inside(moves::staged_file(to), MOVE_FROM@),
        !tree::inside(moves::staged_file(to), MOVE_TO@),
        !tree::inside(moves::staged_file(to), MOVE_GEN@),
        !tree::inside(moves::staged_file(to), MOVE_READY@),
        !tree::inside(moves::staged_file(to), moves::staged_file(to)),
        !tree::inside(MOVE_READY@, MOVE_FROM@),
        !tree::inside(MOVE_READY@, MOVE_TO@),
        !tree::inside(MOVE_READY@, MOVE_GEN@),
        !tree::inside(MOVE_READY@, moves::staged_file(to)),
        !tree::inside(MOVE_READY@, MOVE_READY@),
{
    reveal_strlit(".ks-move");
    reveal_strlit(".ks-move/FROM");
    reveal_strlit(".ks-move/TO");
    reveal_strlit(".ks-move/GEN");
    reveal_strlit(".ks-move/READY");
    reveal_strlit(".ks-move/secrets/");
    reveal_strlit(".ks-generations");
    let d = MOVE_DIR@ + seq!['/'];
    let staged = moves::staged_file(to);
    assert(MOVE_FROM@.subrange(0, 9) =~= d);
    assert(MOVE_TO@.subrange(0, 9) =~= d);
    assert(MOVE_GEN@.subrange(0, 9) =~= d);
    assert(MOVE_READY@.subrange(0, 9) =~= d);
    assert(staged.subrange(0, 9) =~= d);
    assert(GENERATIONS_FILE@.subrange(0, 9)[4] != d[4]);
    assert(MOVE_FROM@[9] == 'F');
    assert(MOVE_TO@[9] == 'T');
    assert(MOVE_GEN@[9] == 'G');
    assert(MOVE_READY@[9] == 'R');
    assert(staged[9] == 's');
    let inner = staged + seq!['/'];
    assert(inner[9] == 's');
    lemma_prefix_index(inner, MOVE_FROM@, 9);
    lemma_prefix_index(inner, MOVE_TO@, 9);
    lemma_prefix_index(inner, MOVE_GEN@, 9);
    lemma_prefix_index(inner, MOVE_READY@, 9);
    let ready = MOVE_READY@ + seq!['/'];
    assert(ready[9] == 'R');
    lemma_prefix_index(ready, MOVE_FROM@, 9);
    lemma_prefix_index(ready, MOVE_TO@, 9);
    lemma_prefix_index(ready, MOVE_GEN@, 9);
    lemma_prefix_index(ready, staged, 9);
}

/// A prefix agrees with the whole at each of its positions.
pub proof fn lemma_prefix_index(prefix: Seq<char>, s: Seq<char>, i: int)
    requires
        0 <= i < prefix.len(),
    ensures
        prefix.is_prefix_of(s) ==> s.len() > i && s[i] == prefix[i],
{
    if prefix.is_prefix_of(s) {
        assert(prefix =~= s.subrange(0, prefix.len() as int));
    }
}

/// A move: from where, to where, with which generation, ciphertext and index.
#[verifier::ext_equal]
pub struct Move {
    pub from: Seq<char>,
    pub to: Seq<char>,
    pub generation: u64,
    pub ciphertext: Seq<u8>,
    pub index: Map<Seq<char>, u64>,
}

/// The files after a move.
pub open spec fn after_move(files: Files, m: Move) -> Files {
    files.insert(secrets::live_file(m.to), tree::plain(m.ciphertext)).remove(
        secrets::live_file(m.from),
    ).insert(GENERATIONS_FILE@, tree::plain(generations::index_body(m.index)))
}

/// Whether a tree stands in the middle of a move that is committed: the journal is
/// complete, the ciphertext is staged or in place, and finishing the move leads to
/// the files after it.
pub open spec fn midway(x: Files, files: Files, m: Move) -> bool {
    &&& x.contains_key(MOVE_FROM@)
    &&& x[MOVE_FROM@] == tree::plain(utf8::encode_utf8(m.from))
    &&& x.contains_key(MOVE_TO@)
    &&& x[MOVE_TO@] == tree::plain(utf8::encode_utf8(m.to))
    &&& x.contains_key(MOVE_GEN@)
    &&& x[MOVE_GEN@] == tree::plain(text::decimal_bytes(m.generation as nat))
    &&& x.contains_key(MOVE_READY@)
    &&& x.contains_key(moves::staged_file(m.to)) ==> x[moves::staged_file(m.to)] == tree::plain(
        m.ciphertext,
    )
    &&& !x.contains_key(moves::staged_file(m.to)) ==> x.contains_key(secrets::live_file(m.to))
        && x[secrets::live_file(m.to)] == tree::plain(m.ciphertext)
    &&& forall|n: Seq<char>| #[trigger]
        x.contains_key(n) && tree::inside(MOVE_DIR@, n) ==> n == MOVE_FROM@ || n == MOVE_TO@ || n
            == MOVE_GEN@ || n == MOVE_READY@ || n == moves::staged_file(m.to)
    &&& forall|n: Seq<char>|
        !tree::inside(MOVE_DIR@, n) && n != secrets::live_file(m.to) && n != secrets::live_file(
            m.from,
        ) && n != GENERATIONS_FILE@ ==> (#[trigger] x.contains_key(n) <==> files.contains_key(n))
            && x[n] == files[n]
    &&& secrets::index_at(x) is Ok
    &&& secrets::index_in(x).insert(m.to, m.generation) == m.index
    &&& !tree::has_dir(x, secrets::live_file(m.from))
    &&& x.contains_key(moves::staged_file(m.to)) ==> !tree::blocked(x, secrets::live_file(m.to))
}

/// The index is the same where only the files of a move differ.
proof fn lemma_index_apart(
    x: Files,
    y: Files,
    src: Seq<char>,
    dst: Seq<char>,
    staged: Seq<char>,
)
    requires
        secrets::index_at(x) is Ok,
        src != GENERATIONS_FILE@,
        dst != GENERATIONS_FILE@,
        staged != GENERATIONS_FILE@,
        !tree::inside(GENERATIONS_FILE@, dst),
        y.contains_key(src) ==> x.contains_key(src),
        y.contains_key(staged) ==> x.contains_key(staged),
        forall|n: Seq<char>|
            n != src && n != dst && n != staged ==> (#[trigger] y.contains_key(n)
                <==> x.contains_key(n)) && y[n] == x[n],
    ensures
        secrets::index_at(y) == secrets::index_at(x),
        secrets::index_in(y) == secrets::index_in(x),
{
    assert(y.contains_key(GENERATIONS_FILE@) <==> x.contains_key(GENERATIONS_FILE@));
    if !x.contains_key(GENERATIONS_FILE@) && tree::has_dir(y, GENERATIONS_FILE@) {
        let n = choose|n: Seq<char>| #[trigger]
            y.contains_key(n) && tree::inside(GENERATIONS_FILE@, n);
        assert(x.contains_key(n));
    }
}

/// A path that was written to a file is read back.
proof fn lemma_text_back(x: Files, file: Seq<char>, p: Seq<char>)
    requires
        path::valid_path(p),
        x.contains_key(file),
        x[file].bytes == utf8::encode_utf8(p),
    ensures
        moves::text_at(x, file) == Ok::<Seq<char>, Failure>(p),
{
    utf8::encode_utf8_valid_utf8(p);
    utf8::encode_utf8_decode_utf8(p);
    path::lemma_valid_path_chars(p);
    assert(path::path_char(p[0]) || p[0] == '/');
    assert(path::path_char(p[p.len() - 1]) || p[p.len() - 1] == '/');
    assert(text::trimmed(p) == p);
}

/// A generation that was written to a file is read back.
proof fn lemma_generation_back(x: Files, file: Seq<char>, n: u64)
    requires
        x.contains_key(file),
        x[file].bytes == text::decimal_bytes(n as nat),
    ensures
        moves::generation_at(x, file) == Ok::<u64, Failure>(n),
{
    let s = text::decimal(n as nat);
    text::lemma_decimal_encoding(n as nat);
    text::lemma_decimal_value(n as nat);
    utf8::encode_utf8_valid_utf8(s);
    utf8::encode_utf8_decode_utf8(s);
    text::lemma_decimal_digits(n as nat);
    assert('0' <= s[0] <= '9');
    assert('0' <= s[s.len() - 1] <= '9');
    assert(text::trimmed(s) == s);
    envelope::law_generation_roundtrip(n);
}

/// The journal of a move in the middle is that of the move.
proof fn lemma_midway_note(x: Files, files: Files, m: Move)
    requires
        midway(x, files, m),
        path::valid_path(m.from),
        path::valid_path(m.to),
    ensures
        moves::noted_move(x) == Ok::<MoveNote, Failure>(
            MoveNote { from: m.from, to: m.to, generation: m.generation },
        ),
{
    lemma_text_back(x, MOVE_FROM@, m.from);
    lemma_text_back(x, MOVE_TO@, m.to);
    lemma_generation_back(x, MOVE_GEN@, m.generation);
}

/// Completing a move from the middle leads to the files after it.
#[verifier::spinoff_prover]
proof fn lemma_midway_commit(x: Files, files: Files, m: Move)
    requires
        midway(x, files, m),
        path::valid_path(m.from),
        path::valid_path(m.to),
        m.from != m.to,
        outside(MOVE_DIR@, m.from),
        outside(MOVE_DIR@, m.to),
        !tree::inside(secrets::live_file(m.from), secrets::live_file(m.to)),
        !tree::inside(GENERATIONS_FILE@, secrets::live_file(m.to)),
        !tree::present(files, MOVE_DIR@),
    ensures
        moves::move_commit(x).result is Ok,
        tree::replayed(x, moves::move_commit(x).effects) == after_move(files, m),
{
    lemma_move_names(m.to);
    lemma_midway_note(x, files, m);
    secrets::lemma_live_file_name(m.from);
    secrets::lemma_live_file_name(m.to);
    let src = secrets::live_file(m.from);
    let dst = secrets::live_file(m.to);
    let staged = moves::staged_file(m.to);
    if src == dst {
        path::lemma_file_injective(secrets::top(), m.from, m.to);
    }
    let install = moves::install_effects(x, m.to);
    let f1 = tree::replayed(x, install);
    if x.contains_key(staged) {
        let e = Effect::Replace { from: staged, to: dst };
        tree::lemma_replayed_push(x, Seq::empty(), e);
        assert(Seq::empty().push(e) =~= install);
        assert(f1 == x.remove(staged).insert(dst, x[staged]));
    } else {
        assert(f1 == x);
    }
    assert(f1.contains_key(dst));
    assert(f1[dst] == tree::plain(m.ciphertext));
    assert(!tree::has_dir(f1, src)) by {
        if tree::has_dir(f1, src) {
            let n = choose|n: Seq<char>| #[trigger] f1.contains_key(n) && tree::inside(src, n);
            if n != dst {
                assert(x.contains_key(n));
            }
        }
    }
    let removal = moves::source_effects(f1, m.from);
    let f2 = tree::replayed(f1, removal);
    if f1.contains_key(src) {
        let e = Effect::Remove { file: src, emptied: tree::emptied(f1, src) };
        tree::lemma_replayed_push(f1, Seq::empty(), e);
        assert(Seq::empty().push(e) =~= removal);
        assert(f2 == f1.remove(src));
    } else {
        assert(f2 == f1);
        assert(f2 =~= f1.remove(src));
    }
    assert(secrets::index_at(f2) == secrets::index_at(x)) by {
        lemma_index_apart(x, f2, src, dst, staged);
    }
    let write = secrets::index_write(m.index);
    let f3 = tree::applied(f2, write);
    let finish = moves::finish_effects(f2, m.to, m.generation);
    assert(f3.contains_key(MOVE_READY@));
    assert(tree::present(f3, MOVE_DIR@));
    let drop = Effect::RemoveTree { dir: MOVE_DIR@ };
    assert(finish =~= Seq::empty().push(write).push(drop));
    tree::lemma_replayed_push(f2, Seq::empty(), write);
    tree::lemma_replayed_push(f2, Seq::empty().push(write), drop);
    tree::lemma_replayed_concat(x, install, removal);
    tree::lemma_replayed_concat(x, install + removal, finish);
    let end = tree::without_tree(f3, MOVE_DIR@);
    let goal = after_move(files, m);
    assert forall|n: Seq<char>| #[trigger] end.contains_key(n) <==> goal.contains_key(n) by {
        if tree::inside(MOVE_DIR@, n) {
            assert(!files.contains_key(n));
        } else if n != src && n != dst && n != GENERATIONS_FILE@ {
            assert(x.contains_key(n) <==> files.contains_key(n));
        }
    }
    assert forall|n: Seq<char>| #[trigger] end.contains_key(n) implies end[n] == goal[n] by {
        if n != src && n != dst && n != GENERATIONS_FILE@ {
            assert(x.contains_key(n) <==> files.contains_key(n));
        }
    }
    assert(end =~= goal);
}

/// What is inside a staging directory is not inside the file of a secret that is
/// kept outside.
pub proof fn lemma_staging_apart(dir: Seq<char>, p: Seq<char>, n: Seq<char>)
    requires
        outside(dir, p),
        !dir.contains('/'),
        dir.len() >= 4,
        dir.skip(dir.len() - 4) != path::extension(),
        tree::inside(dir, n),
    ensures
        !tree::inside(secrets::live_file(p), n),
{
    let src = secrets::live_file(p);
    let a = src + seq!['/'];
    let b = dir + seq!['/'];
    if a.is_prefix_of(n) {
        assert(a =~= n.subrange(0, a.len() as int));
        assert(b =~= n.subrange(0, b.len() as int));
        if src.len() > dir.len() {
            assert(src.subrange(0, b.len() as int) =~= b) by {
                assert forall|i: int| 0 <= i < b.len() implies src[i] == b[i] by {
                    assert(a[i] == n[i]);
                    assert(b[i] == n[i]);
                }
            }
        } else if src.len() == dir.len() {
            assert(src =~= dir) by {
                assert forall|i: int| 0 <= i < dir.len() implies src[i] == dir[i] by {
                    assert(a[i] == n[i]);
                    assert(b[i] == n[i]);
                }
            }
            assert(src.skip(src.len() - 4) =~= path::extension());
        } else {
            let i = src.len() as int;
            assert(a[i] == n[i]);
            assert(b[i] == n[i]);
            assert(dir[i] == '/');
            assert(dir.contains(dir[i]));
        }
    }
}

proof fn lemma_move_dir()
    ensures
        !MOVE_DIR@.contains('/'),
        MOVE_DIR@.len() >= 4,
        MOVE_DIR@.skip(MOVE_DIR@.len() - 4) != path::extension(),
{
    reveal_strlit(".ks-move");
    assert(MOVE_DIR@.skip(4)[0] == 'm');
}

/// Resolving an interruption in the middle of a move completes it.
#[verifier::spinoff_prover]
proof fn lemma_midway_recovery(
    x: Files,
    files: Files,
    m: Move,
    c: Contents,
    list: Seq<Seq<char>>,
    key: Seq<u8>,
)
    requires
        midway(x, files, m),
        path::valid_path(m.from),
        path::valid_path(m.to),
        m.from != m.to,
        outside(MOVE_DIR@, m.from),
        outside(MOVE_DIR@, m.to),
        !tree::inside(secrets::live_file(m.from), secrets::live_file(m.to)),
        !tree::inside(GENERATIONS_FILE@, secrets::live_file(m.to)),
        !tree::present(files, MOVE_DIR@),
        crypto::encrypts(
            m.ciphertext,
            envelope::sealed(m.to, c.kind, c.generation, c.payload),
            list,
        ),
        laws::belongs(key, list),
    ensures
        moves::move_recovery(x, key).result == Ok::<MoveRecovery, Failure>(
            MoveRecovery::Completed,
        ),
        tree::replayed(x, moves::move_recovery(x, key).effects) == after_move(files, m),
{
    lemma_move_names(m.to);
    lemma_midway_note(x, files, m);
    lemma_midway_commit(x, files, m);
    assert(tree::present(x, MOVE_DIR@));
    let staged = moves::staged_file(m.to);
    if x.contains_key(staged) {
        laws::lemma_unsealed(x, MOVE_SECRETS@, m.to, c, list, key);
    } else {
        assert(!tree::has_dir(x, staged)) by {
            if tree::has_dir(x, staged) {
                let n = choose|n: Seq<char>| #[trigger]
                    x.contains_key(n) && tree::inside(staged, n);
                assert(tree::inside(MOVE_DIR@, n)) by {
                    let d = MOVE_DIR@ + seq!['/'];
                    let e = staged + seq!['/'];
                    assert(d =~= staged.subrange(0, d.len() as int));
                    assert(e =~= n.subrange(0, e.len() as int));
                    assert(n.subrange(0, d.len() as int) =~= d) by {
                        assert forall|i: int| 0 <= i < d.len() implies n[i] == d[i] by {
                            assert(e[i] == n[i]);
                            assert(staged[i] == d[i]);
                        }
                    }
                }
            }
        }
    }
}

/// What a move starts from: nothing is staged, the source can be read and has a
/// file of its own, nothing is at the destination or in its way, and both are kept
/// outside the staging directory.
pub open spec fn can_move(files: Files, from: Seq<char>, to: Seq<char>, key: Seq<u8>) -> bool {
    &&& !tree::present(files, MOVE_DIR@)
    &&& path::valid_path(from)
    &&& path::valid_path(to)
    &&& !files.contains_key(secrets::live_file(to))
    &&& secrets::checked(files, from, key) is Ok
    &&& outside(MOVE_DIR@, from)
    &&& outside(MOVE_DIR@, to)
    &&& !tree::has_dir(files, secrets::live_file(from))
    &&& secrets::can_write_at(files, to)
}

/// The move that is made of a ciphertext.
pub open spec fn move_of(
    files: Files,
    from: Seq<char>,
    to: Seq<char>,
    ciphertext: Seq<u8>,
) -> Move {
    let generation = generations::next_generation(secrets::index_in(files), to);
    Move {
        from,
        to,
        generation,
        ciphertext,
        index: secrets::index_in(files).insert(to, generation),
    }
}

/// The files with the first of the changes that stage a move, one after the other.
pub open spec fn staged_so_far(files: Files, m: Move, k: int) -> Files {
    let all = moves::staging_effects(m.from, m.to, m.generation, m.ciphertext);
    tree::replayed(files, all.take(k))
}

/// What staging adds is inside the staging directory, and each file is there once
/// its change is made.
proof fn lemma_staged_so_far(files: Files, m: Move, k: int)
    requires
        0 <= k <= 5,
        !tree::present(files, MOVE_DIR@),
    ensures
        ({
            let x = staged_so_far(files, m, k);
            &&& forall|n: Seq<char>|
                !tree::inside(MOVE_DIR@, n) ==> (#[trigger] x.contains_key(n)
                    <==> files.contains_key(n)) && x[n] == files[n]
            &&& forall|n: Seq<char>| #[trigger]
                x.contains_key(n) && tree::inside(MOVE_DIR@, n) ==> n == MOVE_FROM@ || n
                    == MOVE_TO@ || n == MOVE_GEN@ || n == MOVE_READY@ || n == moves::staged_file(
                    m.to,
                )
            &&& x.contains_key(MOVE_READY@) <==> k == 5
            &&& k == 5 ==> x.contains_key(moves::staged_file(m.to)) && x[moves::staged_file(m.to)]
                == tree::plain(m.ciphertext) && x.contains_key(MOVE_FROM@) && x[MOVE_FROM@]
                == tree::plain(utf8::encode_utf8(m.from)) && x.contains_key(MOVE_TO@)
                && x[MOVE_TO@] == tree::plain(utf8::encode_utf8(m.to)) && x.contains_key(MOVE_GEN@)
                && x[MOVE_GEN@] == tree::plain(text::decimal_bytes(m.generation as nat))
        }),
    decreases k,
{
    lemma_move_names(m.to);
    let all = moves::staging_effects(m.from, m.to, m.generation, m.ciphertext);
    if k == 0 {
        assert(all.take(0) =~= Seq::empty());
        assert forall|n: Seq<char>| #[trigger] files.contains_key(n) implies !tree::inside(
            MOVE_DIR@,
            n,
        ) by {
            if tree::inside(MOVE_DIR@, n) {
                assert(tree::has_dir(files, MOVE_DIR@));
            }
        }
    } else {
        lemma_staged_so_far(files, m, k - 1);
        assert(all.take(k) =~= all.take(k - 1).push(all[k - 1]));
        tree::lemma_replayed_push(files, all.take(k - 1), all[k - 1]);
        let before = staged_so_far(files, m, k - 1);
        if k == 1 {
            assert(staged_so_far(files, m, k) == tree::applied(before, all[0]));
        } else if k == 2 {
            assert(staged_so_far(files, m, k) == tree::applied(before, all[1]));
        } else if k == 3 {
            assert(staged_so_far(files, m, k) == tree::applied(before, all[2]));
        } else if k == 4 {
            assert(staged_so_far(files, m, k) == tree::applied(before, all[3]));
        } else {
            assert(staged_so_far(files, m, k) == tree::applied(before, all[4]));
            let a = all;
            assert(all.take(4) =~= Seq::empty().push(a[0]).push(a[1]).push(a[2]).push(a[3]));
            tree::lemma_replayed_push(files, Seq::empty(), a[0]);
            tree::lemma_replayed_push(files, Seq::empty().push(a[0]), a[1]);
            tree::lemma_replayed_push(files, Seq::empty().push(a[0]).push(a[1]), a[2]);
            tree::lemma_replayed_push(
                files,
                Seq::empty().push(a[0]).push(a[1]).push(a[2]),
                a[3],
            );
        }
    }
}

/// Dropping what was staged before the commit gives the files before the move.
proof fn lemma_move_rolls_back(files: Files, m: Move, k: int, key: Seq<u8>)
    requires
        0 <= k < 5,
        !tree::present(files, MOVE_DIR@),
    ensures
        ({
            let x = staged_so_far(files, m, k);
            let recovery = moves::move_recovery(x, key);
            recovery.result is Ok && tree::replayed(x, recovery.effects) == files
        }),
{
    lemma_move_names(m.to);
    lemma_staged_so_far(files, m, k);
    let x = staged_so_far(files, m, k);
    assert(!tree::has_dir(x, MOVE_READY@)) by {
        if tree::has_dir(x, MOVE_READY@) {
            let n = choose|n: Seq<char>| #[trigger]
                x.contains_key(n) && tree::inside(MOVE_READY@, n);
            assert(tree::inside(MOVE_DIR@, n)) by {
                let d = MOVE_DIR@ + seq!['/'];
                let e = MOVE_READY@ + seq!['/'];
                assert(d =~= MOVE_READY@.subrange(0, d.len() as int));
                assert(e =~= n.subrange(0, e.len() as int));
                assert(n.subrange(0, d.len() as int) =~= d) by {
                    assert forall|i: int| 0 <= i < d.len() implies n[i] == d[i] by {
                        assert(e[i] == n[i]);
                        assert(MOVE_READY@[i] == d[i]);
                    }
                }
            }
        }
    }
    let e = Effect::RemoveTree { dir: MOVE_DIR@ };
    tree::lemma_replayed_push(x, Seq::empty(), e);
    assert(Seq::empty().push(e) =~= seq![e]);
    let y = tree::without_tree(x, MOVE_DIR@);
    assert forall|n: Seq<char>| #[trigger] files.contains_key(n) <==> y.contains_key(n) by {
        if tree::inside(MOVE_DIR@, n) {
            if files.contains_key(n) {
                assert(tree::has_dir(files, MOVE_DIR@));
            }
        } else {
            assert(x.contains_key(n) <==> files.contains_key(n));
        }
    }
    assert forall|n: Seq<char>| #[trigger] y.contains_key(n) implies y[n] == files[n] by {
        assert(x.contains_key(n) <==> files.contains_key(n));
    }
    if tree::present(x, MOVE_DIR@) {
        assert(y =~= files);
    } else {
        assert forall|n: Seq<char>| #[trigger] x.contains_key(n) implies !tree::inside(
            MOVE_DIR@,
            n,
        ) by {
            if tree::inside(MOVE_DIR@, n) {
                assert(tree::has_dir(x, MOVE_DIR@));
            }
        }
        assert(x =~= y);
        assert(y =~= files);
    }
}

/// What is staged is not in the index's place.
proof fn lemma_staging_keeps_index(x: Files, files: Files)
    requires
        forall|n: Seq<char>|
            !tree::inside(MOVE_DIR@, n) ==> (#[trigger] x.contains_key(n) <==> files.contains_key(
                n,
            )) && x[n] == files[n],
    ensures
        secrets::index_at(x) == secrets::index_at(files),
        secrets::index_in(x) == secrets::index_in(files),
{
    lemma_move_names(Seq::empty());
    assert(x.contains_key(GENERATIONS_FILE@) <==> files.contains_key(GENERATIONS_FILE@));
    assert forall|n: Seq<char>| tree::inside(GENERATIONS_FILE@, n) implies (
    #[trigger] x.contains_key(n) <==> files.contains_key(n)) by {
        reveal_strlit(".ks-move");
        reveal_strlit(".ks-generations");
        lemma_prefix_index(GENERATIONS_FILE@ + seq!['/'], n, 4);
        lemma_prefix_index(MOVE_DIR@ + seq!['/'], n, 4);
    }
    secrets::lemma_same_index(x, files);
}

/// What is staged is not in the way of a secret that is kept outside.
proof fn lemma_staging_does_not_block(x: Files, files: Files, p: Seq<char>)
    requires
        outside(MOVE_DIR@, p),
        !tree::blocked(files, secrets::live_file(p)),
        forall|n: Seq<char>|
            !tree::inside(MOVE_DIR@, n) ==> (#[trigger] x.contains_key(n) <==> files.contains_key(
                n,
            )) && x[n] == files[n],
    ensures
        !tree::blocked(x, secrets::live_file(p)),
{
    let live = secrets::live_file(p);
    lemma_move_dir();
    assert forall|n: Seq<char>| #[trigger] x.contains_key(n) implies !tree::inside(live, n)
        && !tree::inside(n, live) by {
        if tree::inside(MOVE_DIR@, n) {
            lemma_staging_apart(MOVE_DIR@, p, n);
            if tree::inside(n, live) {
                tree::lemma_inside_inside(MOVE_DIR@, n, live);
            }
        } else {
            assert(files.contains_key(n));
        }
    }
}

/// A move that is completely staged stands in the middle.
proof fn lemma_staged_is_midway(files: Files, m: Move)
    requires
        !tree::present(files, MOVE_DIR@),
        outside(MOVE_DIR@, m.from),
        outside(MOVE_DIR@, m.to),
        !tree::has_dir(files, secrets::live_file(m.from)),
        secrets::can_write_at(files, m.to),
        secrets::index_in(files).insert(m.to, m.generation) == m.index,
    ensures
        midway(staged_so_far(files, m, 5), files, m),
{
    let x = staged_so_far(files, m, 5);
    lemma_move_names(m.to);
    lemma_staged_so_far(files, m, 5);
    lemma_move_dir();
    assert(x.contains_key(GENERATIONS_FILE@) <==> files.contains_key(GENERATIONS_FILE@));
    lemma_staging_keeps_index(x, files);
    lemma_staging_does_not_block(x, files, m.to);
    let src = secrets::live_file(m.from);
    assert(!tree::has_dir(x, src)) by {
        if tree::has_dir(x, src) {
            let n = choose|n: Seq<char>| #[trigger] x.contains_key(n) && tree::inside(src, n);
            if tree::inside(MOVE_DIR@, n) {
                lemma_staging_apart(MOVE_DIR@, m.from, n);
            } else {
                assert(files.contains_key(n));
            }
        }
    }
}

/// The changes that complete a move, and the trees between them, all in the middle
/// but for the last.
#[verifier::spinoff_prover]
proof fn lemma_commit_steps(files: Files, m: Move)
    requires
        path::valid_path(m.from),
        path::valid_path(m.to),
        m.from != m.to,
        outside(MOVE_DIR@, m.from),
        outside(MOVE_DIR@, m.to),
        !tree::inside(secrets::live_file(m.from), secrets::live_file(m.to)),
        !tree::inside(GENERATIONS_FILE@, secrets::live_file(m.to)),
        !tree::has_dir(files, secrets::live_file(m.from)),
        !tree::present(files, MOVE_DIR@),
        files.contains_key(secrets::live_file(m.from)),
        secrets::can_write_at(files, m.to),
        secrets::index_in(files).insert(m.to, m.generation) == m.index,
    ensures
        ({
            let x = staged_so_far(files, m, 5);
            let effects = moves::move_commit(x).effects;
            &&& effects.len() == 4
            &&& midway(tree::replayed(x, effects.take(1)), files, m)
            &&& midway(tree::replayed(x, effects.take(2)), files, m)
            &&& midway(tree::replayed(x, effects.take(3)), files, m)
        }),
{
    let x = staged_so_far(files, m, 5);
    let effects = moves::move_commit(x).effects;
    lemma_staged_is_midway(files, m);
    lemma_midway_commit(x, files, m);
    lemma_midway_note(x, files, m);
    lemma_move_names(m.to);
    secrets::lemma_live_file_name(m.from);
    secrets::lemma_live_file_name(m.to);
    let src = secrets::live_file(m.from);
    let dst = secrets::live_file(m.to);
    let staged = moves::staged_file(m.to);
    if src == dst {
        path::lemma_file_injective(secrets::top(), m.from, m.to);
    }
    lemma_staged_so_far(files, m, 5);
    assert(x.contains_key(src) <==> files.contains_key(src));
    let e1 = Effect::Replace { from: staged, to: dst };
    let x1 = tree::applied(x, e1);
    let install = moves::install_effects(x, m.to);
    assert(install == seq![e1]);
    tree::lemma_replayed_push(x, Seq::empty(), e1);
    assert(Seq::empty().push(e1) =~= install);
    let e2 = Effect::Remove { file: src, emptied: tree::emptied(x1, src) };
    let x2 = tree::applied(x1, e2);
    let removal = moves::source_effects(x1, m.from);
    assert(x1.contains_key(src));
    assert(removal == seq![e2]);
    tree::lemma_replayed_push(x1, Seq::empty(), e2);
    assert(Seq::empty().push(e2) =~= removal);
    assert(secrets::index_at(x1) == secrets::index_at(x)) by {
        lemma_index_apart(x, x1, src, dst, staged);
    }
    assert(secrets::index_at(x2) == secrets::index_at(x)) by {
        lemma_index_apart(x, x2, src, dst, staged);
    }
    let e3 = secrets::index_write(m.index);
    let x3 = tree::applied(x2, e3);
    let e4 = Effect::RemoveTree { dir: MOVE_DIR@ };
    assert(x3.contains_key(MOVE_READY@));
    assert(tree::present(x3, MOVE_DIR@));
    assert(moves::finish_effects(x2, m.to, m.generation) =~= seq![e3, e4]);
    assert(!tree::has_dir(x1, src)) by {
        if tree::has_dir(x1, src) {
            let n = choose|n: Seq<char>| #[trigger] x1.contains_key(n) && tree::inside(src, n);
            if n != dst {
                assert(x.contains_key(n));
            }
        }
    }
    assert(tree::present(x1, dst));
    assert(effects =~= seq![e1, e2, e3, e4]);
    assert(effects.take(1) =~= Seq::empty().push(e1));
    assert(effects.take(2) =~= Seq::empty().push(e1).push(e2));
    assert(effects.take(3) =~= Seq::empty().push(e1).push(e2).push(e3));
    tree::lemma_replayed_push(x, Seq::empty().push(e1), e2);
    tree::lemma_replayed_push(x, Seq::empty().push(e1).push(e2), e3);
    assert(midway(x1, files, m));
    assert(!tree::has_dir(x2, src)) by {
        if tree::has_dir(x2, src) {
            let n = choose|n: Seq<char>| #[trigger] x2.contains_key(n) && tree::inside(src, n);
            assert(x1.contains_key(n));
        }
    }
    assert(midway(x2, files, m));
    assert(!tree::has_dir(x3, src)) by {
        if tree::has_dir(x3, src) {
            let n = choose|n: Seq<char>| #[trigger] x3.contains_key(n) && tree::inside(src, n);
            if n == GENERATIONS_FILE@ {
                lemma_index_not_inside(src, n);
            } else {
                assert(x2.contains_key(n));
            }
        }
    }
    laws::lemma_index_valid(files);
    laws::lemma_index_after_write(x2, m.index);
    assert(m.index.insert(m.to, m.generation) =~= m.index);
    assert(midway(x3, files, m));
}

/// The index is a file at the root.
proof fn lemma_index_not_inside(dir: Seq<char>, n: Seq<char>)
    requires
        n == GENERATIONS_FILE@,
    ensures
        !tree::inside(dir, n),
{
    reveal_strlit(".ks-generations");
    assert(!n.contains('/'));
    let d = dir + seq!['/'];
    if d.is_prefix_of(n) {
        assert(d =~= n.subrange(0, d.len() as int));
        assert(n[dir.len() as int] == d[dir.len() as int]);
        assert(n.contains(n[dir.len() as int]));
    }
}

/// What a move makes of the files, and all the changes it makes.
proof fn lemma_move_shape(
    files: Files,
    from: Seq<char>,
    to: Seq<char>,
    key: Seq<u8>,
    ct: Seq<u8>,
)
    requires
        can_move(files, from, to, key),
    ensures
        ({
            let m = move_of(files, from, to, ct);
            let x = staged_so_far(files, m, 5);
            let outcome = moves::move_outcome(files, from, to, key, ct);
            &&& from != to
            &&& files.contains_key(secrets::live_file(from))
            &&& outcome.effects == moves::staging_effects(from, to, m.generation, ct)
                + moves::move_commit(x).effects
            &&& outcome.result == moves::move_commit(x).result
            &&& outcome.result is Ok
            &&& tree::replayed(files, outcome.effects) == after_move(files, m)
        }),
{
    let m = move_of(files, from, to, ct);
    let x = staged_so_far(files, m, 5);
    let staging = moves::staging_effects(from, to, m.generation, ct);
    let none = Seq::<Effect>::empty();
    assert(moves::move_recovery(files, key).effects == none);
    assert(moves::settled(files, key) == files);
    assert(moves::dropped(files, MOVE_DIR@) == none);
    assert(none + staging =~= staging);
    assert(staging.take(5) =~= staging);
    assert(none + staging + moves::move_commit(x).effects =~= staging + moves::move_commit(
        x,
    ).effects);
    lemma_staged_is_midway(files, m);
    lemma_midway_commit(x, files, m);
    tree::lemma_replayed_concat(files, staging, moves::move_commit(x).effects);
}

/// A move that is interrupted anywhere is resolved without loss: before the commit
/// marker was written the files are again those before the move; from then on they
/// are those after it.
#[verifier::spinoff_prover]
#[verifier::rlimit(40)]
pub proof fn law_move_is_crash_consistent(
    files: Files,
    from: Seq<char>,
    to: Seq<char>,
    key: Seq<u8>,
    list: Seq<Seq<char>>,
    ct: Seq<u8>,
    k: int,
)
    requires
        can_move(files, from, to, key),
        moves::reseals(files, from, to, key, list, ct),
        laws::belongs(key, list),
        0 <= k <= moves::move_outcome(files, from, to, key, ct).effects.len(),
    ensures
        ({
            let all = moves::move_outcome(files, from, to, key, ct).effects;
            let interrupted = tree::replayed(files, all.take(k));
            let recovery = moves::move_recovery(interrupted, key);
            let marker = moves::staging_effects(
                from,
                to,
                generations::next_generation(secrets::index_in(files), to),
                ct,
            ).len();
            &&& recovery.result is Ok
            &&& k < marker ==> tree::replayed(interrupted, recovery.effects) == files
            &&& k >= marker ==> tree::replayed(interrupted, recovery.effects) == tree::replayed(
                files,
                all,
            )
        }),
{
    let m = move_of(files, from, to, ct);
    let x = staged_so_far(files, m, 5);
    let staging = moves::staging_effects(from, to, m.generation, ct);
    let commit = moves::move_commit(x).effects;
    let all = moves::move_outcome(files, from, to, key, ct).effects;
    let c0 = secrets::checked(files, from, key)->Ok_0;
    let c = Contents { kind: c0.kind, generation: m.generation, payload: c0.payload };
    lemma_move_shape(files, from, to, key, ct);
    assert(!tree::inside(secrets::live_file(from), secrets::live_file(to)));
    lemma_commit_steps(files, m);
    lemma_staged_is_midway(files, m);
    if k < 5 {
        assert(all.take(k) =~= staging.take(k));
        lemma_move_rolls_back(files, m, k, key);
    } else {
        assert(all.take(k) =~= staging + commit.take(k - 5));
        tree::lemma_replayed_concat(files, staging, commit.take(k - 5));
        assert(staging.take(5) =~= staging);
        let y = tree::replayed(x, commit.take(k - 5));
        if k == 5 {
            assert(commit.take(0) =~= Seq::empty());
            lemma_midway_recovery(x, files, m, c, list, key);
        } else if k == 6 {
            lemma_midway_recovery(y, files, m, c, list, key);
        } else if k == 7 {
            lemma_midway_recovery(y, files, m, c, list, key);
        } else if k == 8 {
            lemma_midway_recovery(y, files, m, c, list, key);
        } else {
            assert(commit.take(4) =~= commit);
            assert(y == after_move(files, m));
            lemma_move_names(to);
            assert(!tree::present(y, MOVE_DIR@)) by {
                if tree::has_dir(y, MOVE_DIR@) {
                    let n = choose|n: Seq<char>| #[trigger]
                        y.contains_key(n) && tree::inside(MOVE_DIR@, n);
                    if files.contains_key(n) {
                        assert(tree::has_dir(files, MOVE_DIR@));
                    }
                }
                lemma_move_dir_name(from, to);
            }
        }
    }
}

/// The staging directory has the name of no file that a move touches.
proof fn lemma_move_dir_name(from: Seq<char>, to: Seq<char>)
    ensures
        secrets::live_file(from) != MOVE_DIR@,
        secrets::live_file(to) != MOVE_DIR@,
        GENERATIONS_FILE@ != MOVE_DIR@,
{
    reveal_strlit(".ks-move");
    reveal_strlit(".ks-generations");
    lemma_move_dir();
    let a = secrets::live_file(from);
    let b = secrets::live_file(to);
    assert(a.skip(a.len() - 4) =~= path::extension());
    assert(b.skip(b.len() - 4) =~= path::extension());
}

// ---------------------------------------------------------------------------
// What a move and a copy lead to
// ---------------------------------------------------------------------------

/// A move that comes upon an interrupted one resolves it, and then does what it would
/// do on the files that this leads to.
proof fn lemma_move_after_recovery(
    files: Files,
    from: Seq<char>,
    to: Seq<char>,
    key: Seq<u8>,
    ct: Seq<u8>,
)
    requires
        secrets::relocation(files, from, to) is Ok,
        moves::move_recovery(files, key).result is Ok,
        can_move(moves::settled(files, key), from, to, key),
    ensures
        ({
            let settled = moves::settled(files, key);
            let outcome = moves::move_outcome(files, from, to, key, ct);
            let then = moves::move_outcome(settled, from, to, key, ct);
            &&& outcome.result == then.result
            &&& tree::replayed(files, outcome.effects) == tree::replayed(settled, then.effects)
        }),
{
    let settled = moves::settled(files, key);
    let first = moves::move_recovery(files, key).effects;
    let none = Seq::<Effect>::empty();
    let then = moves::move_outcome(settled, from, to, key, ct);
    assert(moves::move_recovery(settled, key).effects == none);
    assert(moves::settled(settled, key) == settled);
    let stage = moves::dropped(settled, MOVE_DIR@) + moves::staging_effects(
        from,
        to,
        generations::next_generation(secrets::index_in(settled), to),
        ct,
    );
    let commit = moves::move_commit(tree::replayed(settled, stage)).effects;
    assert(then.effects == none + stage + commit);
    assert(none + stage =~= stage);
    assert(first + stage + commit =~= first + (stage + commit));
    tree::lemma_replayed_concat(files, first, stage + commit);
}

/// A move succeeds where the source can be read; then the destination has what the
/// source had, for every recipient, with a generation above the recorded one; the
/// source is gone, its line in the index is not; and nothing else changes. A move
/// that was interrupted before is resolved first.
pub proof fn law_get_after_rename(
    before: Tree,
    after: Tree,
    from: Seq<char>,
    to: Seq<char>,
    key: Seq<u8>,
    list: Seq<Seq<char>>,
    result: Result<(), Error>,
    reader: Seq<u8>,
    other: Seq<char>,
)
    requires
        path::valid_path(from),
        path::valid_path(to),
        tree::present(before.files(), secrets::live_file(from)),
        !before.files().contains_key(secrets::live_file(to)),
        moves::move_recovery(before.files(), key).result is Ok,
        can_move(moves::settled(before.files(), key), from, to, key),
        moves::moved(before, after, from, to, key, list, result),
        laws::belongs(reader, list),
        other != from,
        other != to,
    ensures
        ({
            let files = moves::settled(before.files(), key);
            &&& result is Ok
            &&& secrets::got(after.files(), to, reader) == secrets::got(files, from, key)
            &&& secrets::got(after.files(), to, reader) is Ok
            &&& !secrets::holds(after.files(), from)
            &&& secrets::index_in(after.files()) == secrets::index_in(files).insert(
                to,
                generations::next_generation(secrets::index_in(files), to),
            )
            &&& secrets::holds(files, other) ==> secrets::holds(after.files(), other)
                && secrets::got(after.files(), other, reader) == secrets::got(
                files,
                other,
                reader,
            )
        }),
{
    let files = moves::settled(before.files(), key);
    let ct = choose|ct: Seq<u8>|
        #![trigger moves::move_outcome(before.files(), from, to, key, ct)]
        moves::move_reseals(before.files(), from, to, key, list, ct) && tree::advanced(
            before,
            after,
            moves::move_outcome(before.files(), from, to, key, ct).effects,
        ) && error::agrees(result, moves::move_outcome(before.files(), from, to, key, ct).result);
    let m = move_of(files, from, to, ct);
    lemma_move_after_recovery(before.files(), from, to, key, ct);
    lemma_move_shape(files, from, to, key, ct);
    secrets::lemma_live_file_name(from);
    secrets::lemma_live_file_name(to);
    secrets::lemma_live_file_name(other);
    if secrets::live_file(from) == secrets::live_file(to) {
        path::lemma_file_injective(secrets::top(), from, to);
    }
    if secrets::live_file(other) == secrets::live_file(to) {
        path::lemma_file_injective(secrets::top(), other, to);
    }
    if secrets::live_file(other) == secrets::live_file(from) {
        path::lemma_file_injective(secrets::top(), other, from);
    }
    laws::lemma_index_valid(files);
    generations::law_index_roundtrip(m.index);
    let c0 = secrets::checked(files, from, key)->Ok_0;
    let c = Contents { kind: c0.kind, generation: m.generation, payload: c0.payload };
    laws::lemma_unsealed(after.files(), secrets::top(), to, c, list, reader);
}

/// Nobody else reads a secret that was moved: what is at the destination is made for
/// the recipients alone, and a key that belongs to none of them is refused, if what
/// was made for others keeps it out.
pub proof fn law_stranger_after_rename(
    before: Tree,
    after: Tree,
    from: Seq<char>,
    to: Seq<char>,
    key: Seq<u8>,
    list: Seq<Seq<char>>,
    result: Result<(), Error>,
    reader: Seq<u8>,
)
    requires
        path::valid_path(from),
        path::valid_path(to),
        tree::present(before.files(), secrets::live_file(from)),
        !before.files().contains_key(secrets::live_file(to)),
        moves::move_recovery(before.files(), key).result is Ok,
        can_move(moves::settled(before.files(), key), from, to, key),
        moves::moved(before, after, from, to, key, list, result),
        crypto::is_stranger(reader, list),
        crypto::keeps_out(after.files()[secrets::live_file(to)].bytes, list, reader),
    ensures
        secrets::got(after.files(), to, reader) == Err::<Payload, Failure>(Failure::Decrypt),
{
    let files = moves::settled(before.files(), key);
    let ct = choose|ct: Seq<u8>|
        #![trigger moves::move_outcome(before.files(), from, to, key, ct)]
        moves::move_reseals(before.files(), from, to, key, list, ct) && tree::advanced(
            before,
            after,
            moves::move_outcome(before.files(), from, to, key, ct).effects,
        ) && error::agrees(result, moves::move_outcome(before.files(), from, to, key, ct).result);
    let m = move_of(files, from, to, ct);
    lemma_move_after_recovery(before.files(), from, to, key, ct);
    lemma_move_shape(files, from, to, key, ct);
    secrets::lemma_live_file_name(to);
    if secrets::live_file(from) == secrets::live_file(to) {
        path::lemma_file_injective(secrets::top(), from, to);
    }
    let c = secrets::checked(files, from, key)->Ok_0;
    let plaintext = envelope::sealed(to, c.kind, m.generation, c.payload);
    laws::lemma_shut(after.files(), secrets::top(), to, plaintext, list, reader);
}

/// Nobody else reads a copy: it is made for the recipients alone, and a key that
/// belongs to none of them is refused, if what was made for others keeps it out.
pub proof fn law_stranger_after_copy(
    before: Tree,
    after: Tree,
    from: Seq<char>,
    to: Seq<char>,
    key: Seq<u8>,
    list: Seq<Seq<char>>,
    reader: Seq<u8>,
)
    requires
        moves::copied(before, after, from, to, key, list, Ok(())),
        crypto::is_stranger(reader, list),
        crypto::keeps_out(after.files()[secrets::live_file(to)].bytes, list, reader),
    ensures
        secrets::got(after.files(), to, reader) == Err::<Payload, Failure>(Failure::Decrypt),
{
    let payload = lemma_copied_is_written(before, after, from, to, key, list);
    laws::law_stranger_reads_nothing(before, after, to, payload, list, reader);
}

/// A copy that succeeded is a write at the destination.
proof fn lemma_copied_is_written(
    before: Tree,
    after: Tree,
    from: Seq<char>,
    to: Seq<char>,
    key: Seq<u8>,
    list: Seq<Seq<char>>,
) -> (payload: Payload)
    requires
        moves::copied(before, after, from, to, key, list, Ok(())),
    ensures
        path::valid_path(to),
        secrets::wrote(before, after, to, payload, list),
{
    let files = before.files();
    let ct = choose|ct: Seq<u8>|
        #![trigger moves::copy_outcome(before.files(), from, to, key, ct)]
        (secrets::relocation(before.files(), from, to) is Ok ==> moves::reseals(
            before.files(),
            from,
            to,
            key,
            list,
            ct,
        )) && tree::advanced(
            before,
            after,
            moves::copy_outcome(before.files(), from, to, key, ct).effects,
        ) && error::agrees(
            Ok::<(), Error>(()),
            moves::copy_outcome(before.files(), from, to, key, ct).result,
        );
    let c = secrets::checked(files, from, key)->Ok_0;
    let payload = Payload { bytes: c.payload, kind: c.kind };
    assert(secrets::seals_next(files, to, payload, list, ct));
    assert(tree::advanced(before, after, secrets::write_outcome(files, to, ct).effects));
    payload
}

/// A copy succeeds where the source can be read and the destination is free; then
/// the destination has what the source has, for every recipient; and the source
/// and all other secrets stay.
pub proof fn law_get_after_copy(
    before: Tree,
    after: Tree,
    from: Seq<char>,
    to: Seq<char>,
    key: Seq<u8>,
    list: Seq<Seq<char>>,
    result: Result<(), Error>,
    reader: Seq<u8>,
    other: Seq<char>,
)
    requires
        path::valid_path(from),
        path::valid_path(to),
        !before.files().contains_key(secrets::live_file(to)),
        secrets::checked(before.files(), from, key) is Ok,
        secrets::can_write_at(before.files(), to),
        moves::copied(before, after, from, to, key, list, result),
        laws::belongs(reader, list),
        other != to,
    ensures
        result is Ok,
        secrets::got(after.files(), to, reader) == secrets::got(before.files(), from, key),
        secrets::got(after.files(), to, reader) is Ok,
        secrets::index_in(after.files()) == secrets::index_in(before.files()).insert(
            to,
            generations::next_generation(secrets::index_in(before.files()), to),
        ),
        secrets::holds(before.files(), other) ==> secrets::holds(after.files(), other)
            && secrets::got(after.files(), other, reader) == secrets::got(
            before.files(),
            other,
            reader,
        ),
{
    let files = before.files();
    let ct = choose|ct: Seq<u8>|
        #![trigger moves::copy_outcome(before.files(), from, to, key, ct)]
        (secrets::relocation(before.files(), from, to) is Ok ==> moves::reseals(
            before.files(),
            from,
            to,
            key,
            list,
            ct,
        )) && tree::advanced(
            before,
            after,
            moves::copy_outcome(before.files(), from, to, key, ct).effects,
        ) && error::agrees(result, moves::copy_outcome(before.files(), from, to, key, ct).result);
    let c = secrets::checked(files, from, key)->Ok_0;
    let payload = Payload { bytes: c.payload, kind: c.kind };
    assert(secrets::seals_next(files, to, payload, list, ct));
    assert(secrets::wrote(before, after, to, payload, list)) by {
        assert(tree::advanced(before, after, secrets::write_outcome(files, to, ct).effects));
    }
    laws::law_get_after_set(before, after, to, payload, list, reader);
    laws::law_set_raises_generation(before, after, to, payload, list);
    if secrets::holds(files, other) {
        laws::law_set_keeps_others(before, after, to, payload, list, other, reader);
    }
}

/// Once a directory is dropped it is not there, unless a file has its name.
pub proof fn lemma_dropped(files: Files, dir: Seq<char>)
    requires
        !files.contains_key(dir),
    ensures
        !tree::present(tree::replayed(files, moves::dropped(files, dir)), dir),
{
    let e = Effect::RemoveTree { dir };
    tree::lemma_replayed_push(files, Seq::empty(), e);
    assert(Seq::empty().push(e) =~= seq![e]);
    if tree::present(files, dir) {
        let after = tree::without_tree(files, dir);
        if tree::has_dir(after, dir) {
            let n = choose|n: Seq<char>| #[trigger]
                after.contains_key(n) && tree::inside(dir, n);
        }
    }
}

/// Resolving an interrupted move leaves nothing to resolve, as long as no file has
/// the name of the staging directory.
pub proof fn law_move_recovery_is_final(files: Files, key: Seq<u8>)
    requires
        moves::move_recovery(files, key).result is Ok,
        !files.contains_key(MOVE_DIR@),
    ensures
        ({
            let settled = moves::settled(files, key);
            moves::move_recovery(settled, key).result == Ok::<MoveRecovery, Failure>(
                MoveRecovery::Clean,
            ) && moves::settled(settled, key) == settled
        }),
{
    let settled = moves::settled(files, key);
    assert(!tree::present(settled, MOVE_DIR@)) by {
        if tree::present(files, MOVE_DIR@) {
            if !tree::present(files, MOVE_READY@) {
                lemma_dropped(files, MOVE_DIR@);
                assert(moves::dropped(files, MOVE_DIR@) == seq![
                    Effect::RemoveTree { dir: MOVE_DIR@ },
                ]);
            } else {
                let note = moves::noted_move(files)->Ok_0;
                lemma_move_dir_name(note.from, note.to);
                let install = moves::install_effects(files, note.to);
                let f1 = tree::replayed(files, install);
                let e1 = Effect::Replace {
                    from: moves::staged_file(note.to),
                    to: secrets::live_file(note.to),
                };
                tree::lemma_replayed_push(files, Seq::empty(), e1);
                assert(Seq::empty().push(e1) =~= seq![e1]);
                assert(!f1.contains_key(MOVE_DIR@));
                let removal = moves::source_effects(f1, note.from);
                let src = secrets::live_file(note.from);
                let e2 = Effect::Remove { file: src, emptied: tree::emptied(f1, src) };
                tree::lemma_replayed_push(f1, Seq::empty(), e2);
                assert(Seq::empty().push(e2) =~= seq![e2]);
                let f2 = tree::replayed(f1, removal);
                assert(!f2.contains_key(MOVE_DIR@));
                let finish = moves::finish_effects(f2, note.to, note.generation);
                let write = secrets::index_write(
                    secrets::index_in(f2).insert(note.to, note.generation),
                );
                let f3 = tree::applied(f2, write);
                tree::lemma_replayed_push(f2, Seq::empty(), write);
                assert(Seq::empty().push(write) =~= seq![write]);
                tree::lemma_replayed_concat(f2, seq![write], moves::dropped(f3, MOVE_DIR@));
                lemma_dropped(f3, MOVE_DIR@);
                tree::lemma_replayed_concat(files, install, removal);
                tree::lemma_replayed_concat(files, install + removal, finish);
            }
        }
    }
}

/// A secret that can be read is moved to a free path, whatever the index says of that
/// path: the destination has what the source had, with the key of every recipient, and
/// the source is gone.
pub proof fn law_rename(
    before: Tree,
    after: Tree,
    from: Seq<char>,
    to: Seq<char>,
    key: Seq<u8>,
    list: Seq<Seq<char>>,
    result: Result<(), Error>,
    reader: Seq<u8>,
    payload: Payload,
)
    requires
        path::valid_path(from),
        path::valid_path(to),
        from != to,
        secrets::got(before.files(), from, key) == Ok::<Payload, Failure>(payload),
        forall|n: Seq<char>| #[trigger]
            before.files().contains_key(n) ==> n != MOVE_DIR@ && !tree::inside(MOVE_DIR@, n)
                && !tree::inside(from + ".age"@, n) && !tree::inside(to + ".age"@, n) && n != to
                + ".age"@ && !tree::inside(n, to + ".age"@),
        !tree::inside(GENERATIONS_FILE@, to + ".age"@),
        outside(MOVE_DIR@, from),
        outside(MOVE_DIR@, to),
        moves::moved(before, after, from, to, key, list, result),
        laws::belongs(reader, list),
    ensures
        result is Ok,
        secrets::got(after.files(), to, reader) == Ok::<Payload, Failure>(payload),
        !after.files().contains_key(from + ".age"@),
        secrets::index_in(after.files()).contains_key(to),
        forall|p: Seq<char>|
            p != to ==> (#[trigger] secrets::index_in(after.files()).contains_key(p)
                == secrets::index_in(before.files()).contains_key(p)) && secrets::index_in(
                after.files(),
            )[p] == secrets::index_in(before.files())[p],
        forall|p: Seq<char>|
            p != from && p != to && #[trigger] secrets::holds(before.files(), p)
                ==> secrets::holds(after.files(), p) && secrets::got(after.files(), p, reader)
                == secrets::got(before.files(), p, reader),
{
    let files = before.files();
    secrets::law_holds(files, from);
    secrets::law_holds(files, to);
    secrets::law_holds(after.files(), from);
    secrets::law_way_is_free(files, to);
    assert(!tree::present(files, MOVE_DIR@));
    assert(!tree::has_dir(files, secrets::live_file(from)));
    assert(moves::settled(files, key) == files);
    assert(secrets::can_write_at(files, to));
    let aside = lemma_other_path(from, to);
    law_get_after_rename(before, after, from, to, key, list, result, reader, aside);
    assert forall|p: Seq<char>|
        p != from && p != to && #[trigger] secrets::holds(before.files(), p) implies secrets::holds(
        after.files(),
        p,
    ) && secrets::got(after.files(), p, reader) == secrets::got(before.files(), p, reader) by {
        law_get_after_rename(before, after, from, to, key, list, result, reader, p);
    }
}

/// There is a path that is neither of two.
proof fn lemma_other_path(a: Seq<char>, b: Seq<char>) -> (c: Seq<char>)
    ensures
        c != a,
        c != b,
{
    let c = a + b + seq!['/'];
    assert(c.len() > a.len() && c.len() > b.len());
    c
}

/// A secret that can be read is copied to a free path, whatever the index says of that
/// path: the destination has what the source has, with the key of every recipient, and
/// the source and every other secret stay.
pub proof fn law_copy(
    before: Tree,
    after: Tree,
    from: Seq<char>,
    to: Seq<char>,
    key: Seq<u8>,
    list: Seq<Seq<char>>,
    result: Result<(), Error>,
    reader: Seq<u8>,
    payload: Payload,
)
    requires
        path::valid_path(from),
        path::valid_path(to),
        secrets::got(before.files(), from, key) == Ok::<Payload, Failure>(payload),
        forall|n: Seq<char>| #[trigger]
            before.files().contains_key(n) ==> n != to + ".age"@ && !tree::inside(to + ".age"@, n)
                && !tree::inside(n, to + ".age"@),
        !tree::inside(GENERATIONS_FILE@, to + ".age"@),
        moves::copied(before, after, from, to, key, list, result),
        laws::belongs(reader, list),
    ensures
        result is Ok,
        secrets::got(after.files(), to, reader) == Ok::<Payload, Failure>(payload),
        forall|p: Seq<char>|
            p != to && #[trigger] secrets::holds(before.files(), p) ==> secrets::holds(
                after.files(),
                p,
            ) && secrets::got(after.files(), p, reader) == secrets::got(before.files(), p, reader),
{
    let files = before.files();
    secrets::law_holds(files, from);
    secrets::law_holds(files, to);
    secrets::law_way_is_free(files, to);
    let aside = lemma_other_path(from, to);
    law_get_after_copy(before, after, from, to, key, list, result, reader, aside);
    assert forall|p: Seq<char>| p != to && #[trigger] secrets::holds(before.files(), p) implies
        secrets::holds(after.files(), p) && secrets::got(after.files(), p, reader) == secrets::got(
        before.files(),
        p,
        reader,
    ) by {
        law_get_after_copy(before, after, from, to, key, list, result, reader, p);
    }
}

/// Where nothing is staged there is nothing to recover, and nothing changes.
pub proof fn law_nothing_staged(files: Files, key: Seq<u8>)
    requires
        forall|n: Seq<char>| #[trigger]
            files.contains_key(n) ==> n != ".ks-move"@ && !tree::inside(".ks-move"@, n),
    ensures
        moves::move_recovery(files, key).result == Ok::<MoveRecovery, Failure>(
            MoveRecovery::Clean,
        ),
        moves::settled(files, key) == files,
{
}

/// An interrupted move is completed only if its commit marker is there, both its paths
/// are acceptable, and the staged ciphertext opens at the destination; where none is
/// staged any more, the destination is there.
pub proof fn law_completed_move_was_valid(files: Files, key: Seq<u8>)
    requires
        moves::move_recovery(files, key).result == Ok::<MoveRecovery, Failure>(
            MoveRecovery::Completed,
        ),
    ensures
        tree::present(files, ".ks-move/READY"@),
        moves::noted_move(files) matches Ok(note) && path::valid_path(note.from)
            && path::valid_path(note.to) && (tree::present(files, moves::staged_file(note.to))
            ==> secrets::unsealed_at(files, ".ks-move/secrets/"@, note.to, key) is Ok) && (
        !tree::present(files, moves::staged_file(note.to)) ==> tree::present(
            files,
            secrets::live_file(note.to),
        )),
{
}

/// A committed move whose notes cannot be read, or whose staged ciphertext does not open,
/// is refused, and nothing changes.
pub proof fn law_invalid_move_is_refused(files: Files, key: Seq<u8>)
    requires
        tree::present(files, ".ks-move"@),
        tree::present(files, ".ks-move/READY"@),
        moves::noted_move(files) matches Ok(note) ==> tree::present(
            files,
            moves::staged_file(note.to),
        ) && secrets::unsealed_at(files, ".ks-move/secrets/"@, note.to, key) is Err,
    ensures
        moves::move_recovery(files, key).result is Err,
        moves::settled(files, key) == files,
{
}

/// A staged move without its commit marker is dropped: the staged files go, and every
/// other file is as it was.
pub proof fn law_uncommitted_move_is_dropped(files: Files, key: Seq<u8>, n: Seq<char>)
    requires
        tree::present(files, ".ks-move"@),
        !tree::present(files, ".ks-move/READY"@),
    ensures
        moves::move_recovery(files, key).result == Ok::<MoveRecovery, Failure>(
            MoveRecovery::RolledBack,
        ),
        tree::inside(".ks-move"@, n) ==> !moves::settled(files, key).contains_key(n),
        !tree::inside(".ks-move"@, n) ==> moves::settled(files, key).contains_key(n)
            == files.contains_key(n) && (files.contains_key(n) ==> moves::settled(files, key)[n]
            == files[n]),
{
    let e = Effect::RemoveTree { dir: MOVE_DIR@ };
    tree::lemma_replayed_push(files, Seq::empty(), e);
    assert(Seq::empty().push(e) =~= seq![e]);
}

/// The note of a staged move is read from three files: the paths that it leaves and goes
/// to, and the generation, white space around them aside.
pub proof fn law_move_note(
    files: Files,
    before: Seq<char>,
    from: Seq<char>,
    to: Seq<char>,
    generation: u64,
    after: Seq<char>,
)
    requires
        forall|i: int| 0 <= i < before.len() ==> text::white(#[trigger] before[i]),
        forall|i: int| 0 <= i < after.len() ==> text::white(#[trigger] after[i]),
        files.contains_key(".ks-move/FROM"@),
        files[".ks-move/FROM"@].bytes == utf8::encode_utf8(before + from + after),
        files.contains_key(".ks-move/TO"@),
        files[".ks-move/TO"@].bytes == utf8::encode_utf8(before + to + after),
        files.contains_key(".ks-move/GEN"@),
        files[".ks-move/GEN"@].bytes == utf8::encode_utf8(
            before + text::decimal(generation as nat) + after,
        ),
        path::valid_path(from),
        path::valid_path(to),
    ensures
        moves::noted_move(files) == Ok::<moves::MoveNote, Failure>(
            moves::MoveNote { from, to, generation },
        ),
{
    let digits = text::decimal(generation as nat);
    lemma_padded_text(files, MOVE_FROM@, before, from, after);
    lemma_padded_text(files, MOVE_TO@, before, to, after);
    text::lemma_decimal_encoding(generation as nat);
    text::lemma_decimal_value(generation as nat);
    text::lemma_decimal_digits(generation as nat);
    let s = before + digits + after;
    utf8::encode_utf8_valid_utf8(s);
    utf8::encode_utf8_decode_utf8(s);
    assert('0' <= digits[0] <= '9');
    assert('0' <= digits[digits.len() - 1] <= '9');
    text::law_trimmed(before, digits, after);
    envelope::law_generation_roundtrip(generation);
}

/// A path in a file is read back, white space around it aside.
proof fn lemma_padded_text(
    files: Files,
    file: Seq<char>,
    before: Seq<char>,
    p: Seq<char>,
    after: Seq<char>,
)
    requires
        forall|i: int| 0 <= i < before.len() ==> text::white(#[trigger] before[i]),
        forall|i: int| 0 <= i < after.len() ==> text::white(#[trigger] after[i]),
        path::valid_path(p),
        files.contains_key(file),
        files[file].bytes == utf8::encode_utf8(before + p + after),
    ensures
        moves::text_at(files, file) == Ok::<Seq<char>, Failure>(p),
{
    let s = before + p + after;
    utf8::encode_utf8_valid_utf8(s);
    utf8::encode_utf8_decode_utf8(s);
    path::lemma_valid_path_chars(p);
    assert(path::path_char(p[0]) || p[0] == '/');
    assert(path::path_char(p[p.len() - 1]) || p[p.len() - 1] == '/');
    text::law_trimmed(before, p, after);
}

/// A committed move may be completed exactly if its note can be read, and the staged
/// ciphertext opens at the destination; where none is staged any more, something has
/// to be at the destination.
pub proof fn law_move_validity(files: Files, key: Seq<u8>)
    ensures
        moves::move_validity(files, key) is Ok <==> (moves::noted_move(files) matches Ok(note)
            && (if tree::present(files, moves::staged_file(note.to)) {
            secrets::unsealed_at(files, ".ks-move/secrets/"@, note.to, key) is Ok
        } else {
            tree::present(files, secrets::live_file(note.to))
        })),
{
}

/// A move that is refused for its paths changes nothing; one whose source cannot be read
/// fails, and nothing has changed but that an interrupted move may have been resolved.
pub proof fn law_refused_move_changes_nothing(
    before: Tree,
    after: Tree,
    from: Seq<char>,
    to: Seq<char>,
    key: Seq<u8>,
    list: Seq<Seq<char>>,
    result: Result<(), Error>,
)
    requires
        moves::moved(before, after, from, to, key, list, result),
    ensures
        !path::valid_path(from) || !path::valid_path(to) || !tree::present(
            before.files(),
            from + ".age"@,
        ) || before.files().contains_key(to + ".age"@) ==> result is Err && after.files()
            == before.files(),
        secrets::got(moves::settled(before.files(), key), from, key) is Err ==> result is Err && (
        after.files() == moves::settled(before.files(), key) || after.files() == before.files()),
{
    let files = before.files();
    secrets::law_holds(files, from);
    secrets::law_holds(files, to);
    let ct = choose|ct: Seq<u8>|
        #![trigger moves::move_outcome(before.files(), from, to, key, ct)]
        tree::advanced(
            before,
            after,
            moves::move_outcome(before.files(), from, to, key, ct).effects,
        ) && error::agrees(result, moves::move_outcome(before.files(), from, to, key, ct).result);
    let outcome = moves::move_outcome(files, from, to, key, ct);
    let none = Seq::<Effect>::empty();
    assert(tree::replayed(files, none) == files);
    if secrets::got(moves::settled(files, key), from, key) is Err && secrets::relocation(
        files,
        from,
        to,
    ) is Ok && moves::move_recovery(files, key).result is Ok {
        let settled = moves::settled(files, key);
        assert(secrets::checked(settled, from, key) is Err) by {
            if !tree::present(settled, secrets::live_file(from)) {
                assert(secrets::unsealed(settled, from, key) is Err);
            }
        }
    }
}

/// A copy that is refused for its paths, or whose source cannot be read, fails and
/// changes nothing.
pub proof fn law_refused_copy_changes_nothing(
    before: Tree,
    after: Tree,
    from: Seq<char>,
    to: Seq<char>,
    key: Seq<u8>,
    list: Seq<Seq<char>>,
    result: Result<(), Error>,
)
    requires
        moves::copied(before, after, from, to, key, list, result),
        !path::valid_path(from) || !path::valid_path(to) || before.files().contains_key(
            to + ".age"@,
        ) || secrets::got(before.files(), from, key) is Err,
    ensures
        result is Err,
        after.files() == before.files(),
{
    let files = before.files();
    secrets::law_holds(files, from);
    secrets::law_holds(files, to);
    let ct = choose|ct: Seq<u8>|
        #![trigger moves::copy_outcome(before.files(), from, to, key, ct)]
        tree::advanced(
            before,
            after,
            moves::copy_outcome(before.files(), from, to, key, ct).effects,
        ) && error::agrees(result, moves::copy_outcome(before.files(), from, to, key, ct).result);
    assert(tree::replayed(files, Seq::<Effect>::empty()) == files);
}

} // verus!
