//! The files of a store directory, in memory.
//!
//! The operations of the store work on a [`Tree`], the files below the store
//! directory by their names relative to it. A tree also keeps the changes that were
//! made to it, in order, so that the caller can make the same changes on disk. Each
//! change is taken to be atomic: it has happened as a whole or not at all.
//!
//! A directory exists if some file is inside it. One that is empty on disk is
//! stood for by a name that ends in a slash.

use vstd::prelude::*;

use crate::assoc;
use crate::error;
use crate::error::{Error, Failure};
use crate::text;
use crate::text::{
    begins_with, copy_bytes, copy_text, from_chars, same_text, to_chars,
};

verus! {

/// What a file is: its bytes, and whether it is reached through a symbolic link.
#[verifier::ext_equal]
pub struct FileV {
    pub bytes: Seq<u8>,
    pub linked: bool,
}

/// Files by name.
pub type Files = Map<Seq<char>, FileV>;

/// A file that is no link.
pub open spec fn plain(bytes: Seq<u8>) -> FileV {
    FileV { bytes, linked: false }
}

/// Whether a name is inside a directory, at whatever depth.
pub open spec fn inside(dir: Seq<char>, name: Seq<char>) -> bool {
    (dir + seq!['/']).is_prefix_of(name)
}

/// Whether a directory exists.
pub open spec fn has_dir(files: Files, dir: Seq<char>) -> bool {
    exists|n: Seq<char>| #[trigger] files.contains_key(n) && inside(dir, n)
}

/// Whether a file or a directory has the name.
pub open spec fn present(files: Files, name: Seq<char>) -> bool {
    files.contains_key(name) || has_dir(files, name)
}

/// Whether something stands in the way of a file with the name: a directory has the
/// name, or a file stands where a directory on the way to it would be.
pub open spec fn blocked(files: Files, name: Seq<char>) -> bool {
    ||| has_dir(files, name)
    ||| exists|n: Seq<char>| #[trigger] files.contains_key(n) && inside(n, name)
}

/// Whether no file is inside another, as on disk.
pub open spec fn coherent(files: Files) -> bool {
    forall|n: Seq<char>, m: Seq<char>| #[trigger]
        files.contains_key(n) && #[trigger] files.contains_key(m) ==> !inside(n, m)
}

/// A directory exists in both of two trees that have the same files inside it.
pub proof fn lemma_same_dir(a: Files, b: Files, dir: Seq<char>)
    requires
        forall|n: Seq<char>|
            inside(dir, n) ==> (#[trigger] a.contains_key(n) <==> b.contains_key(n)),
    ensures
        has_dir(a, dir) == has_dir(b, dir),
{
    if has_dir(a, dir) {
        let n = choose|n: Seq<char>| #[trigger] a.contains_key(n) && inside(dir, n);
        assert(b.contains_key(n));
    }
    if has_dir(b, dir) {
        let n = choose|n: Seq<char>| #[trigger] b.contains_key(n) && inside(dir, n);
        assert(a.contains_key(n));
    }
}

/// What is inside a directory that is inside another is inside that.
pub proof fn lemma_inside_inside(outer: Seq<char>, inner: Seq<char>, name: Seq<char>)
    requires
        inside(outer, inner),
        inside(inner, name),
    ensures
        inside(outer, name),
{
    let a = outer + seq!['/'];
    let b = inner + seq!['/'];
    assert(a =~= inner.subrange(0, a.len() as int));
    assert(b =~= name.subrange(0, b.len() as int));
    assert(name.subrange(0, a.len() as int) =~= a) by {
        assert forall|i: int| 0 <= i < a.len() implies name[i] == a[i] by {
            assert(b[i] == name[i]);
            assert(inner[i] == a[i]);
        }
    }
}

/// A name without a slash is inside no directory.
pub proof fn lemma_not_inside(dir: Seq<char>, name: Seq<char>)
    requires
        !name.contains('/'),
    ensures
        !inside(dir, name),
{
    let d = dir + seq!['/'];
    if d.is_prefix_of(name) {
        assert(d =~= name.subrange(0, d.len() as int));
        assert(name[dir.len() as int] == d[dir.len() as int]);
        assert(name.contains(name[dir.len() as int]));
    }
}

/// What reading a file gives.
pub open spec fn contents(files: Files, file: Seq<char>) -> Result<Seq<u8>, Failure> {
    if files.contains_key(file) {
        Ok(files[file].bytes)
    } else if has_dir(files, file) {
        Err(Failure::NotAFile(file))
    } else {
        Err(Failure::Missing(file))
    }
}

/// Everything but what is inside a directory.
pub open spec fn without_tree(files: Files, dir: Seq<char>) -> Files {
    Map::new(
        |n: Seq<char>| files.contains_key(n) && !inside(dir, n),
        |n: Seq<char>| files[n],
    )
}

/// A change to the files.
#[verifier::ext_equal]
pub enum Effect {
    /// Writes a file, in place of what had the name.
    Write { file: Seq<char>, bytes: Seq<u8> },
    /// Removes a file, and the directories that are empty without it.
    Remove { file: Seq<char>, emptied: Seq<Seq<char>> },
    /// Moves a file over another name.
    Replace { from: Seq<char>, to: Seq<char> },
    /// Removes a directory with all that is inside.
    RemoveTree { dir: Seq<char> },
}

/// The files after a change.
pub open spec fn applied(files: Files, effect: Effect) -> Files {
    match effect {
        Effect::Write { file, bytes } => files.insert(file, plain(bytes)),
        Effect::Remove { file, .. } => files.remove(file),
        Effect::Replace { from, to } => files.remove(from).insert(to, files[from]),
        Effect::RemoveTree { dir } => without_tree(files, dir),
    }
}

/// The files after some changes, one after the other.
pub open spec fn replayed(files: Files, effects: Seq<Effect>) -> Files
    decreases effects.len(),
{
    if effects.len() == 0 {
        files
    } else {
        applied(replayed(files, effects.drop_last()), effects.last())
    }
}

/// One more change after some others.
pub proof fn lemma_replayed_push(files: Files, effects: Seq<Effect>, effect: Effect)
    ensures
        replayed(files, effects.push(effect)) == applied(replayed(files, effects), effect),
{
    assert(effects.push(effect).drop_last() =~= effects);
}

/// Changes that follow one another.
pub proof fn lemma_replayed_concat(files: Files, a: Seq<Effect>, b: Seq<Effect>)
    ensures
        replayed(files, a + b) == replayed(replayed(files, a), b),
    decreases b.len(),
{
    if b.len() == 0 {
        assert(a + b =~= a);
    } else {
        assert((a + b).drop_last() =~= a + b.drop_last());
        lemma_replayed_concat(files, a, b.drop_last());
    }
}

/// The directory that holds a name.
pub open spec fn parent(name: Seq<char>) -> Option<Seq<char>>
    decreases name.len(),
{
    if name.len() == 0 {
        None
    } else if name.last() == '/' {
        Some(name.drop_last())
    } else {
        parent(name.drop_last())
    }
}

pub proof fn lemma_parent_shorter(name: Seq<char>)
    ensures
        parent(name) matches Some(d) ==> d.len() < name.len(),
    decreases name.len(),
{
    if name.len() > 0 && name.last() != '/' {
        lemma_parent_shorter(name.drop_last());
    }
}

/// Whether anything but `file` is inside a directory.
pub open spec fn has_other(files: Files, dir: Seq<char>, file: Seq<char>) -> bool {
    exists|n: Seq<char>| #[trigger] files.contains_key(n) && n != file && inside(dir, n)
}

/// From `dir` upward, the directories that hold nothing but `file`, as far as there
/// are any.
pub open spec fn emptied_from(files: Files, file: Seq<char>, dir: Option<Seq<char>>) -> Seq<
    Seq<char>,
>
    decreases
            (if dir is Some {
                dir->0.len() + 1
            } else {
                0
            }),
{
    match dir {
        None => Seq::empty(),
        Some(d) => if has_other(files, d, file) {
            Seq::empty()
        } else {
            proof {
                lemma_parent_shorter(d);
            }
            seq![d] + emptied_from(files, file, parent(d))
        },
    }
}

/// The directories that are empty once `file` is gone, the innermost first.
pub open spec fn emptied(files: Files, file: Seq<char>) -> Seq<Seq<char>> {
    emptied_from(files, file, parent(file))
}

/// A change for the caller to make on disk.
pub enum Step {
    /// Write a file, in place of what had the name.
    Write { file: String, data: Vec<u8> },
    /// Remove a file, then the directories that are empty without it, in order.
    Remove { file: String, emptied: Vec<String> },
    /// Move a file over another name.
    Replace { from: String, to: String },
    /// Remove a directory with all that is inside.
    RemoveTree { dir: String },
}

impl View for Step {
    type V = Effect;

    open spec fn view(&self) -> Effect {
        match *self {
            Step::Write { file, data } => Effect::Write { file: file@, bytes: data@ },
            Step::Remove { file, emptied } => Effect::Remove {
                file: file@,
                emptied: text::views(emptied@),
            },
            Step::Replace { from, to } => Effect::Replace { from: from@, to: to@ },
            Step::RemoveTree { dir } => Effect::RemoveTree { dir: dir@ },
        }
    }
}

struct Entry {
    name: String,
    data: Vec<u8>,
    linked: bool,
}

/// The files of a directory, and the changes that were made to them.
pub struct Tree {
    entries: Vec<Entry>,
    steps: Vec<Step>,
}

fn is_inside(dir: &str, name: &str) -> (r: bool)
    ensures
        r == inside(dir@, name@),
{
    let mut d = to_chars(dir);
    d.push('/');
    assert(d@ =~= dir@ + seq!['/']);
    let n = to_chars(name);
    begins_with(n.as_slice(), d.as_slice())
}

fn parent_of(name: &str) -> (r: Option<String>)
    ensures
        match parent(name@) {
            Some(d) => r matches Some(x) && x@ == d,
            None => r is None,
        },
{
    let cs = to_chars(name);
    let mut i: usize = cs.len();
    assert(cs@.take(i as int) =~= cs@);
    while i > 0
        invariant
            i <= cs@.len(),
            cs@ == name@,
            parent(cs@.take(i as int)) == parent(name@),
        decreases i,
    {
        assert(cs@.take(i as int).drop_last() =~= cs@.take(i - 1));
        assert(cs@.take(i as int).last() == cs@[i - 1]);
        if cs[i - 1] == '/' {
            let d = vstd::slice::slice_subrange(cs.as_slice(), 0, i - 1);
            assert(d@ =~= cs@.take(i - 1));
            return Some(from_chars(d));
        }
        i = i - 1;
    }
    None
}

impl Tree {
    /// The names of the entries.
    pub closed spec fn names(&self) -> Seq<Seq<char>> {
        Seq::new(self.entries@.len(), |i: int| self.entries@[i].name@)
    }

    spec fn values(&self) -> Seq<FileV> {
        Seq::new(
            self.entries@.len(),
            |i: int| FileV { bytes: self.entries@[i].data@, linked: self.entries@[i].linked },
        )
    }

    /// The files.
    pub closed spec fn files(&self) -> Files {
        assoc::assoc(self.names(), self.values())
    }

    /// The changes that were made and not taken yet.
    pub closed spec fn effects(&self) -> Seq<Effect> {
        Seq::new(self.steps@.len(), |i: int| self.steps@[i]@)
    }

    /// Whether every name occurs once.
    pub closed spec fn wf(&self) -> bool {
        self.names().no_duplicates()
    }

    /// A tree without files.
    pub fn new() -> (r: Tree)
        ensures
            r.wf(),
            r.files() == Map::<Seq<char>, FileV>::empty(),
            r.effects() == Seq::<Effect>::empty(),
    {
        let r = Tree { entries: Vec::new(), steps: Vec::new() };
        assert(r.files() =~= Map::<Seq<char>, FileV>::empty());
        assert(r.effects() =~= Seq::<Effect>::empty());
        r
    }

    /// The position of a file.
    fn find(&self, file: &str) -> (r: Option<usize>)
        requires
            self.wf(),
        ensures
            r is Some <==> self.files().contains_key(file@),
            r matches Some(i) ==> i < self.entries@.len() && self.names()[i as int] == file@
                && self.files()[file@] == self.values()[i as int],
    {
        for i in 0..self.entries.len()
            invariant
                self.wf(),
                forall|j: int| 0 <= j < i ==> #[trigger] self.names()[j] != file@,
        {
            if same_text(self.entries[i].name.as_str(), file) {
                proof {
                    assoc::lemma_assoc_at(self.names(), self.values(), i as int);
                    assert(self.names()[i as int] == file@);
                }
                return Some(i);
            }
            assert(self.names()[i as int] != file@);
        }
        None
    }

    /// Puts a file in its place, without noting a change.
    fn put(&mut self, file: String, data: Vec<u8>, linked: bool)
        requires
            old(self).wf(),
        ensures
            final(self).wf(),
            final(self).files() == old(self).files().insert(
                file@,
                (FileV { bytes: data@, linked }),
            ),
            final(self).effects() == old(self).effects(),
    {
        let at = self.find(file.as_str());
        let ghost names = self.names();
        let ghost values = self.values();
        let ghost v = FileV { bytes: data@, linked };
        let ghost name = file@;
        match at {
            Some(i) => {
                self.entries.set(i, Entry { name: file, data, linked });
                proof {
                    assoc::lemma_assoc_update(names, values, i as int, v);
                    assert(self.names() =~= names);
                    assert(self.values() =~= values.update(i as int, v));
                }
            },
            None => {
                self.entries.push(Entry { name: file, data, linked });
                proof {
                    assert(!names.contains(name));
                    assoc::lemma_assoc_insert(names, values, names.len() as int, name, v);
                    assert(self.names() =~= names.insert(names.len() as int, name));
                    assert(self.values() =~= values.insert(values.len() as int, v));
                }
            },
        }
        assert(self.effects() =~= old(self).effects());
    }

    /// Takes a file away, without noting a change.
    fn take(&mut self, i: usize) -> (r: Entry)
        requires
            old(self).wf(),
            i < old(self).entries@.len(),
        ensures
            final(self).wf(),
            final(self).files() == old(self).files().remove(old(self).names()[i as int]),
            final(self).effects() == old(self).effects(),
            final(self).entries@ == old(self).entries@.remove(i as int),
            r == old(self).entries@[i as int],
    {
        let ghost names = self.names();
        let ghost values = self.values();
        let e = self.entries.remove(i);
        proof {
            assoc::lemma_assoc_remove(names, values, i as int);
            assert(self.names() =~= names.remove(i as int));
            assert(self.values() =~= values.remove(i as int));
            assert(self.effects() =~= old(self).effects());
        }
        e
    }

    /// Notes a change.
    fn note(&mut self, step: Step)
        ensures
            final(self).entries@ == old(self).entries@,
            final(self).effects() == old(self).effects().push(step@),
            final(self).files() == old(self).files(),
            final(self).wf() == old(self).wf(),
    {
        self.steps.push(step);
        proof {
            assert(self.effects() =~= old(self).effects().push(step@));
            assert(self.names() =~= old(self).names());
            assert(self.values() =~= old(self).values());
        }
    }

    /// Adds a file as it was found on disk. A directory that was found empty is
    /// added by its name and a slash.
    pub fn load(&mut self, name: String, data: Vec<u8>, linked: bool)
        requires
            old(self).wf(),
        ensures
            final(self).wf(),
            final(self).files() == old(self).files().insert(
                name@,
                (FileV { bytes: data@, linked }),
            ),
            final(self).effects() == old(self).effects(),
    {
        self.put(name, data, linked);
    }

    /// Whether there is such a file.
    pub fn has_file(&self, file: &str) -> (r: bool)
        requires
            self.wf(),
        ensures
            r == self.files().contains_key(file@),
    {
        self.find(file).is_some()
    }

    /// Whether there is such a directory.
    pub fn has_dir(&self, dir: &str) -> (r: bool)
        requires
            self.wf(),
        ensures
            r == has_dir(self.files(), dir@),
    {
        for i in 0..self.entries.len()
            invariant
                self.wf(),
                forall|j: int| 0 <= j < i ==> !inside(dir@, #[trigger] self.names()[j]),
        {
            if is_inside(dir, self.entries[i].name.as_str()) {
                proof {
                    assoc::lemma_assoc_at(self.names(), self.values(), i as int);
                    assert(self.files().contains_key(self.names()[i as int]));
                }
                return true;
            }
            assert(!inside(dir@, self.names()[i as int]));
        }
        proof {
            if has_dir(self.files(), dir@) {
                let n = choose|n: Seq<char>| #[trigger]
                    self.files().contains_key(n) && inside(dir@, n);
                assert(self.names().contains(n));
                let j = self.names().index_of(n);
                assert(self.names()[j] == n);
            }
        }
        false
    }

    /// Whether a file or a directory has the name.
    pub fn is_present(&self, name: &str) -> (r: bool)
        requires
            self.wf(),
        ensures
            r == present(self.files(), name@),
    {
        self.has_file(name) || self.has_dir(name)
    }

    /// Whether something stands in the way of a file with the name.
    pub fn is_blocked(&self, name: &str) -> (r: bool)
        requires
            self.wf(),
        ensures
            r == blocked(self.files(), name@),
    {
        if self.has_dir(name) {
            return true;
        }
        for i in 0..self.entries.len()
            invariant
                self.wf(),
                forall|j: int| 0 <= j < i ==> !inside(#[trigger] self.names()[j], name@),
        {
            if is_inside(self.entries[i].name.as_str(), name) {
                proof {
                    assoc::lemma_assoc_at(self.names(), self.values(), i as int);
                    assert(self.files().contains_key(self.names()[i as int]));
                }
                return true;
            }
            assert(!inside(self.names()[i as int], name@));
        }
        proof {
            if blocked(self.files(), name@) {
                let n = choose|n: Seq<char>| #[trigger]
                    self.files().contains_key(n) && inside(n, name@);
                assert(self.names().contains(n));
                let j = self.names().index_of(n);
                assert(self.names()[j] == n);
            }
        }
        false
    }

    /// Reads a file.
    pub fn read(&self, file: &str) -> (r: Result<Vec<u8>, Error>)
        requires
            self.wf(),
        ensures
            error::agrees(r, contents(self.files(), file@)),
    {
        match self.find(file) {
            Some(i) => Ok(copy_bytes(self.entries[i].data.as_slice())),
            None => if self.has_dir(file) {
                Err(Error::NotAFile(copy_text(file)))
            } else {
                Err(Error::Missing(copy_text(file)))
            },
        }
    }

    /// Writes a file.
    pub fn write(&mut self, file: &str, data: &[u8])
        requires
            old(self).wf(),
        ensures
            final(self).wf(),
            final(self).effects() == old(self).effects().push(
                (Effect::Write { file: file@, bytes: data@ }),
            ),
            final(self).files() == applied(
                old(self).files(),
                (Effect::Write { file: file@, bytes: data@ }),
            ),
    {
        self.put(copy_text(file), copy_bytes(data), false);
        self.note(Step::Write { file: copy_text(file), data: copy_bytes(data) });
    }

    /// Whether anything but `file` is inside a directory.
    fn holds_other(&self, dir: &str, file: &str) -> (r: bool)
        requires
            self.wf(),
        ensures
            r == has_other(self.files(), dir@, file@),
    {
        for i in 0..self.entries.len()
            invariant
                self.wf(),
                forall|j: int|
                    0 <= j < i ==> !inside(dir@, #[trigger] self.names()[j]) || self.names()[j]
                        == file@,
        {
            let name = self.entries[i].name.as_str();
            assert(name@ == self.names()[i as int]);
            if is_inside(dir, name) && !same_text(name, file) {
                proof {
                    assoc::lemma_assoc_at(self.names(), self.values(), i as int);
                    assert(self.files().contains_key(self.names()[i as int]));
                }
                return true;
            }
        }
        proof {
            if has_other(self.files(), dir@, file@) {
                let n = choose|n: Seq<char>| #[trigger]
                    self.files().contains_key(n) && n != file@ && inside(dir@, n);
                assert(self.names().contains(n));
                let j = self.names().index_of(n);
                assert(self.names()[j] == n);
            }
        }
        false
    }

    /// The directories that are empty once `file` is gone, the innermost first.
    pub fn prune_empty_parents(&self, file: &str) -> (r: Vec<String>)
        requires
            self.wf(),
        ensures
            text::views(r@) == emptied(self.files(), file@),
    {
        let mut out: Vec<String> = Vec::new();
        let mut dir = parent_of(file);
        let ghost mut at = parent(file@);
        assert(text::views(out@) =~= Seq::empty());
        loop
            invariant
                self.wf(),
                dir is Some <==> at is Some,
                dir matches Some(d) ==> at == Some(d@),
                emptied(self.files(), file@) == text::views(out@) + emptied_from(
                    self.files(),
                    file@,
                    at,
                ),
            ensures
                text::views(out@) == emptied(self.files(), file@),
            decreases
                    (if dir is Some {
                        dir->0@.len() + 1
                    } else {
                        0
                    }),
        {
            match dir {
                None => {
                    assert(text::views(out@) + Seq::<Seq<char>>::empty() =~= text::views(out@));
                    break;
                },
                Some(d) => {
                    if self.holds_other(d.as_str(), file) {
                        assert(text::views(out@) + Seq::<Seq<char>>::empty() =~= text::views(
                            out@,
                        ));
                        break;
                    }
                    let up = parent_of(d.as_str());
                    let ghost before = text::views(out@);
                    proof {
                        lemma_parent_shorter(d@);
                        at = parent(d@);
                    }
                    out.push(d);
                    assert(text::views(out@) =~= before.push(d@));
                    assert(before + (seq![d@] + emptied_from(self.files(), file@, at))
                        =~= text::views(out@) + emptied_from(self.files(), file@, at));
                    dir = up;
                },
            }
        }
        out
    }

    /// Removes a file that exists, and the directories that are empty without it.
    pub fn remove(&mut self, file: &str)
        requires
            old(self).wf(),
            old(self).files().contains_key(file@),
        ensures
            final(self).wf(),
            final(self).effects() == old(self).effects().push(
                (Effect::Remove { file: file@, emptied: emptied(old(self).files(), file@) }),
            ),
            final(self).files() == old(self).files().remove(file@),
    {
        let emptied = self.prune_empty_parents(file);
        if let Some(i) = self.find(file) {
            let _ = self.take(i);
        }
        self.note(Step::Remove { file: copy_text(file), emptied });
    }

    /// Moves a file that exists over another name.
    pub fn replace(&mut self, from: &str, to: &str)
        requires
            old(self).wf(),
            old(self).files().contains_key(from@),
        ensures
            final(self).wf(),
            final(self).effects() == old(self).effects().push(
                (Effect::Replace { from: from@, to: to@ }),
            ),
            final(self).files() == applied(
                old(self).files(),
                (Effect::Replace { from: from@, to: to@ }),
            ),
    {
        if let Some(i) = self.find(from) {
            let e = self.take(i);
            self.put(copy_text(to), e.data, e.linked);
        }
        self.note(Step::Replace { from: copy_text(from), to: copy_text(to) });
    }

    /// Removes a directory with all that is inside.
    pub fn remove_tree(&mut self, dir: &str)
        requires
            old(self).wf(),
        ensures
            final(self).wf(),
            final(self).effects() == old(self).effects().push(
                (Effect::RemoveTree { dir: dir@ }),
            ),
            final(self).files() == without_tree(old(self).files(), dir@),
    {
        let ghost start = self.files();
        let mut i: usize = 0;
        while i < self.entries.len()
            invariant
                self.wf(),
                i <= self.entries@.len(),
                start == old(self).files(),
                self.effects() == old(self).effects(),
                forall|n: Seq<char>| #[trigger]
                    self.files().contains_key(n) ==> start.contains_key(n) && self.files()[n]
                        == start[n],
                forall|n: Seq<char>| #[trigger]
                    start.contains_key(n) && !inside(dir@, n) ==> self.files().contains_key(n),
                forall|j: int| 0 <= j < i ==> !inside(dir@, #[trigger] self.names()[j]),
            decreases self.entries@.len() - i,
        {
            let ghost before = *self;
            if is_inside(dir, self.entries[i].name.as_str()) {
                assert(inside(dir@, self.names()[i as int]));
                let _ = self.take(i);
                assert forall|j: int| 0 <= j < i implies !inside(
                    dir@,
                    #[trigger] self.names()[j],
                ) by {
                    assert(self.names()[j] == before.names()[j]);
                }
            } else {
                assert(!inside(dir@, self.names()[i as int]));
                i = i + 1;
            }
        }
        proof {
            assert forall|n: Seq<char>| #[trigger] self.files().contains_key(n) implies !inside(
                dir@,
                n,
            ) by {
                assert(self.names().contains(n));
                let j = self.names().index_of(n);
                assert(self.names()[j] == n);
            }
            assert(self.files() =~= without_tree(start, dir@));
        }
        self.note(Step::RemoveTree { dir: copy_text(dir) });
    }

    /// Takes the changes that were noted, in order.
    pub fn take_steps(&mut self) -> (r: Vec<Step>)
        ensures
            r@.len() == old(self).effects().len(),
            forall|i: int| 0 <= i < r@.len() ==> #[trigger] r@[i]@ == old(self).effects()[i],
            final(self).effects() == Seq::<Effect>::empty(),
            final(self).files() == old(self).files(),
            final(self).wf() == old(self).wf(),
    {
        let mut out: Vec<Step> = Vec::new();
        std::mem::swap(&mut out, &mut self.steps);
        proof {
            assert(self.effects() =~= Seq::<Effect>::empty());
            assert(self.names() =~= old(self).names());
            assert(self.values() =~= old(self).values());
        }
        out
    }

    /// The number of files.
    pub fn len(&self) -> (r: usize)
        ensures
            r == self.names().len(),
    {
        self.entries.len()
    }

    /// The name of a file, and whether it is a link, by position.
    pub fn entry(&self, i: usize) -> (r: (&str, bool))
        requires
            self.wf(),
            i < self.names().len(),
        ensures
            r.0@ == self.names()[i as int],
            self.files().contains_key(r.0@),
            self.files()[r.0@].linked == r.1,
    {
        proof {
            assoc::lemma_assoc_at(self.names(), self.values(), i as int);
        }
        let e = &self.entries[i];
        (e.name.as_str(), e.linked)
    }

    /// A tree has finitely many files.
    pub proof fn lemma_finite(&self)
        requires
            self.wf(),
        ensures
            self.files().dom().finite(),
    {
        vstd::seq_lib::seq_to_set_is_finite(self.names());
        assert(self.files().dom() =~= self.names().to_set());
    }

    /// No name before a position is that at the position.
    pub proof fn lemma_distinct(&self, i: int)
        requires
            self.wf(),
            0 <= i < self.names().len(),
        ensures
            !self.names().take(i).contains(self.names()[i]),
    {
        let before = self.names().take(i);
        if before.contains(self.names()[i]) {
            let j = before.index_of(self.names()[i]);
            assert(self.names()[j] == self.names()[i]);
        }
    }

    /// The files are exactly those that have a position.
    pub proof fn lemma_names(&self)
        requires
            self.wf(),
        ensures
            forall|n: Seq<char>| #[trigger]
                self.files().contains_key(n) <==> self.names().contains(n),
    {
    }
}

/// Whether a tree came from another by some changes, which it has noted.
pub open spec fn advanced(before: Tree, after: Tree, effects: Seq<Effect>) -> bool {
    &&& after.wf()
    &&& after.files() == replayed(before.files(), effects)
    &&& after.effects() == before.effects() + effects
}

/// No change.
pub proof fn lemma_advanced_none(t: Tree)
    requires
        t.wf(),
    ensures
        advanced(t, t, Seq::empty()),
{
    assert(t.effects() + Seq::<Effect>::empty() =~= t.effects());
}

/// One change after others.
pub proof fn lemma_advanced_push(a: Tree, b: Tree, c: Tree, effects: Seq<Effect>, effect: Effect)
    requires
        advanced(a, b, effects),
        c.wf(),
        c.files() == applied(b.files(), effect),
        c.effects() == b.effects().push(effect),
    ensures
        advanced(a, c, effects.push(effect)),
{
    lemma_replayed_push(a.files(), effects, effect);
    assert(a.effects() + effects.push(effect) =~= (a.effects() + effects).push(effect));
}

/// Changes after changes.
pub proof fn lemma_advanced_concat(
    a: Tree,
    b: Tree,
    c: Tree,
    first: Seq<Effect>,
    second: Seq<Effect>,
)
    requires
        advanced(a, b, first),
        advanced(b, c, second),
    ensures
        advanced(a, c, first + second),
{
    lemma_replayed_concat(a.files(), first, second);
    assert(a.effects() + (first + second) =~= (a.effects() + first) + second);
}

/// What an operation does: the changes that it makes, and what it returns.
#[verifier::ext_equal]
pub struct Outcome<T> {
    pub effects: Seq<Effect>,
    pub result: Result<T, Failure>,
}

/// A failure after some changes.
pub open spec fn failed<T>(effects: Seq<Effect>, failure: Failure) -> Outcome<T> {
    Outcome { effects, result: Err(failure) }
}

// ---------------------------------------------------------------------------
// Laws
// ---------------------------------------------------------------------------

/// A name is inside a directory exactly if it is the directory's, a slash, and more.
pub proof fn law_inside(dir: Seq<char>, name: Seq<char>)
    ensures
        inside(dir, name) <==> exists|rest: Seq<char>| name == #[trigger] (dir + seq!['/'] + rest),
{
    let d = dir + seq!['/'];
    if inside(dir, name) {
        let rest = name.skip(d.len() as int);
        assert(name =~= dir + seq!['/'] + rest);
    }
    if exists|rest: Seq<char>| name == #[trigger] (dir + seq!['/'] + rest) {
        let rest = choose|rest: Seq<char>| name == #[trigger] (dir + seq!['/'] + rest);
        assert(name.subrange(0, d.len() as int) =~= d);
    }
}

/// A file that was written holds what was written, and is no link; every other file is
/// as it was.
pub proof fn law_write(files: Files, file: Seq<char>, bytes: Seq<u8>, other: Seq<char>)
    ensures
        ({
            let after = applied(files, Effect::Write { file, bytes });
            &&& contents(after, file) == Ok::<Seq<u8>, Failure>(bytes)
            &&& !after[file].linked
            &&& other != file ==> after.contains_key(other) == files.contains_key(other)
                && after[other] == files[other]
        }),
{
}

/// A file that was removed is gone, and every other file is as it was.
pub proof fn law_remove(
    files: Files,
    file: Seq<char>,
    emptied: Seq<Seq<char>>,
    other: Seq<char>,
)
    ensures
        ({
            let after = applied(files, Effect::Remove { file, emptied });
            &&& !after.contains_key(file)
            &&& other != file ==> after.contains_key(other) == files.contains_key(other)
                && after[other] == files[other]
        }),
{
}

/// A file that was moved over another name is under that name what it was, and no
/// longer under its own; every other file is as it was.
pub proof fn law_replace(files: Files, from: Seq<char>, to: Seq<char>, other: Seq<char>)
    requires
        files.contains_key(from),
    ensures
        ({
            let after = applied(files, Effect::Replace { from, to });
            &&& after.contains_key(to) && after[to] == files[from]
            &&& from != to ==> !after.contains_key(from)
            &&& other != from && other != to ==> after.contains_key(other)
                == files.contains_key(other) && after[other] == files[other]
        }),
{
}

/// Of a directory that was removed no file is left, and every file outside it is as it
/// was.
pub proof fn law_remove_tree(files: Files, dir: Seq<char>, rest: Seq<char>, other: Seq<char>)
    requires
        forall|more: Seq<char>| other != #[trigger] (dir + seq!['/'] + more),
    ensures
        ({
            let after = applied(files, Effect::RemoveTree { dir });
            &&& !after.contains_key(dir + seq!['/'] + rest)
            &&& after.contains_key(other) == files.contains_key(other)
            &&& files.contains_key(other) ==> after[other] == files[other]
        }),
{
    law_inside(dir, dir + seq!['/'] + rest);
    law_inside(dir, other);
}

/// Reading gives the bytes of a file; where only something inside a directory of the
/// name exists, it is no file; else it is missing.
pub proof fn law_read(files: Files, file: Seq<char>, rest: Seq<char>)
    ensures
        files.contains_key(file) ==> contents(files, file) == Ok::<Seq<u8>, Failure>(
            files[file].bytes,
        ),
        !files.contains_key(file) && files.contains_key(file + seq!['/'] + rest) ==> contents(
            files,
            file,
        ) == Err::<Seq<u8>, Failure>(Failure::NotAFile(file)),
        !files.contains_key(file) && (forall|more: Seq<char>|
            !files.contains_key(#[trigger] (file + seq!['/'] + more))) ==> contents(files, file)
            == Err::<Seq<u8>, Failure>(Failure::Missing(file)),
{
    law_inside(file, file + seq!['/'] + rest);
    if has_dir(files, file) {
        let n = choose|n: Seq<char>| #[trigger] files.contains_key(n) && inside(file, n);
        law_inside(file, n);
        let more = choose|more: Seq<char>| n == #[trigger] (file + seq!['/'] + more);
        assert(files.contains_key(file + seq!['/'] + more));
    }
}

/// The directories that go with a file are directories that it is inside of, and hold
/// nothing else; the one that it is in goes, if it holds nothing else.
pub proof fn law_emptied(files: Files, file: Seq<char>)
    ensures
        forall|i: int|
            0 <= i < emptied(files, file).len() ==> inside(
                #[trigger] emptied(files, file)[i],
                file,
            ),
        forall|i: int, n: Seq<char>|
            0 <= i < emptied(files, file).len() && #[trigger] files.contains_key(n) && inside(
                #[trigger] emptied(files, file)[i],
                n,
            ) ==> n == file,
        forall|i: int|
            0 < i < emptied(files, file).len() ==> parent(emptied(files, file)[i - 1]) == Some(
                #[trigger] emptied(files, file)[i],
            ),
        parent(file) matches Some(d) ==> (emptied(files, file).len() > 0 <==> forall|
            n: Seq<char>,
        | #[trigger] files.contains_key(n) && inside(d, n) ==> n == file),
        emptied(files, file).len() > 0 ==> parent(file) == Some(emptied(files, file)[0]) && (parent(
            emptied(files, file).last(),
        ) matches Some(up) ==> exists|n: Seq<char>| #[trigger]
            files.contains_key(n) && n != file && inside(up, n)),
{
    lemma_parent_inside(file);
    lemma_emptied_from(files, file, parent(file));
}

proof fn lemma_parent_inside(name: Seq<char>)
    ensures
        parent(name) matches Some(d) ==> inside(d, name),
    decreases name.len(),
{
    if name.len() > 0 {
        if name.last() == '/' {
            let d = name.drop_last();
            assert(name.subrange(0, name.len() as int) =~= d + seq!['/']);
        } else {
            let rest = name.drop_last();
            lemma_parent_inside(rest);
            if let Some(d) = parent(rest) {
                let p = d + seq!['/'];
                assert(p =~= rest.subrange(0, p.len() as int));
                assert(name.subrange(0, p.len() as int) =~= p);
            }
        }
    }
}

proof fn lemma_emptied_from(files: Files, file: Seq<char>, dir: Option<Seq<char>>)
    requires
        dir matches Some(d) ==> inside(d, file),
    ensures
        ({
            let e = emptied_from(files, file, dir);
            &&& forall|i: int| 0 <= i < e.len() ==> inside(#[trigger] e[i], file)
            &&& forall|i: int| 0 <= i < e.len() ==> !has_other(files, #[trigger] e[i], file)
            &&& forall|i: int| 0 < i < e.len() ==> parent(e[i - 1]) == Some(#[trigger] e[i])
            &&& e.len() > 0 ==> dir == Some(e[0])
            &&& dir matches Some(d) ==> (e.len() > 0 <==> !has_other(files, d, file))
            &&& e.len() > 0 ==> (parent(e.last()) matches Some(up) ==> has_other(files, up, file))
        }),
    decreases
            (if dir is Some {
                dir->0.len() + 1
            } else {
                0
            }),
{
    if let Some(d) = dir {
        if !has_other(files, d, file) {
            lemma_parent_shorter(d);
            lemma_parent_inside(d);
            if let Some(up) = parent(d) {
                lemma_inside_inside(up, d, file);
            }
            lemma_emptied_from(files, file, parent(d));
            let rest = emptied_from(files, file, parent(d));
            let e = seq![d] + rest;
            assert(emptied_from(files, file, dir) == e);
            assert forall|i: int| 0 <= i < e.len() implies inside(#[trigger] e[i], file)
                && !has_other(files, e[i], file) by {
                if i > 0 {
                    assert(e[i] == rest[i - 1]);
                }
            }
            assert forall|i: int| 0 < i < e.len() implies parent(e[i - 1]) == Some(
                #[trigger] e[i],
            ) by {
                assert(e[i] == rest[i - 1]);
                if i > 1 {
                    assert(e[i - 1] == rest[i - 2]);
                }
            }
            if rest.len() > 0 {
                assert(e.last() == rest.last());
            }
        }
    }
}

/// The directory that holds a name is what stands before its last slash; a name without
/// one is held by none.
pub proof fn law_parent(dir: Seq<char>, last: Seq<char>)
    requires
        !last.contains('/'),
    ensures
        parent(dir + seq!['/'] + last) == Some(dir),
        parent(last) is None,
    decreases last.len(),
{
    let name = dir + seq!['/'] + last;
    if last.len() == 0 {
        assert(name.last() == '/');
        assert(name.drop_last() =~= dir);
    } else {
        let rest = last.drop_last();
        assert(last[last.len() - 1] != '/') by {
            if last[last.len() - 1] == '/' {
                assert(last.contains('/'));
            }
        }
        assert(!rest.contains('/')) by {
            if rest.contains('/') {
                let i = rest.index_of('/');
                assert(last[i] == '/');
            }
        }
        law_parent(dir, rest);
        assert(name.last() == last.last());
        assert(name.drop_last() =~= dir + seq!['/'] + rest);
    }
}

/// Changes are made one after the other, and each of them is noted.
pub proof fn law_advanced(before: Tree, after: Tree, effects: Seq<Effect>, last: Effect)
    ensures
        advanced(before, after, effects) ==> after.wf() && after.effects() == before.effects()
            + effects,
        advanced(before, after, Seq::empty()) ==> after.files() == before.files(),
        advanced(before, after, effects.push(last)) ==> after.files() == applied(
            replayed(before.files(), effects),
            last,
        ),
{
    lemma_replayed_push(before.files(), effects, last);
}

} // verus!
