//! Directories as values: the files of a directory, and the steps that change them.
//!
//! Components decide which steps to take and hand them out as [`FileAction`]s; whoever owns the
//! real directory performs them in order, each one durably before the next. [`DirImage`] is a
//! directory held in memory.

use crate::assoc;
use crate::bytes::{copy_bytes, push_all};
use crate::ordmap::OrdMap;
use std::sync::Arc;
use vstd::prelude::*;

verus! {

/// The files of a directory, names and contents, in ascending name order.
pub type Files = Seq<(Seq<u8>, Seq<u8>)>;

/// One durable change to a directory.
#[derive(Debug, PartialEq, Eq)]
pub enum FileAction {
    /// Create the file, or empty it, then write all of `data`.
    Create { name: Vec<u8>, data: Vec<u8> },
    /// Write all of `data` at the end of the file, creating it if needed.
    Append { name: Vec<u8>, data: Vec<u8> },
    /// Cut the file to at most `len` bytes.
    Truncate { name: Vec<u8>, len: u64 },
    /// Give the file the name `to`, replacing a file of that name.
    Rename { from: Vec<u8>, to: Vec<u8> },
    /// Delete the file.
    Remove { name: Vec<u8> },
}

/// A [`FileAction`] over byte strings.
#[verifier::ext_equal]
pub enum Step {
    Create(Seq<u8>, Seq<u8>),
    Append(Seq<u8>, Seq<u8>),
    Truncate(Seq<u8>, nat),
    Rename(Seq<u8>, Seq<u8>),
    Remove(Seq<u8>),
}

impl FileAction {
    pub open spec fn view(&self) -> Step {
        match self {
            FileAction::Create { name, data } => Step::Create(name@, data@),
            FileAction::Append { name, data } => Step::Append(name@, data@),
            FileAction::Truncate { name, len } => Step::Truncate(name@, *len as nat),
            FileAction::Rename { from, to } => Step::Rename(from@, to@),
            FileAction::Remove { name } => Step::Remove(name@),
        }
    }
}

/// The steps of a plan.
pub open spec fn steps(plan: Seq<FileAction>) -> Seq<Step> {
    plan.map_values(|a: FileAction| a@)
}

/// Whether there is a file of this name.
pub open spec fn has(f: Files, name: Seq<u8>) -> bool {
    assoc::find(f, name) is Some
}

/// The content of a file, empty if there is none.
pub open spec fn content(f: Files, name: Seq<u8>) -> Seq<u8> {
    match assoc::find(f, name) {
        Some(data) => data,
        None => seq![],
    }
}

/// `s` cut to at most `n` bytes.
pub open spec fn cut(s: Seq<u8>, n: nat) -> Seq<u8> {
    if n <= s.len() {
        s.take(n as int)
    } else {
        s
    }
}

/// The directory after a step.
pub open spec fn apply(f: Files, a: Step) -> Files {
    match a {
        Step::Create(name, data) => assoc::upsert(f, name, data),
        Step::Append(name, data) => assoc::upsert(f, name, content(f, name) + data),
        Step::Truncate(name, n) => match assoc::find(f, name) {
            Some(data) => assoc::upsert(f, name, cut(data, n)),
            None => f,
        },
        Step::Rename(from, to) => match assoc::find(f, from) {
            Some(data) => assoc::upsert(assoc::erase(f, from), to, data),
            None => f,
        },
        Step::Remove(name) => assoc::erase(f, name),
    }
}

/// The directory after all the steps of a plan.
pub open spec fn apply_all(f: Files, plan: Seq<Step>) -> Files
    decreases plan.len(),
{
    if plan.len() == 0 {
        f
    } else {
        apply(apply_all(f, plan.drop_last()), plan.last())
    }
}

/// `g` is a directory that a crash during the step `a` can leave behind: writes may be cut
/// short anywhere, the other steps happen or do not happen.
pub open spec fn interrupted(f: Files, a: Step, g: Files) -> bool {
    match a {
        Step::Create(name, data) => {
            ||| g == f
            ||| exists|n: int|
                0 <= n <= data.len() && g == #[trigger] assoc::upsert(f, name, data.take(n))
        },
        Step::Append(name, data) => {
            ||| g == f
            ||| exists|n: int|
                0 <= n <= data.len() && g == #[trigger] assoc::upsert(
                    f,
                    name,
                    content(f, name) + data.take(n),
                )
        },
        _ => g == f || g == apply(f, a),
    }
}

/// `g` is a directory that a crash while following `plan` from `f` can leave behind.
pub open spec fn crashed(f: Files, plan: Seq<Step>, g: Files) -> bool {
    exists|n: int| #[trigger] crashed_at(f, plan, g, n)
}

/// `g` is a directory that a crash after `n` steps of `plan` can leave behind.
pub open spec fn crashed_at(f: Files, plan: Seq<Step>, g: Files, n: int) -> bool {
    &&& 0 <= n <= plan.len()
    &&& if n == plan.len() {
        g == apply_all(f, plan)
    } else {
        interrupted(apply_all(f, plan.take(n)), plan[n], g)
    }
}

pub proof fn lemma_apply_sorted(f: Files, a: Step)
    requires
        assoc::sorted(f),
    ensures
        assoc::sorted(apply(f, a)),
{
    match a {
        Step::Create(name, data) => {
            assoc::lemma_upsert(f, name, data);
        },
        Step::Append(name, data) => {
            assoc::lemma_upsert(f, name, content(f, name) + data);
        },
        Step::Truncate(name, n) => {
            assoc::lemma_upsert(f, name, cut(content(f, name), n));
        },
        Step::Rename(from, to) => {
            assoc::lemma_erase(f, from);
            assoc::lemma_upsert(assoc::erase(f, from), to, content(f, from));
        },
        Step::Remove(name) => {
            assoc::lemma_erase(f, name);
        },
    }
}

pub proof fn lemma_apply_all_sorted(f: Files, plan: Seq<Step>)
    requires
        assoc::sorted(f),
    ensures
        assoc::sorted(apply_all(f, plan)),
    decreases plan.len(),
{
    if plan.len() > 0 {
        lemma_apply_all_sorted(f, plan.drop_last());
        lemma_apply_sorted(apply_all(f, plan.drop_last()), plan.last());
    }
}

pub proof fn lemma_apply_add(f: Files, p: Seq<Step>, q: Seq<Step>)
    ensures
        apply_all(f, p + q) == apply_all(apply_all(f, p), q),
    decreases q.len(),
{
    if q.len() == 0 {
        assert(p + q =~= p);
    } else {
        assert((p + q).drop_last() =~= p + q.drop_last());
        lemma_apply_add(f, p, q.drop_last());
    }
}

pub proof fn lemma_apply_one(f: Files, a: Step)
    ensures
        apply_all(f, seq![a]) == apply(f, a),
{
    reveal_with_fuel(apply_all, 2);
    assert(seq![a].drop_last() =~= seq![]);
}

pub proof fn lemma_apply_two(f: Files, a: Step, b: Step)
    ensures
        apply_all(f, seq![a, b]) == apply(apply(f, a), b),
{
    assert(seq![a, b] =~= seq![a] + seq![b]);
    lemma_apply_add(f, seq![a], seq![b]);
    lemma_apply_one(f, a);
    lemma_apply_one(apply(f, a), b);
}

/// What writing a file whole does to the others.
pub proof fn lemma_create(f: Files, name: Seq<u8>, data: Seq<u8>, other: Seq<u8>)
    requires
        assoc::sorted(f),
    ensures
        assoc::sorted(assoc::upsert(f, name, data)),
        assoc::find(assoc::upsert(f, name, data), name) == Some(data),
        other != name ==> assoc::find(assoc::upsert(f, name, data), other) == assoc::find(f, other),
{
    assoc::lemma_upsert(f, name, data);
}

/// What a rename does to the files.
pub proof fn lemma_rename(f: Files, from: Seq<u8>, to: Seq<u8>, other: Seq<u8>)
    requires
        assoc::sorted(f),
        has(f, from),
        from != to,
    ensures
        assoc::sorted(apply(f, Step::Rename(from, to))),
        assoc::find(apply(f, Step::Rename(from, to)), to) == assoc::find(f, from),
        assoc::find(apply(f, Step::Rename(from, to)), from) is None,
        other != from && other != to ==> assoc::find(apply(f, Step::Rename(from, to)), other)
            == assoc::find(f, other),
{
    assoc::lemma_erase(f, from);
    assoc::lemma_upsert(assoc::erase(f, from), to, content(f, from));
}

/// What a step does to the file it names, and that it touches no other: a create replaces the
/// content, an append adds to the end, a truncation keeps a front of at most that length, a
/// rename moves the content and replaces what was there, a removal leaves no file. A truncation
/// or a rename of a file that is not there does nothing.
pub proof fn law_a_step_changes_the_file_it_names(
    f: Files,
    name: Seq<u8>,
    to: Seq<u8>,
    data: Seq<u8>,
    n: nat,
    other: Seq<u8>,
)
    requires
        assoc::sorted(f),
        other != name,
    ensures
        assoc::find(apply(f, Step::Create(name, data)), name) == Some(data),
        assoc::find(apply(f, Step::Create(name, data)), other) == assoc::find(f, other),
        assoc::find(f, name) is None ==> assoc::find(apply(f, Step::Append(name, data)), name)
            == Some(data),
        assoc::find(f, name) matches Some(was) ==> assoc::find(
            apply(f, Step::Append(name, data)),
            name,
        ) == Some(was + data),
        assoc::find(apply(f, Step::Append(name, data)), other) == assoc::find(f, other),
        assoc::find(f, name) matches Some(was) ==> assoc::find(
            apply(f, Step::Truncate(name, n)),
            name,
        ) == Some(if n <= was.len() {
            was.take(n as int)
        } else {
            was
        }),
        assoc::find(f, name) is None ==> apply(f, Step::Truncate(name, n)) == f,
        assoc::find(apply(f, Step::Truncate(name, n)), other) == assoc::find(f, other),
        assoc::find(f, name) is Some ==> assoc::find(apply(f, Step::Rename(name, to)), to)
            == assoc::find(f, name),
        assoc::find(f, name) is Some && name != to ==> assoc::find(
            apply(f, Step::Rename(name, to)),
            name,
        ) is None,
        assoc::find(f, name) is None ==> apply(f, Step::Rename(name, to)) == f,
        other != to ==> assoc::find(apply(f, Step::Rename(name, to)), other) == assoc::find(
            f,
            other,
        ),
        assoc::find(apply(f, Step::Remove(name)), name) is None,
        assoc::find(apply(f, Step::Remove(name)), other) == assoc::find(f, other),
{
    assoc::lemma_upsert(f, name, data);
    assoc::lemma_upsert(f, name, content(f, name) + data);
    assoc::lemma_upsert(f, name, cut(content(f, name), n));
    assoc::lemma_erase(f, name);
    assoc::lemma_upsert(assoc::erase(f, name), to, content(f, name));
    assert(Seq::<u8>::empty() + data =~= data);
}

/// A crash during a step touches no file that the step does not name, and leaves the named file
/// as it was or, for a write, with a front of the data written.
pub proof fn law_an_interrupted_write_is_a_front(
    f: Files,
    name: Seq<u8>,
    data: Seq<u8>,
    g: Files,
    other: Seq<u8>,
)
    requires
        assoc::sorted(f),
        other != name,
    ensures
        interrupted(f, Step::Create(name, data), g) ==> assoc::find(g, other) == assoc::find(
            f,
            other,
        ) && (g == f || exists|n: int|
            0 <= n <= data.len() && assoc::find(g, name) == Some(#[trigger] data.take(n))),
        interrupted(f, Step::Append(name, data), g) ==> assoc::find(g, other) == assoc::find(
            f,
            other,
        ) && (g == f || exists|n: int|
            0 <= n <= data.len() && assoc::find(g, name) == Some(
                content(f, name) + #[trigger] data.take(n),
            )),
{
    if interrupted(f, Step::Create(name, data), g) && g != f {
        let n = choose|n: int|
            0 <= n <= data.len() && g == #[trigger] assoc::upsert(f, name, data.take(n));
        assoc::lemma_upsert(f, name, data.take(n));
    }
    if interrupted(f, Step::Append(name, data), g) && g != f {
        let n = choose|n: int|
            0 <= n <= data.len() && g == #[trigger] assoc::upsert(
                f,
                name,
                content(f, name) + data.take(n),
            );
        assoc::lemma_upsert(f, name, content(f, name) + data.take(n));
    }
}

/// The steps that replace the file `live` as a whole: write the new content aside, then rename
/// it into place.
pub open spec fn replace_steps(aside: Seq<u8>, live: Seq<u8>, data: Seq<u8>) -> Seq<Step> {
    seq![Step::Create(aside, data), Step::Rename(aside, live)]
}

/// A finished replacement takes effect and leaves nothing aside.
pub proof fn law_replacement_takes_effect(f: Files, aside: Seq<u8>, live: Seq<u8>, data: Seq<u8>)
    requires
        assoc::sorted(f),
        aside != live,
    ensures
        assoc::find(apply_all(f, replace_steps(aside, live, data)), live) == Some(data),
        assoc::find(apply_all(f, replace_steps(aside, live, data)), aside) is None,
{
    let a = Step::Create(aside, data);
    let b = Step::Rename(aside, live);
    lemma_apply_two(f, a, b);
    lemma_create(f, aside, data, live);
    lemma_rename(apply(f, a), aside, live, live);
}

/// A crash at any point of a replacement leaves the file as it was, or the new one.
pub proof fn law_replacement_is_atomic(
    f: Files,
    aside: Seq<u8>,
    live: Seq<u8>,
    data: Seq<u8>,
    g: Files,
)
    requires
        assoc::sorted(f),
        aside != live,
        crashed(f, replace_steps(aside, live, data), g),
    ensures
        assoc::find(g, live) == assoc::find(f, live) || assoc::find(g, live) == Some(data),
{
    let plan = replace_steps(aside, live, data);
    let a = plan[0];
    let n = choose|n: int| crashed_at(f, plan, g, n);
    assert(crashed_at(f, plan, g, n));
    law_replacement_takes_effect(f, aside, live, data);
    assert(plan.take(0) =~= seq![]);
    assert(apply_all(f, plan.take(0)) == f);
    assert(plan.take(1) =~= seq![a]);
    lemma_apply_one(f, a);
    lemma_apply_two(f, a, plan[1]);
    lemma_create(f, aside, data, live);
    if n == 0 && g != f {
        let m = choose|m: int|
            0 <= m <= data.len() && g == #[trigger] assoc::upsert(f, aside, data.take(m));
        lemma_create(f, aside, data.take(m), live);
    }
}

/// A directory held in memory.
#[derive(Debug)]
pub struct DirImage {
    files: OrdMap<Vec<u8>>,
}

impl DirImage {
    pub closed spec fn view(&self) -> Files {
        assoc::map_vals(self.files.entries(), |v: Vec<u8>| v@)
    }

    /// An empty directory.
    pub fn new() -> (r: DirImage)
        ensures
            r@ == Files::empty(),
    {
        let r = DirImage { files: OrdMap::new() };
        assert(r@ =~= Files::empty());
        r
    }

    /// The number of files.
    pub fn len(&self) -> (r: usize)
        ensures
            r == self@.len(),
            assoc::sorted(self@),
    {
        proof {
            assoc::lemma_map_vals(self.files.entries(), |v: Vec<u8>| v@, seq![]);
        }
        self.files.len()
    }

    /// The name of the file at position `i`.
    pub fn name_at(&self, i: usize) -> (r: &Vec<u8>)
        requires
            i < self@.len(),
        ensures
            r@ == self@[i as int].0,
    {
        self.files.key_at(i)
    }

    /// The content of the file at position `i`.
    pub fn data_at(&self, i: usize) -> (r: &Vec<u8>)
        requires
            i < self@.len(),
        ensures
            r@ == self@[i as int].1,
    {
        self.files.value_at(i)
    }

    /// The content of a file.
    pub fn read(&self, name: &[u8]) -> (r: Option<&Vec<u8>>)
        ensures
            match r {
                Some(data) => assoc::find(self@, name@) == Some(data@),
                None => assoc::find(self@, name@) is None,
            },
    {
        proof {
            assoc::lemma_map_vals(self.files.entries(), |v: Vec<u8>| v@, name@);
        }
        self.files.get(name)
    }

    /// Set the content of a file.
    pub fn write(&mut self, name: Vec<u8>, data: Vec<u8>)
        ensures
            final(self)@ == assoc::upsert(old(self)@, name@, data@),
    {
        let ghost f = |v: Vec<u8>| v@;
        let ghost es = self.files.entries();
        proof {
            assoc::lemma_map_vals(es, f, name@);
            assert(assoc::upsert(self@, name@, f(data)) == assoc::map_vals(
                assoc::upsert(es, name@, data),
                f,
            ));
        }
        let _before = self.files.insert(Arc::new(name), data);
    }

    /// Delete a file.
    pub fn remove(&mut self, name: &[u8])
        ensures
            final(self)@ == assoc::erase(old(self)@, name@),
    {
        proof {
            assoc::lemma_map_vals(self.files.entries(), |v: Vec<u8>| v@, name@);
        }
        let _gone = self.files.remove(name);
    }

    /// Perform one step.
    pub fn apply(&mut self, a: &FileAction)
        ensures
            final(self)@ == apply(old(self)@, a@),
    {
        match a {
            FileAction::Create { name, data } => {
                self.write(copy_bytes(name.as_slice()), copy_bytes(data.as_slice()));
            },
            FileAction::Append { name, data } => {
                let mut joined: Vec<u8> = match self.read(name.as_slice()) {
                    Some(before) => copy_bytes(before.as_slice()),
                    None => Vec::new(),
                };
                assert(joined@ =~= content(self@, name@));
                push_all(&mut joined, data.as_slice());
                self.write(copy_bytes(name.as_slice()), joined);
            },
            FileAction::Truncate { name, len } => {
                let cut_to: Option<Vec<u8>> = match self.read(name.as_slice()) {
                    Some(before) => {
                        let mut data: Vec<u8> = copy_bytes(before.as_slice());
                        if *len < data.len() as u64 {
                            data.truncate(*len as usize);
                        }
                        assert(data@ =~= cut(before@, *len as nat));
                        Some(data)
                    },
                    None => None,
                };
                match cut_to {
                    Some(data) => {
                        self.write(copy_bytes(name.as_slice()), data);
                    },
                    None => {},
                }
            },
            FileAction::Rename { from, to } => {
                let moved: Option<Vec<u8>> = match self.read(from.as_slice()) {
                    Some(data) => Some(copy_bytes(data.as_slice())),
                    None => None,
                };
                match moved {
                    Some(data) => {
                        self.remove(from.as_slice());
                        self.write(copy_bytes(to.as_slice()), data);
                    },
                    None => {},
                }
            },
            FileAction::Remove { name } => {
                self.remove(name.as_slice());
            },
        }
    }

    /// Perform all the steps of a plan, in order.
    pub fn apply_all(&mut self, plan: &Vec<FileAction>)
        ensures
            final(self)@ == apply_all(old(self)@, steps(plan@)),
    {
        let ghost start = self@;
        let ghost todo = steps(plan@);
        let mut i: usize = 0;
        assert(todo.take(0) =~= seq![]);
        while i < plan.len()
            invariant
                i <= plan.len(),
                todo == steps(plan@),
                self@ == apply_all(start, todo.take(i as int)),
            decreases plan.len() - i,
        {
            self.apply(&plan[i]);
            assert(todo.take(i + 1).drop_last() =~= todo.take(i as int));
            i = i + 1;
        }
        assert(todo.take(todo.len() as int) =~= todo);
    }
}

} // verus!
