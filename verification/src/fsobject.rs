//! Directories and files, held in one arena and named by handles.
//!
//! A [`FileSystem`] owns every entry. [`FSDir`] and [`FSFile`] are handles
//! into it: a child reaches its parent, and a parent its children, through
//! the position of the other's entry, so that nothing is shared and nothing
//! owns what owns it.
//!
//! Every operation asks for a well-formed file system and leaves it well
//! formed. A file system in which no child was attached under a name that
//! its directory had in use is exact as well.

use vstd::prelude::*;
use crate::forest::{
    attach, bump, bump_from, can_attach, child_dirs, chosen, dirs_among, dirs_beneath, grow, has,
    is_dir_at, is_file_at, linked, named_child, node_linked, reaches, room, root_of, slot, subtree_dirs, exact, with_child,
    Entry, Forest,
};
use crate::forest_lemmas::{
    lemma_attach_exact, lemma_attach_linked, lemma_chosen_push, lemma_grow_exact, lemma_grow_linked, lemma_named_child, lemma_named_child_is_child,
    lemma_reaches_depth, lemma_reaches_has, lemma_reaches_parent_step, lemma_reaches_unique,
    lemma_room_child, lemma_root_of, lemma_root_of_ancestor, lemma_size_grows_upward, lemma_slot_is,
};
use crate::names::{name_before, name_lt};

verus! {

/// What the arena keeps of one entry.
pub(crate) struct Node {
    pub(crate) name: String,
    pub(crate) size: usize,
    pub(crate) is_dir: bool,
    pub(crate) parent: Option<usize>,
    pub(crate) children: Vec<usize>,
}

/// The arena that owns every directory and file.
pub struct FileSystem {
    pub(crate) nodes: Vec<Node>,
    pub(crate) depths: Ghost<Seq<nat>>,
}

impl View for FileSystem {
    type V = Forest;

    open(crate) spec fn view(&self) -> Forest {
        Seq::new(
            self.nodes@.len(),
            |i: int|
                Entry {
                    name: self.nodes@[i].name@,
                    is_dir: self.nodes@[i].is_dir,
                    size: self.nodes@[i].size as nat,
                    parent: match self.nodes@[i].parent {
                        Some(p) => Some(p as int),
                        None => None,
                    },
                    children: self.nodes@[i].children@.map_values(|c: usize| c as int),
                    depth: self.depths@[i],
                },
        )
    }
}

impl FileSystem {
    /// The arena records a depth for each entry.
    pub open(crate) spec fn ranked(&self) -> bool {
        self.depths@.len() == self.nodes@.len()
    }

    /// The arena is well formed: the links between its entries are
    /// consistent.
    pub open(crate) spec fn wf(&self) -> bool {
        self.ranked() && linked(self@)
    }

    /// The arena is well formed and exact: no child has lost its place to
    /// a later one of the same name, so that every directory is as large
    /// as its children together.
    pub open(crate) spec fn exact(&self) -> bool {
        self.ranked() && exact(self@)
    }

    /// An arena with nothing in it.
    pub fn new() -> (fs: Self)
        ensures
            fs.wf(),
            fs.exact(),
            fs@ == Seq::<Entry>::empty(),
    {
        let fs = FileSystem { nodes: Vec::new(), depths: Ghost(Seq::empty()) };
        fs
    }

    /// Adds an entry that is attached nowhere and returns its position.
    fn add_entry(&mut self, name: String, is_dir: bool, size: usize) -> (id: usize)
        requires
            old(self).wf(),
            is_dir ==> size == 0 && name@.len() > 0,
        ensures
            final(self).wf(),
            old(self).exact() ==> final(self).exact(),
            final(self)@ == grow(old(self)@, name@, is_dir, size as nat),
            id == old(self)@.len(),
    {
        let id = self.nodes.len();
        let children: Vec<usize> = Vec::new();
        self.nodes.push(Node { name, size, is_dir, parent: None, children });
        self.depths = Ghost(self.depths@.push(0));
        proof {
            assert(self@ =~~= grow(old(self)@, name@, is_dir, size as nat));
            lemma_grow_linked(old(self)@, name@, is_dir, size as nat);
            if old(self).exact() {
                lemma_grow_exact(old(self)@, name@, is_dir, size as nat);
            }
        }
        id
    }

    /// Where among the children of `d` an entry called `name` belongs.
    fn place_for(&self, d: usize, name: &str) -> (at: usize)
        requires
            self.ranked(),
            linked(self@),
            is_dir_at(self@, d as int),
        ensures
            at == slot(self@, self@[d as int].children, name@),
            at <= self@[d as int].children.len(),
    {
        let ghost m = self@;
        let ghost kids = m[d as int].children;
        let mut at: usize = 0;
        while at < self.nodes[d].children.len()
            invariant
                m == self@,
                kids == m[d as int].children,
                is_dir_at(m, d as int),
                node_linked(m, d as int),
                at <= kids.len(),
                forall|k: int| 0 <= k < at ==> name_lt(m[#[trigger] kids[k]].name, name@),
            ensures
                at <= kids.len(),
                forall|k: int| 0 <= k < at ==> name_lt(m[#[trigger] kids[k]].name, name@),
                at < kids.len() ==> !name_lt(m[kids[at as int]].name, name@),
            decreases kids.len() - at,
        {
            let kid = self.nodes[d].children[at];
            if !name_before(self.nodes[kid].name.as_str(), name) {
                break ;
            }
            at = at + 1;
        }
        proof {
            lemma_slot_is(m, kids, name@, at as int);
        }
        at
    }

    /// The child of `d` called `name`, if there is one.
    fn find_child(&self, d: usize, name: &str) -> (found: Option<usize>)
        requires
            self.ranked(),
            linked(self@),
            is_dir_at(self@, d as int),
        ensures
            match found {
                Some(x) => named_child(self@, d as int, name@) == Some(x as int),
                None => named_child(self@, d as int, name@) is None,
            },
    {
        let ghost m = self@;
        let ghost kids = m[d as int].children;
        let key = String::from_str(name);
        let mut k: usize = 0;
        while k < self.nodes[d].children.len()
            invariant
                m == self@,
                kids == m[d as int].children,
                is_dir_at(m, d as int),
                node_linked(m, d as int),
                key@ == name@,
                k <= kids.len(),
                forall|j: int| 0 <= j < k ==> m[#[trigger] kids[j]].name != name@,
            decreases kids.len() - k,
        {
            let kid = self.nodes[d].children[k];
            assert(kid as int == kids[k as int]);
            if self.nodes[kid].name == key {
                proof {
                    lemma_named_child(m, d as int, name@, k as int);
                }
                return Some(kid);
            }
            k = k + 1;
        }
        None
    }

    /// Makes every entry from `d` up to its root larger by `size`.
    fn incr_size(&mut self, d: usize, size: usize)
        requires
            old(self).ranked(),
            linked(old(self)@),
            has(old(self)@, d as int),
            forall|i: int| reaches(old(self)@, d as int, i) ==> old(self)@[i].size + size <= usize::MAX,
        ensures
            final(self).ranked(),
            final(self)@ == bump(old(self)@, d as int, size as nat),
    {
        let ghost m = self@;
        let ghost start = d as int;
        let mut cur: Option<usize> = Some(d);
        proof {
            assert forall|i: int| has(m, i) implies !(reaches(m, start, i) && m[i].depth >= m[start].depth + 1) by {
                if reaches(m, start, i) {
                    lemma_reaches_depth(m, start, i);
                }
            }
            let b = bump_from(m, start, size as nat, m[start].depth + 1);
            assert forall|i: int| has(m, i) implies b[i] == m[i] by {}
        }
        while cur.is_some()
            invariant
                self.ranked(),
                self.nodes@.len() == m.len(),
                linked(m),
                has(m, start),
                forall|i: int| reaches(m, start, i) ==> m[i].size + size <= usize::MAX,
                cur matches Some(at) ==> has(m, at as int) && reaches(m, start, at as int),
                self@ == bump_from(
                    m,
                    start,
                    size as nat,
                    match cur {
                        Some(at) => m[at as int].depth + 1,
                        None => 0,
                    },
                ),
            decreases
                (match cur {
                    Some(at) => m[at as int].depth + 1,
                    None => 0,
                }),
        {
            let at = cur.unwrap();
            let ghost before = self@;
            assert(node_linked(m, at as int));
            assert(before[at as int].size == m[at as int].size);
            self.nodes[at].size = self.nodes[at].size + size;
            cur = self.nodes[at].parent;
            proof {
                let floor = m[at as int].depth;
                assert forall|i: int| has(m, i) && reaches(m, start, i) && m[i].depth == floor implies i
                    == at by {
                    lemma_reaches_unique(m, start, i, at as int);
                }
                let b = bump_from(m, start, size as nat, floor);
                assert forall|i: int| has(m, i) implies self@[i] == b[i] by {
                    if i != at {
                        assert(self@[i] == before[i]);
                    }
                }
                if cur is Some {
                    lemma_reaches_parent_step(m, start, at as int);
                }
            }
        }
    }

    /// Makes `d` the parent of `c`.
    fn set_parent(&mut self, c: usize, d: usize)
        requires
            old(self).ranked(),
            has(old(self)@, c as int),
        ensures
            final(self).ranked(),
            final(self)@ == old(self)@.update(c as int, Entry { parent: Some(d as int), ..old(self)@[c as int] }),
            final(self).nodes@ == old(self).nodes@.update(
                c as int,
                (Node { parent: Some(d), ..old(self).nodes@[c as int] }),
            ),
    {
        self.nodes[c].parent = Some(d);
    }

    /// Attaches entry `c` to directory `d`, in place of a child of the same
    /// name if there is one.
    fn attach(&mut self, d: usize, c: usize)
        requires
            old(self).wf(),
            can_attach(old(self)@, d as int, c as int),
            old(self)@[root_of(old(self)@, d as int)].size + old(self)@[c as int].size <= usize::MAX,
        ensures
            final(self).wf(),
            final(self)@ == attach(old(self)@, d as int, c as int),
            old(self).exact() && named_child(old(self)@, d as int, old(self)@[c as int].name) is None
                ==> final(self).exact(),
    {
        let ghost m = self@;
        let at = self.place_for(d, self.nodes[c].name.as_str());
        proof {
            assert(node_linked(m, d as int));
            if at < m[d as int].children.len() {
                assert(has(m, m[d as int].children[at as int]));
            }
        }
        let taken = at < self.nodes[d].children.len() && self.nodes[self.nodes[d].children[at]].name
            == self.nodes[c].name;
        let size = self.nodes[c].size;
        proof {
            lemma_root_of(m, d as int);
            assert forall|i: int| reaches(m, d as int, i) implies m[i].size + size <= usize::MAX by {
                lemma_reaches_has(m, d as int, i);
                lemma_root_of_ancestor(m, d as int, i);
                lemma_root_of(m, i);
                lemma_size_grows_upward(m, i, root_of(m, i));
            }
        }
        self.incr_size(d, size);
        let ghost m1 = self@;
        assert(m1.len() == m.len());
        assert(m1[d as int].children == m[d as int].children);
        self.set_parent(c, d);
        let ghost m2 = self@;
        if taken {
            self.nodes[d].children[at] = c;
        } else {
            self.nodes[d].children.insert(at, c);
        }
        self.depths = Ghost(
            Seq::new(
                m.len(),
                |i: int|
                    if reaches(m, i, c as int) {
                        m[i].depth + m[d as int].depth + 1
                    } else {
                        m[i].depth
                    },
            ),
        );
        proof {
            let a = attach(m, d as int, c as int);
            assert(taken == (at < m[d as int].children.len() && m[m[d as int].children[at as int]].name
                == m[c as int].name));
            assert(self@[d as int].children =~= with_child(m, m[d as int].children, c as int));
            assert forall|i: int| has(m, i) implies self@[i] =~~= a[i] by {
                assert(self@[i].size == m2[i].size && m2[i].size == m1[i].size);
            }
            assert(self@ =~~= a);
            lemma_attach_linked(m, d as int, c as int);
            if old(self).exact() && named_child(m, d as int, m[c as int].name) is None {
                lemma_attach_exact(m, d as int, c as int);
            }
        }
    }
}

/// A directory of a [`FileSystem`].
#[derive(Clone, Copy, Debug, PartialEq, Eq, Structural)]
pub struct FSDir {
    pub(crate) id: usize,
}

/// A file of a [`FileSystem`].
#[derive(Clone, Copy, Debug, PartialEq, Eq, Structural)]
pub struct FSFile {
    pub(crate) id: usize,
}

impl View for FSDir {
    type V = int;

    /// The position of the directory's entry in the model.
    open(crate) spec fn view(&self) -> int {
        self.id as int
    }
}

impl View for FSFile {
    type V = int;

    /// The position of the file's entry in the model.
    open(crate) spec fn view(&self) -> int {
        self.id as int
    }
}

/// The handle of the directory whose entry stands at position `i`.
pub open(crate) spec fn dir_handle(i: int) -> FSDir {
    FSDir { id: i as usize }
}

/// The handle of an entry's position names that position.
pub proof fn lemma_dir_handle(fs: &FileSystem, i: int)
    requires
        has(fs@, i),
    ensures
        dir_handle(i)@ == i,
{
    assert(fs.nodes.len() == fs@.len());
}

/// The positions that a sequence of handles names.
pub open spec fn ids(dirs: Seq<FSDir>) -> Seq<int> {
    dirs.map_values(|d: FSDir| d@)
}

/// `pred` may be called on each of the directories `cands`.
pub open spec fn callable<F: Fn(&FSDir) -> bool>(pred: &F, cands: Seq<int>) -> bool {
    forall|i: int| 0 <= i < cands.len() ==> call_requires(*pred, (&dir_handle(#[trigger] cands[i]),))
}

/// `keep` holds, for each of the directories `cands`, an answer that `pred`
/// can give for it.
pub open spec fn answers<F: Fn(&FSDir) -> bool>(pred: &F, cands: Seq<int>, keep: Seq<bool>) -> bool {
    &&& keep.len() == cands.len()
    &&& forall|i: int|
        0 <= i < cands.len() ==> call_ensures(*pred, (&dir_handle(#[trigger] cands[i]),), keep[i])
}

/// `picked` holds those of `cands` that `pred` accepted, in their order.
pub open spec fn selects<F: Fn(&FSDir) -> bool>(pred: &F, cands: Seq<int>, picked: Seq<int>) -> bool {
    exists|keep: Seq<bool>| answers(pred, cands, keep) && picked == chosen(cands, keep)
}

/// What directories and files have in common.
pub trait FSObject: View<V = int> + Sized {
    /// The handle names an object of its kind in `fs`.
    spec fn valid_in(&self, fs: &FileSystem) -> bool;

    /// The object's name.
    fn name(&self, fs: &FileSystem) -> (name: String)
        requires
            self.valid_in(fs),
        ensures
            name@ == fs@[self@].name,
    ;

    /// The object's size: a file's own, or the total of what was attached
    /// beneath a directory.
    fn size(&self, fs: &FileSystem) -> (size: usize)
        requires
            self.valid_in(fs),
        ensures
            size == fs@[self@].size,
    ;

    /// The directory that the object is attached to, if any.
    fn parent(&self, fs: &FileSystem) -> (parent: Option<FSDir>)
        requires
            self.valid_in(fs),
        ensures
            match parent {
                Some(p) => fs@[self@].parent == Some(p@),
                None => fs@[self@].parent is None,
            },
            fs.wf() && parent is Some ==> is_dir_at(fs@, parent->0@),
    ;
}

impl FSObject for FSDir {
    open(crate) spec fn valid_in(&self, fs: &FileSystem) -> bool {
        is_dir_at(fs@, self@)
    }

    fn name(&self, fs: &FileSystem) -> (name: String) {
        fs.nodes[self.id].name.clone()
    }

    fn size(&self, fs: &FileSystem) -> (size: usize) {
        fs.nodes[self.id].size
    }

    fn parent(&self, fs: &FileSystem) -> (parent: Option<FSDir>) {
        proof {
            if fs.wf() {
                assert(node_linked(fs@, self@));
            }
        }
        match fs.nodes[self.id].parent {
            Some(p) => Some(FSDir { id: p }),
            None => None,
        }
    }
}

impl FSObject for FSFile {
    open(crate) spec fn valid_in(&self, fs: &FileSystem) -> bool {
        is_file_at(fs@, self@)
    }

    fn name(&self, fs: &FileSystem) -> (name: String) {
        fs.nodes[self.id].name.clone()
    }

    fn size(&self, fs: &FileSystem) -> (size: usize) {
        fs.nodes[self.id].size
    }

    fn parent(&self, fs: &FileSystem) -> (parent: Option<FSDir>) {
        proof {
            if fs.wf() {
                assert(node_linked(fs@, self@));
            }
        }
        match fs.nodes[self.id].parent {
            Some(p) => Some(FSDir { id: p }),
            None => None,
        }
    }
}

impl FSFile {
    /// Creates a file called `name` of the given size, attached nowhere.
    pub fn new(fs: &mut FileSystem, name: String, size: usize) -> (file: FSFile)
        requires
            old(fs).wf(),
        ensures
            final(fs).wf(),
            old(fs).exact() ==> final(fs).exact(),
            final(fs)@ == grow(old(fs)@, name@, false, size as nat),
            file@ == old(fs)@.len(),
            file.valid_in(final(fs)),
    {
        let id = fs.add_entry(name, false, size);
        FSFile { id }
    }
}

impl FSDir {
    /// Creates an empty directory called `name`, attached nowhere.
    pub fn new(fs: &mut FileSystem, name: String) -> (dir: FSDir)
        requires
            old(fs).wf(),
            name@.len() > 0,
        ensures
            final(fs).wf(),
            old(fs).exact() ==> final(fs).exact(),
            final(fs)@ == grow(old(fs)@, name@, true, 0),
            dir@ == old(fs)@.len(),
            dir.valid_in(final(fs)),
    {
        let id = fs.add_entry(name, true, 0);
        FSDir { id }
    }

    /// Whether the directory has a child called `name`.
    pub fn contains(&self, fs: &FileSystem, name: &str) -> (found: bool)
        requires
            fs.wf(),
            self.valid_in(fs),
        ensures
            found == named_child(fs@, self@, name@).is_some(),
    {
        fs.find_child(self.id, name).is_some()
    }

    /// Attaches the directory `dir`, with all that it holds, to this one.
    /// A child that has the name of `dir` loses its place to `dir`: it is
    /// found no more, though its size stays counted, and the file system
    /// is exact no longer. [`FSDir::contains`] tells beforehand.
    pub fn add_dir(&self, fs: &mut FileSystem, dir: FSDir)
        requires
            old(fs).wf(),
            dir.valid_in(old(fs)),
            can_attach(old(fs)@, self@, dir@),
            old(fs)@[root_of(old(fs)@, self@)].size + old(fs)@[dir@].size <= usize::MAX,
        ensures
            final(fs).wf(),
            final(fs)@ == attach(old(fs)@, self@, dir@),
            old(fs).exact() && named_child(old(fs)@, self@, old(fs)@[dir@].name) is None ==> final(fs).exact(),
    {
        fs.attach(self.id, dir.id);
    }

    /// Attaches the file `file` to this directory. A child that has the
    /// name of `file` loses its place to `file`: it is found no more,
    /// though its size stays counted, and the file system is exact no
    /// longer. [`FSDir::contains`] tells beforehand.
    pub fn add_file(&self, fs: &mut FileSystem, file: FSFile)
        requires
            old(fs).wf(),
            file.valid_in(old(fs)),
            can_attach(old(fs)@, self@, file@),
            old(fs)@[root_of(old(fs)@, self@)].size + old(fs)@[file@].size <= usize::MAX,
        ensures
            final(fs).wf(),
            final(fs)@ == attach(old(fs)@, self@, file@),
            old(fs).exact() && named_child(old(fs)@, self@, old(fs)@[file@].name) is None ==> final(fs).exact(),
    {
        fs.attach(self.id, file.id);
    }

    /// The child directory called `name`, if there is one.
    pub fn get_dir(&self, fs: &FileSystem, name: &str) -> (dir: Option<FSDir>)
        requires
            fs.wf(),
            self.valid_in(fs),
        ensures
            match dir {
                Some(x) => named_child(fs@, self@, name@) == Some(x@) && x.valid_in(fs),
                None => named_child(fs@, self@, name@) matches Some(x) ==> !fs@[x].is_dir,
            },
    {
        match fs.find_child(self.id, name) {
            Some(x) => {
                proof {
                    lemma_named_child_is_child(fs@, self@, name@);
                }
                if fs.nodes[x].is_dir {
                    Some(FSDir { id: x })
                } else {
                    None
                }
            },
            None => None,
        }
    }
}

/// Calls `pred` on each of `cands` in turn and keeps those it accepts.
fn select<F: Fn(&FSDir) -> bool>(cands: Vec<FSDir>, pred: &F) -> (dirs: Vec<FSDir>)
    requires
        callable(pred, ids(cands@)),
    ensures
        selects(pred, ids(cands@), ids(dirs@)),
{
    let ghost all = ids(cands@);
    let ghost mut keep: Seq<bool> = Seq::empty();
    let mut dirs: Vec<FSDir> = Vec::new();
    let mut i: usize = 0;
    while i < cands.len()
        invariant
            all == ids(cands@),
            callable(pred, all),
            i <= cands.len(),
            answers(pred, all.take(i as int), keep),
            ids(dirs@) == chosen(all.take(i as int), keep),
        decreases cands.len() - i,
    {
        let cand = cands[i];
        assert(cand == dir_handle(all[i as int]));
        let kept = pred(&cand);
        if kept {
            dirs.push(cand);
        }
        proof {
            assert(all.take(i + 1) =~= all.take(i as int).push(all[i as int]));
            lemma_chosen_push(all.take(i as int), keep, all[i as int], kept);
            keep = keep.push(kept);
        }
        i = i + 1;
    }
    assert(all.take(i as int) =~= all);
    dirs
}

impl FSDir {
    /// Appends the directories of this directory's subtree to `out`, in
    /// pre-order.
    fn gather(&self, fs: &FileSystem, out: &mut Vec<FSDir>)
        requires
            fs.wf(),
            self.valid_in(fs),
        ensures
            ids(final(out)@) == ids(old(out)@) + subtree_dirs(fs@, self@),
        decreases room(fs@, self@),
    {
        let ghost m = fs@;
        let ghost start = ids(out@);
        out.push(*self);
        let count = fs.nodes[self.id].children.len();
        let mut k: usize = 0;
        while k < count
            invariant
                m == fs@,
                fs.wf(),
                self.valid_in(fs),
                count == m[self@].children.len(),
                k <= count,
                ids(out@) == start + seq![self@] + dirs_beneath(m, self@, k as nat),
            decreases count - k,
        {
            let kid = fs.nodes[self.id].children[k];
            proof {
                lemma_room_child(m, self@, k as int);
            }
            if fs.nodes[kid].is_dir {
                let child = FSDir { id: kid };
                child.gather(fs, out);
            }
            k = k + 1;
        }
    }

    /// The child directories that `pred` accepts, in ascending order of
    /// name.
    pub fn find_dirs_by<F: Fn(&FSDir) -> bool>(&self, fs: &FileSystem, pred: &F) -> (dirs: Vec<FSDir>)
        requires
            fs.wf(),
            self.valid_in(fs),
            callable(pred, child_dirs(fs@, self@)),
        ensures
            selects(pred, child_dirs(fs@, self@), ids(dirs@)),
    {
        let ghost m = fs@;
        let ghost kids = m[self@].children;
        let mut cands: Vec<FSDir> = Vec::new();
        let count = fs.nodes[self.id].children.len();
        let mut k: usize = 0;
        while k < count
            invariant
                m == fs@,
                kids == m[self@].children,
                self.valid_in(fs),
                fs.wf(),
                count == kids.len(),
                k <= count,
                ids(cands@) == dirs_among(m, kids.take(k as int)),
            decreases count - k,
        {
            let kid = fs.nodes[self.id].children[k];
            proof {
                assert(node_linked(m, self@));
                assert(kid as int == kids[k as int]);
                assert(kids.take(k + 1).drop_last() =~= kids.take(k as int));
            }
            if fs.nodes[kid].is_dir {
                cands.push(FSDir { id: kid });
            }
            k = k + 1;
        }
        assert(kids.take(k as int) =~= kids);
        select(cands, pred)
    }

    /// The directories of this directory's subtree that `pred` accepts, in
    /// pre-order: the directory itself first, then for each child directory
    /// in ascending order of name what its own subtree yields.
    pub fn find_dirs_recurs_by<F: Fn(&FSDir) -> bool>(&self, fs: &FileSystem, pred: &F) -> (dirs: Vec<FSDir>)
        requires
            fs.wf(),
            self.valid_in(fs),
            callable(pred, subtree_dirs(fs@, self@)),
        ensures
            selects(pred, subtree_dirs(fs@, self@), ids(dirs@)),
    {
        let mut cands: Vec<FSDir> = Vec::new();
        self.gather(fs, &mut cands);
        select(cands, pred)
    }
}

} // verus!
