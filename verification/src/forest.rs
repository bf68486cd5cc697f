//! The mathematical model of the file system: a sequence of entries, each
//! naming its parent and its children by position in the sequence.
//!
//! Directories and files that have been created but not yet attached are
//! roots of their own, so the model is a forest. Every contract of the crate
//! is stated over this model.
//!
//! Two things can hold of a forest. Its links are consistent ([`linked`])
//! whatever is attached to it. It is exact ([`exact`]) as long as no child
//! has lost its place to a later child of the same name: then every
//! directory is as large as what lies beneath it.

use vstd::prelude::*;
use crate::names::name_lt;

verus! {

/// One directory or file.
#[verifier::ext_equal]
pub struct Entry {
    /// The entry's name.
    pub name: Seq<char>,
    /// Whether this is a directory.
    pub is_dir: bool,
    /// A file's own size; for a directory, the total of what was attached
    /// beneath it.
    pub size: nat,
    /// The directory this entry is attached to, if any.
    pub parent: Option<int>,
    /// The entries attached to this directory, in ascending order of name.
    pub children: Seq<int>,
    /// The number of steps from this entry up to the root of its tree.
    pub depth: nat,
}

pub type Forest = Seq<Entry>;

/// `i` is the position of an entry of `m`.
pub open spec fn has(m: Forest, i: int) -> bool {
    0 <= i < m.len()
}

/// `i` is the position of a directory of `m`.
pub open spec fn is_dir_at(m: Forest, i: int) -> bool {
    has(m, i) && m[i].is_dir
}

/// `i` is the position of a file of `m`.
pub open spec fn is_file_at(m: Forest, i: int) -> bool {
    has(m, i) && !m[i].is_dir
}

/// An entry as it is when just created: attached nowhere, with nothing in it.
pub open spec fn fresh(name: Seq<char>, is_dir: bool, size: nat) -> Entry {
    Entry { name, is_dir, size, parent: None, children: Seq::empty(), depth: 0 }
}

/// The sizes of the entries `kids`, added up.
pub open spec fn child_total(m: Forest, kids: Seq<int>) -> nat
    decreases kids.len(),
{
    if kids.len() == 0 {
        0
    } else {
        child_total(m, kids.drop_last()) + m[kids.last()].size
    }
}

/// The entries `kids` stand in strictly ascending order of name.
pub open spec fn sorted_by_name(m: Forest, kids: Seq<int>) -> bool {
    forall|j: int, k: int|
        0 <= j < k < kids.len() ==> name_lt(m[#[trigger] kids[j]].name, m[#[trigger] kids[k]].name)
}

/// None of the entries `kids` is called `name`.
pub open spec fn name_free(m: Forest, kids: Seq<int>, name: Seq<char>) -> bool {
    forall|k: int| 0 <= k < kids.len() ==> m[#[trigger] kids[k]].name != name
}

/// The entry's parent, if it has one, is a directory one step nearer to the
/// root, and no smaller than the entry.
pub open spec fn parent_ok(m: Forest, i: int) -> bool {
    match m[i].parent {
        Some(p) => {
            &&& is_dir_at(m, p)
            &&& m[i].depth == m[p].depth + 1
            &&& m[i].size <= m[p].size
        },
        None => m[i].depth == 0,
    }
}

/// The entry, if it has a parent, stands among the children of its parent.
pub open spec fn listed_at(m: Forest, i: int) -> bool {
    m[i].parent matches Some(p) ==> m[p].children.contains(i)
}

/// The entry's children are entries that name it as their parent, ordered
/// by name; only a directory has any.
pub open spec fn children_ok(m: Forest, i: int) -> bool {
    &&& !m[i].is_dir ==> m[i].children.len() == 0
    &&& forall|k: int|
        0 <= k < m[i].children.len() ==> has(m, #[trigger] m[i].children[k]) && m[m[i].children[k]].parent
            == Some(i)
    &&& sorted_by_name(m, m[i].children)
}

/// Parent and children of entry `i` agree with each other, and a directory
/// has a name.
pub open spec fn node_linked(m: Forest, i: int) -> bool {
    &&& parent_ok(m, i)
    &&& children_ok(m, i)
    &&& m[i].is_dir ==> m[i].name.len() > 0
}

/// A directory's size is the total of its children's sizes.
pub open spec fn size_ok(m: Forest, i: int) -> bool {
    m[i].is_dir ==> m[i].size == child_total(m, m[i].children)
}

/// The links between all entries are consistent.
pub open spec fn linked(m: Forest) -> bool {
    forall|i: int| has(m, i) ==> #[trigger] node_linked(m, i)
}

/// Every directory's size is up to date.
pub open spec fn summed(m: Forest) -> bool {
    forall|i: int| has(m, i) ==> #[trigger] size_ok(m, i)
}

/// Every entry that names a parent stands among the children of that
/// parent: no child has lost its place to a later one of the same name.
pub open spec fn listed(m: Forest) -> bool {
    forall|i: int| has(m, i) ==> #[trigger] listed_at(m, i)
}

/// The forest is exact: links are consistent, every entry that names a
/// parent is a child of it, and every directory is as large as its
/// children together.
pub open spec fn exact(m: Forest) -> bool {
    linked(m) && listed(m) && summed(m)
}

/// `a` is `x` itself or one of the directories above it.
pub open spec fn reaches(m: Forest, x: int, a: int) -> bool
    decreases m[x].depth,
{
    if x == a {
        true
    } else {
        match m[x].parent {
            Some(p) => has(m, x) && m[p].depth < m[x].depth && reaches(m, p, a),
            None => false,
        }
    }
}

/// The root of the tree that holds `x`.
pub open spec fn root_of(m: Forest, x: int) -> int
    decreases m[x].depth,
{
    match m[x].parent {
        Some(p) => if has(m, x) && m[p].depth < m[x].depth {
            root_of(m, p)
        } else {
            x
        },
        None => x,
    }
}

/// The child of directory `d` called `name`, if there is one.
pub open spec fn named_child(m: Forest, d: int, name: Seq<char>) -> Option<int> {
    if exists|k: int| 0 <= k < m[d].children.len() && m[#[trigger] m[d].children[k]].name == name {
        let k = choose|k: int| 0 <= k < m[d].children.len() && m[#[trigger] m[d].children[k]].name == name;
        Some(m[d].children[k])
    } else {
        None
    }
}

/// How many of the entries `kids` sort before `name`: the position at which
/// an entry of that name belongs.
pub open spec fn slot(m: Forest, kids: Seq<int>, name: Seq<char>) -> int
    decreases kids.len(),
{
    if kids.len() == 0 {
        0
    } else if name_lt(m[kids.last()].name, name) {
        slot(m, kids.drop_last(), name) + 1
    } else {
        slot(m, kids.drop_last(), name)
    }
}

/// The forest with one more entry, attached nowhere.
pub open spec fn grow(m: Forest, name: Seq<char>, is_dir: bool, size: nat) -> Forest {
    m.push(fresh(name, is_dir, size))
}

/// The forest in which every entry on the way from `d` up to its root that
/// lies at depth `floor` or deeper is larger by `s`.
pub open spec fn bump_from(m: Forest, d: int, s: nat, floor: nat) -> Forest {
    Seq::new(
        m.len(),
        |i: int|
            Entry {
                size: if reaches(m, d, i) && m[i].depth >= floor {
                    m[i].size + s
                } else {
                    m[i].size
                },
                ..m[i]
            },
    )
}

/// The forest in which every entry from `d` up to its root is larger by `s`.
pub open spec fn bump(m: Forest, d: int, s: nat) -> Forest {
    bump_from(m, d, s, 0)
}

/// What attaching `c` to `d` asks for: `d` is a directory, and `c` an entry
/// that is attached nowhere and does not lie above `d`.
pub open spec fn can_attach(m: Forest, d: int, c: int) -> bool {
    &&& is_dir_at(m, d)
    &&& has(m, c)
    &&& m[c].parent is None
    &&& !reaches(m, d, c)
}

/// The children `kids` with `c` among them, where its name belongs. A child
/// that has the name of `c` loses its place to `c`.
pub open spec fn with_child(m: Forest, kids: Seq<int>, c: int) -> Seq<int> {
    let at = slot(m, kids, m[c].name);
    if 0 <= at < kids.len() && m[kids[at]].name == m[c].name {
        kids.update(at, c)
    } else {
        kids.insert(at, c)
    }
}

/// The forest after `c` has been attached to `d`: `c` names `d` as its
/// parent and stands among the children of `d` where its name belongs, `d`
/// and every directory above it are larger by the size of `c`, and `c` and
/// all beneath it lie deeper by the depth of `d` and one. A child of `d`
/// that has the name of `c` is no child of `d` any more; it still names `d`
/// as its parent, and its size stays counted.
pub open spec fn attach(m: Forest, d: int, c: int) -> Forest {
    Seq::new(
        m.len(),
        |i: int|
            Entry {
                name: m[i].name,
                is_dir: m[i].is_dir,
                size: if reaches(m, d, i) {
                    m[i].size + m[c].size
                } else {
                    m[i].size
                },
                parent: if i == c {
                    Some(d)
                } else {
                    m[i].parent
                },
                children: if i == d {
                    with_child(m, m[d].children, c)
                } else {
                    m[i].children
                },
                depth: if reaches(m, i, c) {
                    m[i].depth + m[d].depth + 1
                } else {
                    m[i].depth
                },
            },
    )
}

/// The greatest depth at which the forest holds an entry.
pub open spec fn max_depth(m: Forest) -> nat
    decreases m.len(),
{
    if m.len() == 0 {
        0
    } else if m.last().depth > max_depth(m.drop_last()) {
        m.last().depth
    } else {
        max_depth(m.drop_last())
    }
}

/// How many levels the forest has below the level of entry `i`.
pub open spec fn room(m: Forest, i: int) -> nat {
    if m[i].depth <= max_depth(m) {
        (max_depth(m) - m[i].depth) as nat
    } else {
        0
    }
}

/// The directories among `kids`, in the order in which they stand there.
pub open spec fn dirs_among(m: Forest, kids: Seq<int>) -> Seq<int>
    decreases kids.len(),
{
    if kids.len() == 0 {
        Seq::empty()
    } else if m[kids.last()].is_dir {
        dirs_among(m, kids.drop_last()).push(kids.last())
    } else {
        dirs_among(m, kids.drop_last())
    }
}

/// The directories that are children of `d`, in ascending order of name.
pub open spec fn child_dirs(m: Forest, d: int) -> Seq<int> {
    dirs_among(m, m[d].children)
}

/// The directories found in and beneath the first `k` children of `d`:
/// child after child in ascending order of name, each directory followed
/// at once by what lies beneath it.
pub open spec fn dirs_beneath(m: Forest, d: int, k: nat) -> Seq<int>
    decreases room(m, d), k,
{
    if k == 0 || k > m[d].children.len() {
        Seq::empty()
    } else {
        let c = m[d].children[k - 1];
        let before = dirs_beneath(m, d, (k - 1) as nat);
        if m[c].is_dir && room(m, c) < room(m, d) {
            before + seq![c] + dirs_beneath(m, c, m[c].children.len())
        } else {
            before
        }
    }
}

/// The directories of the subtree of `d` in pre-order: `d` first, then for
/// each child directory in ascending order of name its own subtree.
pub open spec fn subtree_dirs(m: Forest, d: int) -> Seq<int> {
    seq![d] + dirs_beneath(m, d, m[d].children.len())
}

/// Those of `cands` that `keep` marks, in their order.
pub open spec fn chosen(cands: Seq<int>, keep: Seq<bool>) -> Seq<int>
    decreases cands.len(),
{
    if cands.len() == 0 || keep.len() != cands.len() {
        Seq::empty()
    } else if keep.last() {
        chosen(cands.drop_last(), keep.drop_last()).push(cands.last())
    } else {
        chosen(cands.drop_last(), keep.drop_last())
    }
}

} // verus!
