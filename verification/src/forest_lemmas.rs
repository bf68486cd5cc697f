//! Facts about the model that the executable code rests on: how the path
//! from an entry to its root behaves, how totals react to a change, and that
//! growing and attaching keep the links of a forest consistent and, where
//! no child loses its place, the forest exact.

use vstd::prelude::*;
use crate::forest::{
    attach, can_attach, child_total, children_ok, chosen, dirs_beneath, exact, grow, has, is_dir_at,
    linked, listed, listed_at, max_depth, name_free, named_child, node_linked, parent_ok, reaches, room,
    root_of, size_ok, slot, sorted_by_name, subtree_dirs, summed, with_child, Forest,
};
use crate::names::{name_lt, lemma_name_lt_irreflexive, lemma_name_lt_total, lemma_name_lt_transitive};

verus! {

/// Whatever lies on the path from `x` upward is no deeper than `x`, and
/// only `x` itself is as deep.
pub proof fn lemma_reaches_depth(m: Forest, x: int, a: int)
    requires
        reaches(m, x, a),
    ensures
        m[a].depth <= m[x].depth,
        m[a].depth == m[x].depth ==> a == x,
    decreases m[x].depth,
{
    if x != a {
        lemma_reaches_depth(m, m[x].parent->0, a);
    }
}

/// Whatever lies on the path from an entry upward is an entry.
pub proof fn lemma_reaches_has(m: Forest, x: int, a: int)
    requires
        linked(m),
        has(m, x),
        reaches(m, x, a),
    ensures
        has(m, a),
    decreases m[x].depth,
{
    if x != a {
        assert(node_linked(m, x));
        lemma_reaches_has(m, m[x].parent->0, a);
    }
}

/// The path from `x` upward goes on through the parent of each entry on it.
pub proof fn lemma_reaches_parent(m: Forest, x: int, a: int)
    requires
        linked(m),
        reaches(m, x, a),
        has(m, a),
        m[a].parent is Some,
    ensures
        reaches(m, x, m[a].parent->0),
    decreases m[x].depth,
{
    if x == a {
        assert(node_linked(m, a));
        assert(reaches(m, m[a].parent->0, m[a].parent->0));
    } else {
        lemma_reaches_parent(m, m[x].parent->0, a);
    }
}

/// Paths compose: what lies above an entry on the path from `x` lies on
/// that path too.
pub proof fn lemma_reaches_transitive(m: Forest, x: int, y: int, a: int)
    requires
        reaches(m, x, y),
        reaches(m, y, a),
    ensures
        reaches(m, x, a),
    decreases m[x].depth,
{
    if x != y && x != a {
        lemma_reaches_transitive(m, m[x].parent->0, y, a);
    }
}

/// The path from `x` upward passes each depth once.
pub proof fn lemma_reaches_unique(m: Forest, x: int, a: int, b: int)
    requires
        reaches(m, x, a),
        reaches(m, x, b),
        m[a].depth == m[b].depth,
    ensures
        a == b,
    decreases m[x].depth,
{
    if x == a {
        lemma_reaches_depth(m, x, b);
    } else if x == b {
        lemma_reaches_depth(m, x, a);
    } else {
        lemma_reaches_unique(m, m[x].parent->0, a, b);
    }
}

/// Below every entry that lies properly above `x` there is one of its
/// children on the path from `x`.
pub proof fn lemma_child_toward(m: Forest, x: int, a: int) -> (k: int)
    requires
        reaches(m, x, a),
        x != a,
    ensures
        has(m, k),
        m[k].parent == Some(a),
        reaches(m, x, k),
        m[a].depth < m[k].depth,
    decreases m[x].depth,
{
    let p = m[x].parent->0;
    if p == a {
        x
    } else {
        lemma_child_toward(m, p, a)
    }
}

/// The root of an entry's tree lies on the path from the entry upward and
/// has no parent.
pub proof fn lemma_root_of(m: Forest, x: int)
    requires
        linked(m),
        has(m, x),
    ensures
        reaches(m, x, root_of(m, x)),
        has(m, root_of(m, x)),
        m[root_of(m, x)].parent is None,
    decreases m[x].depth,
{
    assert(node_linked(m, x));
    if m[x].parent is Some {
        lemma_root_of(m, m[x].parent->0);
    }
}

/// Everything on the path from `x` upward has the root of `x` as its root.
pub proof fn lemma_root_of_ancestor(m: Forest, x: int, a: int)
    requires
        linked(m),
        has(m, x),
        reaches(m, x, a),
    ensures
        root_of(m, a) == root_of(m, x),
    decreases m[x].depth,
{
    if x != a {
        assert(node_linked(m, x));
        lemma_root_of_ancestor(m, m[x].parent->0, a);
    }
}

/// A total is at least each of its terms.
pub proof fn lemma_total_covers(m: Forest, kids: Seq<int>, k: int)
    requires
        0 <= k < kids.len(),
    ensures
        m[kids[k]].size <= child_total(m, kids),
    decreases kids.len(),
{
    if k < kids.len() - 1 {
        lemma_total_covers(m, kids.drop_last(), k);
    }
}

/// A total depends only on the sizes of the entries it adds up.
pub proof fn lemma_total_same(m1: Forest, m2: Forest, kids: Seq<int>)
    requires
        forall|k: int| 0 <= k < kids.len() ==> m1[#[trigger] kids[k]].size == m2[kids[k]].size,
    ensures
        child_total(m1, kids) == child_total(m2, kids),
    decreases kids.len(),
{
    if kids.len() > 0 {
        let init = kids.drop_last();
        lemma_total_same(m1, m2, init);
    }
}

/// Where one term grows by `s` and the others stay, the total grows by `s`.
pub proof fn lemma_total_bumped(m1: Forest, m2: Forest, kids: Seq<int>, j: int, s: nat)
    requires
        0 <= j < kids.len(),
        m2[kids[j]].size == m1[kids[j]].size + s,
        forall|k: int| 0 <= k < kids.len() && k != j ==> m1[#[trigger] kids[k]].size == m2[kids[k]].size,
    ensures
        child_total(m2, kids) == child_total(m1, kids) + s,
    decreases kids.len(),
{
    let init = kids.drop_last();
    if j == kids.len() - 1 {
        lemma_total_same(m1, m2, init);
    } else {
        lemma_total_bumped(m1, m2, init, j, s);
    }
}

/// A term put in anywhere adds its size to the total.
pub proof fn lemma_total_insert(m: Forest, kids: Seq<int>, pos: int, c: int)
    requires
        0 <= pos <= kids.len(),
    ensures
        child_total(m, kids.insert(pos, c)) == child_total(m, kids) + m[c].size,
    decreases kids.len(),
{
    let grown = kids.insert(pos, c);
    if pos == kids.len() {
        assert(grown.drop_last() =~= kids);
    } else {
        assert(grown.drop_last() =~= kids.drop_last().insert(pos, c));
        lemma_total_insert(m, kids.drop_last(), pos, c);
    }
}

/// A directory is at least as large as anything beneath it.
pub proof fn lemma_size_grows_upward(m: Forest, x: int, a: int)
    requires
        linked(m),
        has(m, x),
        reaches(m, x, a),
    ensures
        m[x].size <= m[a].size,
    decreases m[x].depth,
{
    if x != a {
        assert(node_linked(m, x));
        lemma_size_grows_upward(m, m[x].parent->0, a);
    }
}

/// The place for a name lies within the sequence.
pub proof fn lemma_slot_bounds(m: Forest, kids: Seq<int>, name: Seq<char>)
    ensures
        0 <= slot(m, kids, name) <= kids.len(),
    decreases kids.len(),
{
    if kids.len() > 0 {
        lemma_slot_bounds(m, kids.drop_last(), name);
    }
}

/// In a sorted sequence the place for a name is where the names that sort
/// before it end.
pub proof fn lemma_slot_is(m: Forest, kids: Seq<int>, name: Seq<char>, j: int)
    requires
        sorted_by_name(m, kids),
        0 <= j <= kids.len(),
        forall|k: int| 0 <= k < j ==> name_lt(m[#[trigger] kids[k]].name, name),
        j < kids.len() ==> !name_lt(m[kids[j]].name, name),
    ensures
        slot(m, kids, name) == j,
    decreases kids.len(),
{
    if kids.len() > 0 {
        let init = kids.drop_last();
        let last = kids.len() - 1;
        if j == kids.len() {
            lemma_slot_is(m, init, name, j - 1);
        } else {
            if j < last && name_lt(m[kids[last]].name, name) {
                lemma_name_lt_transitive(m[kids[j]].name, m[kids[last]].name, name);
            }
            lemma_slot_is(m, init, name, j);
        }
    }
}

/// In a sorted sequence the names before the place for a name sort before
/// it, and none of the names from that place on does.
pub proof fn lemma_slot_parts(m: Forest, kids: Seq<int>, name: Seq<char>)
    requires
        sorted_by_name(m, kids),
    ensures
        0 <= slot(m, kids, name) <= kids.len(),
        forall|k: int| 0 <= k < slot(m, kids, name) ==> name_lt(m[#[trigger] kids[k]].name, name),
        forall|k: int| slot(m, kids, name) <= k < kids.len() ==> !name_lt(m[#[trigger] kids[k]].name, name),
    decreases kids.len(),
{
    if kids.len() > 0 {
        let init = kids.drop_last();
        let last = kids.len() - 1;
        lemma_slot_parts(m, init, name);
        if name_lt(m[kids[last]].name, name) {
            assert forall|k: int| 0 <= k < last implies name_lt(m[#[trigger] kids[k]].name, name) by {
                lemma_name_lt_transitive(m[kids[k]].name, m[kids[last]].name, name);
            }
            if slot(m, init, name) < init.len() {
                assert(init[slot(m, init, name)] == kids[slot(m, init, name)]);
            }
        } else {
            assert forall|k: int| 0 <= k < slot(m, kids, name) implies name_lt(
                m[#[trigger] kids[k]].name,
                name,
            ) by {
                assert(init[k] == kids[k]);
            }
            assert forall|k: int| slot(m, kids, name) <= k < kids.len() implies !name_lt(
                m[#[trigger] kids[k]].name,
                name,
            ) by {
                if k < last {
                    assert(init[k] == kids[k]);
                }
            }
        }
    }
}

/// In a sorted sequence only the entry at the place for a name can have
/// that name.
pub proof fn lemma_slot_finds(m: Forest, kids: Seq<int>, name: Seq<char>)
    requires
        sorted_by_name(m, kids),
    ensures
        forall|k: int| 0 <= k < kids.len() && m[#[trigger] kids[k]].name == name ==> k == slot(m, kids, name),
{
    let at = slot(m, kids, name);
    lemma_slot_parts(m, kids, name);
    lemma_name_lt_irreflexive(name);
    assert forall|k: int| 0 <= k < kids.len() && m[#[trigger] kids[k]].name == name implies k == at by {
        if k > at {
            let first = m[kids[at]].name;
            if first != name {
                lemma_name_lt_total(first, name);
            }
        }
    }
}

/// Where no child has the name of `c`, `c` is put in among the children
/// and none of them loses its place.
pub proof fn lemma_with_child_free(m: Forest, kids: Seq<int>, c: int)
    requires
        name_free(m, kids, m[c].name),
    ensures
        with_child(m, kids, c) == kids.insert(slot(m, kids, m[c].name), c),
{
    lemma_slot_bounds(m, kids, m[c].name);
}

/// The children stay in ascending order of name when `c` takes its place
/// among them.
pub proof fn lemma_with_child_sorted(m: Forest, kids: Seq<int>, c: int)
    requires
        sorted_by_name(m, kids),
    ensures
        sorted_by_name(m, with_child(m, kids, c)),
{
    let name = m[c].name;
    let at = slot(m, kids, name);
    let next = with_child(m, kids, c);
    lemma_slot_parts(m, kids, name);
    lemma_slot_finds(m, kids, name);
    assert forall|j: int, k: int| 0 <= j < k < next.len() implies name_lt(
        m[#[trigger] next[j]].name,
        m[#[trigger] next[k]].name,
    ) by {
        if at < kids.len() && m[kids[at]].name == name {
            assert(m[next[j]].name == m[kids[j]].name && m[next[k]].name == m[kids[k]].name);
        } else {
            if k > at {
                let after = m[kids[k - 1]].name;
                assert(after != name);
                lemma_name_lt_total(after, name);
            }
            if j < at && k > at {
                assert(next[j] == kids[j] && next[k] == kids[k - 1]);
            }
        }
    }
}

/// Two children of one directory that stand at different places are
/// different entries.
pub proof fn lemma_children_distinct(m: Forest, i: int, j: int, k: int)
    requires
        sorted_by_name(m, m[i].children),
        0 <= j < m[i].children.len(),
        0 <= k < m[i].children.len(),
        j != k,
    ensures
        m[i].children[j] != m[i].children[k],
{
    lemma_name_lt_irreflexive(m[m[i].children[j]].name);
}

/// The links of a forest stay consistent when a fresh entry is added to it.
pub proof fn lemma_grow_linked(m: Forest, name: Seq<char>, is_dir: bool, size: nat)
    requires
        linked(m),
        is_dir ==> name.len() > 0,
    ensures
        linked(grow(m, name, is_dir, size)),
{
    let m2 = grow(m, name, is_dir, size);
    assert forall|i: int| has(m2, i) implies #[trigger] node_linked(m2, i) by {
        if i < m.len() {
            assert(node_linked(m, i));
        }
    }
}

/// An entry that has just been added can be attached to every directory
/// that was there before it.
pub proof fn lemma_fresh_can_attach(m: Forest, d: int, name: Seq<char>, is_dir: bool, size: nat)
    requires
        linked(m),
        is_dir_at(m, d),
    ensures
        can_attach(grow(m, name, is_dir, size), d, m.len() as int),
{
    let m1 = grow(m, name, is_dir, size);
    let n = m.len() as int;
    if reaches(m1, d, n) {
        let k = lemma_child_toward(m1, d, n);
        if k < n {
            assert(node_linked(m, k));
        }
    }
}

/// A forest stays exact when a fresh entry is added to it.
pub proof fn lemma_grow_exact(m: Forest, name: Seq<char>, is_dir: bool, size: nat)
    requires
        exact(m),
        is_dir ==> size == 0 && name.len() > 0,
    ensures
        exact(grow(m, name, is_dir, size)),
{
    let m2 = grow(m, name, is_dir, size);
    lemma_grow_linked(m, name, is_dir, size);
    assert forall|i: int| has(m2, i) implies #[trigger] listed_at(m2, i) by {
        if i < m.len() {
            assert(node_linked(m, i));
            assert(listed_at(m, i));
        }
    }
    assert forall|i: int| has(m2, i) implies #[trigger] size_ok(m2, i) by {
        if i < m.len() {
            assert(node_linked(m, i));
            assert(size_ok(m, i));
            lemma_total_same(m, m2, m[i].children);
        }
    }
}

/// Attaching keeps the links of a forest consistent.
pub proof fn lemma_attach_linked(m: Forest, d: int, c: int)
    requires
        linked(m),
        can_attach(m, d, c),
    ensures
        linked(attach(m, d, c)),
{
    let m2 = attach(m, d, c);
    let kids = m[d].children;
    let next = with_child(m, kids, c);
    lemma_slot_bounds(m, kids, m[c].name);
    assert(node_linked(m, d));
    lemma_with_child_sorted(m, kids, c);
    assert forall|i: int| has(m2, i) implies #[trigger] node_linked(m2, i) by {
        assert(node_linked(m, i));
        if i != c && m[i].parent is Some && reaches(m, d, i) {
            lemma_reaches_parent(m, d, i);
        }
        assert(parent_ok(m2, i));
        if i == d {
            assert forall|k: int| 0 <= k < next.len() implies has(m2, #[trigger] next[k]) && m2[next[k]].parent
                == Some(d) by {
                if next[k] != c {
                    assert(kids.contains(next[k]));
                }
            }
            assert forall|j: int, k: int| 0 <= j < k < next.len() implies name_lt(
                m2[#[trigger] next[j]].name,
                m2[#[trigger] next[k]].name,
            ) by {
                assert(name_lt(m[next[j]].name, m[next[k]].name));
            }
        } else {
            assert forall|k: int| 0 <= k < m[i].children.len() implies has(m2, #[trigger] m2[i].children[k])
                && m2[m2[i].children[k]].parent == Some(i) by {
                assert(m2[i].children[k] == m[i].children[k]);
            }
            assert forall|j: int, k: int| 0 <= j < k < m[i].children.len() implies name_lt(
                m2[#[trigger] m2[i].children[j]].name,
                m2[#[trigger] m2[i].children[k]].name,
            ) by {
                assert(name_lt(m[m[i].children[j]].name, m[m[i].children[k]].name));
            }
        }
        assert(children_ok(m2, i));
    }
}

/// Where the name is free, attaching leaves every entry that names a
/// parent among the children of that parent.
pub proof fn lemma_attach_listed(m: Forest, d: int, c: int)
    requires
        linked(m),
        listed(m),
        can_attach(m, d, c),
        name_free(m, m[d].children, m[c].name),
    ensures
        listed(attach(m, d, c)),
{
    let m2 = attach(m, d, c);
    let kids = m[d].children;
    let at = slot(m, kids, m[c].name);
    let next = kids.insert(at, c);
    lemma_slot_bounds(m, kids, m[c].name);
    lemma_with_child_free(m, kids, c);
    assert forall|i: int| has(m2, i) implies #[trigger] listed_at(m2, i) by {
        assert(listed_at(m, i));
        assert(node_linked(m, i));
        if i == c {
            assert(next[at] == c);
        } else if m[i].parent == Some(d) {
            let k = choose|k: int| 0 <= k < kids.len() && kids[k] == i;
            assert(next[if k < at { k } else { k + 1 }] == i);
        } else if m[i].parent is Some {
            let p = m[i].parent->0;
            let k = choose|k: int| 0 <= k < m[p].children.len() && m[p].children[k] == i;
            assert(m2[p].children[k] == i);
        }
    }
}

/// Where the name is free, attaching keeps every directory as large as its
/// children together.
pub proof fn lemma_attach_summed(m: Forest, d: int, c: int)
    requires
        exact(m),
        can_attach(m, d, c),
        name_free(m, m[d].children, m[c].name),
    ensures
        summed(attach(m, d, c)),
{
    let m2 = attach(m, d, c);
    let s = m[c].size;
    assert forall|i: int| has(m2, i) implies #[trigger] size_ok(m2, i) by {
        assert(node_linked(m, i));
        assert(size_ok(m, i));
        let kids = m[i].children;
        if i == d {
            let at = slot(m, kids, m[c].name);
            lemma_slot_bounds(m, kids, m[c].name);
            lemma_with_child_free(m, kids, c);
            assert forall|k: int| 0 <= k < kids.len() implies m[#[trigger] kids[k]].size == m2[kids[k]].size by {
                if reaches(m, d, kids[k]) {
                    lemma_reaches_depth(m, d, kids[k]);
                    assert(node_linked(m, kids[k]));
                }
            }
            lemma_total_same(m, m2, kids);
            lemma_total_insert(m2, kids, at, c);
        } else if m[i].is_dir && reaches(m, d, i) {
            let x = lemma_child_toward(m, d, i);
            assert(node_linked(m, x));
            assert(listed_at(m, x));
            let j = choose|j: int| 0 <= j < kids.len() && kids[j] == x;
            assert forall|k: int| 0 <= k < kids.len() && k != j implies m[#[trigger] kids[k]].size
                == m2[kids[k]].size by {
                if reaches(m, d, kids[k]) {
                    assert(node_linked(m, kids[k]));
                    lemma_reaches_unique(m, d, kids[k], x);
                    lemma_children_distinct(m, i, j, k);
                }
            }
            lemma_total_bumped(m, m2, kids, j, s);
        } else {
            assert forall|k: int| 0 <= k < kids.len() implies m[#[trigger] kids[k]].size == m2[kids[k]].size by {
                if reaches(m, d, kids[k]) {
                    lemma_reaches_parent(m, d, kids[k]);
                }
            }
            lemma_total_same(m, m2, kids);
        }
    }
}

/// A forest stays exact when an entry is attached under a name that is
/// free.
pub proof fn lemma_attach_exact(m: Forest, d: int, c: int)
    requires
        exact(m),
        can_attach(m, d, c),
        name_free(m, m[d].children, m[c].name),
    ensures
        exact(attach(m, d, c)),
{
    lemma_attach_linked(m, d, c);
    lemma_attach_listed(m, d, c);
    lemma_attach_summed(m, d, c);
}

/// A child found under a name is the directory's child of that name.
pub proof fn lemma_named_child(m: Forest, d: int, name: Seq<char>, k: int)
    requires
        sorted_by_name(m, m[d].children),
        0 <= k < m[d].children.len(),
        m[m[d].children[k]].name == name,
    ensures
        named_child(m, d, name) == Some(m[d].children[k]),
{
    lemma_name_lt_irreflexive(name);
}

/// The parent of an entry on the path from `x` upward lies on that path.
pub proof fn lemma_reaches_parent_step(m: Forest, x: int, a: int)
    requires
        linked(m),
        has(m, a),
        reaches(m, x, a),
        m[a].parent is Some,
    ensures
        has(m, m[a].parent->0),
        reaches(m, x, m[a].parent->0),
        m[a].depth == m[m[a].parent->0].depth + 1,
{
    assert(node_linked(m, a));
    lemma_reaches_parent(m, x, a);
}

/// No entry lies deeper than the greatest depth.
pub proof fn lemma_depth_bounded(m: Forest, i: int)
    requires
        has(m, i),
    ensures
        m[i].depth <= max_depth(m),
    decreases m.len(),
{
    if i < m.len() - 1 {
        lemma_depth_bounded(m.drop_last(), i);
    }
}

/// A child has one level less below it than its parent.
pub proof fn lemma_room_child(m: Forest, d: int, k: int)
    requires
        linked(m),
        has(m, d),
        0 <= k < m[d].children.len(),
    ensures
        has(m, m[d].children[k]),
        room(m, m[d].children[k]) + 1 == room(m, d),
{
    let c = m[d].children[k];
    assert(node_linked(m, d));
    assert(node_linked(m, c));
    lemma_depth_bounded(m, c);
    lemma_depth_bounded(m, d);
}

/// Whatever is found beneath the first `k` children of a directory is a
/// directory.
pub proof fn lemma_dirs_beneath_are_dirs(m: Forest, d: int, k: nat)
    requires
        linked(m),
        is_dir_at(m, d),
        k <= m[d].children.len(),
    ensures
        forall|i: int| 0 <= i < dirs_beneath(m, d, k).len() ==> is_dir_at(m, #[trigger] dirs_beneath(m, d, k)[i]),
    decreases room(m, d), k,
{
    if k > 0 {
        let c = m[d].children[k - 1];
        let before = dirs_beneath(m, d, (k - 1) as nat);
        lemma_dirs_beneath_are_dirs(m, d, (k - 1) as nat);
        lemma_room_child(m, d, k - 1);
        if m[c].is_dir {
            let below = dirs_beneath(m, c, m[c].children.len());
            lemma_dirs_beneath_are_dirs(m, c, m[c].children.len());
            assert(dirs_beneath(m, d, k) == before + seq![c] + below);
        }
    }
}

/// Every entry that the pre-order of a directory's subtree names is a
/// directory.
pub proof fn lemma_subtree_dirs_are_dirs(m: Forest, d: int)
    requires
        linked(m),
        is_dir_at(m, d),
    ensures
        forall|i: int| 0 <= i < subtree_dirs(m, d).len() ==> is_dir_at(m, #[trigger] subtree_dirs(m, d)[i]),
{
    lemma_dirs_beneath_are_dirs(m, d, m[d].children.len());
    assert(subtree_dirs(m, d) == seq![d] + dirs_beneath(m, d, m[d].children.len()));
}

/// Choosing from a sequence with one more candidate at its end.
pub proof fn lemma_chosen_push(cands: Seq<int>, keep: Seq<bool>, c: int, b: bool)
    requires
        keep.len() == cands.len(),
    ensures
        chosen(cands.push(c), keep.push(b)) == if b {
            chosen(cands, keep).push(c)
        } else {
            chosen(cands, keep)
        },
{
    assert(cands.push(c).drop_last() =~= cands);
    assert(keep.push(b).drop_last() =~= keep);
}

/// What is chosen comes from the candidates without a change of order: the
/// places `from` that the chosen entries had among the candidates ascend.
pub proof fn lemma_chosen_embeds(cands: Seq<int>, keep: Seq<bool>) -> (from: Seq<int>)
    requires
        keep.len() == cands.len(),
    ensures
        from.len() == chosen(cands, keep).len(),
        forall|j: int|
            0 <= j < from.len() ==> 0 <= #[trigger] from[j] < cands.len() && keep[from[j]] && cands[from[j]]
                == chosen(cands, keep)[j],
        forall|j: int, k: int| 0 <= j < k < from.len() ==> #[trigger] from[j] < #[trigger] from[k],
    decreases cands.len(),
{
    if cands.len() == 0 {
        Seq::empty()
    } else {
        let init = lemma_chosen_embeds(cands.drop_last(), keep.drop_last());
        if keep.last() {
            init.push(cands.len() - 1)
        } else {
            init
        }
    }
}

/// The child that a name finds is an entry attached to the directory.
pub proof fn lemma_named_child_is_child(m: Forest, d: int, name: Seq<char>)
    requires
        linked(m),
        has(m, d),
        named_child(m, d, name) is Some,
    ensures
        has(m, named_child(m, d, name)->0),
        m[named_child(m, d, name)->0].parent == Some(d),
        m[named_child(m, d, name)->0].name == name,
        m[d].children.contains(named_child(m, d, name)->0),
{
    assert(node_linked(m, d));
}

} // verus!
