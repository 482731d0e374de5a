//! Process-tree discovery.
//!
//! A tree of descendants is built breadth-first from process-table records
//! `(pid, parent_pid)`. Each pid is expanded at most once, so a corrupted or
//! racy table that reports cyclic parent links still yields a finite tree.
//! Duplicate records collapse: a child appears at most once in its parent's
//! children list.

use vstd::prelude::*;
use vstd::set_lib::lemma_len_subset;
use std::collections::HashMap;
use std::collections::HashSet;

use crate::platform::get_all_processes;

verus! {

broadcast use {vstd::std_specs::hash::group_hash_axioms, vstd::set_lib::full_set_properties};

/// One node of a process tree: a pid, the pid that discovered it, the pids
/// discovered as its children, and its distance from the root.
#[derive(Debug, Clone, PartialEq, Eq)]
pub struct ProcessNode {
    pub pid: u32,
    pub parent_pid: u32,
    pub children: Vec<u32>,
    pub depth: usize,
}

impl ProcessNode {
    /// A fresh node with no children at depth 0.
    pub fn new(pid: u32, parent_pid: u32) -> (n: ProcessNode)
        ensures
            n.pid == pid,
            n.parent_pid == parent_pid,
            n.children@ =~= Seq::<u32>::empty(),
            n.depth == 0,
    {
        ProcessNode { pid, parent_pid, children: Vec::new(), depth: 0 }
    }
}

/// Every node is stored under its own pid.
pub open spec fn nodes_keyed(t: Map<u32, ProcessNode>) -> bool {
    forall|k: u32| #[trigger] t.contains_key(k) ==> t[k].pid == k
}

/// No children list holds the same pid twice.
pub open spec fn children_distinct(t: Map<u32, ProcessNode>) -> bool {
    forall|k: u32| #[trigger] t.contains_key(k) ==> t[k].children@.no_duplicates()
}

/// Children are themselves nodes of the tree and never their own parent.
pub open spec fn children_closed(t: Map<u32, ProcessNode>) -> bool {
    forall|k: u32, c: u32|
        t.contains_key(k) && #[trigger] t[k].children@.contains(c) ==> t.contains_key(c) && c != k
}

/// Every node but the root was discovered as a child of a node one level up.
pub open spec fn depth_linked(t: Map<u32, ProcessNode>, root: u32) -> bool {
    forall|k: u32|
        #[trigger] t.contains_key(k) && k != root ==> exists|p: u32|
            t.contains_key(p) && #[trigger] t[p].children@.contains(k) && t[k].depth == t[p].depth
                + 1
}

/// Depths stay below the number of nodes.
pub open spec fn depth_bounded(t: Map<u32, ProcessNode>) -> bool {
    forall|k: u32| #[trigger] t.contains_key(k) ==> t[k].depth < t.dom().len()
}

/// A well-formed process tree rooted at `root`.
pub open spec fn tree_wf(t: Map<u32, ProcessNode>, root: u32) -> bool {
    &&& t.dom().finite()
    &&& t.contains_key(root)
    &&& t[root].depth == 0
    &&& nodes_keyed(t)
    &&& children_distinct(t)
    &&& children_closed(t)
    &&& depth_linked(t, root)
    &&& depth_bounded(t)
}

/// Every child of any node sits exactly one level below it. This holds of
/// trees discovered from an acyclic table; a cyclic table can make a deep
/// node list one of its ancestors as a child.
pub open spec fn depths_consistent(t: Map<u32, ProcessNode>) -> bool {
    forall|k: u32, c: u32|
        t.contains_key(k) && #[trigger] t[k].children@.contains(c) && t.contains_key(c)
            ==> t[c].depth == t[k].depth + 1
}

/// The children of `parent` listed by `table`: pids of records whose parent
/// field is `parent`, in order of first occurrence, without duplicates and
/// without `parent` itself.
pub open spec fn table_children(table: Seq<(u32, u32)>, parent: u32) -> Seq<u32>
    decreases table.len(),
{
    if table.len() == 0 {
        Seq::empty()
    } else {
        let rest = table_children(table.drop_last(), parent);
        if table.last().1 == parent && table.last().0 != parent && !rest.contains(table.last().0) {
            rest.push(table.last().0)
        } else {
            rest
        }
    }
}

/// What `table_children` contains: exactly the pids recorded under `parent`,
/// each once, never `parent` itself.
pub proof fn lemma_table_children_props(table: Seq<(u32, u32)>, parent: u32)
    ensures
        table_children(table, parent).no_duplicates(),
        forall|c: u32|
            #[trigger] table_children(table, parent).contains(c) <==> (c != parent && exists|i: int|
                0 <= i < table.len() && table[i] == (c, parent)),
    decreases table.len(),
{
    if table.len() > 0 {
        lemma_table_children_props(table.drop_last(), parent);
        let rest = table_children(table.drop_last(), parent);
        let l = table.last();
        assert forall|c: u32| #[trigger] table_children(table, parent).contains(c) implies (c
            != parent && exists|i: int| 0 <= i < table.len() && table[i] == (c, parent)) by {
            if rest.contains(c) {
                let i = choose|i: int|
                    0 <= i < table.drop_last().len() && table.drop_last()[i] == (c, parent);
                assert(table[i] == (c, parent));
            } else {
                assert(c == l.0 && l.1 == parent);
                assert(table[table.len() - 1] == (c, parent));
            }
        }
        assert forall|c: u32|
            c != parent && exists|i: int|
                0 <= i < table.len() && table[i] == (c, parent) implies #[trigger] table_children(
            table,
            parent,
        ).contains(c) by {
            let i = choose|i: int| 0 <= i < table.len() && table[i] == (c, parent);
            if i < table.len() - 1 {
                assert(table.drop_last()[i] == (c, parent));
                assert(rest.contains(c));
                if l.1 == parent && l.0 != parent && !rest.contains(l.0) {
                    assert(rest.push(l.0).contains(c)) by {
                        let j = choose|j: int| 0 <= j < rest.len() && rest[j] == c;
                        assert(rest.push(l.0)[j] == c);
                    }
                } else {
                }
            } else {
                assert(l == (c, parent));
                if !rest.contains(c) {
                    assert(rest.push(c).last() == c);
                } else {
                }
            }
        }
        if l.1 == parent && l.0 != parent && !rest.contains(l.0) {
            assert(rest.push(l.0).no_duplicates()) by {
                let r2 = rest.push(l.0);
                assert forall|i: int, j: int|
                    0 <= i < r2.len() && 0 <= j < r2.len() && i != j implies r2[i] != r2[j] by {
                    if i < rest.len() && j < rest.len() {
                        assert(rest[i] == r2[i] && rest[j] == r2[j]);
                    } else if i < rest.len() {
                        assert(r2[j] == l.0 && r2[i] == rest[i]);
                        assert(rest.contains(rest[i]));
                    } else {
                        assert(r2[i] == l.0 && r2[j] == rest[j]);
                        assert(rest.contains(rest[j]));
                    }
                }
            }
        }
    }
}

/// Each pid is recorded with at most one parent: duplicate records agree.
pub open spec fn table_functional(table: Seq<(u32, u32)>) -> bool {
    forall|i: int, j: int|
        0 <= i < table.len() && 0 <= j < table.len() && (#[trigger] table[i]).0 == (
        #[trigger] table[j]).0 ==> table[i].1 == table[j].1
}

/// The parent that `table` records for `pid`, from its first record.
pub open spec fn parent_in_table(table: Seq<(u32, u32)>, pid: u32) -> Option<u32>
    decreases table.len(),
{
    if table.len() == 0 {
        None
    } else if table[0].0 == pid {
        Some(table[0].1)
    } else {
        parent_in_table(table.drop_first(), pid)
    }
}

/// The pid reached from `pid` by following parent records `n` times.
pub open spec fn nth_parent(table: Seq<(u32, u32)>, pid: u32, n: nat) -> Option<u32>
    decreases n,
{
    if n == 0 {
        Some(pid)
    } else {
        match parent_in_table(table, pid) {
            None => None,
            Some(p) => nth_parent(table, p, (n - 1) as nat),
        }
    }
}

/// No pid is its own ancestor: following parent records never comes back.
pub open spec fn table_acyclic(table: Seq<(u32, u32)>) -> bool {
    forall|p: u32, n: nat| 1 <= n ==> #[trigger] nth_parent(table, p, n) != Some(p)
}

/// In a functional table, any record gives the pid's one recorded parent.
proof fn lemma_record_parent(table: Seq<(u32, u32)>, i: int)
    requires
        table_functional(table),
        0 <= i < table.len(),
    ensures
        parent_in_table(table, table[i].0) == Some(table[i].1),
    decreases table.len(),
{
    if table[0].0 == table[i].0 {
        assert(table[0].1 == table[i].1);
    } else {
        let rest = table.drop_first();
        assert(table_functional(rest)) by {
            assert forall|x: int, y: int|
                0 <= x < rest.len() && 0 <= y < rest.len() && (#[trigger] rest[x]).0 == (
                #[trigger] rest[y]).0 implies rest[x].1 == rest[y].1 by {
                assert(rest[x] == table[x + 1] && rest[y] == table[y + 1]);
            }
        }
        assert(rest[i - 1] == table[i]);
        lemma_record_parent(rest, i - 1);
    }
}

/// Parent chains compose: `a` steps and then `b` steps is `a + b` steps.
proof fn lemma_nth_parent_compose(table: Seq<(u32, u32)>, p: u32, a: nat, q: u32, b: nat)
    requires
        nth_parent(table, p, a) == Some(q),
    ensures
        nth_parent(table, p, a + b) == nth_parent(table, q, b),
    decreases a,
{
    if a > 0 {
        let p1 = parent_in_table(table, p)->Some_0;
        assert(nth_parent(table, p, a) == nth_parent(table, p1, (a - 1) as nat));
        lemma_nth_parent_compose(table, p1, (a - 1) as nat, q, b);
        assert(nth_parent(table, p, a + b) == nth_parent(table, p1, (a + b - 1) as nat));
    }
}

/// Every node but the root carries its one recorded parent, which sits one
/// level up in the tree. This is how a breadth-first walk leaves a tree when
/// the table it read is functional.
pub open spec fn parent_linked(t: Map<u32, ProcessNode>, table: Seq<(u32, u32)>, root: u32) -> bool {
    forall|k: u32|
        #[trigger] t.contains_key(k) && k != root ==> {
            &&& parent_in_table(table, k) == Some(t[k].parent_pid)
            &&& t.contains_key(t[k].parent_pid)
            &&& t[k].depth == t[t[k].parent_pid].depth + 1
        }
}

/// Following a parent-linked node's recorded parents for `depth` steps
/// reaches the root.
proof fn lemma_chain_to_root(t: Map<u32, ProcessNode>, table: Seq<(u32, u32)>, root: u32, k: u32)
    requires
        parent_linked(t, table, root),
        t.contains_key(k),
        t.contains_key(root),
        t[root].depth == 0,
    ensures
        nth_parent(table, k, t[k].depth as nat) == Some(root),
    decreases t[k].depth,
{
    if k != root {
        let d = t[k].parent_pid;
        assert(nth_parent(table, k, t[k].depth as nat) == nth_parent(
            table,
            d,
            (t[k].depth - 1) as nat,
        ));
        lemma_chain_to_root(t, table, root, d);
    }
}

/// Inserting a freshly discovered child one level below its recorded
/// parent keeps the tree parent-linked and depth-consistent.
proof fn lemma_insert_fresh_linked(
    t: Map<u32, ProcessNode>,
    table: Seq<(u32, u32)>,
    root: u32,
    current: u32,
    pid: u32,
    child: ProcessNode,
)
    requires
        parent_linked(t, table, root),
        depths_consistent(t),
        children_closed(t),
        t.contains_key(current),
        t.contains_key(root),
        !t.contains_key(pid),
        parent_in_table(table, pid) == Some(current),
        child.parent_pid == current,
        child.depth == t[current].depth + 1,
        child.children@.len() == 0,
    ensures
        parent_linked(t.insert(pid, child), table, root),
        depths_consistent(t.insert(pid, child)),
{
    let t2 = t.insert(pid, child);
    assert(pid != root);
    assert forall|k: u32| #[trigger] t2.contains_key(k) && k != root implies {
        &&& parent_in_table(table, k) == Some(t2[k].parent_pid)
        &&& t2.contains_key(t2[k].parent_pid)
        &&& t2[k].depth == t2[t2[k].parent_pid].depth + 1
    } by {
        if k != pid {
            assert(t.contains_key(k) && t2[k] == t[k]);
            assert(t[k].parent_pid != pid);
            assert(t2[t[k].parent_pid] == t[t[k].parent_pid]);
        } else {
            assert(t2[pid].parent_pid == current);
            assert(t2[current] == t[current]);
        }
    }
    assert forall|k: u32, c: u32|
        t2.contains_key(k) && #[trigger] t2[k].children@.contains(c) && t2.contains_key(
            c,
        ) implies t2[c].depth == t2[k].depth + 1 by {
        assert(k != pid);
        assert(t.contains_key(k) && t2[k] == t[k]);
        assert(t[k].children@.contains(c));
        assert(t.contains_key(c) && c != pid);
        assert(t2[c] == t[c]);
    }
}

/// In a functional acyclic table, a tree pid recorded as a child of
/// `current` sits exactly one level below it: it cannot be the root, whose
/// parent chain would otherwise loop.
proof fn lemma_existing_child_depth(
    t: Map<u32, ProcessNode>,
    table: Seq<(u32, u32)>,
    root: u32,
    current: u32,
    pid: u32,
)
    requires
        table_acyclic(table),
        parent_linked(t, table, root),
        t.contains_key(current),
        t.contains_key(pid),
        t.contains_key(root),
        t[root].depth == 0,
        parent_in_table(table, pid) == Some(current),
    ensures
        pid != root,
        t[pid].parent_pid == current,
        t[pid].depth == t[current].depth + 1,
{
    if pid == root {
        lemma_chain_to_root(t, table, root, current);
        let d = t[current].depth as nat;
        assert(nth_parent(table, current, d) == Some(root));
        assert(nth_parent(table, root, 1) == Some(current)) by {
            assert(parent_in_table(table, root) == Some(current));
        }
        lemma_nth_parent_compose(table, root, 1, current, d);
        assert(nth_parent(table, root, 1 + d) == Some(root));
        assert(false);
    }
}

/// Replacing a node by one with the same pid, parent and depth, whose
/// children all sit one level below it, keeps the tree parent-linked and
/// depth-consistent.
proof fn lemma_replace_node_linked(
    t: Map<u32, ProcessNode>,
    table: Seq<(u32, u32)>,
    root: u32,
    current: u32,
    node: ProcessNode,
)
    requires
        parent_linked(t, table, root),
        depths_consistent(t),
        t.contains_key(current),
        node.parent_pid == t[current].parent_pid,
        node.depth == t[current].depth,
        forall|i: int|
            0 <= i < node.children@.len() ==> t.contains_key(#[trigger] node.children@[i])
                && t[node.children@[i]].depth == t[current].depth + 1,
    ensures
        parent_linked(t.insert(current, node), table, root),
        depths_consistent(t.insert(current, node)),
{
    let t2 = t.insert(current, node);
    assert forall|k: u32| #[trigger] t2.contains_key(k) && k != root implies {
        &&& parent_in_table(table, k) == Some(t2[k].parent_pid)
        &&& t2.contains_key(t2[k].parent_pid)
        &&& t2[k].depth == t2[t2[k].parent_pid].depth + 1
    } by {
        assert(t.contains_key(k));
        assert(t2[k].parent_pid == t[k].parent_pid && t2[k].depth == t[k].depth);
        assert(t2[t[k].parent_pid].depth == t[t[k].parent_pid].depth);
    }
    assert forall|k: u32, c: u32|
        t2.contains_key(k) && #[trigger] t2[k].children@.contains(c) && t2.contains_key(
            c,
        ) implies t2[c].depth == t2[k].depth + 1 by {
        assert(t.contains_key(k) && t.contains_key(c));
        assert(t2[c].depth == t[c].depth && t2[k].depth == t[k].depth);
        if k == current {
            let i = choose|i: int| 0 <= i < node.children@.len() && node.children@[i] == c;
            assert(t[c].depth == t[current].depth + 1);
        } else {
            assert(t[k].children@.contains(c));
        }
    }
}

/// Whether `v` holds `x`.
fn vec_contains_u32(v: &Vec<u32>, x: u32) -> (r: bool)
    ensures
        r == v@.contains(x),
{
    let mut i: usize = 0;
    while i < v.len()
        invariant
            0 <= i <= v@.len(),
            forall|j: int| 0 <= j < i ==> v@[j] != x,
        decreases v@.len() - i,
    {
        if v[i] == x {
            assert(v@[i as int] == x);
            return true;
        }
        i = i + 1;
    }
    assert(!v@.contains(x));
    false
}

/// Expands one node: scans `table` for records naming `current` as parent,
/// adds each such pid to the tree (once) and to `current`'s children list
/// (once), and queues the newly inserted pids for later expansion.
#[verifier::rlimit(60)]
fn expand_node(
    tree: &mut HashMap<u32, ProcessNode>,
    queue: &mut Vec<u32>,
    current: u32,
    table: &Vec<(u32, u32)>,
    Ghost(root): Ghost<u32>,
)
    requires
        tree_wf(old(tree)@, root),
        old(tree)@.contains_key(current),
        old(tree)@[current].children@.len() == 0,
        !old(queue)@.contains(current),
        old(queue)@.no_duplicates(),
        forall|i: int|
            0 <= i < old(queue)@.len() ==> old(tree)@.contains_key(#[trigger] old(queue)@[i]),
    ensures
        tree_wf(final(tree)@, root),
        old(tree)@.dom().subset_of(final(tree)@.dom()),
        forall|k: u32|
            #[trigger] old(tree)@.contains_key(k) && k != current ==> final(tree)@[k] == old(
                tree,
            )@[k],
        final(tree)@[current].pid == old(tree)@[current].pid,
        final(tree)@[current].parent_pid == old(tree)@[current].parent_pid,
        final(tree)@[current].depth == old(tree)@[current].depth,
        final(tree)@[current].children@ == table_children(table@, current),
        forall|k: u32|
            #[trigger] final(tree)@.contains_key(k) && !old(tree)@.contains_key(k) ==> {
                &&& final(tree)@[k].children@.len() == 0
                &&& final(tree)@[k].depth == old(tree)@[current].depth + 1
                &&& final(tree)@[k].parent_pid == current
                &&& final(tree)@[current].children@.contains(k)
            },
        table_functional(table@) && table_acyclic(table@) && parent_linked(
            old(tree)@,
            table@,
            root,
        ) && depths_consistent(old(tree)@) ==> parent_linked(final(tree)@, table@, root)
            && depths_consistent(final(tree)@),
        old(queue)@.is_prefix_of(final(queue)@),
        final(queue)@.no_duplicates(),
        !final(queue)@.contains(current),
        forall|i: int|
            old(queue)@.len() <= i < final(queue)@.len() ==> {
                &&& !old(tree)@.contains_key(#[trigger] final(queue)@[i])
                &&& final(tree)@.contains_key(final(queue)@[i])
            },
        forall|k: u32|
            #[trigger] final(tree)@.contains_key(k) && !old(tree)@.contains_key(k)
                ==> final(queue)@.contains(k),
{
    let (cur_depth, cur_parent): (usize, u32) = match tree.get(&current) {
        Some(n) => (n.depth, n.parent_pid),
        None => {
            proof {
                assert(false);
            }
            (0, 0)
        },
    };
    let ghost t0 = tree@;
    let ghost q0 = queue@;
    let ghost cond = table_functional(table@) && table_acyclic(table@) && parent_linked(
        t0,
        table@,
        root,
    ) && depths_consistent(t0);
    let ghost mut fresh = Seq::<u32>::empty();
    let mut kids: Vec<u32> = Vec::new();
    let mut idx: usize = 0;

    proof {
        // the depth of a child one level down stays a valid usize
        let l = vstd::std_specs::hash::spec_hash_map_len(&*tree);
        assert(t0.dom().len() == l);
    }

    while idx < table.len()
        invariant
            0 <= idx <= table@.len(),
            tree_wf(t0, root),
            t0.contains_key(current),
            t0[current].children@.len() == 0,
            cur_depth == t0[current].depth,
            cur_parent == t0[current].parent_pid,
            cur_depth < usize::MAX,
            t0.dom().subset_of(tree@.dom()),
            tree@.dom().finite(),
            forall|k: u32|
                #[trigger] t0.contains_key(k) ==> tree@.contains_key(k) && tree@[k] == t0[k],
            forall|k: u32|
                #[trigger] tree@.contains_key(k) && !t0.contains_key(k) ==> {
                    &&& kids@.contains(k)
                    &&& tree@[k].pid == k
                    &&& tree@[k].parent_pid == current
                    &&& tree@[k].depth == cur_depth + 1
                    &&& tree@[k].children@.len() == 0
                },
            kids@ == table_children(table@.take(idx as int), current),
            forall|i: int| 0 <= i < kids@.len() ==> tree@.contains_key(#[trigger] kids@[i]),
            queue@ == q0 + fresh,
            fresh.no_duplicates(),
            forall|i: int|
                0 <= i < fresh.len() ==> !t0.contains_key(#[trigger] fresh[i])
                    && tree@.contains_key(fresh[i]),
            forall|k: u32|
                #[trigger] tree@.contains_key(k) && !t0.contains_key(k) ==> fresh.contains(k),
            !q0.contains(current),
            q0.no_duplicates(),
            forall|i: int| 0 <= i < q0.len() ==> t0.contains_key(#[trigger] q0[i]),
            cond == (table_functional(table@) && table_acyclic(table@) && parent_linked(
                t0,
                table@,
                root,
            ) && depths_consistent(t0)),
            cond ==> parent_linked(tree@, table@, root),
            cond ==> depths_consistent(tree@),
            cond ==> forall|i: int|
                0 <= i < kids@.len() ==> tree@[#[trigger] kids@[i]].depth == cur_depth + 1,
        decreases table@.len() - idx,
    {
        let (pid, ppid) = table[idx];
        if ppid == current && pid != current {
            if !tree.contains_key(&pid) {
                let ghost tpre = tree@;
                let mut child = ProcessNode::new(pid, ppid);
                child.depth = cur_depth + 1;
                tree.insert(pid, child);
                queue.push(pid);
                let ghost kids0 = kids@;
                kids.push(pid);
                proof {
                    assert(!kids0.contains(pid));
                    assert(!fresh.contains(pid));
                    let ghost fresh0 = fresh;
                    fresh = fresh.push(pid);
                    assert(queue@ =~= q0 + fresh);
                    assert(fresh.last() == pid);
                    assert forall|k: u32| fresh0.contains(k) implies fresh.contains(k) by {
                        let j = choose|j: int| 0 <= j < fresh0.len() && fresh0[j] == k;
                        assert(fresh[j] == k);
                    }
                    assert(kids@.last() == pid);
                    assert forall|k: u32| kids0.contains(k) implies kids@.contains(k) by {
                        let j = choose|j: int| 0 <= j < kids0.len() && kids0[j] == k;
                        assert(kids@[j] == k);
                    }
                    assert(kids@ =~= table_children(table@.take(idx as int), current).push(pid));
                    if cond {
                        lemma_record_parent(table@, idx as int);
                        assert(children_closed(tpre)) by {
                            assert forall|k: u32, c: u32|
                                tpre.contains_key(k) && #[trigger] tpre[k].children@.contains(
                                    c,
                                ) implies tpre.contains_key(c) && c != k by {
                                if t0.contains_key(k) {
                                    assert(t0[k].children@.contains(c));
                                } else {
                                    assert(tpre[k].children@.len() == 0);
                                }
                            }
                        }
                        assert(tree@ == tpre.insert(pid, child));
                        lemma_insert_fresh_linked(tpre, table@, root, current, pid, child);
                    }
                }
            } else {
                proof {
                    if cond {
                        lemma_record_parent(table@, idx as int);
                        lemma_existing_child_depth(tree@, table@, root, current, pid);
                        assert(tree@[pid].depth == cur_depth + 1);
                    }
                }
                if !vec_contains_u32(&kids, pid) {
                    let ghost kids0 = kids@;
                    kids.push(pid);
                    proof {
                        assert(kids@.last() == pid);
                        assert forall|k: u32| kids0.contains(k) implies kids@.contains(k) by {
                            let j = choose|j: int| 0 <= j < kids0.len() && kids0[j] == k;
                            assert(kids@[j] == k);
                        }
                        assert(kids@ =~= table_children(table@.take(idx as int), current).push(
                            pid,
                        ));
                    }
                }
            }
        }
        proof {
            assert(table@.take(idx + 1).drop_last() =~= table@.take(idx as int));
            assert(table@.take(idx + 1).last() == table@[idx as int]);
        }
        idx = idx + 1;
    }

    proof {
        assert(table@.take(idx as int) =~= table@);
    }
    let ghost t1 = tree@;
    let node = ProcessNode { pid: current, parent_pid: cur_parent, children: kids, depth: cur_depth };
    tree.insert(current, node);

    proof {
        let tf = tree@;
        // the queue grew only by fresh pids
        assert(queue@.take(q0.len() as int) =~= q0);
        assert(q0.is_prefix_of(queue@));
        assert forall|i: int| q0.len() <= i < queue@.len() implies !t0.contains_key(
            #[trigger] queue@[i],
        ) && tf.contains_key(queue@[i]) by {
            assert(queue@[i] == fresh[i - q0.len()]);
        }
        assert forall|k: u32| #[trigger] tf.contains_key(k) && !t0.contains_key(k) implies
            queue@.contains(k) by {
            assert(fresh.contains(k));
            let j = choose|j: int| 0 <= j < fresh.len() && fresh[j] == k;
            assert(queue@[q0.len() + j] == k);
        }
        assert(!queue@.contains(current)) by {
            if queue@.contains(current) {
                let j = choose|j: int| 0 <= j < queue@.len() && queue@[j] == current;
                if j < q0.len() {
                    assert(q0[j] == current);
                } else {
                    assert(fresh[j - q0.len()] == current);
                }
            }
        }
        assert(queue@.no_duplicates()) by {
            assert forall|i: int, j: int|
                0 <= i < queue@.len() && 0 <= j < queue@.len() && i != j implies queue@[i]
                != queue@[j] by {
                if i < q0.len() && j < q0.len() {
                    assert(queue@[i] == q0[i] && queue@[j] == q0[j]);
                } else if i < q0.len() {
                    assert(t0.contains_key(q0[i]) && !t0.contains_key(fresh[j - q0.len()]));
                    assert(queue@[i] == q0[i] && queue@[j] == fresh[j - q0.len()]);
                } else if j < q0.len() {
                    assert(t0.contains_key(q0[j]) && !t0.contains_key(fresh[i - q0.len()]));
                    assert(queue@[j] == q0[j] && queue@[i] == fresh[i - q0.len()]);
                } else {
                    assert(queue@[i] == fresh[i - q0.len()] && queue@[j] == fresh[j - q0.len()]);
                }
            }
        }
        // shape of the final tree
        assert(tf.dom() =~= t1.dom().insert(current));
        assert(tf[current].children@ == table_children(table@, current));
        assert forall|k: u32| #[trigger] tf.contains_key(k) && !t0.contains_key(k) implies {
            &&& tf[k].children@.len() == 0
            &&& tf[k].depth == t0[current].depth + 1
            &&& tf[k].parent_pid == current
            &&& tf[current].children@.contains(k)
        } by {
            assert(t1.contains_key(k) && tf[k] == t1[k]);
        }
        // well-formedness of the result
        assert(tf.contains_key(root) && tf[root].depth == 0);
        assert(nodes_keyed(tf));
        assert(children_distinct(tf)) by {
            lemma_table_children_props(table@, current);
        }
        assert(children_closed(tf)) by {
            lemma_table_children_props(table@, current);
            assert forall|k: u32, c: u32|
                tf.contains_key(k) && #[trigger] tf[k].children@.contains(c) implies tf.contains_key(
                c,
            ) && c != k by {
                if k == current {
                    assert(t1.contains_key(c));
                } else {
                    assert(t1.contains_key(k) && t1[k] == tf[k]);
                    if t0.contains_key(k) {
                        assert(t0[k].children@.contains(c));
                    } else {
                        assert(t1[k].children@.len() == 0);
                        assert(false);
                    }
                }
            }
        }
        assert(depth_linked(tf, root)) by {
            assert forall|k: u32| #[trigger] tf.contains_key(k) && k != root implies exists|p: u32|
                tf.contains_key(p) && #[trigger] tf[p].children@.contains(k) && tf[k].depth
                    == tf[p].depth + 1 by {
                if t0.contains_key(k) {
                    let p = choose|p: u32|
                        t0.contains_key(p) && #[trigger] t0[p].children@.contains(k) && t0[k].depth
                            == t0[p].depth + 1;
                    assert(p != current) by {
                        assert(t0[current].children@.len() == 0);
                        if p == current {
                            assert(t0[p].children@.contains(k));
                        }
                    }
                    assert(tf.contains_key(p) && tf[p].children@.contains(k) && tf[k].depth
                        == tf[p].depth + 1);
                } else {
                    assert(tf[current].children@.contains(k) && tf[k].depth == tf[current].depth
                        + 1);
                }
            }
        }
        if cond {
            assert(tf == t1.insert(current, tf[current]));
            lemma_replace_node_linked(t1, table@, root, current, tf[current]);
        }
        assert(depth_bounded(tf)) by {
            assert(t0.dom().subset_of(tf.dom()));
            assert(t0.dom().len() <= tf.dom().len()) by {
                lemma_len_subset(t0.dom(), tf.dom());
            }
            assert forall|k: u32| #[trigger] tf.contains_key(k) implies tf[k].depth
                < tf.dom().len() by {
                if t0.contains_key(k) {
                    assert(t0[k].depth < t0.dom().len());
                    assert(tf[k].depth == t0[k].depth);
                } else {
                    // a fresh node exists, so the tree grew by at least one pid
                    assert(t0.dom().len() < tf.dom().len()) by {
                        t0.dom().lemma_subset_not_in_lt(tf.dom(), k);
                    }
                    assert(tf[k].depth == cur_depth + 1);
                    assert(cur_depth < t0.dom().len());
                }
            }
        }
        assert(tree_wf(tf, root));
    }
}

/// The breadth-first walk's state: a well-formed tree whose root keeps its
/// synthetic parent 0, a duplicate-free queue of discovered but unexpanded
/// pids, and the set of pids expanded so far.
pub open spec fn bfs_inv(
    t: Map<u32, ProcessNode>,
    q: Seq<u32>,
    v: Set<u32>,
    root: u32,
) -> bool {
    &&& tree_wf(t, root)
    &&& t[root].parent_pid == 0
    &&& q.no_duplicates()
    &&& forall|i: int|
        0 <= i < q.len() ==> t.contains_key(#[trigger] q[i]) && t[q[i]].children@.len() == 0
    &&& forall|i: int| 0 <= i < q.len() ==> !v.contains(#[trigger] q[i])
    &&& forall|p: u32| #[trigger] v.contains(p) ==> t.contains_key(p)
    &&& v.finite()
}

/// One step of the breadth-first walk: pops the front pid and, unless it was
/// expanded before, expands it against `table`. Either a pid joins the
/// visited set or the queue shrinks, so the walk terminates.
fn bfs_step(
    tree: &mut HashMap<u32, ProcessNode>,
    queue: &mut Vec<u32>,
    visited: &mut HashSet<u32>,
    table: &Vec<(u32, u32)>,
    Ghost(root): Ghost<u32>,
)
    requires
        bfs_inv(old(tree)@, old(queue)@, old(visited)@, root),
        old(queue)@.len() > 0,
    ensures
        bfs_inv(final(tree)@, final(queue)@, final(visited)@, root),
        table_functional(table@) && table_acyclic(table@) && parent_linked(
            old(tree)@,
            table@,
            root,
        ) && depths_consistent(old(tree)@) ==> parent_linked(final(tree)@, table@, root)
            && depths_consistent(final(tree)@),
        old(visited)@.subset_of(final(visited)@),
        final(visited)@.len() > old(visited)@.len() || (final(visited)@ == old(visited)@
            && final(queue)@.len() < old(queue)@.len()),
        forall|k: u32|
            #[trigger] final(tree)@.contains_key(k) && !final(queue)@.contains(k) ==> (old(
                tree,
            )@.contains_key(k) && !old(queue)@.contains(k) && final(tree)@[k] == old(tree)@[k])
                || final(tree)@[k].children@ == table_children(table@, k),
{
    let ghost t0 = tree@;
    let ghost q_full = queue@;
    let current = queue.remove(0);
    proof {
        assert(current == q_full[0]);
        assert(queue@ =~= q_full.subrange(1, q_full.len() as int));
        assert forall|i: int| 0 <= i < queue@.len() implies #[trigger] queue@[i] == q_full[i
            + 1] by {}
        assert(!queue@.contains(current)) by {
            if queue@.contains(current) {
                let j = choose|j: int| 0 <= j < queue@.len() && queue@[j] == current;
                assert(q_full[j + 1] == current && q_full[0] == current);
            }
        }
        assert(queue@.no_duplicates()) by {
            assert forall|i: int, j: int|
                0 <= i < queue@.len() && 0 <= j < queue@.len() && i != j implies queue@[i]
                != queue@[j] by {
                assert(queue@[i] == q_full[i + 1] && queue@[j] == q_full[j + 1]);
            }
        }
    }
    if visited.contains(&current) {
        // cycle guard: this pid was expanded before; nothing else changes
        return ;
    }
    visited.insert(current);
    let ghost q1 = queue@;
    let ghost v1 = visited@;
    expand_node(tree, queue, current, table, Ghost(root));
    proof {
        let tf = tree@;
        let qf = queue@;
        assert forall|i: int| 0 <= i < qf.len() implies tf.contains_key(#[trigger] qf[i])
            && tf[qf[i]].children@.len() == 0 && !v1.contains(qf[i]) by {
            if i < q1.len() {
                assert(qf[i] == q1[i]);
                assert(t0.contains_key(q1[i]) && q1[i] != current);
                assert(tf[q1[i]] == t0[q1[i]]);
            } else {
                assert(!t0.contains_key(qf[i]));
                assert(!old(visited)@.contains(qf[i]) && qf[i] != current);
            }
        }
        assert(tf[root].parent_pid == 0) by {
            if root == current {
                assert(tf[current].parent_pid == t0[current].parent_pid);
            } else {
                assert(tf[root] == t0[root]);
            }
        }
        assert forall|k: u32|
            #[trigger] tf.contains_key(k) && !qf.contains(k) implies (t0.contains_key(k)
                && !q_full.contains(k) && tf[k] == t0[k]) || tf[k].children@ == table_children(
                table@,
                k,
            ) by {
            if !t0.contains_key(k) {
                assert(qf.contains(k));
            } else if k != current {
                assert(tf[k] == t0[k]);
                assert(!q_full.contains(k)) by {
                    if q_full.contains(k) {
                        let j = choose|j: int| 0 <= j < q_full.len() && q_full[j] == k;
                        assert(j >= 1);
                        assert(q1[j - 1] == k);
                        assert(q1.is_prefix_of(qf));
                        assert(qf[j - 1] == q1[j - 1]);
                        assert(qf.contains(k));
                    }
                }
            }
        }
    }
}

/// Builds the tree of descendants of `root_pid` described by a fixed table
/// of `(pid, parent_pid)` records, breadth-first, expanding each pid at most
/// once: every node of the result carries exactly the children the table
/// records for it. A cyclic table still yields a well-formed finite tree.
pub fn build_tree_from_table(root_pid: u32, table: &Vec<(u32, u32)>) -> (t: HashMap<
    u32,
    ProcessNode,
>)
    ensures
        tree_wf(t@, root_pid),
        t@[root_pid].parent_pid == 0,
        forall|k: u32|
            #[trigger] t@.contains_key(k) ==> t@[k].children@ == table_children(table@, k),
        table_functional(table@) && table_acyclic(table@) ==> depths_consistent(t@),
{
    let mut tree: HashMap<u32, ProcessNode> = HashMap::new();
    let mut queue: Vec<u32> = Vec::new();
    let mut visited: HashSet<u32> = HashSet::new();

    tree.insert(root_pid, ProcessNode::new(root_pid, 0));
    queue.push(root_pid);
    proof {
        assert(tree@.dom() =~= Set::<u32>::empty().insert(root_pid));
        assert(visited@ =~= Set::<u32>::empty());
        assert(bfs_inv(tree@, queue@, visited@, root_pid));
        assert(queue@.contains(root_pid)) by {
            assert(queue@[0] == root_pid);
        }
        assert(parent_linked(tree@, table@, root_pid));
        assert(depths_consistent(tree@));
    }

    while queue.len() > 0
        invariant
            bfs_inv(tree@, queue@, visited@, root_pid),
            forall|k: u32|
                #[trigger] tree@.contains_key(k) ==> queue@.contains(k) || tree@[k].children@
                    == table_children(table@, k),
            table_functional(table@) && table_acyclic(table@) ==> parent_linked(
                tree@,
                table@,
                root_pid,
            ) && depths_consistent(tree@),
        decreases Set::<u32>::full().len() - visited@.len(), queue@.len(),
    {
        proof {
            lemma_len_subset(visited@, Set::<u32>::full());
        }
        bfs_step(&mut tree, &mut queue, &mut visited, table, Ghost(root_pid));
        proof {
            lemma_len_subset(visited@, Set::<u32>::full());
        }
    }
    tree
}

/// Builds the tree of live descendants of `root_pid`, breadth-first. The
/// process table is re-read before each expansion, so descendants forked
/// while the walk runs can still be discovered; each pid is expanded at most
/// once, so a racy table that reports parent cycles cannot make the walk
/// diverge.
pub fn build_process_tree(root_pid: u32) -> (t: HashMap<u32, ProcessNode>)
    ensures
        tree_wf(t@, root_pid),
        t@[root_pid].parent_pid == 0,
{
    let mut tree: HashMap<u32, ProcessNode> = HashMap::new();
    let mut queue: Vec<u32> = Vec::new();
    let mut visited: HashSet<u32> = HashSet::new();

    tree.insert(root_pid, ProcessNode::new(root_pid, 0));
    queue.push(root_pid);
    proof {
        assert(tree@.dom() =~= Set::<u32>::empty().insert(root_pid));
        assert(visited@ =~= Set::<u32>::empty());
        assert(bfs_inv(tree@, queue@, visited@, root_pid));
    }

    while queue.len() > 0
        invariant
            bfs_inv(tree@, queue@, visited@, root_pid),
        decreases Set::<u32>::full().len() - visited@.len(), queue@.len(),
    {
        // a fresh snapshot before every expansion: the table changes as
        // processes fork and exit while the walk runs
        let table = get_all_processes();
        proof {
            lemma_len_subset(visited@, Set::<u32>::full());
        }
        bfs_step(&mut tree, &mut queue, &mut visited, &table, Ghost(root_pid));
        proof {
            lemma_len_subset(visited@, Set::<u32>::full());
        }
    }
    tree
}

} // verus!

