//! Termination-order planning.
//!
//! `get_processes_in_dfs_order` lists a tree's pids in post order: every
//! child a node is known to have is listed before the node itself, and the
//! root comes last. `get_pids_by_depth` is the weaker depth-sorted order,
//! deepest first. Both visit each pid at most once, so they stay correct
//! on trees whose children lists contain cycles inherited from a corrupted
//! process table.

use vstd::prelude::*;
use vstd::set_lib::lemma_len_subset;
use vstd::seq_lib::lemma_no_dup_in_concat;
use vstd::seq_lib::seq_to_set_distributes_over_add;
use vstd::std_specs::iter::IteratorSpec;
use std::collections::HashMap;
use std::collections::HashSet;

use crate::tree::ProcessNode;
use crate::tree::children_closed;
use crate::tree::depths_consistent;
use crate::tree::tree_wf;

verus! {

broadcast use {vstd::std_specs::hash::group_hash_axioms, vstd::seq_lib::group_seq_lib_default};

/// The post-order walk of the tree `t` starting at `pid`, given the set `v`
/// of pids already visited: the sequence of pids emitted (children of a node
/// before the node) and the visited set afterwards. A pid already visited
/// contributes nothing; a pid outside the tree is marked visited but not
/// emitted.
pub open spec fn post_order(t: Map<u32, ProcessNode>, pid: u32, v: Set<u32>) -> (Seq<u32>, Set<
    u32,
>)
    decreases t.dom().difference(v).len(), 0int, 0int,
        when t.dom().finite()
{
    if v.contains(pid) {
        (Seq::empty(), v)
    } else {
        let v1 = v.insert(pid);
        if t.contains_key(pid) {
            proof {
                lemma_len_subset(t.dom().difference(v1), t.dom());
                lemma_len_subset(t.dom().difference(v), t.dom());
                assert(t.dom().difference(v1) =~= t.dom().difference(v).remove(pid));
                assert(t.dom().difference(v).contains(pid));
            }
            let r = post_order_kids(t, t[pid].children@, v1);
            (r.0.push(pid), r.1)
        } else {
            (Seq::empty(), v1)
        }
    }
}

/// The post-order walk of a list of sibling pids, left to right, threading
/// the visited set through.
pub open spec fn post_order_kids(t: Map<u32, ProcessNode>, kids: Seq<u32>, v: Set<u32>) -> (
    Seq<u32>,
    Set<u32>,
)
    decreases t.dom().difference(v).len(), 1int, kids.len(),
        when t.dom().finite()
{
    if kids.len() == 0 {
        (Seq::empty(), v)
    } else {
        let r1 = post_order(t, kids[0], v);
        let v1 = v.union(r1.1);
        proof {
            lemma_len_subset(t.dom().difference(v), t.dom());
            lemma_len_subset(t.dom().difference(v1), t.dom().difference(v));
        }
        let r2 = post_order_kids(t, kids.drop_first(), v1);
        (r1.0 + r2.0, r2.1)
    }
}

/// Basic shape of a post-order walk: the visited set only grows, the pids
/// emitted are exactly the tree pids newly visited, each exactly once.
pub proof fn lemma_po_basic(t: Map<u32, ProcessNode>, pid: u32, v: Set<u32>)
    requires
        t.dom().finite(),
        v.finite(),
    ensures
        ({
            let (s, v2) = post_order(t, pid, v);
            &&& v.subset_of(v2)
            &&& v2.contains(pid)
            &&& v2.finite()
            &&& s.no_duplicates()
            &&& forall|e: u32| #[trigger] s.contains(e) ==> !v.contains(e) && t.contains_key(e)
            &&& s.to_set() =~= v2.difference(v).intersect(t.dom())
            &&& (!v.contains(pid) && t.contains_key(pid) ==> s.len() > 0 && s.last() == pid)
        }),
    decreases t.dom().difference(v).len(), 0int, 0int,
{
    let (s, v2) = post_order(t, pid, v);
    if v.contains(pid) {
        assert(s.to_set() =~= v2.difference(v).intersect(t.dom())) by {
            assert(s.to_set() =~= Set::<u32>::empty());
        }
    } else {
        let v1 = v.insert(pid);
        if t.contains_key(pid) {
            lemma_len_subset(t.dom().difference(v1), t.dom());
            lemma_len_subset(t.dom().difference(v), t.dom());
            assert(t.dom().difference(v1) =~= t.dom().difference(v).remove(pid));
            assert(t.dom().difference(v).contains(pid));
            lemma_po_kids_basic(t, t[pid].children@, v1);
            let (sk, vk) = post_order_kids(t, t[pid].children@, v1);
            assert(s =~= sk.push(pid));
            assert(s.no_duplicates()) by {
                assert(!sk.contains(pid)) by {
                    if sk.contains(pid) {
                        assert(!v1.contains(pid));
                    }
                }
                assert forall|i: int, j: int|
                    0 <= i < s.len() && 0 <= j < s.len() && i != j implies s[i] != s[j] by {
                    if i < sk.len() && j < sk.len() {
                        assert(s[i] == sk[i] && s[j] == sk[j]);
                    } else if i < sk.len() {
                        assert(s[j] == pid && s[i] == sk[i]);
                        assert(sk.contains(sk[i]));
                    } else if j < sk.len() {
                        assert(s[i] == pid && s[j] == sk[j]);
                        assert(sk.contains(sk[j]));
                    }
                }
            }
            assert forall|e: u32| #[trigger] s.contains(e) implies !v.contains(e)
                && t.contains_key(e) by {
                let i = choose|i: int| 0 <= i < s.len() && s[i] == e;
                if i < sk.len() {
                    assert(sk.contains(e));
                    assert(!v1.contains(e));
                } else {
                    assert(e == pid);
                }
            }
            assert(s.to_set() =~= v2.difference(v).intersect(t.dom())) by {
                assert forall|e: u32| #[trigger] s.to_set().contains(e) implies v2.difference(
                    v,
                ).intersect(t.dom()).contains(e) by {
                    assert(s.contains(e));
                    let i = choose|i: int| 0 <= i < s.len() && s[i] == e;
                    if i < sk.len() {
                        assert(sk.contains(e));
                        assert(sk.to_set().contains(e));
                        assert(vk.difference(v1).intersect(t.dom()).contains(e));
                    } else {
                        assert(e == pid);
                        assert(v1.subset_of(vk));
                    }
                }
                assert forall|e: u32| v2.difference(v).intersect(t.dom()).contains(e) implies
                    #[trigger] s.to_set().contains(e) by {
                    if e == pid {
                        assert(s.last() == pid);
                        assert(s.contains(pid));
                    } else {
                        assert(vk.contains(e) && !v.contains(e) && e != pid);
                        assert(!v1.contains(e));
                        assert(vk.difference(v1).intersect(t.dom()).contains(e));
                        assert(sk.to_set().contains(e));
                        assert(sk.contains(e));
                        let i = choose|i: int| 0 <= i < sk.len() && sk[i] == e;
                        assert(s[i] == e);
                        assert(s.contains(e));
                    }
                }
            }
            assert(s.last() == pid);
        } else {
            assert(s.to_set() =~= v2.difference(v).intersect(t.dom())) by {
                assert(s.to_set() =~= Set::<u32>::empty());
                assert forall|e: u32| v2.difference(v).intersect(t.dom()).contains(e) implies
                    false by {
                    assert(e == pid);
                }
            }
        }
    }
}

/// Basic shape of a sibling-list walk; in addition, every listed pid is
/// visited afterwards.
pub proof fn lemma_po_kids_basic(t: Map<u32, ProcessNode>, kids: Seq<u32>, v: Set<u32>)
    requires
        t.dom().finite(),
        v.finite(),
    ensures
        ({
            let (s, v2) = post_order_kids(t, kids, v);
            &&& v.subset_of(v2)
            &&& v2.finite()
            &&& s.no_duplicates()
            &&& forall|e: u32| #[trigger] s.contains(e) ==> !v.contains(e) && t.contains_key(e)
            &&& s.to_set() =~= v2.difference(v).intersect(t.dom())
            &&& forall|i: int| 0 <= i < kids.len() ==> v2.contains(#[trigger] kids[i])
        }),
    decreases t.dom().difference(v).len(), 1int, kids.len(),
{
    let (s, v2) = post_order_kids(t, kids, v);
    if kids.len() == 0 {
        assert(s.to_set() =~= v2.difference(v).intersect(t.dom())) by {
            assert(s.to_set() =~= Set::<u32>::empty());
        }
    } else {
        let (s1, x1) = post_order(t, kids[0], v);
        let v1 = v.union(x1);
        lemma_len_subset(t.dom().difference(v), t.dom());
        lemma_len_subset(t.dom().difference(v1), t.dom().difference(v));
        lemma_po_basic(t, kids[0], v);
        assert(v1 =~= x1);
        let (s2, v2b) = post_order_kids(t, kids.drop_first(), v1);
        lemma_po_kids_basic(t, kids.drop_first(), v1);
        assert(s =~= s1 + s2);
        assert(v2 == v2b);
        assert(s.no_duplicates()) by {
            assert forall|i: int, j: int|
                0 <= i < s1.len() && 0 <= j < s2.len() implies s1[i] != s2[j] by {
                if s1[i] == s2[j] {
                    let e = s1[i];
                    assert(s1.contains(e) && s2.contains(e));
                    assert(s1.to_set().contains(e));
                    assert(x1.contains(e));
                    assert(!v1.contains(e));
                }
            }
            lemma_no_dup_in_concat(s1, s2);
        }
        assert forall|e: u32| #[trigger] s.contains(e) implies !v.contains(e)
            && t.contains_key(e) by {
            let i = choose|i: int| 0 <= i < s.len() && s[i] == e;
            if i < s1.len() {
                assert(s1.contains(e));
            } else {
                assert(s2.contains(e));
                assert(!v1.contains(e));
            }
        }
        assert(s.to_set() =~= v2.difference(v).intersect(t.dom())) by {
            seq_to_set_distributes_over_add(s1, s2);
            assert forall|e: u32| #[trigger] s.to_set().contains(e) implies v2.difference(
                v,
            ).intersect(t.dom()).contains(e) by {
                if s1.to_set().contains(e) {
                    assert(x1.difference(v).intersect(t.dom()).contains(e));
                    assert(v1.subset_of(v2));
                } else {
                    assert(s2.to_set().contains(e));
                    assert(v2.difference(v1).intersect(t.dom()).contains(e));
                }
            }
            assert forall|e: u32| v2.difference(v).intersect(t.dom()).contains(e) implies
                #[trigger] s.to_set().contains(e) by {
                if v1.contains(e) {
                    assert(x1.difference(v).intersect(t.dom()).contains(e));
                    assert(s1.to_set().contains(e));
                } else {
                    assert(v2.difference(v1).intersect(t.dom()).contains(e));
                    assert(s2.to_set().contains(e));
                }
            }
        }
        assert forall|i: int| 0 <= i < kids.len() implies v2.contains(#[trigger] kids[i]) by {
            if i == 0 {
                assert(x1.contains(kids[0]));
                assert(v1.subset_of(v2));
            } else {
                assert(kids.drop_first()[i - 1] == kids[i]);
            }
        }
    }
}

/// Walking one more sibling appends that sibling's walk to the sequence.
pub proof fn lemma_po_kids_snoc(t: Map<u32, ProcessNode>, kids: Seq<u32>, c: u32, v: Set<u32>)
    requires
        t.dom().finite(),
        v.finite(),
    ensures
        ({
            let (s1, v1) = post_order_kids(t, kids, v);
            let (s2, v2) = post_order(t, c, v1);
            post_order_kids(t, kids.push(c), v) == (s1 + s2, v2)
        }),
    decreases kids.len(),
{
    let (s1, v1) = post_order_kids(t, kids, v);
    let (s2, v2) = post_order(t, c, v1);
    if kids.len() == 0 {
        assert(kids.push(c)[0] == c);
        assert(kids.push(c).drop_first() =~= Seq::<u32>::empty());
        lemma_po_basic(t, c, v);
        let rc = post_order(t, c, v);
        assert(v.union(rc.1) =~= rc.1);
        let rr = post_order_kids(t, kids.push(c).drop_first(), rc.1);
        assert(rr == (Seq::<u32>::empty(), rc.1));
        assert(post_order_kids(t, kids.push(c), v).0 =~= rc.0 + Seq::<u32>::empty());
        assert(rc.0 + Seq::<u32>::empty() =~= rc.0);
        assert(s1 =~= Seq::<u32>::empty());
        assert(v1 == v);
        assert(s1 + s2 =~= s2);
        assert(post_order_kids(t, kids.push(c), v) == (s1 + s2, v2));
    } else {
        let k0 = kids[0];
        let r0 = post_order(t, k0, v);
        lemma_po_basic(t, k0, v);
        let vm = v.union(r0.1);
        assert(vm =~= r0.1);
        lemma_len_subset(t.dom().difference(v), t.dom());
        lemma_len_subset(t.dom().difference(vm), t.dom().difference(v));
        lemma_po_kids_snoc(t, kids.drop_first(), c, vm);
        assert(kids.push(c)[0] == k0);
        assert(kids.push(c).drop_first() =~= kids.drop_first().push(c));
        let (a1, b1) = post_order_kids(t, kids.drop_first(), vm);
        let (a2, b2) = post_order(t, c, b1);
        assert(post_order_kids(t, kids.drop_first().push(c), vm) == (a1 + a2, b2));
        assert(post_order_kids(t, kids, v) == (r0.0 + a1, b1));
        assert(s1 == r0.0 + a1 && v1 == b1);
        assert(post_order_kids(t, kids.push(c), v).0 == r0.0 + (a1 + a2));
        assert(r0.0 + (a1 + a2) =~= (r0.0 + a1) + a2);
        assert(post_order_kids(t, kids.push(c), v) == (s1 + s2, v2));
    }
}

/// A sequence respects the tree's child-before-parent order when every
/// known child of a listed node appears strictly earlier in the sequence.
pub open spec fn seq_ordered(t: Map<u32, ProcessNode>, s: Seq<u32>) -> bool {
    forall|i: int, c: u32|
        0 <= i < s.len() && t.contains_key(s[i]) && #[trigger] t[s[i]].children@.contains(c)
            && t.contains_key(c) ==> exists|j: int| 0 <= j < i && s[j] == c
}

/// A post-order walk keeps the child-before-parent order, provided children
/// sit exactly one level below their parents (an acyclic tree) and the walk
/// starts below everything still unfinished: `e` is what was emitted before
/// this walk, and every visited-but-unfinished pid lies strictly above
/// `pid`'s level.
proof fn lemma_po_ordered(t: Map<u32, ProcessNode>, pid: u32, v: Set<u32>, e: Seq<u32>)
    requires
        t.dom().finite(),
        v.finite(),
        children_closed(t),
        depths_consistent(t),
        forall|i: int| 0 <= i < e.len() ==> t.contains_key(#[trigger] e[i]),
        e.to_set().subset_of(v),
        seq_ordered(t, e),
        forall|a: u32|
            v.contains(a) && t.contains_key(a) && !e.contains(a) && t.contains_key(pid)
                ==> (#[trigger] t[a].depth) < t[pid].depth,
    ensures
        seq_ordered(t, e + post_order(t, pid, v).0),
    decreases t.dom().difference(v).len(), 0int, 0int,
{
    let (s, v2) = post_order(t, pid, v);
    lemma_po_basic(t, pid, v);
    if v.contains(pid) {
        assert(e + s =~= e);
    } else if t.contains_key(pid) {
        let v1 = v.insert(pid);
        let kids = t[pid].children@;
        lemma_len_subset(t.dom().difference(v1), t.dom());
        lemma_len_subset(t.dom().difference(v), t.dom());
        assert(t.dom().difference(v1) =~= t.dom().difference(v).remove(pid));
        assert(t.dom().difference(v).contains(pid));
        let (sk, vk) = post_order_kids(t, kids, v1);
        lemma_po_kids_basic(t, kids, v1);
        let d = (t[pid].depth + 1) as nat;
        assert forall|i: int|
            0 <= i < kids.len() && t.contains_key(kids[i]) implies (#[trigger] t[kids[i]].depth)
            == d by {
            assert(kids.contains(kids[i]));
        }
        assert forall|a: u32|
            v1.contains(a) && t.contains_key(a) && !e.contains(a) implies (#[trigger] t[a].depth)
            < d by {
            if a != pid {
                assert(v.contains(a));
            }
        }
        lemma_po_kids_ordered(t, kids, v1, e, d);
        let es = e + s;
        assert(es =~= (e + sk).push(pid));
        assert(seq_ordered(t, es)) by {
            assert forall|i: int, c: u32|
                0 <= i < es.len() && t.contains_key(es[i]) && #[trigger] t[es[i]].children@.contains(
                    c,
                ) && t.contains_key(c) implies exists|j: int| 0 <= j < i && es[j] == c by {
                if i < (e + sk).len() {
                    assert(es[i] == (e + sk)[i]);
                    let j = choose|j: int| 0 <= j < i && (e + sk)[j] == c;
                    assert(es[j] == c);
                } else {
                    // i is the root of this walk, emitted last
                    assert(es[i] == pid);
                    assert(t[pid].children@.contains(c));
                    assert(t[c].depth == d);
                    assert(vk.contains(c));
                    if v1.contains(c) {
                        assert(c != pid);
                        assert(v.contains(c));
                        assert(e.contains(c)) by {
                            if !e.contains(c) {
                                assert(t[c].depth < t[pid].depth);
                            }
                        }
                        let j = choose|j: int| 0 <= j < e.len() && e[j] == c;
                        assert(es[j] == c);
                    } else {
                        assert(vk.difference(v1).intersect(t.dom()).contains(c));
                        assert(sk.to_set().contains(c));
                        assert(sk.contains(c));
                        let j = choose|j: int| 0 <= j < sk.len() && sk[j] == c;
                        assert(es[e.len() + j] == c);
                    }
                }
            }
        }
    } else {
        assert(e + s =~= e);
    }
}

/// The sibling-list form of `lemma_po_ordered`: all dom-kids sit at level
/// `d`, and everything visited but unfinished sits strictly above.
proof fn lemma_po_kids_ordered(
    t: Map<u32, ProcessNode>,
    kids: Seq<u32>,
    v: Set<u32>,
    e: Seq<u32>,
    d: nat,
)
    requires
        t.dom().finite(),
        v.finite(),
        children_closed(t),
        depths_consistent(t),
        forall|i: int| 0 <= i < e.len() ==> t.contains_key(#[trigger] e[i]),
        e.to_set().subset_of(v),
        seq_ordered(t, e),
        forall|i: int|
            0 <= i < kids.len() && t.contains_key(kids[i]) ==> (#[trigger] t[kids[i]].depth) == d,
        forall|a: u32|
            v.contains(a) && t.contains_key(a) && !e.contains(a) ==> (#[trigger] t[a].depth) < d,
    ensures
        seq_ordered(t, e + post_order_kids(t, kids, v).0),
    decreases t.dom().difference(v).len(), 1int, kids.len(),
{
    let (s, v2) = post_order_kids(t, kids, v);
    if kids.len() == 0 {
        assert(e + s =~= e);
    } else {
        let k0 = kids[0];
        let (s1, x1) = post_order(t, k0, v);
        lemma_po_basic(t, k0, v);
        assert forall|a: u32|
            v.contains(a) && t.contains_key(a) && !e.contains(a) && t.contains_key(k0) implies (
        #[trigger] t[a].depth) < t[k0].depth by {
            assert(kids.contains(k0));
            assert(t[k0].depth == d);
        }
        lemma_po_ordered(t, k0, v, e);
        let v1 = v.union(x1);
        assert(v1 =~= x1);
        let e1 = e + s1;
        lemma_len_subset(t.dom().difference(v), t.dom());
        lemma_len_subset(t.dom().difference(v1), t.dom().difference(v));
        assert forall|i: int| 0 <= i < e1.len() implies t.contains_key(#[trigger] e1[i]) by {
            if i >= e.len() {
                assert(s1.contains(s1[i - e.len()]));
            }
        }
        assert(e1.to_set().subset_of(v1)) by {
            seq_to_set_distributes_over_add(e, s1);
            assert forall|a: u32| e1.to_set().contains(a) implies v1.contains(a) by {
                if e.to_set().contains(a) {
                } else {
                    assert(s1.to_set().contains(a));
                }
            }
        }
        assert forall|a: u32|
            v1.contains(a) && t.contains_key(a) && !e1.contains(a) implies (#[trigger] t[a].depth)
            < d by {
            assert(!e.contains(a)) by {
                if e.contains(a) {
                    let j = choose|j: int| 0 <= j < e.len() && e[j] == a;
                    assert(e1[j] == a);
                }
            }
            if v.contains(a) {
            } else {
                assert(x1.difference(v).intersect(t.dom()).contains(a));
                assert(s1.to_set().contains(a));
                assert(s1.contains(a));
                let j = choose|j: int| 0 <= j < s1.len() && s1[j] == a;
                assert(e1[e.len() + j] == a);
                assert(false);
            }
        }
        let rest = kids.drop_first();
        assert forall|i: int|
            0 <= i < rest.len() && t.contains_key(rest[i]) implies (#[trigger] t[rest[i]].depth)
            == d by {
            assert(rest[i] == kids[i + 1]);
        }
        lemma_po_kids_ordered(t, rest, v1, e1, d);
        let (s2, v2b) = post_order_kids(t, rest, v1);
        assert(e + s =~= e1 + s2);
    }
}

/// Every pid of a well-formed tree with consistent depths appears in the
/// post-order walk from its root.
proof fn lemma_po_complete(t: Map<u32, ProcessNode>, root: u32, k: u32)
    requires
        tree_wf(t, root),
        depths_consistent(t),
        t.contains_key(k),
    ensures
        post_order(t, root, Set::<u32>::empty()).0.contains(k),
    decreases t[k].depth,
{
    let v0 = Set::<u32>::empty();
    let (s, v2) = post_order(t, root, v0);
    lemma_po_basic(t, root, v0);
    if k == root {
        assert(v2.difference(v0).intersect(t.dom()).contains(root));
        assert(s.to_set().contains(root));
    } else {
        let p = choose|p: u32|
            t.contains_key(p) && #[trigger] t[p].children@.contains(k) && t[k].depth == t[p].depth
                + 1;
        lemma_po_complete(t, root, p);
        lemma_po_ordered(t, root, v0, Seq::<u32>::empty());
        assert(Seq::<u32>::empty() + s =~= s);
        assert(seq_ordered(t, s));
        let i = choose|i: int| 0 <= i < s.len() && s[i] == p;
        assert(t[s[i]].children@.contains(k));
        let j = choose|j: int| 0 <= j < i && s[j] == k;
        assert(s.contains(k));
    }
}

/// The termination plan a post-order walk produces for a well-formed tree
/// whose children sit exactly one level below their parents, as discovery
/// from an acyclic table leaves them: every pid of the tree exactly once,
/// each node after all its children, the root last.
pub proof fn lemma_post_order_plan(t: Map<u32, ProcessNode>, root: u32)
    requires
        tree_wf(t, root),
        depths_consistent(t),
    ensures
        ({
            let s = post_order(t, root, Set::<u32>::empty()).0;
            &&& s.no_duplicates()
            &&& s.to_set() =~= t.dom()
            &&& s.len() == t.dom().len()
            &&& s.len() > 0
            &&& s.last() == root
            &&& seq_ordered(t, s)
        }),
{
    let v0 = Set::<u32>::empty();
    let (s, v2) = post_order(t, root, v0);
    lemma_po_basic(t, root, v0);
    assert(s.to_set() =~= t.dom()) by {
        assert forall|k: u32| t.dom().contains(k) implies s.to_set().contains(k) by {
            lemma_po_complete(t, root, k);
        }
        assert forall|k: u32| s.to_set().contains(k) implies t.dom().contains(k) by {
            assert(s.contains(k));
        }
    }
    assert(s.len() == t.dom().len()) by {
        s.unique_seq_to_set();
    }
    lemma_po_ordered(t, root, v0, Seq::<u32>::empty());
    assert(Seq::<u32>::empty() + s =~= s);
}

/// The recursive worker behind `get_processes_in_dfs_order`: walks the
/// subtree at `pid` in post order, appending to `result` and extending the
/// visited set exactly as the `post_order` model says.
fn dfs_visit(
    tree: &HashMap<u32, ProcessNode>,
    pid: u32,
    visited: &mut HashSet<u32>,
    result: &mut Vec<u32>,
)
    requires
        old(visited)@.finite(),
    ensures
        final(result)@ == old(result)@ + post_order(tree@, pid, old(visited)@).0,
        final(visited)@ == post_order(tree@, pid, old(visited)@).1,
        final(visited)@.finite(),
    decreases tree@.dom().difference(old(visited)@).len(),
{
    let ghost v0 = visited@;
    let ghost r0 = result@;
    if visited.contains(&pid) {
        proof {
            assert(final(result)@ =~= r0 + post_order(tree@, pid, v0).0);
        }
        return ;
    }
    visited.insert(pid);
    let ghost v1 = visited@;
    proof {
        assert(v1 == v0.insert(pid));
    }
    match tree.get(&pid) {
        Some(node) => {
            let ghost kids = node.children@;
            proof {
                assert(kids == tree@[pid].children@);
                lemma_len_subset(tree@.dom().difference(v1), tree@.dom());
                lemma_len_subset(tree@.dom().difference(v0), tree@.dom());
                assert(tree@.dom().difference(v1) =~= tree@.dom().difference(v0).remove(pid));
                assert(tree@.dom().difference(v0).contains(pid));
                assert(post_order_kids(tree@, kids.take(0), v1) == (Seq::<u32>::empty(), v1));
                assert(result@ =~= r0 + Seq::<u32>::empty());
            }
            let n = node.children.len();
            let mut i: usize = 0;
            while i < n
                invariant
                    0 <= i <= n,
                    n == kids.len(),
                    node.children@ == kids,
                    tree@.contains_key(pid),
                    kids == tree@[pid].children@,
                    v0 == old(visited)@,
                    v0.finite(),
                    v1.finite(),
                    v1 == v0.insert(pid),
                    !v0.contains(pid),
                    visited@.finite(),
                    tree@.dom().difference(v1).len() < tree@.dom().difference(v0).len(),
                    result@ == r0 + post_order_kids(tree@, kids.take(i as int), v1).0,
                    visited@ == post_order_kids(tree@, kids.take(i as int), v1).1,
                decreases n - i,
            {
                proof {
                    lemma_po_kids_basic(tree@, kids.take(i as int), v1);
                    assert(v1.subset_of(visited@));
                    lemma_len_subset(tree@.dom().difference(v1), tree@.dom());
                    assert(tree@.dom().difference(visited@).subset_of(
                        tree@.dom().difference(v1),
                    ));
                    lemma_len_subset(
                        tree@.dom().difference(visited@),
                        tree@.dom().difference(v1),
                    );
                    assert(tree@.dom().difference(visited@).len() < tree@.dom().difference(
                        v0,
                    ).len());
                }
                let c = node.children[i];
                let ghost vm = visited@;
                let ghost rm = result@;
                dfs_visit(tree, c, visited, result);
                proof {
                    lemma_po_kids_snoc(tree@, kids.take(i as int), c, v1);
                    assert(kids.take(i + 1) =~= kids.take(i as int).push(c));
                    lemma_po_basic(tree@, c, vm);
                    assert(result@ =~= r0 + post_order_kids(tree@, kids.take(i + 1), v1).0);
                }
                i = i + 1;
            }
            result.push(pid);
            proof {
                assert(kids.take(n as int) =~= kids);
                let (sk, vk) = post_order_kids(tree@, kids, v1);
                assert(post_order(tree@, pid, v0) == (sk.push(pid), vk));
                assert(result@ =~= r0 + sk.push(pid));
            }
        },
        None => {
            proof {
                assert(post_order(tree@, pid, v0) == (Seq::<u32>::empty(), v1));
                assert(result@ =~= r0 + Seq::<u32>::empty());
            }
        },
    }
}

/// Lists the pids of the tree in post order starting at `root_pid`: all the
/// children a node is known to have come before the node, and the root comes
/// last. Pids are listed at most once, also when the children lists contain
/// cycles.
pub fn get_processes_in_dfs_order(
    process_tree: &HashMap<u32, ProcessNode>,
    root_pid: u32,
) -> (r: Vec<u32>)
    ensures
        r@ == post_order(process_tree@, root_pid, Set::<u32>::empty()).0,
        r@.no_duplicates(),
        forall|e: u32| #[trigger] r@.contains(e) ==> process_tree@.contains_key(e),
        process_tree@.contains_key(root_pid) ==> r@.len() > 0 && r@.last() == root_pid,
        tree_wf(process_tree@, root_pid) && depths_consistent(process_tree@) ==> {
            &&& r@.to_set() == process_tree@.dom()
            &&& r@.len() == process_tree@.dom().len()
            &&& r@.len() > 0
            &&& r@.last() == root_pid
            &&& seq_ordered(process_tree@, r@)
        },
{
    let mut visited: HashSet<u32> = HashSet::new();
    let mut result: Vec<u32> = Vec::new();
    proof {
        assert(visited@ =~= Set::<u32>::empty());
        lemma_po_basic(process_tree@, root_pid, Set::<u32>::empty());
    }
    dfs_visit(process_tree, root_pid, &mut visited, &mut result);
    proof {
        assert(result@ =~= Seq::<u32>::empty() + post_order(
            process_tree@,
            root_pid,
            Set::<u32>::empty(),
        ).0);
        if tree_wf(process_tree@, root_pid) && depths_consistent(process_tree@) {
            lemma_post_order_plan(process_tree@, root_pid);
        }
    }
    result
}

/// Lists every pid of the tree once, sorted by depth, deepest first: the
/// weaker of the two kill orders, in which no pid comes later than an
/// ancestor recorded at a strictly shallower level.
pub fn get_pids_by_depth(process_tree: &HashMap<u32, ProcessNode>) -> (r: Vec<u32>)
    ensures
        r@.no_duplicates(),
        r@.to_set() == process_tree@.dom(),
        r@.len() == process_tree@.dom().len(),
        forall|i: int, j: int|
            0 <= i <= j < r@.len() ==> process_tree@[#[trigger] r@[i]].depth >= process_tree@[#[trigger] r@[j]].depth,
{
    let ghost m = process_tree@;
    let mut pairs: Vec<(u32, usize)> = Vec::new();
    for kv in it: process_tree.iter()
        invariant
            pairs@.len() == it.index(),
            it.seq() == vstd::std_specs::hash::spec_hash_map_iter(process_tree).remaining(),
            m == process_tree@,
            forall|i: int|
                0 <= i < pairs@.len() ==> #[trigger] pairs@[i] == (
                    *it.seq()[i].0,
                    it.seq()[i].1.depth,
                ),
    {
        let (pid, node) = kv;
        pairs.push((*pid, node.depth));
    }
    proof {
        let vseq = vstd::std_specs::hash::spec_hash_map_iter(process_tree).remaining();
        assert(pairs@.len() == vseq.len());
        assert(pairs@.len() == m.dom().len());
        assert forall|i: int| 0 <= i < pairs@.len() implies m.contains_key(
            (#[trigger] pairs@[i]).0,
        ) && m[pairs@[i].0].depth == pairs@[i].1 by {
            assert(pairs@[i] == (*vseq[i].0, vseq[i].1.depth));
            assert(m.contains_key(*vseq[i].0) && m[*vseq[i].0] == *vseq[i].1);
        }
        assert forall|i: int, j: int|
            0 <= i < pairs@.len() && 0 <= j < pairs@.len() && i != j implies (
        #[trigger] pairs@[i]).0 != (#[trigger] pairs@[j]).0 by {
            assert(vseq.no_duplicates());
            if pairs@[i].0 == pairs@[j].0 {
                assert(m[*vseq[i].0] == *vseq[i].1 && m[*vseq[j].0] == *vseq[j].1);
                assert(vseq[i] == vseq[j]);
            }
        }
        assert forall|k: u32| #[trigger] m.contains_key(k) implies exists|i: int|
            0 <= i < pairs@.len() && (#[trigger] pairs@[i]).0 == k by {
            assert(vseq.contains((&k, &m[k])));
            let i = choose|i: int| 0 <= i < vseq.len() && vseq[i] == (&k, &m[k]);
            assert(pairs@[i].0 == k);
        }
    }

    // the deepest level that occurs anywhere
    let mut dmax: usize = 0;
    let mut i: usize = 0;
    while i < pairs.len()
        invariant
            0 <= i <= pairs@.len(),
            forall|j: int| 0 <= j < i ==> (#[trigger] pairs@[j]).1 <= dmax,
        decreases pairs@.len() - i,
    {
        if pairs[i].1 > dmax {
            dmax = pairs[i].1;
        }
        i = i + 1;
    }

    // emit level by level, deepest first
    let mut r: Vec<u32> = Vec::new();
    let mut d: usize = dmax;
    loop
        invariant_except_break
            m == process_tree@,
            0 <= d <= dmax,
            pairs@.len() == m.dom().len(),
            forall|j: int| 0 <= j < pairs@.len() ==> (#[trigger] pairs@[j]).1 <= dmax,
            forall|j: int|
                0 <= j < pairs@.len() ==> m.contains_key((#[trigger] pairs@[j]).0)
                    && m[pairs@[j].0].depth == pairs@[j].1,
            forall|j: int, l: int|
                0 <= j < pairs@.len() && 0 <= l < pairs@.len() && j != l ==> (
                #[trigger] pairs@[j]).0 != (#[trigger] pairs@[l]).0,
            forall|k: u32| #[trigger] m.contains_key(k) ==> exists|j: int|
                0 <= j < pairs@.len() && (#[trigger] pairs@[j]).0 == k,
            r@.no_duplicates(),
            forall|j: int|
                0 <= j < r@.len() ==> m.contains_key(#[trigger] r@[j]) && m[r@[j]].depth > d,
            forall|k: u32| m.contains_key(k) && m[k].depth > d ==> r@.contains(k),
            forall|j: int, l: int|
                0 <= j <= l < r@.len() ==> m[#[trigger] r@[j]].depth >= m[#[trigger] r@[l]].depth,
        ensures
            m == process_tree@,
            r@.no_duplicates(),
            forall|j: int| 0 <= j < r@.len() ==> m.contains_key(#[trigger] r@[j]),
            forall|k: u32| #[trigger] m.contains_key(k) ==> r@.contains(k),
            forall|j: int, l: int|
                0 <= j <= l < r@.len() ==> m[#[trigger] r@[j]].depth >= m[#[trigger] r@[l]].depth,
        decreases d,
    {
        let mut p: usize = 0;
        while p < pairs.len()
            invariant
                m == process_tree@,
                pairs@.len() == m.dom().len(),
                0 <= p <= pairs@.len(),
                forall|j: int|
                    0 <= j < pairs@.len() ==> m.contains_key((#[trigger] pairs@[j]).0)
                        && m[pairs@[j].0].depth == pairs@[j].1,
                forall|j: int, l: int|
                    0 <= j < pairs@.len() && 0 <= l < pairs@.len() && j != l ==> (
                    #[trigger] pairs@[j]).0 != (#[trigger] pairs@[l]).0,
                r@.no_duplicates(),
                forall|j: int|
                    0 <= j < r@.len() ==> m.contains_key(#[trigger] r@[j]) && (m[r@[j]].depth > d
                        || m[r@[j]].depth == d),
                forall|j: int|
                    0 <= j < r@.len() && m[#[trigger] r@[j]].depth == d ==> exists|l: int|
                        0 <= l < p && (#[trigger] pairs@[l]).0 == r@[j],
                forall|k: u32| m.contains_key(k) && m[k].depth > d ==> r@.contains(k),
                forall|l: int|
                    0 <= l < p && (#[trigger] pairs@[l]).1 == d ==> r@.contains(pairs@[l].0),
                forall|j: int, l: int|
                    0 <= j <= l < r@.len() ==> m[#[trigger] r@[j]].depth >= m[#[trigger] r@[l]].depth,
            decreases pairs@.len() - p,
        {
            let (pid, dep) = pairs[p];
            if dep == d {
                let ghost r0 = r@;
                proof {
                    assert(!r0.contains(pid)) by {
                        if r0.contains(pid) {
                            let j = choose|j: int| 0 <= j < r0.len() && r0[j] == pid;
                            assert(m[r0[j]].depth == d);
                            let l = choose|l: int| 0 <= l < p && (#[trigger] pairs@[l]).0 == r0[j];
                            assert(pairs@[l].0 == pairs@[p as int].0);
                        }
                    }
                }
                r.push(pid);
                proof {
                    assert forall|j: int|
                        0 <= j < r@.len() && m[#[trigger] r@[j]].depth == d implies exists|l: int|
                        0 <= l < p + 1 && (#[trigger] pairs@[l]).0 == r@[j] by {
                        if j < r0.len() {
                            assert(r@[j] == r0[j]);
                            let l = choose|l: int| 0 <= l < p && (#[trigger] pairs@[l]).0 == r0[j];
                            assert(pairs@[l].0 == r@[j]);
                        } else {
                            assert(r@[j] == pid);
                            assert(pairs@[p as int].0 == pid);
                        }
                    }
                    assert forall|k: u32| m.contains_key(k) && m[k].depth > d implies r@.contains(
                        k,
                    ) by {
                        assert(r0.contains(k));
                        let j = choose|j: int| 0 <= j < r0.len() && r0[j] == k;
                        assert(r@[j] == k);
                    }
                    assert forall|l: int|
                        0 <= l < p + 1 && (#[trigger] pairs@[l]).1 == d implies r@.contains(
                        pairs@[l].0,
                    ) by {
                        if l < p {
                            assert(r0.contains(pairs@[l].0));
                            let j = choose|j: int| 0 <= j < r0.len() && r0[j] == pairs@[l].0;
                            assert(r@[j] == pairs@[l].0);
                        } else {
                            assert(r@[r0.len() as int] == pid);
                        }
                    }
                }
            }
            p = p + 1;
        }
        proof {
            assert forall|k: u32| m.contains_key(k) && m[k].depth >= d implies r@.contains(
                k,
            ) by {
                if m[k].depth == d {
                    let l = choose|l: int| 0 <= l < pairs@.len() && (#[trigger] pairs@[l]).0 == k;
                    assert(pairs@[l].1 == d);
                }
            }
        }
        if d == 0 {
            proof {
                assert forall|k: u32| #[trigger] m.contains_key(k) implies r@.contains(k) by {
                    assert(m[k].depth >= 0);
                }
            }
            break ;
        }
        d = d - 1;
    }
    proof {
        assert(r@.to_set() =~= m.dom()) by {
            assert forall|k: u32| r@.to_set().contains(k) implies m.dom().contains(k) by {
                assert(r@.contains(k));
            }
            assert forall|k: u32| m.dom().contains(k) implies r@.to_set().contains(k) by {
                assert(r@.contains(k));
            }
        }
        r@.unique_seq_to_set();
    }
    r
}

} // verus!
