//! The two-phase escalation protocol.
//!
//! On guardian death each target root is first addressed with one group-kill
//! attempt; targets whose group attempt fails fall back to individual
//! signalling: a fresh tree walk, a post-order kill plan, and one signal per
//! still-alive pid. The pids gathered in the graceful phase are kept in a
//! `KillList` that the forced phase only extends, never truncates, so a pid
//! discovered before the grace period is still addressed after it.

use vstd::prelude::*;

use crate::order::get_processes_in_dfs_order;
use crate::platform::is_process_alive;
use crate::platform::parent_pid_of_self;
use crate::platform::signal_process_raw;
use crate::tree::build_process_tree;

verus! {

/// Merging `b` into `a`: the pids of `b` not yet in `a`, in order of first
/// occurrence, appended to `a`.
pub open spec fn merge_seq(a: Seq<u32>, b: Seq<u32>) -> Seq<u32>
    decreases b.len(),
{
    if b.len() == 0 {
        a
    } else {
        let a1 = if a.contains(b[0]) {
            a
        } else {
            a.push(b[0])
        };
        merge_seq(a1, b.drop_first())
    }
}

/// What a merge holds: everything from either side and nothing else, the
/// left side untouched at the front, and no pid twice if the left side had
/// no pid twice.
pub proof fn lemma_merge_seq(a: Seq<u32>, b: Seq<u32>)
    ensures
        a.is_prefix_of(merge_seq(a, b)),
        forall|p: u32|
            #[trigger] merge_seq(a, b).contains(p) <==> a.contains(p) || b.contains(p),
        a.no_duplicates() ==> merge_seq(a, b).no_duplicates(),
    decreases b.len(),
{
    if b.len() == 0 {
        assert(a.is_prefix_of(a)) by {
            assert(a =~= a.subrange(0, a.len() as int));
        }
    } else {
        let b0 = b[0];
        let a1 = if a.contains(b0) {
            a
        } else {
            a.push(b0)
        };
        assert(a.is_prefix_of(a1)) by {
            assert(a =~= a1.subrange(0, a.len() as int));
        }
        if !a.contains(b0) {
            assert(a.no_duplicates() ==> a1.no_duplicates()) by {
                if a.no_duplicates() {
                    assert forall|i: int, j: int|
                        0 <= i < a1.len() && 0 <= j < a1.len() && i != j implies a1[i] != a1[j] by {
                        if i < a.len() && j < a.len() {
                        } else if i < a.len() {
                            assert(a1[j] == b0 && a1[i] == a[i]);
                            assert(a.contains(a[i]));
                        } else if j < a.len() {
                            assert(a1[i] == b0 && a1[j] == a[j]);
                            assert(a.contains(a[j]));
                        }
                    }
                }
            }
        }
        lemma_merge_seq(a1, b.drop_first());
        assert(a.is_prefix_of(merge_seq(a, b))) by {
            let m = merge_seq(a, b);
            assert(a1.is_prefix_of(m));
            assert(a1 =~= m.subrange(0, a1.len() as int));
            assert forall|i: int| 0 <= i < a.len() implies a[i] == m[i] by {
                assert(a1[i] == m.subrange(0, a1.len() as int)[i]);
            }
            assert(a =~= m.subrange(0, a.len() as int));
        }
        assert forall|p: u32| #[trigger] merge_seq(a, b).contains(p) implies a.contains(p)
            || b.contains(p) by {
            if a1.contains(p) || b.drop_first().contains(p) {
                if !a.contains(p) && !b.contains(p) {
                    if a1.contains(p) {
                        let i = choose|i: int| 0 <= i < a1.len() && a1[i] == p;
                        if i < a.len() {
                            assert(a.contains(p));
                        } else {
                            assert(p == b0);
                            assert(b.contains(b0));
                        }
                    } else {
                        let i = choose|i: int|
                            0 <= i < b.drop_first().len() && b.drop_first()[i] == p;
                        assert(b[i + 1] == p);
                    }
                }
            }
        }
        assert forall|p: u32| a.contains(p) || b.contains(p) implies #[trigger] merge_seq(
            a,
            b,
        ).contains(p) by {
            if a.contains(p) {
                let i = choose|i: int| 0 <= i < a.len() && a[i] == p;
                assert(a1[i] == p);
                assert(a1.contains(p));
            } else {
                let i = choose|i: int| 0 <= i < b.len() && b[i] == p;
                if i == 0 {
                    if a.contains(b0) {
                        assert(a1.contains(p));
                    } else {
                        assert(a1[a.len() as int] == b0);
                        assert(a1.contains(p));
                    }
                } else {
                    assert(b.drop_first()[i - 1] == p);
                    assert(b.drop_first().contains(p));
                }
            }
        }
    }
}

/// Merging one more pid extends the merge by that pid, unless it is already
/// present.
pub proof fn lemma_merge_seq_snoc(a: Seq<u32>, b: Seq<u32>, c: u32)
    ensures
        merge_seq(a, b.push(c)) == (if merge_seq(a, b).contains(c) {
            merge_seq(a, b)
        } else {
            merge_seq(a, b).push(c)
        }),
    decreases b.len(),
{
    if b.len() == 0 {
        let bc = b.push(c);
        assert(bc[0] == c);
        assert(bc.drop_first() =~= Seq::<u32>::empty());
        let a1 = if a.contains(c) {
            a
        } else {
            a.push(c)
        };
        assert(merge_seq(a1, bc.drop_first()) == a1);
        assert(merge_seq(a, bc) == merge_seq(a1, bc.drop_first()));
        assert(merge_seq(a, b) == a);
    } else {
        let b0 = b[0];
        assert(b.push(c)[0] == b0);
        let a1 = if a.contains(b0) {
            a
        } else {
            a.push(b0)
        };
        assert(b.push(c).drop_first() =~= b.drop_first().push(c));
        lemma_merge_seq_snoc(a1, b.drop_first(), c);
        assert(merge_seq(a, b.push(c)) == merge_seq(a1, b.drop_first().push(c)));
        assert(merge_seq(a, b) == merge_seq(a1, b.drop_first()));
    }
}

/// The accumulating, order-preserving list of pids slated for individual
/// signalling. Pids are kept in discovery order without duplicates; merging
/// new discoveries never removes or reorders what is already there, so a pid
/// found in the graceful phase is still present in the forced phase.
pub struct KillList {
    pids: Vec<u32>,
}

impl View for KillList {
    type V = Seq<u32>;

    closed spec fn view(&self) -> Seq<u32> {
        self.pids@
    }
}

impl KillList {
    /// An empty kill list.
    pub fn new() -> (r: KillList)
        ensures
            r@ =~= Seq::<u32>::empty(),
    {
        KillList { pids: Vec::new() }
    }

    /// How many pids are slated.
    pub fn len(&self) -> (n: usize)
        ensures
            n == self@.len(),
    {
        self.pids.len()
    }

    /// The slated pids, in discovery order.
    pub fn as_slice(&self) -> (r: &[u32])
        ensures
            r@ == self@,
    {
        self.pids.as_slice()
    }

    /// Whether `pid` is already slated.
    pub fn contains(&self, pid: u32) -> (r: bool)
        ensures
            r == self@.contains(pid),
    {
        self.contains_inner(pid)
    }

    /// Merges newly discovered pids into the list: each pid of `order` not
    /// yet present is appended, in order; everything already present stays,
    /// in place. No pid is ever dropped between escalation phases.
    pub fn extend_with(&mut self, order: &Vec<u32>)
        ensures
            final(self)@ == merge_seq(old(self)@, order@),
            old(self)@.is_prefix_of(final(self)@),
            forall|p: u32| #[trigger] final(self)@.contains(p) <==> old(self)@.contains(p)
                || order@.contains(p),
            old(self)@.no_duplicates() ==> final(self)@.no_duplicates(),
    {
        let ghost a0 = self.pids@;
        let n = order.len();
        let mut i: usize = 0;
        proof {
            assert(order@.take(0) =~= Seq::<u32>::empty());
        }
        while i < n
            invariant
                0 <= i <= n,
                n == order@.len(),
                self.pids@ == merge_seq(a0, order@.take(i as int)),
            decreases n - i,
        {
            let p = order[i];
            if !self.contains_inner(p) {
                self.pids.push(p);
            }
            proof {
                lemma_merge_seq_snoc(a0, order@.take(i as int), p);
                assert(order@.take(i + 1) =~= order@.take(i as int).push(p));
            }
            i = i + 1;
        }
        proof {
            assert(order@.take(n as int) =~= order@);
            lemma_merge_seq(a0, order@);
        }
    }

    /// Whether `pid` is present; private worker shared by `contains` so that
    /// `extend_with` can call it on a partially updated list.
    fn contains_inner(&self, pid: u32) -> (r: bool)
        ensures
            r == self.pids@.contains(pid),
    {
        let n = self.pids.len();
        let mut i: usize = 0;
        while i < n
            invariant
                0 <= i <= n,
                n == self.pids@.len(),
                forall|j: int| 0 <= j < i ==> self.pids@[j] != pid,
            decreases n - i,
        {
            if self.pids[i] == pid {
                assert(self.pids@[i as int] == pid);
                return true;
            }
            i = i + 1;
        }
        assert(!self.pids@.contains(pid));
        false
    }
}

/// The pid of the guardian to watch: the explicitly configured one if any,
/// else this process's own parent.
pub fn get_dog_pid(dog_arg: Option<u32>) -> (pid: u32)
    ensures
        dog_arg matches Some(p) ==> pid == p,
{
    match dog_arg {
        Some(p) => p,
        None => parent_pid_of_self(),
    }
}

/// Sends the graceful (or, with `force`, the forced) signal to each listed
/// pid that is still alive at send time: liveness is re-checked immediately
/// before each signal, and no delivery failure stops the sweep. A pid too
/// large for the OS signal interface cannot name a real process and is
/// skipped.
pub fn send_signal_to_pids(pids: &[u32], force: bool) {
    let n = pids.len();
    let mut i: usize = 0;
    while i < n
        invariant
            0 <= i <= n,
            n == pids@.len(),
        decreases n - i,
    {
        let pid = pids[i];
        if pid <= i32::MAX as u32 && is_process_alive(pid) {
            signal_process_raw(pid as i32, force);
        }
        i = i + 1;
    }
}

/// One group-kill attempt: asks the OS to signal the whole process group
/// whose id is `root_pid`. Reports failure when the OS refuses, and also for
/// ids that name no addressable group (0, or beyond the signal interface's
/// range), so the caller falls back to individual signalling.
pub fn kill_process_group(root_pid: u32, force: bool) -> (ok: bool)
    ensures
        root_pid == 0 || root_pid > i32::MAX as u32 ==> !ok,
{
    if root_pid == 0 || root_pid > (i32::MAX as u32) {
        return false;
    }
    let pgid: i32 = -(root_pid as i32);
    signal_process_raw(pgid, force)
}

/// The graceful phase: one graceful group-kill attempt per target; for every
/// target whose group attempt failed, a fresh tree walk and a post-order
/// kill plan, merged across targets without duplicates; then one graceful
/// signal per still-alive pid on the list. Returns the kill list so the
/// forced phase can extend it.
pub fn escalate_graceful(targets: &Vec<u32>) -> (kill_list: KillList)
    ensures
        kill_list@.no_duplicates(),
{
    let mut kill_list = KillList::new();
    let mut fallback: Vec<u32> = Vec::new();
    let n = targets.len();
    let mut i: usize = 0;
    while i < n
        invariant
            0 <= i <= n,
            n == targets@.len(),
        decreases n - i,
    {
        let t = targets[i];
        if !kill_process_group(t, false) {
            fallback.push(t);
        }
        i = i + 1;
    }
    let m = fallback.len();
    let mut j: usize = 0;
    while j < m
        invariant
            0 <= j <= m,
            m == fallback@.len(),
            kill_list@.no_duplicates(),
        decreases m - j,
    {
        let root = fallback[j];
        let tree = build_process_tree(root);
        let order = get_processes_in_dfs_order(&tree, root);
        kill_list.extend_with(&order);
        j = j + 1;
    }
    send_signal_to_pids(kill_list.as_slice(), false);
    kill_list
}

/// The forced phase, run after the grace period: one forced group-kill
/// attempt per target regardless of the graceful outcome; for targets whose
/// group attempt failed, a rebuilt tree walk whose pids are merged into the
/// kill list — every pid gathered in the graceful phase is still there —
/// and one forced signal per still-alive pid on the merged list.
pub fn escalate_forced(targets: &Vec<u32>, kill_list: &mut KillList)
    ensures
        old(kill_list)@.is_prefix_of(final(kill_list)@),
        old(kill_list)@.no_duplicates() ==> final(kill_list)@.no_duplicates(),
{
    let mut fallback: Vec<u32> = Vec::new();
    let n = targets.len();
    let mut i: usize = 0;
    while i < n
        invariant
            0 <= i <= n,
            n == targets@.len(),
        decreases n - i,
    {
        let t = targets[i];
        if !kill_process_group(t, true) {
            fallback.push(t);
        }
        i = i + 1;
    }
    let m = fallback.len();
    let mut j: usize = 0;
    proof {
        assert(old(kill_list)@.is_prefix_of(kill_list@)) by {
            assert(old(kill_list)@ =~= kill_list@.subrange(0, old(kill_list)@.len() as int));
        }
    }
    while j < m
        invariant
            0 <= j <= m,
            m == fallback@.len(),
            old(kill_list)@.no_duplicates() ==> kill_list@.no_duplicates(),
            old(kill_list)@.is_prefix_of(kill_list@),
        decreases m - j,
    {
        let root = fallback[j];
        let tree = build_process_tree(root);
        let order = get_processes_in_dfs_order(&tree, root);
        let ghost before = kill_list@;
        kill_list.extend_with(&order);
        proof {
            assert(old(kill_list)@.is_prefix_of(kill_list@)) by {
                assert(before =~= kill_list@.subrange(0, before.len() as int));
                assert forall|x: int| 0 <= x < old(kill_list)@.len() implies old(kill_list)@[x]
                    == kill_list@[x] by {
                    assert(old(kill_list)@[x] == before[x]);
                }
                assert(old(kill_list)@ =~= kill_list@.subrange(0, old(kill_list)@.len() as int));
            }
        }
        j = j + 1;
    }
    send_signal_to_pids(kill_list.as_slice(), true);
}

} // verus!
