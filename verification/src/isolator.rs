//! Containment planning: which processes to signal, in which order, and
//! which firewall rules to install for a containment action.

use vstd::prelude::*;
use crate::drs::{ActionView, ContainmentAction};
use crate::sensor::process::{status_field, status_value};
use crate::text::{decimal, decimal_string};

verus! {

/// Whether no PID occurs twice in a process table of `(pid, ppid)` pairs.
pub open spec fn pids_distinct(procs: Seq<(u32, u32)>) -> bool {
    forall|a: int, b: int|
        0 <= a < procs.len() && 0 <= b < procs.len() && a != b ==> procs[a].0 != procs[b].0
}

/// Whether `r[k]` is listed in `procs` under `root` or under a process that
/// comes before it in `r`.
pub open spec fn listed_after_parent(procs: Seq<(u32, u32)>, root: u32, r: Seq<u32>, k: int) -> bool {
    exists|j: int|
        0 <= j < procs.len() && procs[j].0 == r[k] && (procs[j].1 == root || r.take(k).contains(
            procs[j].1,
        ))
}

/// Whether `r` lists exactly the descendants of `root` in `procs`, each once,
/// every process after its parent, and `root` itself not at all.
pub open spec fn descendants_in_order(procs: Seq<(u32, u32)>, root: u32, r: Seq<u32>) -> bool {
    &&& r.no_duplicates()
    &&& !r.contains(root)
    &&& forall|k: int| 0 <= k < r.len() ==> #[trigger] listed_after_parent(procs, root, r, k)
    &&& forall|j: int|
        0 <= j < procs.len() && procs[j].0 != root && (procs[j].1 == root || r.contains(
            #[trigger] procs[j].1,
        )) ==> r.contains(procs[j].0)
}

/// Whether `par` gives, for each process `r[k]`, the position of its parent in
/// `root` followed by `r` (0 for `root`, `m + 1` for `r[m]`), each parent
/// listed before its child and the parents' positions never going back: `r`
/// lists the children of `root`, then those of `r[0]`, then those of `r[1]`,
/// and so on.
pub open spec fn bfs_parents(procs: Seq<(u32, u32)>, root: u32, r: Seq<u32>, par: Seq<int>) -> bool {
    &&& par.len() == r.len()
    &&& forall|k: int| 0 <= k < r.len() ==> 0 <= #[trigger] par[k] <= k
    &&& forall|a: int, b: int| 0 <= a <= b < r.len() ==> #[trigger] par[a] <= #[trigger] par[b]
    &&& forall|k: int| 0 <= k < r.len() ==> #[trigger] parent_at(procs, root, r, par, k)
}

/// Whether `procs` lists `r[k]` under the process at position `par[k]` of
/// `root` followed by `r`.
pub open spec fn parent_at(procs: Seq<(u32, u32)>, root: u32, r: Seq<u32>, par: Seq<int>, k: int) -> bool {
    exists|j: int|
        0 <= j < procs.len() && procs[j].0 == r[k] && procs[j].1 == (seq![root] + r)[par[k]]
}

/// Whether `r` is in breadth-first order from `root`: processes are listed
/// parent by parent, the parents taken in the order they were listed.
pub open spec fn breadth_first(procs: Seq<(u32, u32)>, root: u32, r: Seq<u32>) -> bool {
    exists|par: Seq<int>| bfs_parents(procs, root, r, par)
}

/// The depth of `r[k]` below the root under the parent positions `par`
/// (1 for a child of the root): the number of parent steps up to the root.
pub open spec fn bfs_depth(par: Seq<int>, k: int) -> nat
    decreases k,
{
    if k < 0 || k >= par.len() || par[k] <= 0 || par[k] > k {
        1
    } else {
        bfs_depth(par, par[k] - 1) + 1
    }
}

/// A breadth-first list goes down the tree level by level: a process listed
/// later is never shallower than one listed earlier.
pub proof fn lemma_breadth_first_levels(
    procs: Seq<(u32, u32)>,
    root: u32,
    r: Seq<u32>,
    par: Seq<int>,
    a: int,
    b: int,
)
    requires
        bfs_parents(procs, root, r, par),
        0 <= a <= b < r.len(),
    ensures
        bfs_depth(par, a) <= bfs_depth(par, b),
    decreases b,
{
    assert(par[a] <= par[b]);
    assert(0 <= par[a] <= a && 0 <= par[b] <= b);
    if par[a] > 0 {
        lemma_breadth_first_levels(procs, root, r, par, par[a] - 1, par[b] - 1);
    }
}

proof fn lemma_distinct_indices_bound(w: Seq<int>, n: int)
    requires
        w.no_duplicates(),
        n >= 0,
        forall|k: int| 0 <= k < w.len() ==> 0 <= #[trigger] w[k] < n,
    ensures
        w.len() <= n,
{
    w.unique_seq_to_set();
    vstd::set_lib::lemma_int_range(0, n);
    assert(w.to_set().subset_of(vstd::set_lib::set_int_range(0, n)));
    vstd::set_lib::lemma_len_subset(w.to_set(), vstd::set_lib::set_int_range(0, n));
}

/// All descendants of `root` in the process table `procs` (`(pid, ppid)`
/// pairs, as `/proc` lists them), found by a breadth-first walk of the tree
/// from `root`: each descendant once, after its parent, and `root` itself
/// never.
pub fn find_all_children(root: u32, procs: &Vec<(u32, u32)>) -> (r: Vec<u32>)
    requires
        pids_distinct(procs@),
    ensures
        descendants_in_order(procs@, root, r@),
        breadth_first(procs@, root, r@),
{
    let n = procs.len();
    let mut result: Vec<u32> = Vec::new();
    let mut queue: Vec<u32> = Vec::new();
    queue.push(root);
    let ghost mut expanded: Set<u32> = Set::empty();
    assert forall|x: u32| queue@.contains(x) <==> x == root by {
        if x == root {
            assert(queue@[0] == x);
        }
    }
    let ghost mut where_: Seq<int> = Seq::empty();
    let ghost mut par: Seq<int> = Seq::empty();
    let ghost mut h: int = 0;
    assert(queue@ =~= (seq![root] + result@).skip(h));
    while queue.len() > 0
        invariant
            0 <= h <= result@.len() + 1,
            queue@ == (seq![root] + result@).skip(h),
            par.len() == result@.len(),
            forall|k: int| 0 <= k < par.len() ==> 0 <= #[trigger] par[k] <= k && par[k] < h,
            forall|a: int, b: int|
                0 <= a <= b < par.len() ==> #[trigger] par[a] <= #[trigger] par[b],
            forall|k: int|
                0 <= k < par.len() ==> (seq![root] + result@)[#[trigger] par[k]]
                    == procs@[where_[k]].1,
            pids_distinct(procs@),
            n == procs.len(),
            result@.no_duplicates(),
            !result@.contains(root),
            where_.len() == result@.len(),
            forall|k: int|
                0 <= k < where_.len() ==> 0 <= #[trigger] where_[k] < n && procs@[where_[k]].0
                    == result@[k] && expanded.contains(procs@[where_[k]].1),
            forall|k: int| 0 <= k < result@.len() ==> #[trigger] listed_after_parent(procs@, root, result@, k),
            queue@.no_duplicates(),
            forall|x: u32| #[trigger] queue@.contains(x) ==> !expanded.contains(x),
            forall|x: u32|
                #![trigger queue@.contains(x)]
                #![trigger expanded.contains(x)]
                (queue@.contains(x) || expanded.contains(x)) <==> (x == root || result@.contains(x)),
            forall|j: int|
                0 <= j < n && procs@[j].0 != root && #[trigger] expanded.contains(procs@[j].1)
                    ==> result@.contains(procs@[j].0),
            result@.len() <= n,
        decreases 2 * (n - result@.len()) + queue@.len(),
    {
        let ghost qold = queue@;
        let parent = queue.remove(0);
        assert(qold[0] == parent);
        assert(qold.contains(parent));
        assert(queue@ =~= qold.drop_first());
        let ghost hp = h;
        assert((seq![root] + result@)[hp] == parent);
        proof {
            h = h + 1;
        }
        assert(queue@ =~= (seq![root] + result@).skip(h));
        assert forall|x: u32| #[trigger] queue@.contains(x) implies qold.contains(x) && x != parent by {
            let m = choose|m: int| 0 <= m < queue@.len() && queue@[m] == x;
            assert(qold[m + 1] == x);
        }
        assert forall|x: u32| #[trigger] qold.contains(x) implies queue@.contains(x) || x == parent by {
            let m = choose|m: int| 0 <= m < qold.len() && qold[m] == x;
            if m > 0 {
                assert(queue@[m - 1] == x);
            }
        }
        let ghost p0 = par;
        let ghost e0 = expanded;
        let ghost r0 = result@;
        let ghost q0 = queue@;
        let ghost w0 = where_;
        assert(!e0.contains(parent));
        assert(parent == root || r0.contains(parent));
        proof {
            expanded = expanded.insert(parent);
        }
        assert forall|x: u32|
            #![trigger q0.contains(x)]
            #![trigger e0.contains(x)]
            #![trigger r0.contains(x)]
            (q0.contains(x) || e0.contains(x) || x == parent) <==> (x == root || r0.contains(x)) by {
            if q0.contains(x) {
                assert(qold.contains(x));
            }
            if x == parent {
                assert(qold.contains(x));
            }
            if qold.contains(x) {
            }
        }
        let mut j: usize = 0;
        while j < n
            invariant
                h == hp + 1,
                0 <= hp <= r0.len(),
                (seq![root] + r0)[hp] == parent,
                q0 == (seq![root] + r0).skip(h),
                p0.len() == r0.len(),
                forall|k: int| 0 <= k < p0.len() ==> 0 <= #[trigger] p0[k] <= k && p0[k] < hp,
                forall|a: int, b: int|
                    0 <= a <= b < p0.len() ==> #[trigger] p0[a] <= #[trigger] p0[b],
                forall|k: int|
                    0 <= k < p0.len() ==> (seq![root] + r0)[#[trigger] p0[k]] == procs@[w0[k]].1,
                par.len() == result@.len(),
                par.take(r0.len() as int) == p0,
                forall|k: int| r0.len() <= k < par.len() ==> #[trigger] par[k] == hp,
                pids_distinct(procs@),
                n == procs.len(),
                j <= n,
                expanded == e0.insert(parent),
                !e0.contains(parent),
                parent == root || r0.contains(parent),
                r0.no_duplicates(),
                !r0.contains(root),
                w0.len() == r0.len(),
                forall|k: int|
                    0 <= k < w0.len() ==> 0 <= #[trigger] w0[k] < n && procs@[w0[k]].0 == r0[k]
                        && e0.contains(procs@[w0[k]].1),
                forall|k: int| 0 <= k < r0.len() ==> #[trigger] listed_after_parent(procs@, root, r0, k),
                q0.no_duplicates(),
                forall|x: u32| #[trigger] q0.contains(x) ==> !e0.contains(x) && x != parent,
                forall|x: u32|
                    #![trigger q0.contains(x)]
                    #![trigger e0.contains(x)]
                    #![trigger r0.contains(x)]
                    (q0.contains(x) || e0.contains(x) || x == parent) <==> (x == root
                        || r0.contains(x)),
                forall|i: int|
                    0 <= i < n && procs@[i].0 != root && #[trigger] e0.contains(procs@[i].1)
                        ==> r0.contains(procs@[i].0),
                where_.len() == result@.len(),
                result@.no_duplicates(),
                result@.len() >= r0.len(),
                result@.take(r0.len() as int) == r0,
                queue@ == q0 + result@.skip(r0.len() as int),
                where_.take(r0.len() as int) == w0,
                forall|k: int|
                    0 <= k < where_.len() ==> 0 <= #[trigger] where_[k] < n && procs@[where_[k]].0
                        == result@[k],
                forall|k: int|
                    r0.len() <= k < where_.len() ==> #[trigger] where_[k] < j && procs@[where_[k]].1
                        == parent && procs@[where_[k]].0 != root,
                forall|a: int, b: int|
                    r0.len() <= a < b < where_.len() ==> #[trigger] where_[a] < #[trigger] where_[b],
                forall|i: int|
                    0 <= i < j && procs@[i].1 == parent && procs@[i].0 != root
                        ==> #[trigger] result@.contains(procs@[i].0),
            decreases n - j,
        {
            let pid = procs[j].0;
            let ppid = procs[j].1;
            let ghost rprev = result@;
            if ppid == parent && pid != root {
                let ghost rb = result@;
                let ghost qb = queue@;
                proof {
                    assert(!rb.contains(pid)) by {
                        if rb.contains(pid) {
                            let k = choose|k: int| 0 <= k < rb.len() && rb[k] == pid;
                            if k < r0.len() {
                                assert(rb[k] == r0[k]);
                                assert(procs@[w0[k]].0 == pid);
                                assert(w0[k] == where_[k]);
                                assert(where_[k] == j) by {
                                    if where_[k] != j {
                                        assert(procs@[where_[k]].0 != procs@[j as int].0);
                                    }
                                }
                            } else {
                                assert(where_[k] < j);
                                assert(procs@[where_[k]].0 != procs@[j as int].0);
                            }
                        }
                    }
                }
                result.push(pid);
                queue.push(pid);
                proof {
                    par = par.push(hp);
                    assert(par.take(r0.len() as int) =~= p0);
                    where_ = where_.push(j as int);
                    assert(result@.take(r0.len() as int) =~= r0);
                    assert(result@.skip(r0.len() as int) =~= rb.skip(r0.len() as int).push(pid));
                    assert(where_.take(r0.len() as int) =~= w0);
                    assert(result@.no_duplicates()) by {
                        assert forall|a: int, b: int|
                            0 <= a < result@.len() && 0 <= b < result@.len() && a != b implies result@[a]
                            != result@[b] by {
                            if a == rb.len() {
                                assert(rb.contains(result@[b]) ==> result@[b] != pid);
                                assert(result@[b] == rb[b]);
                            } else if b == rb.len() {
                                assert(result@[a] == rb[a]);
                            } else {
                                assert(result@[a] == rb[a] && result@[b] == rb[b]);
                                assert(where_[a] != where_[b] ==> true);
                                if a < r0.len() && b < r0.len() {
                                    assert(r0[a] != r0[b]);
                                } else {
                                    assert(where_[a] != where_[b]) by {
                                        if a >= r0.len() && b >= r0.len() {
                                        } else if a < r0.len() {
                                            assert(where_.take(r0.len() as int)[a] == where_[a]);
                                            assert(e0.contains(procs@[where_[a]].1));
                                        } else {
                                            assert(where_.take(r0.len() as int)[b] == where_[b]);
                                            assert(e0.contains(procs@[where_[b]].1));
                                        }
                                    }
                                    assert(procs@[where_[a]].0 != procs@[where_[b]].0);
                                }
                            }
                        }
                    }
                }
            }
            proof {
                assert forall|i: int|
                    0 <= i < j + 1 && procs@[i].1 == parent && procs@[i].0 != root
                        implies #[trigger] result@.contains(procs@[i].0) by {
                    if i < j {
                        assert(rprev.contains(procs@[i].0));
                        let m = choose|m: int| 0 <= m < rprev.len() && rprev[m] == procs@[i].0;
                        assert(result@[m] == procs@[i].0);
                    } else {
                        assert(result@[result@.len() - 1] == procs@[i].0);
                    }
                }
            }
            j = j + 1;
        }
        proof {
            assert forall|k: int| 0 <= k < par.len() implies 0 <= #[trigger] par[k] <= k && par[k]
                < h by {
                if k < r0.len() {
                    assert(par[k] == par.take(r0.len() as int)[k]);
                }
            }
            assert forall|k: int| 0 <= k < par.len() implies (seq![root] + result@)[
                #[trigger] par[k]] == procs@[where_[k]].1 by {
                if k < r0.len() {
                    assert(par[k] == par.take(r0.len() as int)[k]);
                    assert(where_[k] == where_.take(r0.len() as int)[k]);
                    assert(p0[k] == 0 || result@[p0[k] - 1] == r0[p0[k] - 1]);
                } else {
                    assert((seq![root] + result@)[hp] == (seq![root] + r0)[hp]) by {
                        if hp > 0 {
                            assert(result@[hp - 1] == r0[hp - 1]);
                        }
                    }
                }
            }
            assert forall|a: int, b: int| 0 <= a <= b < par.len() implies #[trigger] par[a]
                <= #[trigger] par[b] by {
                if a < r0.len() {
                    assert(par[a] == par.take(r0.len() as int)[a]);
                }
                if b < r0.len() {
                    assert(par[b] == par.take(r0.len() as int)[b]);
                }
            }
            let r = result@;
            assert(queue@.len() == q0.len() + result@.len() - r0.len());
            assert forall|m: int| q0.len() <= m < queue@.len() implies #[trigger] queue@[m]
                == result@[m - q0.len() + r0.len()] by {
                assert(queue@[m] == result@.skip(r0.len() as int)[m - q0.len()]);
            }
            assert forall|k: int| 0 <= k < r.len() implies #[trigger] r[k] != root by {
                if k < r0.len() {
                    assert(r[k] == r0[k]);
                } else {
                    assert(procs@[where_[k]].0 == r[k]);
                }
            }
            assert(!r.contains(root));
            assert forall|k: int| 0 <= k < r.len() implies #[trigger] listed_after_parent(procs@, root, r, k) by {
                if k < r0.len() {
                    assert(listed_after_parent(procs@, root, r0, k));
                    let jj = choose|jj: int|
                        0 <= jj < procs@.len() && procs@[jj].0 == r0[k] && (procs@[jj].1 == root
                            || r0.take(k).contains(procs@[jj].1));
                    assert(r.take(k) =~= r0.take(k));
                    assert(r[k] == r0[k]);
                } else {
                    let jj = where_[k];
                    assert(procs@[jj].1 == parent);
                    if parent != root {
                        let m = choose|m: int| 0 <= m < r0.len() && r0[m] == parent;
                        assert(r.take(k)[m] == parent);
                    }
                }
            }
            assert forall|k: int| 0 <= k < where_.len() implies 0 <= #[trigger] where_[k] < n
                && procs@[where_[k]].0 == result@[k] && expanded.contains(procs@[where_[k]].1) by {
                if k < w0.len() {
                    assert(where_[k] == w0[k]);
                }
            }
            assert forall|x: u32| #[trigger] queue@.contains(x) implies !expanded.contains(x) by {
                if q0.contains(x) {
                    assert(!e0.contains(x) && x != parent);
                } else {
                    let m = choose|m: int| 0 <= m < queue@.len() && queue@[m] == x;
                    let k = m - q0.len() + r0.len();
                    assert(queue@[m] == result@[k]);
                    assert(result@[k] == x);
                    assert(r0.len() <= k < where_.len());
                    assert(procs@[where_[k]].0 == result@[k]);
                    assert(procs@[where_[k]].0 != root);
                    assert(x != root);
                    if x == parent {
                        assert(parent != root);
                        let m2 = choose|m2: int| 0 <= m2 < r0.len() && r0[m2] == parent;
                        assert(result@[m2] == parent);
                    }
                    if e0.contains(x) {
                        assert(x == root || r0.contains(x));
                        let m2 = choose|m2: int| 0 <= m2 < r0.len() && r0[m2] == x;
                        assert(result@[m2] == x);
                    }
                }
            }
            assert(queue@.no_duplicates()) by {
                assert forall|a: int, b: int|
                    0 <= a < queue@.len() && 0 <= b < queue@.len() && a != b implies queue@[a]
                    != queue@[b] by {
                    if a < q0.len() && b < q0.len() {
                    } else if a >= q0.len() && b >= q0.len() {
                        let ka = a - q0.len() + r0.len();
                        let kb = b - q0.len() + r0.len();
                        assert(result@[ka] != result@[kb]);
                    } else if a < q0.len() {
                        let kb = b - q0.len() + r0.len();
                        assert(queue@[b] == result@[kb]);
                        if queue@[a] == queue@[b] {
                            assert(q0.contains(queue@[a]));
                            let x = queue@[a];
                            if x != root {
                                let m2 = choose|m2: int| 0 <= m2 < r0.len() && r0[m2] == x;
                                assert(result@[m2] == x);
                            }
                        }
                    } else {
                        let ka = a - q0.len() + r0.len();
                        assert(queue@[a] == result@[ka]);
                        if queue@[a] == queue@[b] {
                            assert(q0.contains(queue@[b]));
                            let x = queue@[b];
                            if x != root {
                                let m2 = choose|m2: int| 0 <= m2 < r0.len() && r0[m2] == x;
                                assert(result@[m2] == x);
                            }
                        }
                    }
                }
            }
            assert forall|x: u32|
                #![trigger queue@.contains(x)]
                #![trigger expanded.contains(x)]
                (queue@.contains(x) || expanded.contains(x)) <==> (x == root || result@.contains(
                    x,
                )) by {
                if result@.contains(x) {
                    let m = choose|m: int| 0 <= m < result@.len() && result@[m] == x;
                    if m < r0.len() {
                        assert(r0[m] == x);
                        assert(r0.contains(x));
                    } else {
                        assert(queue@[m - r0.len() + q0.len()] == x);
                    }
                }
                if queue@.contains(x) && !q0.contains(x) {
                    let m = choose|m: int| 0 <= m < queue@.len() && queue@[m] == x;
                    assert(result@[m - q0.len() + r0.len()] == x);
                }
                if r0.contains(x) {
                    let m = choose|m: int| 0 <= m < r0.len() && r0[m] == x;
                    assert(result@[m] == x);
                }
                if q0.contains(x) {
                    let m = choose|m: int| 0 <= m < q0.len() && q0[m] == x;
                    assert(queue@[m] == x);
                }
            }
            assert forall|i: int|
                0 <= i < n && procs@[i].0 != root && #[trigger] expanded.contains(procs@[i].1)
                    implies result@.contains(procs@[i].0) by {
                if procs@[i].1 != parent {
                    assert(r0.contains(procs@[i].0));
                    let m = choose|m: int| 0 <= m < r0.len() && r0[m] == procs@[i].0;
                    assert(result@[m] == procs@[i].0);
                }
            }
            assert(where_.no_duplicates()) by {
                assert forall|a: int, b: int|
                    0 <= a < where_.len() && 0 <= b < where_.len() && a != b implies where_[a]
                    != where_[b] by {
                    assert(result@[a] != result@[b]);
                }
            }
            lemma_distinct_indices_bound(where_, n as int);
        }
    }
    proof {
        let r = result@;
        assert forall|k: int| 0 <= k < r.len() implies #[trigger] parent_at(procs@, root, r, par, k) by {
            assert(procs@[where_[k]].0 == r[k]);
            assert(procs@[where_[k]].1 == (seq![root] + r)[par[k]]);
        }
        assert(par.len() == r.len());
        assert(forall|k: int| 0 <= k < r.len() ==> 0 <= #[trigger] par[k] <= k);
        assert(forall|a: int, b: int| 0 <= a <= b < r.len() ==> #[trigger] par[a] <= #[trigger] par[b]);
        assert(bfs_parents(procs@, root, r, par));
        assert forall|j: int|
            0 <= j < procs@.len() && procs@[j].0 != root && (procs@[j].1 == root || r.contains(
                #[trigger] procs@[j].1,
            )) implies r.contains(procs@[j].0) by {
            assert(expanded.contains(procs@[j].1));
        }
    }
    result
}


/// A signal the isolator sends.
#[derive(Debug, Clone, Copy, PartialEq, Eq, Structural)]
pub enum Signal {
    /// `SIGSTOP`: freeze the process.
    Stop,
    /// `SIGKILL`: destroy the process.
    Kill,
}

/// One signal to one process.
#[derive(Debug, Clone, Copy, PartialEq, Eq, Structural)]
pub struct SignalStep {
    pub pid: u32,
    pub signal: Signal,
}

/// The signals that kill the tree of `root` whose descendants are `children`:
/// first the whole tree is frozen (`root`, then the descendants in the order
/// found), then each descendant is killed from the last found to the first,
/// and `root` is killed last.
pub open spec fn kill_order(children: Seq<u32>, root: u32) -> Seq<SignalStep> {
    let n = children.len() as int;
    Seq::new(
        (2 * (n + 1)) as nat,
        |s: int|
            if s <= n {
                SignalStep { pid: if s == 0 { root } else { children[s - 1] }, signal: Signal::Stop }
            } else {
                SignalStep {
                    pid: if s - (n + 1) < n {
                        children[n - 1 - (s - (n + 1))]
                    } else {
                        root
                    },
                    signal: Signal::Kill,
                }
            },
    )
}

/// The signal plan that kills the process tree rooted at `pid` in the process
/// table `procs`: every process of the tree is stopped first, then the
/// descendants are killed, leaves before their parents, and the root last.
/// PID 0 names no process, so its plan is empty.
pub fn kill_tree(pid: u32, procs: &Vec<(u32, u32)>) -> (plan: Vec<SignalStep>)
    requires
        pids_distinct(procs@),
    ensures
        pid == 0 ==> plan@.len() == 0,
        pid != 0 ==> exists|children: Seq<u32>|
            descendants_in_order(procs@, pid, children) && breadth_first(procs@, pid, children)
                && plan@ == kill_order(children, pid),
{
    let mut plan: Vec<SignalStep> = Vec::new();
    if pid == 0 {
        return plan;
    }
    let children = find_all_children(pid, procs);
    let n = children.len();
    let ghost k = kill_order(children@, pid);
    plan.push(SignalStep { pid, signal: Signal::Stop });
    assert(plan@ =~= k.take(1));
    let mut i: usize = 0;
    while i < n
        invariant
            i <= n == children.len(),
            k == kill_order(children@, pid),
            plan@ == k.take(i + 1),
        decreases n - i,
    {
        plan.push(SignalStep { pid: children[i], signal: Signal::Stop });
        assert(k[i + 1] == SignalStep { pid: children@[i as int], signal: Signal::Stop });
        assert(plan@ =~= k.take(i + 2));
        i = i + 1;
    }
    let mut j: usize = 0;
    while j < n
        invariant
            j <= n == children.len(),
            k == kill_order(children@, pid),
            plan@ == k.take(n + 1 + j),
        decreases n - j,
    {
        let child = children[n - 1 - j];
        plan.push(SignalStep { pid: child, signal: Signal::Kill });
        assert(k[n + 1 + j] == SignalStep { pid: child, signal: Signal::Kill });
        assert(plan@ =~= k.take(n + 2 + j));
        j = j + 1;
    }
    plan.push(SignalStep { pid, signal: Signal::Kill });
    assert(k[2 * n + 1] == SignalStep { pid, signal: Signal::Kill });
    assert(plan@ =~= k);
    plan
}

/// The whole tree is stopped before anything is killed, and every descendant
/// is killed before its parent is killed (the root last): for a process
/// `procs[j]`, killed at step `s`, whose parent is killed at step `t`, `s < t`.
pub proof fn lemma_leaves_before_parents(
    procs: Seq<(u32, u32)>,
    root: u32,
    children: Seq<u32>,
    s: int,
    t: int,
    j: int,
)
    requires
        pids_distinct(procs),
        descendants_in_order(procs, root, children),
        children.len() < s < 2 * children.len() + 1,
        children.len() < t < kill_order(children, root).len(),
        0 <= j < procs.len(),
        procs[j].0 == kill_order(children, root)[s].pid,
        procs[j].1 == kill_order(children, root)[t].pid,
    ensures
        s < t,
        forall|u: int|
            0 <= u < kill_order(children, root).len() ==> ((kill_order(children, root)[u].signal
                == Signal::Stop) <==> u <= children.len()),
{
    let k = kill_order(children, root);
    let n = children.len() as int;
    let a = n - 1 - (s - (n + 1));
    assert(k[s].pid == children[a]);
    if t - (n + 1) < n {
        let b = n - 1 - (t - (n + 1));
        assert(k[t].pid == children[b]);
        assert(listed_after_parent(procs, root, children, a));
        let jj = choose|jj: int|
            0 <= jj < procs.len() && procs[jj].0 == children[a] && (procs[jj].1 == root
                || children.take(a).contains(procs[jj].1));
        if jj != j {
            assert(procs[jj].0 != procs[j].0);
        }
        assert(!children.contains(root));
        assert(procs[j].1 != root) by {
            assert(children[b] == procs[j].1);
        }
        let m = choose|m: int| 0 <= m < a && children.take(a)[m] == procs[j].1;
        assert(children[m] == children[b]);
        assert(m == b);
    }
}

/// The parent PID that a `/proc/<pid>/status` text gives (0 when it gives none).
pub open spec fn status_ppid(status: Seq<char>) -> u32 {
    match status_value(status, "PPid:"@) {
        Some(p) => p,
        None => 0,
    }
}

/// Reads the parent PID from the text of a `/proc/<pid>/status` file; 0 when
/// the text has none.
pub fn read_ppid(status: &str) -> (ppid: u32)
    ensures
        ppid == status_ppid(status@),
{
    match status_field(status, "PPid:") {
        Some(p) => p,
        None => 0,
    }
}

/// An external command: a program and its arguments.
pub struct Command {
    pub program: String,
    pub args: Vec<String>,
}

/// The value of a list of strings.
pub open spec fn arg_views(args: Seq<String>) -> Seq<Seq<char>> {
    args.map_values(|a: String| a@)
}

/// A firewall rule: the `nft` command to try first and the `iptables`
/// command to fall back to when it fails.
pub struct FirewallRule {
    pub primary: Command,
    pub fallback: Command,
}

/// Where the installation of a firewall rule stands.
#[derive(Debug, Clone, Copy, PartialEq, Eq, Structural)]
pub enum FirewallStep {
    /// Run the `nft` command (the first step).
    RunPrimary,
    /// Run the `iptables` command.
    RunFallback,
    /// Nothing more to run.
    Done,
}

/// The step after the command of `step` ran: `iptables` runs only when `nft`
/// could not be started or exited unsuccessfully, and nothing runs after
/// `iptables`.
pub open spec fn firewall_next(step: FirewallStep, succeeded: bool) -> FirewallStep {
    match step {
        FirewallStep::RunPrimary => if succeeded {
            FirewallStep::Done
        } else {
            FirewallStep::RunFallback
        },
        FirewallStep::RunFallback => FirewallStep::Done,
        FirewallStep::Done => FirewallStep::Done,
    }
}

/// The step after the command of `step` ran, `succeeded` telling whether it
/// could be started and exited successfully.
pub fn next_firewall_step(step: FirewallStep, succeeded: bool) -> (next: FirewallStep)
    ensures
        next == firewall_next(step, succeeded),
{
    match step {
        FirewallStep::RunPrimary => if succeeded {
            FirewallStep::Done
        } else {
            FirewallStep::RunFallback
        },
        FirewallStep::RunFallback => FirewallStep::Done,
        FirewallStep::Done => FirewallStep::Done,
    }
}

/// The command that `step` of installing `rule` runs, if any.
pub fn step_command(rule: &FirewallRule, step: FirewallStep) -> (c: Option<&Command>)
    ensures
        match step {
            FirewallStep::RunPrimary => c == Some(&rule.primary),
            FirewallStep::RunFallback => c == Some(&rule.fallback),
            FirewallStep::Done => c is None,
        },
{
    match step {
        FirewallStep::RunPrimary => Some(&rule.primary),
        FirewallStep::RunFallback => Some(&rule.fallback),
        FirewallStep::Done => None,
    }
}

/// Installing a rule runs `nft` first, then `iptables` exactly when `nft`
/// failed, and nothing else: from the first step, whatever the outcomes, the
/// second step is the fallback only after a failure, and the third is done.
pub proof fn lemma_fallback_only_after_failure(first_ok: bool, second_ok: bool)
    ensures
        (firewall_next(FirewallStep::RunPrimary, first_ok) == FirewallStep::RunFallback) == !first_ok,
        firewall_next(FirewallStep::RunPrimary, first_ok) != FirewallStep::RunPrimary,
        firewall_next(firewall_next(FirewallStep::RunPrimary, first_ok), second_ok)
            == FirewallStep::Done,
{
}

/// The `nft` arguments that drop outbound traffic of `uid`.
pub open spec fn nft_uid_args(uid: u32) -> Seq<Seq<char>> {
    seq![
        "add"@,
        "rule"@,
        "inet"@,
        "filter"@,
        "output"@,
        "meta"@,
        "skuid"@,
        decimal(uid as nat),
        "drop"@,
    ]
}

/// The `iptables` arguments that drop outbound traffic of `uid`.
pub open spec fn iptables_uid_args(uid: u32) -> Seq<Seq<char>> {
    seq![
        "-A"@,
        "OUTPUT"@,
        "-m"@,
        "owner"@,
        "--uid-owner"@,
        decimal(uid as nat),
        "-j"@,
        "DROP"@,
    ]
}

/// The `nft` arguments that drop outbound traffic to `ip`.
pub open spec fn nft_ip_args(ip: Seq<char>) -> Seq<Seq<char>> {
    seq!["add"@, "rule"@, "inet"@, "filter"@, "output"@, "ip"@, "daddr"@, ip, "drop"@]
}

/// The `iptables` arguments that drop outbound traffic to `ip`.
pub open spec fn iptables_ip_args(ip: Seq<char>) -> Seq<Seq<char>> {
    seq!["-A"@, "OUTPUT"@, "-d"@, ip, "-j"@, "DROP"@]
}

/// Whether `rule` runs `nft` with `nft_args`, falling back to `iptables`
/// with `ipt_args`.
pub open spec fn rule_is(rule: FirewallRule, nft_args: Seq<Seq<char>>, ipt_args: Seq<Seq<char>>) -> bool {
    &&& rule.primary.program@ == "nft"@
    &&& arg_views(rule.primary.args@) == nft_args
    &&& rule.fallback.program@ == "iptables"@
    &&& arg_views(rule.fallback.args@) == ipt_args
}

fn arg(v: &mut Vec<String>, a: &str)
    ensures
        arg_views(final(v)@) == arg_views(old(v)@).push(a@),
{
    let ghost before = v@;
    v.push(a.to_owned());
    assert(arg_views(v@) =~= arg_views(before).push(a@));
}

fn arg_string(v: &mut Vec<String>, a: String)
    ensures
        arg_views(final(v)@) == arg_views(old(v)@).push(a@),
{
    let ghost before = v@;
    let ghost av = a@;
    v.push(a);
    assert(arg_views(v@) =~= arg_views(before).push(av));
}

/// Whether outbound traffic of `uid` may be blocked: root (0) and UIDs over
/// 65000 never are.
pub open spec fn uid_blockable(uid: u32) -> bool {
    uid != 0 && uid <= 65000
}

/// The firewall rule that cuts all outbound traffic of `uid`; none for root or
/// an invalid UID (over 65000).
pub fn block_by_uid(uid: u32) -> (rule: Option<FirewallRule>)
    ensures
        (uid != 0 && uid <= 65000) <==> rule is Some,
        rule matches Some(r) ==> r.primary.program@ == "nft"@ && arg_views(r.primary.args@) == seq![
            "add"@,
            "rule"@,
            "inet"@,
            "filter"@,
            "output"@,
            "meta"@,
            "skuid"@,
            decimal(uid as nat),
            "drop"@,
        ] && r.fallback.program@ == "iptables"@ && arg_views(r.fallback.args@) == seq![
            "-A"@,
            "OUTPUT"@,
            "-m"@,
            "owner"@,
            "--uid-owner"@,
            decimal(uid as nat),
            "-j"@,
            "DROP"@,
        ],
        uid_blockable(uid) <==> rule is Some,
        rule matches Some(r) ==> rule_is(r, nft_uid_args(uid), iptables_uid_args(uid)),
{
    if uid == 0 || uid > 65000 {
        return None;
    }
    let mut nft: Vec<String> = Vec::new();
    assert(arg_views(nft@) =~= Seq::<Seq<char>>::empty());
    arg(&mut nft, "add");
    arg(&mut nft, "rule");
    arg(&mut nft, "inet");
    arg(&mut nft, "filter");
    arg(&mut nft, "output");
    arg(&mut nft, "meta");
    arg(&mut nft, "skuid");
    arg_string(&mut nft, decimal_string(uid as u64));
    arg(&mut nft, "drop");
    let mut ipt: Vec<String> = Vec::new();
    assert(arg_views(ipt@) =~= Seq::<Seq<char>>::empty());
    arg(&mut ipt, "-A");
    arg(&mut ipt, "OUTPUT");
    arg(&mut ipt, "-m");
    arg(&mut ipt, "owner");
    arg(&mut ipt, "--uid-owner");
    arg_string(&mut ipt, decimal_string(uid as u64));
    arg(&mut ipt, "-j");
    arg(&mut ipt, "DROP");
    let r = FirewallRule {
        primary: Command { program: "nft".to_owned(), args: nft },
        fallback: Command { program: "iptables".to_owned(), args: ipt },
    };
    assert(arg_views(r.primary.args@) =~= nft_uid_args(uid));
    assert(arg_views(r.fallback.args@) =~= iptables_uid_args(uid));
    Some(r)
}

/// The firewall rule that cuts outbound traffic to `ip`.
pub fn block_ip_outbound(ip: &str) -> (rule: FirewallRule)
    ensures
        rule.primary.program@ == "nft"@,
        arg_views(rule.primary.args@) == seq![
            "add"@,
            "rule"@,
            "inet"@,
            "filter"@,
            "output"@,
            "ip"@,
            "daddr"@,
            ip@,
            "drop"@,
        ],
        rule.fallback.program@ == "iptables"@,
        arg_views(rule.fallback.args@) == seq!["-A"@, "OUTPUT"@, "-d"@, ip@, "-j"@, "DROP"@],
        rule_is(rule, nft_ip_args(ip@), iptables_ip_args(ip@)),
{
    let mut nft: Vec<String> = Vec::new();
    assert(arg_views(nft@) =~= Seq::<Seq<char>>::empty());
    arg(&mut nft, "add");
    arg(&mut nft, "rule");
    arg(&mut nft, "inet");
    arg(&mut nft, "filter");
    arg(&mut nft, "output");
    arg(&mut nft, "ip");
    arg(&mut nft, "daddr");
    arg(&mut nft, ip);
    arg(&mut nft, "drop");
    let mut ipt: Vec<String> = Vec::new();
    assert(arg_views(ipt@) =~= Seq::<Seq<char>>::empty());
    arg(&mut ipt, "-A");
    arg(&mut ipt, "OUTPUT");
    arg(&mut ipt, "-d");
    arg(&mut ipt, ip);
    arg(&mut ipt, "-j");
    arg(&mut ipt, "DROP");
    let r = FirewallRule {
        primary: Command { program: "nft".to_owned(), args: nft },
        fallback: Command { program: "iptables".to_owned(), args: ipt },
    };
    assert(arg_views(r.primary.args@) =~= nft_ip_args(ip@));
    assert(arg_views(r.fallback.args@) =~= iptables_ip_args(ip@));
    r
}

/// One step of a containment response.
pub enum ContainmentStep {
    /// Kill the process tree rooted at `pid`.
    KillTree { pid: u32 },
    /// Cut outbound traffic of `uid` (see [`block_by_uid`]).
    BlockUid { uid: u32 },
    /// Cut outbound traffic to `ip` (see [`block_ip_outbound`]).
    BlockIp { ip: String },
}

/// The mathematical value of a [`ContainmentStep`].
pub enum StepView {
    KillTree { pid: u32 },
    BlockUid { uid: u32 },
    BlockIp { ip: Seq<char> },
}

impl View for ContainmentStep {
    type V = StepView;

    open spec fn view(&self) -> StepView {
        match self {
            ContainmentStep::KillTree { pid } => StepView::KillTree { pid: *pid },
            ContainmentStep::BlockUid { uid } => StepView::BlockUid { uid: *uid },
            ContainmentStep::BlockIp { ip } => StepView::BlockIp { ip: ip@ },
        }
    }
}

/// The steps that carry out `action`, in order.
pub open spec fn containment_steps(action: ActionView) -> Seq<StepView> {
    match action {
        ActionView::KillProcess { pid, uid } => seq![
            StepView::KillTree { pid },
            StepView::BlockUid { uid },
        ],
        ActionView::BlockIp { ip, uid } => if uid > 0 {
            seq![StepView::BlockIp { ip }, StepView::BlockUid { uid }]
        } else {
            seq![StepView::BlockIp { ip }]
        },
        ActionView::AlertOnly => seq![],
    }
}

/// The steps that carry out a containment action: killing a process kills its
/// tree and cuts its UID; blocking an IP cuts the destination and, for a
/// non-root UID, the UID; an alert does nothing.
pub fn execute(action: &ContainmentAction) -> (steps: Vec<ContainmentStep>)
    ensures
        steps@.map_values(|x: ContainmentStep| x@) == containment_steps(action@),
{
    let mut steps: Vec<ContainmentStep> = Vec::new();
    match action {
        ContainmentAction::KillProcess { pid, uid } => {
            steps.push(ContainmentStep::KillTree { pid: *pid });
            steps.push(ContainmentStep::BlockUid { uid: *uid });
        },
        ContainmentAction::BlockIp { ip, uid } => {
            steps.push(ContainmentStep::BlockIp { ip: ip.clone() });
            if *uid > 0 {
                steps.push(ContainmentStep::BlockUid { uid: *uid });
            }
        },
        ContainmentAction::AlertOnly => {},
    }
    assert(steps@.map_values(|x: ContainmentStep| x@) =~= containment_steps(action@));
    steps
}


/// Outbound traffic of a UID is cut for every UID from 1 to 65000 and for no
/// other (root, UID 0, and UIDs over 65000 are never blocked); the UID rule
/// runs `nft add rule inet filter output meta skuid <uid> drop`, falling back
/// to `iptables -A OUTPUT -m owner --uid-owner <uid> -j DROP`, and the address
/// rule `nft add rule inet filter output ip daddr <ip> drop`, falling back to
/// `iptables -A OUTPUT -d <ip> -j DROP`.
pub proof fn lemma_firewall_rules(uid: u32, ip: Seq<char>)
    ensures
        uid_blockable(uid) <==> 1 <= uid <= 65000,
        nft_uid_args(uid) == seq![
            "add"@,
            "rule"@,
            "inet"@,
            "filter"@,
            "output"@,
            "meta"@,
            "skuid"@,
            decimal(uid as nat),
            "drop"@,
        ],
        iptables_uid_args(uid) == seq![
            "-A"@,
            "OUTPUT"@,
            "-m"@,
            "owner"@,
            "--uid-owner"@,
            decimal(uid as nat),
            "-j"@,
            "DROP"@,
        ],
        nft_ip_args(ip) == seq!["add"@, "rule"@, "inet"@, "filter"@, "output"@, "ip"@, "daddr"@, ip, "drop"@],
        iptables_ip_args(ip) == seq!["-A"@, "OUTPUT"@, "-d"@, ip, "-j"@, "DROP"@],
{
}

/// Killing a process kills its tree and cuts its UID; blocking an address
/// cuts the address and, for a UID other than 0, the UID; an alert does
/// nothing.
pub proof fn lemma_containment_steps(pid: u32, uid: u32, ip: Seq<char>)
    ensures
        containment_steps(ActionView::KillProcess { pid, uid }) == seq![
            StepView::KillTree { pid },
            StepView::BlockUid { uid },
        ],
        uid != 0 ==> containment_steps(ActionView::BlockIp { ip, uid }) == seq![
            StepView::BlockIp { ip },
            StepView::BlockUid { uid },
        ],
        containment_steps(ActionView::BlockIp { ip, uid: 0 }) == seq![StepView::BlockIp { ip }],
        containment_steps(ActionView::AlertOnly) == Seq::<StepView>::empty(),
{
    assert(containment_steps(ActionView::AlertOnly) =~= Seq::<StepView>::empty());
}

/// The parent PID is read from the `PPid:` line of a status text.
pub proof fn lemma_ppid_line(status: Seq<char>)
    ensures
        status_ppid(status) == match status_value(status, "PPid:"@) {
            Some(p) => p,
            None => 0u32,
        },
{
}
} // verus!
