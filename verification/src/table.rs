//! The shortest-path table: for every progress value 0..=150, the shortest
//! operation sequence that reaches it from 0 without ever leaving the
//! progress range. Built by a breadth-first traversal whose result is
//! proved to consist of paths of minimal length.

use vstd::prelude::*;

verus! {

use crate::step::ForgeStep;
use crate::step::all_ops;
use crate::step::effect;
use crate::step::lemma_op_index;
use crate::step::lemma_reorder_into_path;
use crate::step::lemma_sum_push;
use crate::step::lemma_valid_path_drop_last;
use crate::step::lemma_valid_path_push;
use crate::step::lemma_valid_path_target_in_range;
use crate::step::op_at;
use crate::step::op_of;
use crate::step::sum_effects;
use crate::step::valid_path;

/// The sequence of entry views of the table.
pub open spec fn table_view(entries: Seq<Vec<ForgeStep>>) -> Seq<Seq<ForgeStep>> {
    entries.map_values(|entry: Vec<ForgeStep>| entry@)
}

/// A progress value inside the tracked range.
pub open spec fn in_range(value: int) -> bool {
    0 <= value <= 150
}

/// The progress value after applying the operation with index `k` in
/// state `s`.
pub open spec fn next_state(s: int, k: int) -> int {
    s + effect(op_of(k))
}

/// The closure the traversal leaves behind: from every visited state, each
/// in-range successor is visited, with a stored path at most one longer.
pub open spec fn relaxed(vis: Seq<bool>, tab: Seq<Seq<ForgeStep>>) -> bool {
    forall|s: int, k: int|
        0 <= s < 151 && vis[s] && 0 <= k < 8 && in_range(#[trigger] next_state(s, k))
            ==> vis[next_state(s, k)] && tab[next_state(s, k)].len() <= tab[s].len() + 1
}

/// What the finished table guarantees: 151 entries, each a path from 0 to
/// its own index, of minimal length among all such paths.
pub open spec fn table_wf(tab: Seq<Seq<ForgeStep>>) -> bool {
    &&& tab.len() == 151
    &&& forall|t: int| 0 <= t <= 150 ==> valid_path(#[trigger] tab[t], t)
    &&& forall|t: int, p: Seq<ForgeStep>|
        0 <= t <= 150 && #[trigger] valid_path(p, t) ==> tab[t].len() <= p.len()
}

/// The full state of the breadth-first traversal: the paths recorded so
/// far, the visited marks, the discovery queue, and how much of the
/// queue has been processed.
#[verifier::ext_equal]
pub struct SearchState {
    pub pat: Seq<Seq<ForgeStep>>,
    pub vis: Seq<bool>,
    pub queue: Seq<int>,
    pub head: int,
}

/// Relaxes the operations with index `k` and above out of the state
/// `front`: each in-range successor not yet visited is marked, its path
/// recorded as the front's path plus that operation, and queued.
pub open spec fn search_relax(s: SearchState, front: int, k: int) -> SearchState
    decreases 8 - k,
{
    if k < 0 || k >= 8 {
        s
    } else {
        let nx = front + effect(op_of(k));
        let s2 = if 0 <= nx <= 150 && !s.vis[nx] {
            SearchState {
                pat: s.pat.update(nx, s.pat[front].push(op_of(k))),
                vis: s.vis.update(nx, true),
                queue: s.queue.push(nx),
                head: s.head,
            }
        } else {
            s
        };
        search_relax(s2, front, k + 1)
    }
}

/// One round of the traversal: process the state at the queue's head.
pub open spec fn search_step(s: SearchState) -> SearchState {
    let s2 = search_relax(s, s.queue[s.head], 0);
    SearchState { pat: s2.pat, vis: s2.vis, queue: s2.queue, head: s2.head + 1 }
}

/// Runs rounds until the queue is exhausted or the fuel runs out.
pub open spec fn search_run(s: SearchState, fuel: nat) -> SearchState
    decreases fuel,
{
    if fuel == 0 || s.head >= s.queue.len() {
        s
    } else {
        search_run(search_step(s), (fuel - 1) as nat)
    }
}

/// The traversal's starting state: empty paths, only 0 visited and queued.
pub open spec fn search_init() -> SearchState {
    SearchState {
        pat: Seq::new(151, |i: int| Seq::empty()),
        vis: Seq::new(151, |i: int| i == 0),
        queue: seq![0int],
        head: 0,
    }
}

/// The one table the traversal computes; ties among equal-length paths
/// are broken by discovery order under the fixed operation order. 152
/// rounds always suffice: each round retires one queued state, and at
/// most 151 states are ever queued.
pub open spec fn spec_table() -> Seq<Seq<ForgeStep>> {
    search_run(search_init(), 152).pat
}

/// The view of the executable queue.
pub open spec fn qview(q: Seq<usize>) -> Seq<int> {
    q.map_values(|x: usize| x as int)
}

/// How many entries of a boolean sequence are set.
spec fn count_true(s: Seq<bool>) -> int
    decreases s.len(),
{
    if s.len() == 0 {
        0
    } else {
        count_true(s.drop_last()) + if s.last() {
            1int
        } else {
            0int
        }
    }
}

proof fn lemma_count_true_le(s: Seq<bool>)
    ensures
        0 <= count_true(s) <= s.len(),
    decreases s.len(),
{
    if s.len() > 0 {
        lemma_count_true_le(s.drop_last());
    }
}

proof fn lemma_count_true_update(s: Seq<bool>, i: int)
    requires
        0 <= i < s.len(),
        !s[i],
    ensures
        count_true(s.update(i, true)) == count_true(s) + 1,
    decreases s.len(),
{
    let u = s.update(i, true);
    if i == s.len() - 1 {
        assert(u.drop_last() =~= s.drop_last());
    } else {
        assert(u.drop_last() =~= s.drop_last().update(i, true));
        lemma_count_true_update(s.drop_last(), i);
    }
}

/// Under the closure property, every value of the range is visited: 0 is,
/// 1 is reached over 16, and from there +2 steps cover the rest.
proof fn lemma_all_visited(vis: Seq<bool>, tab: Seq<Seq<ForgeStep>>, n: int)
    requires
        vis.len() == 151,
        tab.len() == 151,
        vis[0],
        relaxed(vis, tab),
        0 <= n <= 150,
    ensures
        vis[n],
    decreases n,
{
    if n == 0 {
    } else if n == 1 {
        assert(next_state(0, 7) == 16);
        assert(in_range(next_state(0, 7)));
        assert(vis[16]);
        assert(next_state(16, 3) == 1);
        assert(in_range(next_state(16, 3)));
    } else {
        lemma_all_visited(vis, tab, n - 2);
        assert(next_state(n - 2, 4) == n);
        assert(in_range(next_state(n - 2, 4)));
    }
}

/// Under the closure property, the stored entry of a target is no longer
/// than any path to that target: induction over the path.
proof fn lemma_path_bound(vis: Seq<bool>, tab: Seq<Seq<ForgeStep>>, p: Seq<ForgeStep>, t: int)
    requires
        vis.len() == 151,
        tab.len() == 151,
        vis[0],
        relaxed(vis, tab),
        tab[0].len() == 0,
        valid_path(p, t),
    ensures
        tab[t].len() <= p.len(),
    decreases p.len(),
{
    lemma_valid_path_target_in_range(p, t);
    if p.len() == 0 {
        assert(p.take(0) =~= p);
    } else {
        lemma_valid_path_drop_last(p, t);
        let prev = p.drop_last();
        let t2 = sum_effects(prev);
        lemma_path_bound(vis, tab, prev, t2);
        lemma_op_index(p.last());
        let k = choose|k: int| 0 <= k < 8 && op_of(k) == p.last();
        lemma_all_visited(vis, tab, t2);
        assert(next_state(t2, k) == t);
        assert(in_range(next_state(t2, k)));
    }
}

/// Copies one stored entry.
pub(crate) fn clone_entry(pat: &Vec<Vec<ForgeStep>>, i: usize) -> (out: Vec<ForgeStep>)
    requires
        i < pat@.len(),
    ensures
        out@ == pat@[i as int]@,
{
    let mut out: Vec<ForgeStep> = Vec::new();
    let mut j: usize = 0;
    while j < pat[i].len()
        invariant
            i < pat@.len(),
            j <= pat@[i as int]@.len(),
            out@ == pat@[i as int]@.take(j as int),
        decreases pat@[i as int]@.len() - j,
    {
        out.push(pat[i][j]);
        j += 1;
        proof {
            assert(pat@[i as int]@.take(j as int) =~= pat@[i as int]@.take(j - 1).push(
                pat@[i as int]@[j - 1],
            ));
        }
    }
    proof {
        assert(pat@[i as int]@.take(j as int) =~= pat@[i as int]@);
    }
    out
}

/// Builds the shortest-path table by breadth-first traversal from 0: the
/// first time a value is reached, its path is recorded; the traversal
/// order guarantees that this path has minimal length.
pub fn init_optimal_steps_to_target() -> (pat: Vec<Vec<ForgeStep>>)
    ensures
        pat@.len() == 151,
        table_view(pat@) == spec_table(),
        table_wf(table_view(pat@)),
{
    let mut pat: Vec<Vec<ForgeStep>> = Vec::new();
    while pat.len() < 151
        invariant
            pat@.len() <= 151,
            forall|i: int| 0 <= i < pat@.len() ==> (#[trigger] pat@[i])@.len() == 0,
        decreases 151 - pat@.len(),
    {
        pat.push(Vec::new());
    }
    let mut vis: Vec<bool> = Vec::new();
    while vis.len() < 151
        invariant
            vis@.len() <= 151,
            forall|i: int| 0 <= i < vis@.len() ==> !(#[trigger] vis@[i]),
        decreases 151 - vis@.len(),
    {
        vis.push(false);
    }
    let ghost vis_init = vis@;
    vis[0] = true;
    proof {
        lemma_count_all_false(vis_init);
        lemma_count_true_update(vis_init, 0);
        assert(count_true(vis@) == 1);
        assert(valid_path(Seq::<ForgeStep>::empty(), 0)) by {
            assert(Seq::<ForgeStep>::empty().take(0) =~= Seq::<ForgeStep>::empty());
        }
        assert(table_view(pat@)[0] =~= Seq::<ForgeStep>::empty());
    }
    let mut queue: Vec<usize> = Vec::new();
    queue.push(0);
    proof {
        assert forall|s: int| 0 <= s < 151 && vis@[s] implies exists|j: int|
            0 <= j < queue@.len() && queue@[j] == s by {
            assert(s == 0);
            assert(queue@[0] == 0);
        }
    }
    proof {
        let x0 = SearchState { pat: table_view(pat@), vis: vis@, queue: qview(queue@), head: 0 };
        assert(x0.pat =~~= search_init().pat);
        assert(x0.vis =~= search_init().vis);
        assert(x0.queue =~= search_init().queue);
        assert(x0 =~~= search_init());
    }
    let mut head: usize = 0;
    while head < queue.len()
        invariant
            pat@.len() == 151,
            vis@.len() == 151,
            head <= queue@.len(),
            search_run(
                (SearchState {
                    pat: table_view(pat@),
                    vis: vis@,
                    queue: qview(queue@),
                    head: head as int,
                }),
                (152 - head) as nat,
            ) == search_run(search_init(), 152),
            1 <= count_true(vis@) <= 151,
            queue@.len() == count_true(vis@),
            vis@[0],
            table_view(pat@)[0].len() == 0,
            forall|j: int|
                0 <= j < queue@.len() ==> #[trigger] queue@[j] < 151 && vis@[queue@[j] as int],
            queue@.no_duplicates(),
            forall|s: int|
                0 <= s < 151 && vis@[s] ==> exists|j: int|
                    0 <= j < queue@.len() && queue@[j] == s,
            forall|s: int|
                0 <= s < 151 && vis@[s] ==> valid_path(
                    #[trigger] table_view(pat@)[s],
                    s,
                ),
            forall|j1: int, j2: int|
                0 <= j1 <= j2 < queue@.len() ==> table_view(pat@)[#[trigger] queue@[j1] as int].len()
                    <= table_view(pat@)[#[trigger] queue@[j2] as int].len(),
            head < queue@.len() ==> forall|j: int|
                0 <= j < queue@.len() ==> table_view(pat@)[#[trigger] queue@[j] as int].len()
                    <= table_view(pat@)[queue@[head as int] as int].len() + 1,
            forall|j: int, k: int|
                0 <= j < head && 0 <= k < 8 && in_range(
                    #[trigger] next_state(queue@[j] as int, k),
                ) ==> vis@[next_state(queue@[j] as int, k)] && table_view(pat@)[next_state(
                    queue@[j] as int,
                    k,
                )].len() <= table_view(pat@)[queue@[j] as int].len() + 1,
        decreases 151 - count_true(vis@), queue@.len() - head,
    {
        let front = queue[head];
        let ghost count_at_head = count_true(vis@);
        let ghost s_at = SearchState {
            pat: table_view(pat@),
            vis: vis@,
            queue: qview(queue@),
            head: head as int,
        };
        proof {
            assert(s_at.queue[s_at.head] == front as int);
            assert(s_at.head < s_at.queue.len());
            assert(search_run(s_at, (152 - head) as nat) == search_run(search_init(), 152));
        }
        let mut k: usize = 0;
        while k < 8
            invariant
                pat@.len() == 151,
                vis@.len() == 151,
                head < queue@.len(),
                count_true(vis@) >= count_at_head,
                k <= 8,
                front == queue@[head as int],
                front < 151,
                vis@[front as int],
                1 <= count_true(vis@) <= 151,
                queue@.len() == count_true(vis@),
                vis@[0],
                table_view(pat@)[0].len() == 0,
                forall|j: int|
                    0 <= j < queue@.len() ==> #[trigger] queue@[j] < 151 && vis@[queue@[j] as int],
                queue@.no_duplicates(),
                forall|s: int|
                    0 <= s < 151 && vis@[s] ==> exists|j: int|
                        0 <= j < queue@.len() && queue@[j] == s,
                forall|s: int|
                    0 <= s < 151 && vis@[s] ==> valid_path(
                        #[trigger] table_view(pat@)[s],
                        s,
                    ),
                forall|j1: int, j2: int|
                    0 <= j1 <= j2 < queue@.len() ==> table_view(pat@)[#[trigger] queue@[j1] as int].len()
                        <= table_view(pat@)[#[trigger] queue@[j2] as int].len(),
                forall|j: int|
                    0 <= j < queue@.len() ==> table_view(pat@)[#[trigger] queue@[j] as int].len()
                        <= table_view(pat@)[queue@[head as int] as int].len() + 1,
                forall|j: int, kk: int|
                    0 <= j < head && 0 <= kk < 8 && in_range(
                        #[trigger] next_state(queue@[j] as int, kk),
                    ) ==> vis@[next_state(queue@[j] as int, kk)] && table_view(pat@)[next_state(
                        queue@[j] as int,
                        kk,
                    )].len() <= table_view(pat@)[queue@[j] as int].len() + 1,
                forall|kk: int|
                    0 <= kk < k && in_range(#[trigger] next_state(front as int, kk))
                        ==> vis@[next_state(front as int, kk)] && table_view(pat@)[next_state(
                        front as int,
                        kk,
                    )].len() <= table_view(pat@)[front as int].len() + 1,
                search_relax(s_at, front as int, 0) == search_relax(
                    (SearchState {
                        pat: table_view(pat@),
                        vis: vis@,
                        queue: qview(queue@),
                        head: head as int,
                    }),
                    front as int,
                    k as int,
                ),
            decreases 8 - k,
        {
            let ghost xcur = SearchState {
                pat: table_view(pat@),
                vis: vis@,
                queue: qview(queue@),
                head: head as int,
            };
            let op = op_at(k);
            let eff = op.get_effect();
            let next_i: i32 = front as i32 + eff;
            if 0 <= next_i && next_i <= 150 {
                let next = next_i as usize;
                proof {
                    assert(next as int == next_state(front as int, k as int));
                }
                if !vis[next] {
                    let ghost vis0 = vis@;
                    let ghost pat0 = pat@;
                    let ghost q0 = queue@;
                    proof {
                        lemma_count_true_update(vis0, next as int);
                        lemma_count_true_le(vis0.update(next as int, true));
                    }
                    vis[next] = true;
                    let mut path = clone_entry(&pat, front);
                    proof {
                        lemma_sum_push(pat0[front as int]@, op);
                        lemma_valid_path_push(pat0[front as int]@, front as int, op);
                    }
                    path.push(op);
                    let ghost np = path@;
                    pat[next] = path;
                    queue.push(next);
                    proof {
                        assert(np == pat0[front as int]@.push(op));
                        assert(valid_path(np, next as int));
                        assert(np.len() == table_view(pat0)[front as int].len() + 1);
                        assert(table_view(pat@)[next as int] == np);
                        assert(forall|s: int|
                            0 <= s < 151 && s != next as int ==> table_view(pat@)[s]
                                == table_view(pat0)[s]);
                        // the freshly visited state was in no queue slot before
                        assert(forall|j: int| 0 <= j < q0.len() ==> q0[j] != next);
                        assert(queue@.no_duplicates()) by {
                            assert(forall|j1: int, j2: int|
                                0 <= j1 < j2 < queue@.len() ==> queue@[j1] != queue@[j2]);
                        }
                        // every state visited before keeps its queue slot
                        assert forall|s: int| 0 <= s < 151 && vis@[s] implies exists|j: int|
                            0 <= j < queue@.len() && queue@[j] == s by {
                            if s == next as int {
                                assert(queue@[queue@.len() - 1] == s);
                            } else {
                                let j = choose|j: int| 0 <= j < q0.len() && q0[j] == s;
                                assert(queue@[j] == s);
                            }
                        }
                    }
                }
            }
            proof {
                let xnew = SearchState {
                    pat: table_view(pat@),
                    vis: vis@,
                    queue: qview(queue@),
                    head: head as int,
                };
                let nxi = front as int + effect(op_of(k as int));
                if 0 <= nxi <= 150 && !xcur.vis[nxi] {
                    assert(xnew.vis =~= xcur.vis.update(nxi, true));
                    assert(xnew.queue =~= xcur.queue.push(nxi));
                    assert(xnew.pat =~~= xcur.pat.update(
                        nxi,
                        xcur.pat[front as int].push(op_of(k as int)),
                    ));
                    assert(xnew =~~= (SearchState {
                        pat: xcur.pat.update(nxi, xcur.pat[front as int].push(op_of(k as int))),
                        vis: xcur.vis.update(nxi, true),
                        queue: xcur.queue.push(nxi),
                        head: xcur.head,
                    }));
                } else {
                    assert(xnew =~~= xcur);
                }
                assert(search_relax(xcur, front as int, k as int) == search_relax(
                    xnew,
                    front as int,
                    k as int + 1,
                ));
            }
            k += 1;
        }
        head += 1;
        proof {
            let xfin = SearchState {
                pat: table_view(pat@),
                vis: vis@,
                queue: qview(queue@),
                head: head as int - 1,
            };
            assert(search_relax(s_at, front as int, 0) == search_relax(xfin, front as int, 8));
            assert(search_relax(xfin, front as int, 8) == xfin);
            let xdone = SearchState {
                pat: table_view(pat@),
                vis: vis@,
                queue: qview(queue@),
                head: head as int,
            };
            assert(xdone =~~= search_step(s_at));
            assert(search_run(s_at, (152 - (head - 1)) as nat) == search_run(
                xdone,
                (152 - head) as nat,
            ));
        }
    }
    proof {
        let xend = SearchState {
            pat: table_view(pat@),
            vis: vis@,
            queue: qview(queue@),
            head: head as int,
        };
        assert(search_run(xend, (152 - head) as nat) == search_run(search_init(), 152));
        assert(search_run(xend, (152 - head) as nat) == xend);
        assert(table_view(pat@) == spec_table());
        let tv = table_view(pat@);
        assert(relaxed(vis@, tv)) by {
            assert forall|s: int, kk: int|
                0 <= s < 151 && vis@[s] && 0 <= kk < 8 && in_range(
                    #[trigger] next_state(s, kk),
                ) implies vis@[next_state(s, kk)] && tv[next_state(s, kk)].len() <= tv[s].len()
                + 1 by {
                let j = choose|j: int| 0 <= j < queue@.len() && queue@[j] == s;
                assert(in_range(next_state(queue@[j] as int, kk)));
            }
        }
        assert forall|t: int| 0 <= t <= 150 implies valid_path(#[trigger] tv[t], t) by {
            lemma_all_visited(vis@, tv, t);
        }
        assert forall|t: int, p: Seq<ForgeStep>|
            0 <= t <= 150 && #[trigger] valid_path(p, t) implies tv[t].len() <= p.len() by {
            lemma_path_bound(vis@, tv, p, t);
        }
    }
    pat
}

proof fn lemma_count_all_false(s: Seq<bool>)
    requires
        forall|i: int| 0 <= i < s.len() ==> !(#[trigger] s[i]),
    ensures
        count_true(s) == 0,
    decreases s.len(),
{
    if s.len() > 0 {
        lemma_count_all_false(s.drop_last());
    }
}

/// Law: for every target of the range, the stored sequence's effects sum
/// exactly to the target.
pub proof fn lemma_table_sums(tab: Seq<Seq<ForgeStep>>, target: int)
    requires
        table_wf(tab),
        0 <= target <= 150,
    ensures
        sum_effects(tab[target]) == target,
{
}

/// Law: no path to a target — no sequence of usable operations that keeps
/// its progress in range and sums to the target — is shorter than the
/// stored entry.
pub proof fn lemma_table_minimal(tab: Seq<Seq<ForgeStep>>, target: int, p: Seq<ForgeStep>)
    requires
        table_wf(tab),
        0 <= target <= 150,
        valid_path(p, target),
    ensures
        tab[target].len() <= p.len(),
{
}

/// Law: no sequence of usable operations with strictly fewer steps sums
/// to a reachable target, even one whose running progress leaves the
/// range: some order of the same operations is a path of equal length,
/// and the stored entry is no longer than that path.
pub proof fn lemma_table_minimal_unrestricted(
    tab: Seq<Seq<ForgeStep>>,
    target: int,
    s: Seq<ForgeStep>,
)
    requires
        table_wf(tab),
        0 <= target <= 150,
        all_ops(s),
        sum_effects(s) == target,
    ensures
        tab[target].len() <= s.len(),
{
    lemma_reorder_into_path(s);
    let p = choose|p: Seq<ForgeStep>|
        valid_path(p, sum_effects(s)) && #[trigger] p.len() == s.len();
}

/// Returns the stored shortest path for `target`, or an empty sequence
/// when `target` lies outside the table's range.
pub fn get_optimal_steps_to_target(pat: &Vec<Vec<ForgeStep>>, target: i32) -> (steps: Vec<
    ForgeStep,
>)
    requires
        pat@.len() == 151,
    ensures
        0 <= target <= 150 ==> steps@ == pat@[target as int]@,
        !(0 <= target <= 150) ==> steps@ =~= Seq::<ForgeStep>::empty(),
{
    if target < 0 || target > 150 {
        Vec::new()
    } else {
        clone_entry(pat, target as usize)
    }
}

} // verus!
