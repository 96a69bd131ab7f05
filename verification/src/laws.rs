use vstd::prelude::*;

use crate::job::Job;
use crate::schedule::duration_sum;
use crate::schedule::group_rec;
use crate::schedule::spec_order;
use crate::schedule::within_window;
use crate::sort::deadline_of;
use crate::sort::is_sorted_by_deadline;
use crate::sort::lemma_sort_contains;
use crate::sort::lemma_sort_sorted;
use crate::sort::lemma_sort_stable;
use crate::sort::sort_by_deadline;
use crate::sort::with_deadline;
use crate::window::ExecutionWindow;

verus! {

/// `x` occurs somewhere in the grouped output `gs`.
spec fn grouped_contains(gs: Seq<Seq<Job>>, x: Job) -> bool {
    exists|gi: int, k: int| 0 <= gi < gs.len() && 0 <= k < gs[gi].len() && gs[gi][k] == x
}

proof fn lemma_group_rec_elems(
    s: Seq<Job>,
    cap: int,
    count: int,
    current: Seq<Job>,
    done: Seq<Seq<Job>>,
    x: Job,
)
    requires
        grouped_contains(group_rec(s, cap, count, current, done), x),
    ensures
        grouped_contains(done, x) || current.contains(x) || s.contains(x),
    decreases s.len(),
{
    if s.len() == 0 {
        if current.len() == 0 {
        } else {
            let out = done.push(current);
            let (gi, k) = choose|gi: int, k: int|
                0 <= gi < out.len() && 0 <= k < out[gi].len() && out[gi][k] == x;
            if gi < done.len() {
                assert(done[gi][k] == x);
            } else {
                assert(current[k] == x);
                assert(current.contains(x));
            }
        }
    } else {
        let j = s[0];
        assert(s.contains(j));
        assert forall|y: Job| s.drop_first().contains(y) implies s.contains(y) by {
            let m = choose|m: int| 0 <= m < s.drop_first().len() && s.drop_first()[m] == y;
            assert(s[m + 1] == y);
        }
        if count + j.estimated_time > cap {
            let done2 = if current.len() == 0 {
                done
            } else {
                done.push(current)
            };
            lemma_group_rec_elems(s.drop_first(), cap, 0, seq![j], done2, x);
            if grouped_contains(done2, x) && current.len() != 0 {
                let (gi, k) = choose|gi: int, k: int|
                    0 <= gi < done2.len() && 0 <= k < done2[gi].len() && done2[gi][k] == x;
                if gi < done.len() {
                    assert(done[gi][k] == x);
                } else {
                    assert(current[k] == x);
                    assert(current.contains(x));
                }
            }
            if seq![j].contains(x) {
                assert(seq![j][0] == j);
                assert(x == j);
            }
        } else {
            lemma_group_rec_elems(s.drop_first(), cap, count + j.estimated_time, current.push(j), done, x);
            if current.push(j).contains(x) {
                let m = choose|m: int|
                    0 <= m < current.push(j).len() && current.push(j)[m] == x;
                if m < current.len() {
                    assert(current.contains(x));
                }
            }
        }
    }
}

/// The grouping output only ever contains jobs that individually satisfy
/// window membership: a job outside the window never appears in any group.
pub proof fn lemma_grouped_jobs_are_within(w: ExecutionWindow, s: Seq<Job>, cap: int)
    ensures
        forall|gi: int, k: int|
            0 <= gi < spec_order(w, s, cap).len() && 0 <= k < spec_order(w, s, cap)[gi].len()
                ==> w.spec_is_within(#[trigger] spec_order(w, s, cap)[gi][k]),
{
    let filtered = within_window(w, s);
    let sorted = sort_by_deadline(filtered);
    let out = spec_order(w, s, cap);
    assert forall|gi: int, k: int|
        0 <= gi < out.len() && 0 <= k < out[gi].len() implies w.spec_is_within(
        out[gi][k],
    ) by {
        let x = out[gi][k];
        assert(grouped_contains(out, x));
        lemma_group_rec_elems(sorted, cap, 0, Seq::empty(), Seq::empty(), x);
        lemma_sort_contains(filtered, x);
        let m = choose|m: int| 0 <= m < filtered.len() && filtered[m] == x;
        s.lemma_filter_pred(|j: Job| w.spec_is_within(j), m);
    }
}

proof fn lemma_group_rec_flatten(
    s: Seq<Job>,
    cap: int,
    count: int,
    current: Seq<Job>,
    done: Seq<Seq<Job>>,
)
    ensures
        group_rec(s, cap, count, current, done).flatten() == done.flatten() + current + s,
    decreases s.len(),
{
    broadcast use Seq::lemma_flatten_push;

    if s.len() == 0 {
        if current.len() == 0 {
            assert(done.flatten() + current + s =~= done.flatten());
        } else {
            assert(done.flatten() + current + s =~= done.flatten() + current);
        }
    } else {
        let j = s[0];
        if count + j.estimated_time > cap {
            let done2 = if current.len() == 0 {
                done
            } else {
                done.push(current)
            };
            lemma_group_rec_flatten(s.drop_first(), cap, 0, seq![j], done2);
            if current.len() == 0 {
                assert(done.flatten() + seq![j] + s.drop_first() =~= done.flatten() + current
                    + s);
            } else {
                assert(done.flatten() + current + seq![j] + s.drop_first() =~= done.flatten()
                    + current + s);
            }
        } else {
            lemma_group_rec_flatten(s.drop_first(), cap, count + j.estimated_time, current.push(j), done);
            assert(done.flatten() + current.push(j) + s.drop_first() =~= done.flatten() + current
                + s);
        }
    }
}

proof fn lemma_group_rec_sorted(
    s: Seq<Job>,
    cap: int,
    count: int,
    current: Seq<Job>,
    done: Seq<Seq<Job>>,
)
    requires
        is_sorted_by_deadline(current + s),
        forall|gi: int| 0 <= gi < done.len() ==> is_sorted_by_deadline(#[trigger] done[gi]),
    ensures
        forall|gi: int|
            0 <= gi < group_rec(s, cap, count, current, done).len() ==> is_sorted_by_deadline(
                #[trigger] group_rec(s, cap, count, current, done)[gi],
            ),
    decreases s.len(),
{
    let out = group_rec(s, cap, count, current, done);
    assert forall|i: int, k: int| 0 <= i <= k < current.len() implies deadline_of(current[i])
        <= deadline_of(current[k]) by {
        assert(current[i] == (current + s)[i]);
        assert(current[k] == (current + s)[k]);
    }
    assert(is_sorted_by_deadline(current));
    if s.len() == 0 {
        if current.len() != 0 {
            assert(out == done.push(current));
            assert forall|gi: int| 0 <= gi < out.len() implies is_sorted_by_deadline(
                #[trigger] out[gi],
            ) by {
                if gi < done.len() {
                    assert(out[gi] == done[gi]);
                } else {
                    assert(out[gi] == current);
                }
            }
        } else {
            assert(out == done);
            assert forall|gi: int| 0 <= gi < out.len() implies is_sorted_by_deadline(
                #[trigger] out[gi],
            ) by {
                assert(out[gi] == done[gi]);
            }
        }
    } else {
        let j = s[0];
        if count + j.estimated_time > cap {
            let done2 = if current.len() == 0 {
                done
            } else {
                done.push(current)
            };
            assert forall|gi: int| 0 <= gi < done2.len() implies is_sorted_by_deadline(
                #[trigger] done2[gi],
            ) by {
                if gi < done.len() {
                    assert(done2[gi] == done[gi]);
                } else {
                    assert(done2[gi] == current);
                }
            }
            assert(seq![j] + s.drop_first() =~= s);
            assert forall|i: int, k: int| 0 <= i <= k < s.len() implies deadline_of(s[i])
                <= deadline_of(s[k]) by {
                assert(s[i] == (current + s)[current.len() + i]);
                assert(s[k] == (current + s)[current.len() + k]);
            }
            lemma_group_rec_sorted(s.drop_first(), cap, 0, seq![j], done2);
            let inner = group_rec(s.drop_first(), cap, 0, seq![j], done2);
            assert(out == inner);
            assert forall|gi: int| 0 <= gi < out.len() implies is_sorted_by_deadline(
                #[trigger] out[gi],
            ) by {
                assert(out[gi] == inner[gi]);
            }
        } else {
            assert(current.push(j) + s.drop_first() =~= current + s);
            lemma_group_rec_sorted(s.drop_first(), cap, count + j.estimated_time, current.push(j), done);
            let inner = group_rec(s.drop_first(), cap, count + j.estimated_time, current.push(j), done);
            assert(out == inner);
            assert forall|gi: int| 0 <= gi < out.len() implies is_sorted_by_deadline(
                #[trigger] out[gi],
            ) by {
                assert(out[gi] == inner[gi]);
            }
        }
    }
}

/// Within every group, deadlines are non-decreasing; and laid end to end the
/// groups are exactly the stable sort of the filtered input, so jobs with
/// equal deadlines keep their original relative order: each deadline class
/// of the schedule equals the same class of the filtered input.
pub proof fn lemma_stable_deadline_ordering(w: ExecutionWindow, s: Seq<Job>, cap: int)
    ensures
        forall|gi: int|
            0 <= gi < spec_order(w, s, cap).len() ==> is_sorted_by_deadline(
                #[trigger] spec_order(w, s, cap)[gi],
            ),
        spec_order(w, s, cap).flatten() == sort_by_deadline(within_window(w, s)),
        forall|d: int|
            with_deadline(spec_order(w, s, cap).flatten(), d) == with_deadline(
                within_window(w, s),
                d,
            ),
{
    let filtered = within_window(w, s);
    let sorted = sort_by_deadline(filtered);
    lemma_sort_sorted(filtered);
    assert(Seq::<Job>::empty() + sorted =~= sorted);
    lemma_group_rec_sorted(sorted, cap, 0, Seq::empty(), Seq::empty());
    lemma_group_rec_flatten(sorted, cap, 0, Seq::empty(), Seq::empty());
    assert(Seq::<Seq<Job>>::empty().flatten() + Seq::<Job>::empty() + sorted =~= sorted);
    assert forall|d: int| with_deadline(spec_order(w, s, cap).flatten(), d) == with_deadline(
        filtered,
        d,
    ) by {
        lemma_sort_stable(filtered, d);
    }
}

proof fn lemma_duration_sum_take_succ(g: Seq<Job>, m: int)
    requires
        0 <= m < g.len(),
    ensures
        duration_sum(g.take(m + 1)) == duration_sum(g.take(m)) + g[m].estimated_time,
{
    assert(g.take(m + 1).drop_last() =~= g.take(m));
    assert(g.take(m + 1).last() == g[m]);
}

/// Prefix sums of non-negative durations are monotone.
proof fn lemma_duration_sum_take_mono(g: Seq<Job>, m: int, n: int)
    requires
        0 <= m <= n <= g.len(),
    ensures
        duration_sum(g.take(m)) <= duration_sum(g.take(n)),
    decreases n - m,
{
    if m < n {
        lemma_duration_sum_take_succ(g, m);
        lemma_duration_sum_take_mono(g, m + 1, n);
    }
}

proof fn lemma_group_rec_threshold(
    s: Seq<Job>,
    cap: int,
    count: int,
    current: Seq<Job>,
    done: Seq<Seq<Job>>,
)
    requires
        0 <= cap,
        0 <= count <= cap,
        current.len() == 0 ==> done.len() == 0 && count == 0,
        current.len() > 0 ==> duration_sum(current.drop_first()) <= count,
        current.len() > 0 ==> count <= duration_sum(current),
        forall|gi: int| 0 <= gi < done.len() ==> (#[trigger] done[gi]).len() > 0,
        forall|gi: int|
            0 <= gi < done.len() ==> duration_sum((#[trigger] done[gi]).drop_first()) <= cap,
        forall|gi: int|
            0 <= gi < done.len() - 1 ==> duration_sum(#[trigger] done[gi])
                + done[gi + 1][0].estimated_time > cap,
        done.len() > 0 && current.len() > 0 ==> duration_sum(done.last())
            + current[0].estimated_time > cap,
    ensures
        forall|gi: int|
            0 <= gi < group_rec(s, cap, count, current, done).len() ==> (#[trigger] group_rec(
                s,
                cap,
                count,
                current,
                done,
            )[gi]).len() > 0,
        forall|gi: int|
            0 <= gi < group_rec(s, cap, count, current, done).len() ==> duration_sum(
                (#[trigger] group_rec(s, cap, count, current, done)[gi]).drop_first(),
            ) <= cap,
        forall|gi: int|
            0 <= gi < group_rec(s, cap, count, current, done).len() - 1 ==> duration_sum(
                #[trigger] group_rec(s, cap, count, current, done)[gi],
            ) + group_rec(s, cap, count, current, done)[gi + 1][0].estimated_time > cap,
    decreases s.len(),
{
    let out = group_rec(s, cap, count, current, done);
    if s.len() == 0 {
        if current.len() != 0 {
            assert(out == done.push(current));
            assert forall|gi: int|
                0 <= gi < out.len() implies (#[trigger] out[gi]).len() > 0 && duration_sum(
                out[gi].drop_first(),
            ) <= cap by {
                if gi < done.len() {
                    assert(out[gi] == done[gi]);
                } else {
                    assert(out[gi] == current);
                }
            }
            assert forall|gi: int| 0 <= gi < out.len() - 1 implies duration_sum(
                #[trigger] out[gi],
            ) + out[gi + 1][0].estimated_time > cap by {
                assert(out[gi] == done[gi]);
                if gi < done.len() - 1 {
                    assert(out[gi + 1] == done[gi + 1]);
                } else {
                    assert(out[gi + 1] == current);
                    assert(done[gi] == done.last());
                }
            }
        } else {
            assert(out == done);
            assert(out.len() == 0);
        }
    } else {
        let j = s[0];
        if count + j.estimated_time > cap {
            let done2 = if current.len() == 0 {
                done
            } else {
                done.push(current)
            };
            assert(seq![j].drop_first() =~= Seq::<Job>::empty());
            assert(seq![j].drop_last() =~= Seq::<Job>::empty());
            assert(duration_sum(Seq::<Job>::empty()) == 0);
            assert(duration_sum(seq![j]) == j.estimated_time);
            if current.len() != 0 {
                assert forall|gi: int|
                    0 <= gi < done2.len() implies (#[trigger] done2[gi]).len() > 0
                    && duration_sum(done2[gi].drop_first()) <= cap by {
                    if gi < done.len() {
                        assert(done2[gi] == done[gi]);
                    } else {
                        assert(done2[gi] == current);
                    }
                }
                assert forall|gi: int| 0 <= gi < done2.len() - 1 implies duration_sum(
                    #[trigger] done2[gi],
                ) + done2[gi + 1][0].estimated_time > cap by {
                    assert(done2[gi] == done[gi]);
                    if gi < done.len() - 1 {
                        assert(done2[gi + 1] == done[gi + 1]);
                    } else {
                        assert(done2[gi + 1] == current);
                        assert(done[gi] == done.last());
                    }
                }
                assert(done2.last() == current);
                assert(seq![j][0] == j);
                assert(duration_sum(current) + j.estimated_time > cap);
            }
            lemma_group_rec_threshold(s.drop_first(), cap, 0, seq![j], done2);
            let inner = group_rec(s.drop_first(), cap, 0, seq![j], done2);
            assert(out == inner);
            assert forall|gi: int|
                0 <= gi < out.len() implies (#[trigger] out[gi]).len() > 0 && duration_sum(
                out[gi].drop_first(),
            ) <= cap && (gi < out.len() - 1 ==> duration_sum(out[gi])
                + out[gi + 1][0].estimated_time > cap) by {
                assert(out[gi] == inner[gi]);
                if gi < out.len() - 1 {
                    assert(out[gi + 1] == inner[gi + 1]);
                }
            }
        } else {
            let cur2 = current.push(j);
            assert(cur2.drop_last() =~= current);
            assert(duration_sum(cur2) == duration_sum(current) + j.estimated_time);
            if current.len() == 0 {
                assert(cur2.drop_first() =~= Seq::<Job>::empty());
            } else {
                assert(cur2.drop_first() =~= current.drop_first().push(j));
                assert(current.drop_first().push(j).drop_last() =~= current.drop_first());
                assert(duration_sum(cur2.drop_first()) == duration_sum(current.drop_first())
                    + j.estimated_time);
                assert(cur2[0] == current[0]);
            }
            lemma_group_rec_threshold(s.drop_first(), cap, count + j.estimated_time, cur2, done);
            let inner = group_rec(s.drop_first(), cap, count + j.estimated_time, cur2, done);
            assert(out == inner);
            assert forall|gi: int|
                0 <= gi < out.len() implies (#[trigger] out[gi]).len() > 0 && duration_sum(
                out[gi].drop_first(),
            ) <= cap && (gi < out.len() - 1 ==> duration_sum(out[gi])
                + out[gi + 1][0].estimated_time > cap) by {
                assert(out[gi] == inner[gi]);
                if gi < out.len() - 1 {
                    assert(out[gi + 1] == inner[gi + 1]);
                }
            }
        }
    }
}

/// Threshold policy. No group is empty. Past its opening job, a group's
/// running total never leaves the capacity: every prefix of the remainder
/// sums to at most `cap`, so a total exactly equal to the threshold keeps
/// accumulating. And a boundary is only ever drawn by a strict excess: the
/// job that opens the next group pushed the closing group's running total —
/// bounded above by that group's full duration — strictly past `cap`.
pub proof fn lemma_threshold_policy(w: ExecutionWindow, s: Seq<Job>, cap: int)
    requires
        0 <= cap,
    ensures
        forall|gi: int|
            0 <= gi < spec_order(w, s, cap).len() ==> (#[trigger] spec_order(w, s, cap)[gi]).len()
                > 0,
        forall|gi: int, m: int|
            0 <= gi < spec_order(w, s, cap).len() && 0 <= m < spec_order(w, s, cap)[gi].len()
                ==> duration_sum(#[trigger] spec_order(w, s, cap)[gi].drop_first().take(m))
                <= cap,
        forall|gi: int|
            0 <= gi < spec_order(w, s, cap).len() - 1 ==> duration_sum(
                #[trigger] spec_order(w, s, cap)[gi],
            ) + spec_order(w, s, cap)[gi + 1][0].estimated_time > cap,
{
    let sorted = sort_by_deadline(within_window(w, s));
    let out = spec_order(w, s, cap);
    lemma_group_rec_threshold(sorted, cap, 0, Seq::empty(), Seq::empty());
    assert forall|gi: int, m: int|
        0 <= gi < out.len() && 0 <= m < out[gi].len() implies duration_sum(
        out[gi].drop_first().take(m),
    ) <= cap by {
        let tail = out[gi].drop_first();
        lemma_duration_sum_take_mono(tail, m, tail.len() as int);
        assert(tail.take(tail.len() as int) =~= tail);
    }
}

proof fn lemma_filter_all(s: Seq<Job>, pred: spec_fn(Job) -> bool)
    requires
        forall|i: int| 0 <= i < s.len() ==> pred(#[trigger] s[i]),
    ensures
        s.filter(pred) == s,
    decreases s.len(),
{
    reveal(Seq::filter);
    if s.len() == 0 {
        assert(s.filter(pred) =~= s);
    } else {
        lemma_filter_all(s.drop_last(), pred);
        assert(s.drop_last().filter(pred).push(s.last()) =~= s);
    }
}

/// Running the window filter twice yields the same sequence as running it
/// once: filtering is idempotent.
pub proof fn lemma_filter_idempotent(w: ExecutionWindow, s: Seq<Job>)
    ensures
        within_window(w, within_window(w, s)) == within_window(w, s),
{
    let filtered = within_window(w, s);
    assert forall|i: int| 0 <= i < filtered.len() implies w.spec_is_within(filtered[i]) by {
        s.lemma_filter_pred(|j: Job| w.spec_is_within(j), i);
    }
    lemma_filter_all(filtered, |j: Job| w.spec_is_within(j));
}

} // verus!
