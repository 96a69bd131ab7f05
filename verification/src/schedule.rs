use vstd::prelude::*;

use crate::job::Job;
use crate::sort::sort_by_deadline;
use crate::sort::sort_jobs_by_deadline;
use crate::window::ExecutionWindow;

verus! {

/// The default capacity threshold: the cumulative estimated duration, in
/// hours, that a single group may reach before it is closed.
pub const MAX_TIME: u32 = 8;

/// The jobs of `s` that fit the window, in their original order.
pub open spec fn within_window(w: ExecutionWindow, s: Seq<Job>) -> Seq<Job> {
    s.filter(|j: Job| w.spec_is_within(j))
}

/// Total estimated duration of a sequence of jobs, in hours.
pub open spec fn duration_sum(s: Seq<Job>) -> int
    decreases s.len(),
{
    if s.len() == 0 {
        0
    } else {
        duration_sum(s.drop_last()) + s.last().estimated_time
    }
}

/// One left-to-right pass of the grouping: `current` is the open group,
/// `count` its running total, `done` the closed groups. Each job's duration
/// is added to the running total; while the total stays at or below `cap`
/// the job joins the open group, and the job that pushes the total strictly
/// past `cap` closes the open group and itself opens a fresh one, whose
/// counter restarts at zero — the overflowing job's own duration is not
/// carried into it.
pub open spec fn group_rec(
    s: Seq<Job>,
    cap: int,
    count: int,
    current: Seq<Job>,
    done: Seq<Seq<Job>>,
) -> Seq<Seq<Job>>
    decreases s.len(),
{
    if s.len() == 0 {
        if current.len() == 0 {
            done
        } else {
            done.push(current)
        }
    } else if count + s[0].estimated_time > cap {
        group_rec(
            s.drop_first(),
            cap,
            0,
            seq![s[0]],
            (if current.len() == 0 {
                done
            } else {
                done.push(current)
            }),
        )
    } else {
        group_rec(s.drop_first(), cap, count + s[0].estimated_time, current.push(s[0]), done)
    }
}

/// Partition of `s` into contiguous groups under the capacity threshold.
pub open spec fn group_by_capacity(s: Seq<Job>, cap: int) -> Seq<Seq<Job>> {
    group_rec(s, cap, 0, Seq::empty(), Seq::empty())
}

/// The whole pipeline: keep the jobs inside the window, sort them stably by
/// ascending deadline, then pack them into groups under the capacity.
pub open spec fn spec_order(w: ExecutionWindow, s: Seq<Job>, cap: int) -> Seq<Seq<Job>> {
    group_by_capacity(sort_by_deadline(within_window(w, s)), cap)
}

/// Filtering one more element extends the filtered prefix by it exactly when
/// it satisfies the predicate.
proof fn lemma_filter_take_succ(s: Seq<Job>, pred: spec_fn(Job) -> bool, i: int)
    requires
        0 <= i < s.len(),
    ensures
        s.take(i + 1).filter(pred) == if pred(s[i]) {
            s.take(i).filter(pred).push(s[i])
        } else {
            s.take(i).filter(pred)
        },
{
    reveal(Seq::filter);
    assert(s.take(i + 1).drop_last() =~= s.take(i));
    assert(s.take(i + 1).last() == s[i]);
}

pub struct Schedule;

impl Schedule {
    /// Groups the eligible jobs under the default capacity threshold. Every
    /// job's derived start date must fit the timestamp representation; the
    /// underlying date arithmetic would overflow otherwise.
    pub fn order(window: &ExecutionWindow, jobs: &Vec<Job>) -> (r: Vec<Vec<Job>>)
        requires
            forall|i: int|
                0 <= i < jobs@.len() ==> (#[trigger] jobs@[i]).start_date_representable(),
        ensures
            r@.map_values(|g: Vec<Job>| g@) == spec_order(*window, jobs@, MAX_TIME as int),
    {
        Self::order_with_capacity(window, jobs, MAX_TIME)
    }

    /// Groups the eligible jobs under an explicit capacity threshold:
    /// filters by window membership, sorts stably by ascending deadline, and
    /// packs the result left to right. A job whose duration keeps the
    /// running total at or below `capacity` joins the open group; the job
    /// that pushes the total strictly past `capacity` closes that group and
    /// itself opens the next one, with the counter restarted at zero.
    pub fn order_with_capacity(window: &ExecutionWindow, jobs: &Vec<Job>, capacity: u32) -> (r:
        Vec<Vec<Job>>)
        requires
            forall|i: int|
                0 <= i < jobs@.len() ==> (#[trigger] jobs@[i]).start_date_representable(),
        ensures
            r@.map_values(|g: Vec<Job>| g@) == spec_order(*window, jobs@, capacity as int),
    {
        let mut filtered: Vec<Job> = Vec::new();
        let mut i: usize = 0;
        while i < jobs.len()
            invariant
                i <= jobs.len(),
                forall|t: int|
                    0 <= t < jobs@.len() ==> (#[trigger] jobs@[t]).start_date_representable(),
                filtered@ == within_window(*window, jobs@.take(i as int)),
            decreases jobs@.len() - i,
        {
            if window.is_within(&jobs[i]) {
                filtered.push(jobs[i].clone());
            }
            proof {
                lemma_filter_take_succ(jobs@, |j: Job| window.spec_is_within(j), i as int);
            }
            i += 1;
        }
        proof {
            assert(jobs@.take(jobs@.len() as int) =~= jobs@);
        }
        let sorted = sort_jobs_by_deadline(filtered);
        let ghost s = sorted@;
        let mut groups: Vec<Vec<Job>> = Vec::new();
        let mut current: Vec<Job> = Vec::new();
        let mut count: u64 = 0;
        let mut k: usize = 0;
        proof {
            assert(s.skip(0) =~= s);
            assert(groups@.map_values(|g: Vec<Job>| g@) =~= Seq::<Seq<Job>>::empty());
        }
        while k < sorted.len()
            invariant
                k <= sorted.len(),
                sorted@ == s,
                count <= capacity as u64,
                group_rec(
                    s.skip(k as int),
                    capacity as int,
                    count as int,
                    current@,
                    groups@.map_values(|g: Vec<Job>| g@),
                ) == group_by_capacity(s, capacity as int),
            decreases s.len() - k,
        {
            let ghost sk = s.skip(k as int);
            let ghost done0 = groups@.map_values(|g: Vec<Job>| g@);
            let ghost cur0 = current@;
            let j = sorted[k].clone();
            proof {
                assert(sk[0] == s[k as int]);
                assert(sk.drop_first() =~= s.skip(k as int + 1));
            }
            let add: u64 = j.estimated_time as u64;
            if count + add > capacity as u64 {
                let finished = current;
                current = Vec::new();
                if finished.len() > 0 {
                    groups.push(finished);
                }
                current.push(j);
                count = 0;
                proof {
                    assert(current@ =~= seq![j]);
                    if cur0.len() == 0 {
                        assert(groups@.map_values(|g: Vec<Job>| g@) == done0);
                    } else {
                        assert(groups@.map_values(|g: Vec<Job>| g@) =~= done0.push(cur0));
                    }
                }
            } else {
                current.push(j);
                count = count + add;
            }
            k += 1;
        }
        proof {
            assert(s.skip(s.len() as int) =~= Seq::<Job>::empty());
        }
        if current.len() > 0 {
            let ghost done1 = groups@.map_values(|g: Vec<Job>| g@);
            let ghost cur1 = current@;
            groups.push(current);
            proof {
                assert(groups@.map_values(|g: Vec<Job>| g@) =~= done1.push(cur1));
            }
        }
        groups
    }
}

} // verus!
