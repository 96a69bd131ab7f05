use vstd::prelude::*;

use crate::job::Job;
use itertools::Itertools;

verus! {

/// The deadline of a job, as an instant.
pub open spec fn deadline_of(j: Job) -> int {
    j.max_end_date.secs as int
}

/// Where a stable by-deadline sort places `j` in the already ordered `s`:
/// after every element with a strictly earlier deadline and before every
/// element with the same or a later one, so that `j` precedes all elements
/// of `s` that share its deadline.
pub open spec fn insert_by_deadline(j: Job, s: Seq<Job>) -> Seq<Job>
    decreases s.len(),
{
    if s.len() == 0 {
        seq![j]
    } else if deadline_of(j) <= deadline_of(s[0]) {
        seq![j] + s
    } else {
        seq![s[0]] + insert_by_deadline(j, s.drop_first())
    }
}

/// The stable sort of `s` by ascending deadline: each element is inserted,
/// in input order, in front of the later elements that share its deadline.
pub open spec fn sort_by_deadline(s: Seq<Job>) -> Seq<Job>
    decreases s.len(),
{
    if s.len() == 0 {
        s
    } else {
        insert_by_deadline(s[0], sort_by_deadline(s.drop_first()))
    }
}

/// Deadlines never decrease along `s`.
pub open spec fn is_sorted_by_deadline(s: Seq<Job>) -> bool {
    forall|i: int, k: int| 0 <= i <= k < s.len() ==> deadline_of(s[i]) <= deadline_of(s[k])
}

/// The subsequence of `s` whose deadline equals `d`, in the order of `s`.
pub open spec fn with_deadline(s: Seq<Job>, d: int) -> Seq<Job> {
    s.filter(|j: Job| deadline_of(j) == d)
}

/// Relies on `itertools::Itertools::sorted_by`: it collects the iterator
/// into a vector and sorts it with `Vec::sort_by`, a stable sort, so the
/// result is exactly the stable sort of the input by the comparator, here
/// the deadline. `sort_by_deadline` names that result: it is the unique
/// sequence that is ordered by deadline (`lemma_sort_sorted`) while keeping
/// every deadline class in its original relative order (`lemma_sort_stable`),
/// which is precisely what a stable sort returns.
#[verifier::external_body]
pub(crate) fn sort_jobs_by_deadline(jobs: Vec<Job>) -> (r: Vec<Job>)
    ensures
        r@ == sort_by_deadline(jobs@),
{
    jobs.into_iter().sorted_by(
        |a, b| Ord::cmp(&a.max_end_date.secs, &b.max_end_date.secs),
    ).collect()
}

proof fn lemma_insert_len(j: Job, s: Seq<Job>)
    ensures
        insert_by_deadline(j, s).len() == s.len() + 1,
    decreases s.len(),
{
    if s.len() != 0 && deadline_of(j) > deadline_of(s[0]) {
        lemma_insert_len(j, s.drop_first());
    }
}

/// Inserting keeps a sequence ordered.
proof fn lemma_insert_sorted(j: Job, s: Seq<Job>)
    requires
        is_sorted_by_deadline(s),
    ensures
        is_sorted_by_deadline(insert_by_deadline(j, s)),
    decreases s.len(),
{
    if s.len() == 0 {
    } else if deadline_of(j) <= deadline_of(s[0]) {
    } else {
        assert(is_sorted_by_deadline(s.drop_first()));
        lemma_insert_sorted(j, s.drop_first());
        lemma_insert_len(j, s.drop_first());
        let rest = insert_by_deadline(j, s.drop_first());
        let out = seq![s[0]] + rest;
        assert forall|i: int, k: int| 0 <= i <= k < out.len() implies deadline_of(out[i])
            <= deadline_of(out[k]) by {
            if i == 0 && k > 0 {
                lemma_insert_head_bound(j, s.drop_first(), k - 1);
            }
        }
    }
}

/// Every element of an insertion result is bounded below by the smaller of
/// the inserted element and the heads it passed; stated here as: each
/// element of `insert_by_deadline(j, s)` is `j` or an element of `s`.
proof fn lemma_insert_head_bound(j: Job, s: Seq<Job>, k: int)
    requires
        0 <= k < insert_by_deadline(j, s).len(),
    ensures
        insert_by_deadline(j, s)[k] == j || s.contains(insert_by_deadline(j, s)[k]),
    decreases s.len(),
{
    if s.len() == 0 {
    } else if deadline_of(j) <= deadline_of(s[0]) {
        if k > 0 {
            assert(s.contains(s[k - 1]));
        }
    } else {
        if k > 0 {
            lemma_insert_head_bound(j, s.drop_first(), k - 1);
            let x = insert_by_deadline(j, s.drop_first())[k - 1];
            if s.drop_first().contains(x) {
                let m = choose|m: int|
                    0 <= m < s.drop_first().len() && s.drop_first()[m] == x;
                assert(s[m + 1] == x);
                assert(s.contains(x));
            }
        }
    }
}

/// An element occurs in an insertion result exactly when it is the inserted
/// element or occurs in the original sequence.
proof fn lemma_insert_contains(j: Job, s: Seq<Job>, x: Job)
    ensures
        insert_by_deadline(j, s).contains(x) <==> (x == j || s.contains(x)),
    decreases s.len(),
{
    if s.len() == 0 {
        assert(seq![j].contains(x) <==> x == j) by {
            if x == j {
                assert(seq![j][0] == x);
            }
        }
    } else if deadline_of(j) <= deadline_of(s[0]) {
        assert(insert_by_deadline(j, s) == seq![j] + s);
        assert((seq![j] + s).contains(x) <==> (x == j || s.contains(x))) by {
            if (seq![j] + s).contains(x) {
                let m = choose|m: int| 0 <= m < (seq![j] + s).len() && (seq![j] + s)[m] == x;
                if m > 0 {
                    assert(s[m - 1] == x);
                }
            }
            if x == j {
                assert((seq![j] + s)[0] == x);
            }
            if s.contains(x) {
                let m = choose|m: int| 0 <= m < s.len() && s[m] == x;
                assert((seq![j] + s)[m + 1] == x);
            }
        }
    } else {
        lemma_insert_contains(j, s.drop_first(), x);
        let rest = insert_by_deadline(j, s.drop_first());
        let out = seq![s[0]] + rest;
        assert(out.contains(x) <==> (x == s[0] || rest.contains(x))) by {
            if out.contains(x) {
                let m = choose|m: int| 0 <= m < out.len() && out[m] == x;
                if m > 0 {
                    assert(rest[m - 1] == x);
                }
            }
            if x == s[0] {
                assert(out[0] == x);
            }
            if rest.contains(x) {
                let m = choose|m: int| 0 <= m < rest.len() && rest[m] == x;
                assert(out[m + 1] == x);
            }
        }
        assert(s.drop_first().contains(x) ==> s.contains(x)) by {
            if s.drop_first().contains(x) {
                let m = choose|m: int|
                    0 <= m < s.drop_first().len() && s.drop_first()[m] == x;
                assert(s[m + 1] == x);
            }
        }
        assert((x == s[0] || s.drop_first().contains(x)) <==> s.contains(x)) by {
            if s.contains(x) && x != s[0] {
                let m = choose|m: int| 0 <= m < s.len() && s[m] == x;
                assert(s.drop_first()[m - 1] == x);
            }
        }
    }
}

/// Sorting neither adds nor removes elements.
pub proof fn lemma_sort_contains(s: Seq<Job>, x: Job)
    ensures
        sort_by_deadline(s).contains(x) <==> s.contains(x),
    decreases s.len(),
{
    if s.len() != 0 {
        lemma_sort_contains(s.drop_first(), x);
        lemma_insert_contains(s[0], sort_by_deadline(s.drop_first()), x);
        assert((x == s[0] || s.drop_first().contains(x)) <==> s.contains(x)) by {
            if x == s[0] {
                assert(s.contains(x));
            }
            if s.drop_first().contains(x) {
                let m = choose|m: int|
                    0 <= m < s.drop_first().len() && s.drop_first()[m] == x;
                assert(s[m + 1] == x);
            }
            if s.contains(x) && x != s[0] {
                let m = choose|m: int| 0 <= m < s.len() && s[m] == x;
                assert(s.drop_first()[m - 1] == x);
            }
        }
    }
}

/// Restriction to one deadline distributes over concatenation.
proof fn lemma_with_deadline_add(a: Seq<Job>, b: Seq<Job>, d: int)
    ensures
        with_deadline(a + b, d) == with_deadline(a, d) + with_deadline(b, d),
{
    Seq::filter_distributes_over_add(a, b, |j: Job| deadline_of(j) == d);
}

/// Restriction of a single element keeps it exactly when its deadline is `d`.
proof fn lemma_with_deadline_singleton(j: Job, d: int)
    ensures
        with_deadline(seq![j], d) == if deadline_of(j) == d {
            seq![j]
        } else {
            Seq::<Job>::empty()
        },
{
    reveal_with_fuel(Seq::filter, 2);
    assert(seq![j].drop_last() =~= Seq::<Job>::empty());
    if deadline_of(j) == d {
        assert(with_deadline(seq![j], d) =~= seq![j]);
    } else {
        assert(with_deadline(seq![j], d) =~= Seq::<Job>::empty());
    }
}

/// Insertion passes only elements with strictly earlier deadlines, so the
/// inserted element lands in front of its whole deadline class and every
/// other class is untouched.
proof fn lemma_insert_with_deadline(j: Job, s: Seq<Job>, d: int)
    ensures
        with_deadline(insert_by_deadline(j, s), d) == if deadline_of(j) == d {
            seq![j] + with_deadline(s, d)
        } else {
            with_deadline(s, d)
        },
    decreases s.len(),
{
    lemma_with_deadline_singleton(j, d);
    if s.len() == 0 {
        reveal_with_fuel(Seq::filter, 1);
        assert(with_deadline(s, d) =~= Seq::<Job>::empty());
        if deadline_of(j) == d {
            assert(seq![j] + with_deadline(s, d) =~= seq![j]);
        }
    } else if deadline_of(j) <= deadline_of(s[0]) {
        lemma_with_deadline_add(seq![j], s, d);
        if deadline_of(j) != d {
            assert(Seq::<Job>::empty() + with_deadline(s, d) =~= with_deadline(s, d));
        }
    } else {
        lemma_insert_with_deadline(j, s.drop_first(), d);
        lemma_with_deadline_add(seq![s[0]], insert_by_deadline(j, s.drop_first()), d);
        lemma_with_deadline_singleton(s[0], d);
        assert(s =~= seq![s[0]] + s.drop_first());
        lemma_with_deadline_add(seq![s[0]], s.drop_first(), d);
        if deadline_of(j) == d {
            // The passed head has a strictly earlier deadline than `j`, so it
            // is outside the class of `d`.
            assert(deadline_of(s[0]) != d);
            assert(with_deadline(seq![s[0]], d) =~= Seq::<Job>::empty());
            assert(Seq::<Job>::empty() + (seq![j] + with_deadline(s.drop_first(), d)) =~= seq![j]
                + (Seq::<Job>::empty() + with_deadline(s.drop_first(), d)));
        }
    }
}

/// Stability: sorting preserves each deadline class as a subsequence, in its
/// original relative order.
pub proof fn lemma_sort_stable(s: Seq<Job>, d: int)
    ensures
        with_deadline(sort_by_deadline(s), d) == with_deadline(s, d),
    decreases s.len(),
{
    if s.len() != 0 {
        lemma_sort_stable(s.drop_first(), d);
        lemma_insert_with_deadline(s[0], sort_by_deadline(s.drop_first()), d);
        assert(s =~= seq![s[0]] + s.drop_first());
        lemma_with_deadline_add(seq![s[0]], s.drop_first(), d);
        lemma_with_deadline_singleton(s[0], d);
        if deadline_of(s[0]) != d {
            assert(Seq::<Job>::empty() + with_deadline(s.drop_first(), d) =~= with_deadline(
                s.drop_first(),
                d,
            ));
        }
    }
}

/// The sorted sequence is ordered by deadline.
pub proof fn lemma_sort_sorted(s: Seq<Job>)
    ensures
        is_sorted_by_deadline(sort_by_deadline(s)),
    decreases s.len(),
{
    if s.len() != 0 {
        lemma_sort_sorted(s.drop_first());
        lemma_insert_sorted(s[0], sort_by_deadline(s.drop_first()));
    }
}

} // verus!
