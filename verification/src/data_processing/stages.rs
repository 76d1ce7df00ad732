//! The stages in which elements are processed: runs of elements of the same priority,
//! some of them in batches side by side.

use vstd::arithmetic::div_mod::*;
use vstd::prelude::*;

verus! {

/// The first priority whose elements are processed side by side.
pub const PARALLEL_PRIORITY_THRESHOLD: usize = 1;

/// The first priority after that whose elements are processed one by one.
pub const SEQUENTIAL_PRIORITY_THRESHOLD: usize = 6;

/// The number of threads where the machine does not tell.
pub const DEFAULT_THREAD_COUNT: usize = 4;

/// Elements of the priority are processed side by side.
pub open spec fn is_parallel(priority: usize) -> bool {
    PARALLEL_PRIORITY_THRESHOLD <= priority < SEQUENTIAL_PRIORITY_THRESHOLD
}

/// Whether elements of the priority are processed side by side.
pub fn should_parallelize_priority(priority: usize) -> (parallel: bool)
    ensures
        parallel == is_parallel(priority),
{
    PARALLEL_PRIORITY_THRESHOLD <= priority && priority < SEQUENTIAL_PRIORITY_THRESHOLD
}

/// The number of threads to plan for, from what the machine tells.
pub fn thread_count(available: Option<usize>) -> (threads: usize)
    ensures
        threads == match available {
            Some(0) => 1,
            Some(n) => n,
            None => DEFAULT_THREAD_COUNT,
        },
{
    match available {
        Some(n) => if n == 0 {
            1
        } else {
            n
        },
        None => DEFAULT_THREAD_COUNT,
    }
}

/// The least integer that is not under `n / d`.
pub open spec fn parts_of(n: int, d: int) -> int {
    if n % d == 0 {
        n / d
    } else {
        n / d + 1
    }
}

/// The most batches that a stage is cut into: two for each thread, but no more than it has
/// elements.
pub open spec fn batch_limit(len: int, threads: int) -> int {
    if threads * 2 < 1 {
        1
    } else if threads * 2 < len {
        threads * 2
    } else {
        len
    }
}

/// A run of elements of the same priority.
#[derive(Clone, Copy, Debug, PartialEq, Eq, Structural)]
pub struct Stage {
    /// The number of the first element.
    pub start: usize,
    /// The number after that of the last element.
    pub end: usize,
    /// The size of the batches that are processed side by side. Without one the elements are
    /// processed one by one.
    pub batch_size: Option<usize>,
}

impl Stage {
    /// The stage is a run of elements of one priority that neither of its neighbours has,
    /// and its batches are as the priority and the number of threads ask.
    pub open spec fn is_run(self, priorities: Seq<usize>, threads: int) -> bool {
        let len = self.end - self.start;
        &&& 0 <= self.start < self.end <= priorities.len()
        &&& forall|i: int|
            self.start <= i < self.end ==> #[trigger] priorities[i] == priorities[self.start as int]
        &&& self.end < priorities.len() ==> priorities[self.end as int]
            != priorities[self.start as int]
        &&& match self.batch_size {
            Some(size) => is_parallel(priorities[self.start as int]) && len > 1 && size == parts_of(
                len,
                batch_limit(len, threads),
            ),
            None => !is_parallel(priorities[self.start as int]) || len == 1,
        }
    }
}

/// The stages are all the runs of elements of the same priority, in order, up to the
/// element with the given number.
pub open spec fn is_plan_up_to(
    stages: Seq<Stage>,
    priorities: Seq<usize>,
    threads: int,
    end: int,
) -> bool {
    &&& forall|s: int| 0 <= s < stages.len() ==> (#[trigger] stages[s]).is_run(priorities, threads)
    &&& stages.len() == 0 <==> end == 0
    &&& stages.len() > 0 ==> stages[0].start == 0 && stages.last().end == end
    &&& forall|s: int, t: int|
        0 <= s && t == s + 1 && t < stages.len() ==> (#[trigger] stages[s]).end == (
        #[trigger] stages[t]).start
}

/// The stages are all the runs of elements of the same priority, in order.
pub open spec fn is_plan(stages: Seq<Stage>, priorities: Seq<usize>, threads: int) -> bool {
    is_plan_up_to(stages, priorities, threads, priorities.len() as int)
}

/// The size of the batches of a stage with the given priority and number of elements.
fn batch_size(priority: usize, len: usize, threads: usize) -> (size: Option<usize>)
    requires
        len > 0,
        threads * 2 <= usize::MAX,
    ensures
        match size {
            Some(size) => is_parallel(priority) && len > 1 && size == parts_of(
                len as int,
                batch_limit(len as int, threads as int),
            ),
            None => !is_parallel(priority) || len == 1,
        },
{
    if !should_parallelize_priority(priority) || len <= 1 {
        return None;
    }
    let doubled: usize = threads * 2;
    let limit: usize = if doubled < 1 {
        1
    } else if doubled < len {
        doubled
    } else {
        len
    };
    proof {
        lemma_div_is_ordered_by_denominator(len as int, 1, limit as int);
        if len % limit != 0 && limit == 1 {
            assert(len as int % 1 == 0);
        }
        if limit > 1 {
            lemma_div_decreases(len as int, limit as int);
        }
    }
    let whole: usize = len / limit;
    if len % limit == 0 {
        Some(whole)
    } else {
        Some(whole + 1)
    }
}

/// The stages for elements of the given priorities.
pub fn plan_stages(priorities: &Vec<usize>, threads: usize) -> (stages: Vec<Stage>)
    requires
        threads * 2 <= usize::MAX,
    ensures
        is_plan(stages@, priorities@, threads as int),
{
    let mut stages: Vec<Stage> = Vec::new();
    let mut start: usize = 0;
    while start < priorities.len()
        invariant
            threads * 2 <= usize::MAX,
            start <= priorities@.len(),
            is_plan_up_to(stages@, priorities@, threads as int, start as int),
        decreases priorities@.len() - start,
    {
        let priority: usize = priorities[start];
        let mut end: usize = start + 1;
        while end < priorities.len() && priorities[end] == priority
            invariant
                start < end <= priorities@.len(),
                priority == priorities@[start as int],
                forall|i: int| start <= i < end ==> #[trigger] priorities@[i] == priority,
            decreases priorities@.len() - end,
        {
            end = end + 1;
        }
        let batch_size = batch_size(priority, end - start, threads);
        stages.push(Stage { start, end, batch_size });
        start = end;
    }
    stages
}

/// Every element is processed in exactly one stage.
pub proof fn law_every_element_in_one_stage(
    stages: Seq<Stage>,
    priorities: Seq<usize>,
    threads: int,
    element: int,
)
    requires
        is_plan(stages, priorities, threads),
        0 <= element < priorities.len(),
    ensures
        exists|s: int|
            0 <= s < stages.len() && (#[trigger] stages[s]).start <= element < stages[s].end,
        forall|s: int, t: int|
            0 <= s < stages.len() && 0 <= t < stages.len() && (#[trigger] stages[s]).start
                <= element < stages[s].end && (#[trigger] stages[t]).start <= element
                < stages[t].end ==> s == t,
{
    let end = priorities.len() as int;
    lemma_found(stages, priorities, threads, end, element);
    assert forall|s: int, t: int|
        0 <= s < stages.len() && 0 <= t < stages.len() && (#[trigger] stages[s]).start <= element
            < stages[s].end && (#[trigger] stages[t]).start <= element < stages[t].end implies s
        == t by {
        if s < t {
            lemma_in_order(stages, priorities, threads, end, s, t);
        } else if t < s {
            lemma_in_order(stages, priorities, threads, end, t, s);
        }
    }
}

proof fn lemma_found(
    stages: Seq<Stage>,
    priorities: Seq<usize>,
    threads: int,
    end: int,
    element: int,
)
    requires
        is_plan_up_to(stages, priorities, threads, end),
        0 <= element < end,
    ensures
        exists|s: int|
            0 <= s < stages.len() && (#[trigger] stages[s]).start <= element < stages[s].end,
    decreases stages.len(),
{
    let last = stages.last();
    assert(stages[stages.len() - 1].is_run(priorities, threads));
    if element < last.start {
        let shorter = stages.drop_last();
        if shorter.len() > 0 {
            assert(stages[stages.len() - 2].end == stages[stages.len() - 1].start);
        }
        lemma_found(shorter, priorities, threads, last.start as int, element);
        let s = choose|s: int|
            0 <= s < shorter.len() && (#[trigger] shorter[s]).start <= element < shorter[s].end;
        assert(stages[s].start <= element < stages[s].end);
    } else {
        assert(stages[stages.len() - 1].start <= element < stages[stages.len() - 1].end);
    }
}

proof fn lemma_in_order(
    stages: Seq<Stage>,
    priorities: Seq<usize>,
    threads: int,
    end: int,
    s: int,
    t: int,
)
    requires
        is_plan_up_to(stages, priorities, threads, end),
        0 <= s < t < stages.len(),
    ensures
        stages[s].end <= stages[t].start,
    decreases t - s,
{
    if t > s + 1 {
        lemma_in_order(stages, priorities, threads, end, s, t - 1);
        assert(stages[t - 1].is_run(priorities, threads));
        assert(stages[t - 1].end == stages[t].start);
    }
}

/// Elements are processed side by side exactly if their priority is from one to five and
/// there are several of them.
pub proof fn law_parallel_stages(
    stages: Seq<Stage>,
    priorities: Seq<usize>,
    threads: int,
    s: int,
)
    requires
        is_plan(stages, priorities, threads),
        0 <= s < stages.len(),
    ensures
        stages[s].batch_size is Some <==> 1 <= priorities[stages[s].start as int] <= 5
            && stages[s].end - stages[s].start >= 2,
{
    assert(stages[s].is_run(priorities, threads));
}

/// A stage takes in all neighbouring elements of its priority: two elements that follow one
/// another are in one stage exactly if their priorities are equal.
pub proof fn law_stages_part_priorities(
    stages: Seq<Stage>,
    priorities: Seq<usize>,
    threads: int,
    s: int,
    element: int,
)
    requires
        is_plan(stages, priorities, threads),
        0 <= s < stages.len(),
        stages[s].start <= element < stages[s].end,
        element + 1 < priorities.len(),
    ensures
        element + 1 < stages[s].end <==> priorities[element] == priorities[element + 1],
{
    assert(stages[s].is_run(priorities, threads));
    assert(priorities[element] == priorities[stages[s].start as int]);
    if element + 1 < stages[s].end {
        assert(priorities[element + 1] == priorities[stages[s].start as int]);
    }
}

/// Batches are as small as they can be: with smaller ones there would be more than two for
/// each thread, or more than there are elements.
pub proof fn law_batches_smallest(
    stages: Seq<Stage>,
    priorities: Seq<usize>,
    threads: int,
    s: int,
    size: int,
)
    requires
        is_plan(stages, priorities, threads),
        threads > 0,
        0 <= s < stages.len(),
        stages[s].batch_size is Some,
        0 < size < stages[s].batch_size->0,
    ensures
        size * (threads * 2) < stages[s].end - stages[s].start || size * (stages[s].end
            - stages[s].start) < stages[s].end - stages[s].start,
{
    let stage = stages[s];
    assert(stage.is_run(priorities, threads));
    let len = stage.end - stage.start;
    let limit = batch_limit(len, threads);
    lemma_fundamental_div_mod(len, limit);
    let q = len / limit;
    let r = len % limit;
    assert(size * limit < len) by (nonlinear_arith)
        requires
            len == limit * q + r,
            0 <= r < limit,
            size < (if r == 0 {
                q
            } else {
                q + 1
            }),
    ;
}

/// A stage has at most two batches for each thread, and none of its batches is empty.
pub proof fn law_batches_bounded(
    stages: Seq<Stage>,
    priorities: Seq<usize>,
    threads: int,
    s: int,
)
    requires
        is_plan(stages, priorities, threads),
        threads > 0,
        0 <= s < stages.len(),
    ensures
        stages[s].batch_size matches Some(size) ==> {
            &&& 0 < size <= stages[s].end - stages[s].start
            &&& parts_of(stages[s].end - stages[s].start, size as int) <= threads * 2
        },
{
    let stage = stages[s];
    assert(stage.is_run(priorities, threads));
    if let Some(size) = stage.batch_size {
        let len = stage.end - stage.start;
        let limit = batch_limit(len, threads);
        lemma_fundamental_div_mod(len, limit);
        lemma_fundamental_div_mod(len, size as int);
        let q = len / limit;
        let r = len % limit;
        assert(0 <= r < limit);
        assert(q >= 1) by {
            lemma_div_is_ordered(limit, len, limit);
            lemma_div_by_self(limit);
        }
        assert(limit * size >= len) by (nonlinear_arith)
            requires
                len == limit * q + r,
                0 <= r < limit,
                size == (if r == 0 {
                    q
                } else {
                    q + 1
                }),
        ;
        let p = len / (size as int);
        let rest = len % (size as int);
        assert(parts_of(len, size as int) <= limit) by (nonlinear_arith)
            requires
                limit * size >= len,
                len == size * p + rest,
                0 <= rest < size,
                size >= 1,
                parts_of(len, size as int) == (if rest == 0 {
                    p
                } else {
                    p + 1
                }),
        ;
        assert(size <= len) by (nonlinear_arith)
            requires
                len == limit * q + r,
                0 <= r < limit,
                q >= 1,
                limit >= 1,
                size == (if r == 0 {
                    q
                } else {
                    q + 1
                }),
        ;
    }
}

} // verus!
