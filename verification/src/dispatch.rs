//! Handing out batches: workers take the next batch whenever they are idle,
//! until none is left.
use crate::batch::{
    expression_selects_exactly_the_listed, filter_expr, holds_test, is_listed, position_of_test,
    selects, splits, test_of_place, Batch,
};
use crate::nextest::{models, ListedTest};
use crate::progress::{batch_message, done_message, running_text};
use crate::remote::{run_command, test_command};
use crate::text::texts;
use std::collections::VecDeque;
use vstd::multiset::Multiset;
use vstd::prelude::*;

verus! {

/// What came of a batch.
pub struct BatchResult {
    /// The number of the batch.
    pub batch_index: usize,
    /// The exit code of the command, or why it could not be run.
    pub exit_code: Result<u32, String>,
    /// How long it took, in nanoseconds.
    pub elapsed: u128,
    /// What the command wrote.
    pub output: String,
}

/// A worker with the batch that it runs and the results that it has delivered.
pub struct Worker {
    pub hostname: String,
    pub running: Option<usize>,
    pub results: Vec<BatchResult>,
}

/// What an idle worker does next.
pub enum Step {
    /// Run a batch.
    Run {
        /// The number of the batch.
        index: usize,
        /// The command that runs it.
        command: String,
        /// What to show meanwhile.
        message: String,
    },
    /// Stop: there is no batch left.
    Done {
        /// What to show from now on.
        message: String,
    },
}

/// The batches that wait and the workers that take them.
pub struct Dispatch {
    pub queue: VecDeque<Batch>,
    pub workers: Vec<Worker>,
    pub release: bool,
    pub nextest_args: Vec<String>,
    /// The commands that were handed out, in their order.
    pub issued: Ghost<Seq<Seq<char>>>,
}

/// The numbers of a list of batches.
pub open spec fn batch_numbers(batches: Seq<Batch>) -> Seq<usize> {
    batches.map_values(|batch: Batch| batch.index)
}

/// The numbers of the batches that a list of results is about.
pub open spec fn result_numbers(results: Seq<BatchResult>) -> Seq<usize> {
    results.map_values(|result: BatchResult| result.batch_index)
}

/// The number of the batch that a worker runs, if any.
pub open spec fn running_numbers(worker: Worker) -> Multiset<usize> {
    match worker.running {
        Some(index) => Multiset::singleton(index),
        None => Multiset::empty(),
    }
}

/// The numbers of the batches that a worker runs or has run.
pub open spec fn taken_by(worker: Worker) -> Multiset<usize> {
    running_numbers(worker).add(result_numbers(worker.results@).to_multiset())
}

/// The numbers of the batches that any worker runs or has run.
pub open spec fn taken(workers: Seq<Worker>) -> Multiset<usize>
    decreases workers.len(),
{
    if workers.len() == 0 {
        Multiset::empty()
    } else {
        taken(workers.drop_last()).add(taken_by(workers.last()))
    }
}

/// The numbers of the batches that the workers have delivered results for.
pub open spec fn delivered(workers: Seq<Worker>) -> Multiset<usize>
    decreases workers.len(),
{
    if workers.len() == 0 {
        Multiset::empty()
    } else {
        delivered(workers.drop_last()).add(
            result_numbers(workers.last().results@).to_multiset(),
        )
    }
}

/// Whether the workers have the given names, and have not taken anything yet.
pub open spec fn idle_workers(hostnames: Seq<String>, workers: Seq<Worker>) -> bool {
    &&& workers.len() == hostnames.len()
    &&& forall|i: int|
        0 <= i < workers.len() ==> {
            &&& (#[trigger] workers[i]).hostname@ == hostnames[i]@
            &&& workers[i].running is None
            &&& workers[i].results@.len() == 0
        }
}

/// Changing what one worker has taken changes what all have taken by as much.
proof fn taken_update(workers: Seq<Worker>, i: int, worker: Worker)
    requires
        0 <= i < workers.len(),
    ensures
        taken(workers.update(i, worker)).add(taken_by(workers[i])) == taken(workers).add(
            taken_by(worker),
        ),
    decreases workers.len(),
{
    let changed = workers.update(i, worker);
    if i == workers.len() - 1 {
        assert(changed.drop_last() == workers.drop_last());
    } else {
        taken_update(workers.drop_last(), i, worker);
        assert(changed.drop_last() == workers.drop_last().update(i, worker));
    }
    let left = taken(changed).add(taken_by(workers[i]));
    let right = taken(workers).add(taken_by(worker));
    assert forall|v: usize| left.count(v) == right.count(v) by {
        if i < workers.len() - 1 {
            let head = workers.drop_last();
            assert(taken(head.update(i, worker)).add(taken_by(head[i])).count(v) == taken(
                head,
            ).add(taken_by(worker)).count(v));
            assert(changed.last() == workers.last());
        }
    }
    assert(left =~= right);
}

/// A worker that takes the first waiting batch only moves its number.
proof fn taking_keeps_account(before: Dispatch, after: Dispatch, i: int, batch: Batch)
    requires
        0 <= i < before.workers@.len(),
        before.queue@.len() > 0,
        before.queue@[0] == batch,
        after.queue@ == before.queue@.drop_first(),
        after.workers@ == before.workers@.update(i, after.workers@[i]),
        before.workers@[i].running is None,
        after.workers@[i].running == Some(batch.index),
        after.workers@[i].results == before.workers@[i].results,
    ensures
        after.accounted() == before.accounted(),
{
    broadcast use vstd::seq_lib::group_to_multiset_ensures;

    let index = batch.index;
    taken_update(before.workers@, i, after.workers@[i]);
    let first = Seq::<usize>::empty().push(index);
    assert(batch_numbers(before.queue@) == first + batch_numbers(after.queue@));
    vstd::seq_lib::lemma_multiset_commutative(first, batch_numbers(after.queue@));
    assert forall|v: usize| after.accounted().count(v) == before.accounted().count(v) by {
        assert(taken(after.workers@).add(taken_by(before.workers@[i])).count(v) == taken(
            before.workers@,
        ).add(taken_by(after.workers@[i])).count(v));
        assert(batch_numbers(before.queue@).to_multiset().count(v) == first.to_multiset().add(
            batch_numbers(after.queue@).to_multiset(),
        ).count(v));
        assert(first.to_multiset().count(v) == Multiset::singleton(index).count(v));
    }
    assert(after.accounted() =~= before.accounted());
}

/// A worker that delivers the result of its batch only moves its number.
proof fn delivering_keeps_account(before: Dispatch, after: Dispatch, i: int, result: BatchResult)
    requires
        0 <= i < before.workers@.len(),
        after.queue == before.queue,
        after.workers@ == before.workers@.update(i, after.workers@[i]),
        before.workers@[i].running == Some(result.batch_index),
        after.workers@[i].running is None,
        after.workers@[i].results@ == before.workers@[i].results@.push(result),
    ensures
        after.accounted() == before.accounted(),
{
    broadcast use vstd::seq_lib::group_to_multiset_ensures;

    let index = result.batch_index;
    taken_update(before.workers@, i, after.workers@[i]);
    assert(result_numbers(after.workers@[i].results@) == result_numbers(
        before.workers@[i].results@,
    ).push(index));
    assert forall|v: usize| after.accounted().count(v) == before.accounted().count(v) by {
        assert(taken(after.workers@).add(taken_by(before.workers@[i])).count(v) == taken(
            before.workers@,
        ).add(taken_by(after.workers@[i])).count(v));
    }
    assert(after.accounted() =~= before.accounted());
}

impl Dispatch {
    /// The numbers of all batches: those that wait and those that were taken.
    pub open spec fn accounted(&self) -> Multiset<usize> {
        batch_numbers(self.queue@).to_multiset().add(taken(self.workers@))
    }

    /// The command that runs a batch.
    pub open spec fn command_for(&self, batch: Batch) -> Seq<char> {
        test_command(self.release, batch.tests@, texts(self.nextest_args@))
    }

    /// Whether the batches are handed out one after the other: the commands that
    /// were handed out are those of the first batches, the rest of the batches
    /// waits, and the numbers of all are accounted for.
    pub open spec fn serves(&self, batches: Seq<Batch>) -> bool {
        &&& self.issued@.len() <= batches.len()
        &&& self.queue@ == batches.skip(self.issued@.len() as int)
        &&& forall|k: int|
            0 <= k < self.issued@.len() ==> #[trigger] self.issued@[k] == self.command_for(
                batches[k],
            )
        &&& self.accounted() == batch_numbers(batches).to_multiset()
    }

    /// Whether nothing waits and nothing runs.
    pub open spec fn finished(&self) -> bool {
        &&& self.queue@.len() == 0
        &&& forall|i: int| 0 <= i < self.workers@.len() ==> (#[trigger] self.workers@[i]).running is None
    }

    /// Whether only the worker at `i` differs from before, and keeps its name.
    pub open spec fn differs_at(&self, before: Dispatch, i: int) -> bool {
        &&& self.release == before.release
        &&& self.nextest_args == before.nextest_args
        &&& self.workers@.len() == before.workers@.len()
        &&& forall|j: int|
            0 <= j < self.workers@.len() && j != i ==> #[trigger] self.workers@[j]
                == before.workers@[j]
        &&& self.workers@[i].hostname == before.workers@[i].hostname
    }

    /// All batches wait, and the workers are idle.
    pub fn new(
        batches: VecDeque<Batch>,
        hostnames: Vec<String>,
        release: bool,
        nextest_args: Vec<String>,
    ) -> (dispatch: Self)
        ensures
            dispatch.queue@ == batches@,
            dispatch.release == release,
            dispatch.nextest_args == nextest_args,
            idle_workers(hostnames@, dispatch.workers@),
            dispatch.workers@.len() == hostnames@.len(),
            forall|i: int|
                0 <= i < hostnames@.len() ==> (#[trigger] dispatch.workers@[i]).hostname@
                    == hostnames@[i]@ && dispatch.workers@[i].running is None
                    && dispatch.workers@[i].results@.len() == 0,
            dispatch.issued@ == Seq::<Seq<char>>::empty(),
            dispatch.serves(batches@),
    {
        broadcast use vstd::seq_lib::group_to_multiset_ensures;

        let mut workers: Vec<Worker> = Vec::new();
        let mut i: usize = 0;
        while i < hostnames.len()
            invariant
                i <= hostnames@.len(),
                workers@.len() == i,
                forall|j: int|
                    0 <= j < i ==> {
                        &&& (#[trigger] workers@[j]).hostname@ == hostnames@[j]@
                        &&& workers@[j].running is None
                        &&& workers@[j].results@.len() == 0
                    },
                taken(workers@) == Multiset::<usize>::empty(),
            decreases hostnames@.len() - i,
        {
            let ghost before = workers@;
            let worker = Worker {
                hostname: hostnames[i].clone(),
                running: None,
                results: Vec::new(),
            };
            proof {
                broadcast use vstd::seq_lib::group_to_multiset_ensures;

                assert(result_numbers(worker.results@) == Seq::<usize>::empty());
                assert(before.push(worker).drop_last() == before);
                assert(taken(before.push(worker)) =~= Multiset::<usize>::empty());
            }
            workers.push(worker);
            i += 1;
        }
        let dispatch = Dispatch {
            queue: batches,
            workers,
            release,
            nextest_args,
            issued: Ghost(Seq::empty()),
        };
        assert(batches@.skip(0) == batches@);
        assert(dispatch.accounted() =~= batch_numbers(batches@).to_multiset());
        dispatch
    }

    /// What an idle worker does next: it takes the batch that has waited
    /// longest, or stops where none is left.
    pub fn next_step(&mut self, worker: usize) -> (step: Step)
        requires
            worker < old(self).workers@.len(),
            old(self).workers@[worker as int].running is None,
        ensures
            final(self).accounted() == old(self).accounted(),
            forall|batches: Seq<Batch>| #[trigger]
                old(self).serves(batches) ==> final(self).serves(batches),
            final(self).differs_at(*old(self), worker as int),
            final(self).release == old(self).release,
            final(self).nextest_args == old(self).nextest_args,
            final(self).workers@.len() == old(self).workers@.len(),
            forall|j: int|
                0 <= j < old(self).workers@.len() && j != worker
                    ==> #[trigger] final(self).workers@[j] == old(self).workers@[j],
            final(self).workers@[worker as int].hostname == old(
                self,
            ).workers@[worker as int].hostname,
            final(self).workers@[worker as int].results == old(
                self,
            ).workers@[worker as int].results,
            match step {
                Step::Run { index, command, message } => {
                    &&& old(self).queue@.len() > 0
                    &&& final(self).queue@ == old(self).queue@.drop_first()
                    &&& final(self).workers@[worker as int].running == Some(index)
                    &&& index == old(self).queue@[0].index
                    &&& command@ == old(self).command_for(old(self).queue@[0])
                    &&& command@ == test_command(
                        old(self).release,
                        old(self).queue@[0].tests@,
                        texts(old(self).nextest_args@),
                    )
                    &&& final(self).issued@ == old(self).issued@.push(command@)
                    &&& message@ == running_text(
                        old(self).workers@[worker as int].hostname@,
                        index as nat,
                        old(self).queue@[0].total as nat,
                        old(self).queue@[0].tests@.len(),
                        final(self).queue@.len(),
                    )
                },
                Step::Done { message } => {
                    &&& old(self).queue@.len() == 0
                    &&& final(self).queue@ == old(self).queue@
                    &&& final(self).workers == old(self).workers
                    &&& final(self).issued == old(self).issued
                    &&& message@ == crate::progress::done_text(
                        old(self).workers@[worker as int].hostname@,
                        old(self).workers@[worker as int].results@.len(),
                    )
                },
            },
    {
        let ghost before = *self;
        match self.queue.pop_front() {
            None => {
                let worker = &self.workers[worker];
                Step::Done {
                    message: done_message(worker.hostname.as_str(), worker.results.len()),
                }
            },
            Some(batch) => {
                let message = batch_message(
                    self.workers[worker].hostname.as_str(),
                    batch.index,
                    batch.total,
                    batch.tests.len(),
                    self.queue.len(),
                );
                let command = run_command(
                    self.release,
                    batch.tests.as_slice(),
                    self.nextest_args.as_slice(),
                );
                let index: usize = batch.index;
                self.workers[worker].running = Some(index);
                proof {
                    let i = worker as int;
                    assert(self.workers@ == before.workers@.update(i, self.workers@[i]));
                    taking_keeps_account(before, *self, i, batch);
                    self.issued@ = before.issued@.push(command@);
                    assert forall|batches: Seq<Batch>| #[trigger]
                        before.serves(batches) implies self.serves(batches) by {
                        let n = before.issued@.len() as int;
                        assert(before.queue@[0] == batches[n]);
                        assert(before.queue@.drop_first() == batches.skip(n + 1));
                    }
                }
                Step::Run { index, command, message }
            },
        }
    }

    /// Records what came of the batch that a worker runs; the worker is idle
    /// again.
    pub fn record(
        &mut self,
        worker: usize,
        exit_code: Result<u32, String>,
        elapsed: u128,
        output: String,
    )
        requires
            worker < old(self).workers@.len(),
            old(self).workers@[worker as int].running is Some,
        ensures
            final(self).accounted() == old(self).accounted(),
            forall|batches: Seq<Batch>| #[trigger]
                old(self).serves(batches) ==> final(self).serves(batches),
            final(self).differs_at(*old(self), worker as int),
            final(self).release == old(self).release,
            final(self).nextest_args == old(self).nextest_args,
            final(self).workers@.len() == old(self).workers@.len(),
            forall|j: int|
                0 <= j < old(self).workers@.len() && j != worker
                    ==> #[trigger] final(self).workers@[j] == old(self).workers@[j],
            final(self).workers@[worker as int].hostname == old(
                self,
            ).workers@[worker as int].hostname,
            final(self).queue == old(self).queue,
            final(self).issued == old(self).issued,
            final(self).workers@[worker as int].running is None,
            final(self).workers@[worker as int].results@ == old(
                self,
            ).workers@[worker as int].results@.push(
                (BatchResult {
                    batch_index: old(self).workers@[worker as int].running->0,
                    exit_code,
                    elapsed,
                    output,
                }),
            ),
    {
        let ghost before = *self;
        if let Some(batch_index) = self.workers[worker].running {
            let result = BatchResult { batch_index, exit_code, elapsed, output };
            self.workers[worker].results.push(result);
            self.workers[worker].running = None;
            proof {
                let i = worker as int;
                assert(self.workers@ == before.workers@.update(i, self.workers@[i]));
                delivering_keeps_account(before, *self, i, result);
            }
        }
    }
}

/// Idle workers have taken what they have delivered.
proof fn idle_workers_delivered(workers: Seq<Worker>)
    requires
        forall|i: int| 0 <= i < workers.len() ==> (#[trigger] workers[i]).running is None,
    ensures
        taken(workers) == delivered(workers),
    decreases workers.len(),
{
    if workers.len() > 0 {
        let head = workers.drop_last();
        assert forall|i: int| 0 <= i < head.len() implies (#[trigger] head[i]).running is None by {
            assert(head[i] == workers[i]);
        }
        idle_workers_delivered(head);
        assert(workers[workers.len() - 1].running is None);
        assert(taken(workers) =~= delivered(workers));
    }
}

/// The numbers of split batches are one, two and so on, each once.
proof fn split_numbers(numbers: Seq<usize>, k: usize)
    requires
        forall|i: int| 0 <= i < numbers.len() ==> #[trigger] numbers[i] == i + 1,
    ensures
        numbers.to_multiset().count(k) == if 1 <= k <= numbers.len() {
            1nat
        } else {
            0nat
        },
    decreases numbers.len(),
{
    broadcast use vstd::seq_lib::group_to_multiset_ensures;

    if numbers.len() > 0 {
        let head = numbers.drop_last();
        assert forall|i: int| 0 <= i < head.len() implies #[trigger] head[i] == i + 1 by {
            assert(head[i] == numbers[i]);
        }
        split_numbers(head, k);
        assert(numbers == head.push(numbers.last()));
        assert(numbers[numbers.len() - 1] == numbers.len());
    }
}

/// Every batch runs exactly once: when a dispatch of split batches has
/// finished, the workers have delivered one result for each of the numbers up
/// to the number of batches, and no other result.
pub proof fn every_batch_runs_once(
    tests: Seq<ListedTest>,
    size: nat,
    batches: Seq<Batch>,
    dispatch: Dispatch,
    k: usize,
)
    requires
        splits(tests, size, batches),
        dispatch.serves(batches),
        dispatch.finished(),
    ensures
        delivered(dispatch.workers@).count(k) == if 1 <= k <= batches.len() {
            1nat
        } else {
            0nat
        },
{
    broadcast use vstd::seq_lib::group_to_multiset_ensures;

    idle_workers_delivered(dispatch.workers@);
    assert(batch_numbers(dispatch.queue@) == Seq::<usize>::empty());
    assert(dispatch.accounted() =~= delivered(dispatch.workers@));
    assert forall|i: int| 0 <= i < batches.len() implies #[trigger] batch_numbers(batches)[i] == i
        + 1 by {
        assert(batches[i].index == i + 1);
    }
    split_numbers(batch_numbers(batches), k);
}

/// Every test runs exactly once: when a dispatch of split batches has finished,
/// the command of the test's batch has been handed out, its expression selects the
/// test, and the workers have delivered one result for that batch. Where no test
/// is listed twice, the expression of no other batch selects it.
pub proof fn every_test_runs_once(
    tests: Seq<ListedTest>,
    size: nat,
    batches: Seq<Batch>,
    dispatch: Dispatch,
    position: int,
)
    requires
        size > 0,
        splits(tests, size, batches),
        dispatch.serves(batches),
        dispatch.finished(),
        0 <= position < tests.len(),
    ensures
        ({
            let i = position / size as int;
            &&& holds_test(batches, i, position % size as int, tests[position])
            &&& dispatch.issued@.len() == batches.len()
            &&& dispatch.issued@[i] == dispatch.command_for(batches[i])
            &&& selects(filter_expr(batches[i].tests@), tests[position]@)
            &&& delivered(dispatch.workers@).count(batches[i].index) == 1
        }),
        models(tests).no_duplicates() ==> forall|k: int|
            0 <= k < batches.len() && k != position / size as int ==> !selects(
                filter_expr((#[trigger] batches[k]).tests@),
                tests[position]@,
            ),
{
    let i = position / size as int;
    let test = tests[position];
    position_of_test(tests, size, batches, position);
    every_batch_runs_once(tests, size, batches, dispatch, batches[i].index);
    expression_selects_exactly_the_listed(batches[i].tests@, test.binary@, test.name@);
    assert(batches.skip(dispatch.issued@.len() as int).len() == 0);
    if models(tests).no_duplicates() {
        assert forall|k: int| 0 <= k < batches.len() && k != i implies !selects(
            filter_expr((#[trigger] batches[k]).tests@),
            test@,
        ) by {
            expression_selects_exactly_the_listed(batches[k].tests@, test.binary@, test.name@);
            if is_listed(batches[k].tests@, test.binary@, test.name@) {
                let j = choose|j: int|
                    0 <= j < batches[k].tests@.len() && (#[trigger] batches[k].tests@[j]).binary@
                        == test.binary@ && batches[k].tests@[j].name@ == test.name@;
                let p = test_of_place(tests, size, batches, k, j);
                assert(models(tests)[p] == models(tests)[position]);
            }
        }
    }
}

/// Only listed tests run: a test that the expression of a batch selects is on the
/// list that was split.
pub proof fn only_listed_tests_run(
    tests: Seq<ListedTest>,
    size: nat,
    batches: Seq<Batch>,
    k: int,
    binary: Seq<char>,
    name: Seq<char>,
)
    requires
        size > 0,
        splits(tests, size, batches),
        0 <= k < batches.len(),
        selects(filter_expr(batches[k].tests@), (binary, name)),
    ensures
        is_listed(tests, binary, name),
{
    expression_selects_exactly_the_listed(batches[k].tests@, binary, name);
    let j = choose|j: int|
        0 <= j < batches[k].tests@.len() && (#[trigger] batches[k].tests@[j]).binary@ == binary
            && batches[k].tests@[j].name@ == name;
    let p = test_of_place(tests, size, batches, k, j);
    assert(tests[p].binary@ == binary);
}

/// The commands that were handed out are those of the first batches, in order, each
/// for the tests of its batch, and what waits are the other batches.
pub proof fn batches_are_handed_out_in_order(dispatch: Dispatch, batches: Seq<Batch>, k: int)
    requires
        dispatch.serves(batches),
    ensures
        dispatch.issued@.len() + dispatch.queue@.len() == batches.len(),
        0 <= k < dispatch.issued@.len() ==> dispatch.issued@[k] == test_command(
            dispatch.release,
            batches[k].tests@,
            texts(dispatch.nextest_args@),
        ),
        0 <= k < dispatch.queue@.len() ==> dispatch.queue@[k] == batches[dispatch.issued@.len()
            + k],
{
}

/// A number that was delivered is that of some result.
proof fn delivered_by(workers: Seq<Worker>, k: usize) -> (place: (int, int))
    requires
        delivered(workers).count(k) > 0,
    ensures
        0 <= place.0 < workers.len(),
        0 <= place.1 < workers[place.0].results@.len(),
        workers[place.0].results@[place.1].batch_index == k,
    decreases workers.len(),
{
    broadcast use vstd::seq_lib::group_to_multiset_ensures;

    let last = result_numbers(workers.last().results@);
    if last.to_multiset().count(k) > 0 {
        assert(last.contains(k));
        let r = choose|r: int| 0 <= r < last.len() && last[r] == k;
        (workers.len() - 1, r)
    } else {
        let place = delivered_by(workers.drop_last(), k);
        assert(workers.drop_last()[place.0] == workers[place.0]);
        place
    }
}

/// As many numbers were delivered as there are results.
proof fn delivered_length(workers: Seq<Worker>)
    ensures
        delivered(workers).len() == workers.fold_left(
            0nat,
            |n: nat, worker: Worker| n + worker.results@.len(),
        ),
    decreases workers.len(),
{
    broadcast use vstd::seq_lib::group_to_multiset_ensures;

    if workers.len() > 0 {
        delivered_length(workers.drop_last());
        let last = result_numbers(workers.last().results@);
        assert(last.to_multiset().len() == last.len());
    }
}

/// When a dispatch of split batches has finished, some worker has a result for each
/// batch, and there are as many results as batches: none was run twice, and none was
/// passed over.
pub proof fn every_batch_has_its_result(
    tests: Seq<ListedTest>,
    size: nat,
    batches: Seq<Batch>,
    dispatch: Dispatch,
    k: usize,
)
    requires
        splits(tests, size, batches),
        dispatch.serves(batches),
        dispatch.finished(),
    ensures
        1 <= k <= batches.len() ==> exists|w: int, r: int|
            0 <= w < dispatch.workers@.len() && 0 <= r < dispatch.workers@[w].results@.len()
                && (#[trigger] dispatch.workers@[w].results@[r]).batch_index == k,
        dispatch.workers@.fold_left(0nat, |n: nat, worker: Worker| n + worker.results@.len())
            == batches.len(),
{
    broadcast use vstd::seq_lib::group_to_multiset_ensures;

    every_batch_runs_once(tests, size, batches, dispatch, k);
    if 1 <= k <= batches.len() {
        let place = delivered_by(dispatch.workers@, k);
        assert(dispatch.workers@[place.0].results@[place.1].batch_index == k);
    }
    delivered_length(dispatch.workers@);
    idle_workers_delivered(dispatch.workers@);
    assert(batch_numbers(dispatch.queue@) == Seq::<usize>::empty());
    assert(dispatch.accounted() =~= delivered(dispatch.workers@));
    let numbers = batch_numbers(batches);
    assert(numbers.to_multiset().len() == numbers.len());
}

/// Whether a dispatch has finished shows in its parts: no batch waits, and no worker
/// runs one.
pub proof fn finished_means_nothing_is_left(dispatch: Dispatch)
    ensures
        dispatch.finished() <==> dispatch.queue@.len() == 0 && forall|i: int|
            0 <= i < dispatch.workers@.len() ==> (#[trigger] dispatch.workers@[i]).running is None,
{
}

} // verus!
