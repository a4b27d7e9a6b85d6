//! A first-in first-out task queue that can be closed and rate-limited.
//!
//! Time is given to the queue by its caller, as a count of nanoseconds on a
//! monotonic clock, so that every decision here is a function of its inputs.
use vstd::prelude::*;

use std::collections::VecDeque;
use std::time::Duration;

use crate::error::ArcError;

verus! {

/// The length of a duration in nanoseconds (what `Duration::as_nanos` returns).
pub uninterp spec fn duration_as_nanos(d: Duration) -> u128;

/// `Duration::as_nanos`: the whole length of `d` in nanoseconds.
#[verifier::external_body]
fn duration_nanos(d: &Duration) -> (r: u128)
    ensures
        r == duration_as_nanos(*d),
{
    d.as_nanos()
}

/// How a queue hands out its tasks.
#[derive(Debug, Clone)]
pub struct TaskQueueConfig {
    /// The least time between two tasks taken out of the queue.
    pub rate_limit: Option<Duration>,
    /// How many times a failed task may be retried.
    pub max_retries: Option<u32>,
    /// How long to wait before a retry.
    pub retry_delay: Option<Duration>,
}

impl Default for TaskQueueConfig {
    fn default() -> (r: Self)
        ensures
            r.rate_limit is None,
            r.max_retries is None,
            r.retry_delay is None,
    {
        TaskQueueConfig { rate_limit: None, max_retries: None, retry_delay: None }
    }
}

/// The time from `since` to `now`, or zero when `now` is not later.
pub open spec fn elapsed(now: u128, since: u128) -> nat {
    if now >= since {
        (now - since) as nat
    } else {
        0
    }
}

/// Whether a task may be taken at `now` under the rate limit `limit`, the
/// last task having been taken at `last`: always without a limit or without
/// an earlier task, otherwise once at least `limit` has passed since.
pub open spec fn rate_allows(limit: Option<Duration>, last: Option<u128>, now: u128) -> bool {
    match limit {
        None => true,
        Some(l) => match last {
            None => true,
            Some(t) => elapsed(now, t) >= duration_as_nanos(l),
        },
    }
}

/// How long to wait at `now` before the rate limit allows the next task:
/// nothing when it already does, otherwise the rest of the limit.
pub open spec fn rate_delay(limit: Option<Duration>, last: Option<u128>, now: u128) -> Option<u128> {
    match limit {
        None => None,
        Some(l) => match last {
            None => None,
            Some(t) => if elapsed(now, t) >= duration_as_nanos(l) {
                None
            } else {
                Some((duration_as_nanos(l) - elapsed(now, t)) as u128)
            },
        },
    }
}

/// What taking a task out of a queue found.
pub enum DequeueOutcome<T> {
    /// The task at the front of the queue.
    Item(T),
    /// The queue is empty and closed: no task will ever come.
    Closed,
    /// The queue is empty but open: a task may still come.
    Empty,
    /// The rate limit does not allow a task yet: this many nanoseconds are
    /// still to wait.
    Wait(u128),
}

/// A first-in first-out queue of tasks. Once closed it takes no new task,
/// but the tasks already in it can still be taken out.
pub struct TaskQueue<T> {
    items: VecDeque<T>,
    closed: bool,
    config: TaskQueueConfig,
    last_dequeue: Option<u128>,
}

impl<T> View for TaskQueue<T> {
    type V = Seq<T>;

    /// The tasks in the queue, front first.
    closed spec fn view(&self) -> Seq<T> {
        self.items@
    }
}

impl<T> TaskQueue<T> {
    /// Whether the queue is closed.
    pub closed spec fn closed_spec(&self) -> bool {
        self.closed
    }

    /// The queue's configuration.
    pub closed spec fn config_spec(&self) -> TaskQueueConfig {
        self.config
    }

    /// When the last task was taken out, if one was.
    pub closed spec fn last_dequeue_spec(&self) -> Option<u128> {
        self.last_dequeue
    }

    /// Whether the rate limit lets a task be taken at `now`.
    pub open spec fn allows_at(&self, now: u128) -> bool {
        rate_allows(self.config_spec().rate_limit, self.last_dequeue_spec(), now)
    }

    /// An empty, open queue with the default configuration.
    pub fn new() -> (r: Self)
        ensures
            r@ == Seq::<T>::empty(),
            !r.closed_spec(),
            r.last_dequeue_spec() is None,
            r.config_spec().rate_limit is None,
            r.config_spec().max_retries is None,
            r.config_spec().retry_delay is None,
    {
        TaskQueue {
            items: VecDeque::new(),
            closed: false,
            config: TaskQueueConfig::default(),
            last_dequeue: None,
        }
    }

    /// An empty, open queue with the given configuration.
    pub fn with_config(config: TaskQueueConfig) -> (r: Self)
        ensures
            r@ == Seq::<T>::empty(),
            !r.closed_spec(),
            r.last_dequeue_spec() is None,
            r.config_spec() == config,
    {
        TaskQueue { items: VecDeque::new(), closed: false, config, last_dequeue: None }
    }

    /// Replaces the configuration; the tasks and the rest of the state stay.
    pub fn set_config(&mut self, config: TaskQueueConfig)
        ensures
            final(self)@ == old(self)@,
            final(self).closed_spec() == old(self).closed_spec(),
            final(self).last_dequeue_spec() == old(self).last_dequeue_spec(),
            final(self).config_spec() == config,
    {
        self.config = config;
    }

    /// Puts a task at the back of the queue. A closed queue refuses it with
    /// [`ArcError::QueueClosed`] and stays as it was.
    pub fn enqueue(&mut self, item: T) -> (r: Result<(), ArcError>)
        ensures
            old(self).closed_spec() ==> (r matches Err(ArcError::QueueClosed) && final(self)@ == old(
                self,
            )@),
            !old(self).closed_spec() ==> r is Ok && final(self)@ == old(self)@.push(item),
            final(self).closed_spec() == old(self).closed_spec(),
            final(self).last_dequeue_spec() == old(self).last_dequeue_spec(),
            final(self).config_spec() == old(self).config_spec(),
    {
        if self.closed {
            return Err(ArcError::QueueClosed);
        }
        self.items.push_back(item);
        Ok(())
    }

    /// Whether the rate limit lets a task be taken at `now`.
    pub fn check_rate_limit(&self, now: u128) -> (r: bool)
        ensures
            r == self.allows_at(now),
    {
        match &self.config.rate_limit {
            None => true,
            Some(limit) => match self.last_dequeue {
                None => true,
                Some(last) => {
                    let waited = if now >= last {
                        now - last
                    } else {
                        0
                    };
                    waited >= duration_nanos(limit)
                },
            },
        }
    }

    /// How long, in nanoseconds, to wait at `now` before the rate limit lets
    /// the next task be taken; `None` when it already does.
    pub fn rate_limit_delay(&self, now: u128) -> (r: Option<u128>)
        ensures
            r == rate_delay(self.config_spec().rate_limit, self.last_dequeue_spec(), now),
            r is None <==> self.allows_at(now),
    {
        match &self.config.rate_limit {
            None => None,
            Some(limit) => match self.last_dequeue {
                None => None,
                Some(last) => {
                    let waited = if now >= last {
                        now - last
                    } else {
                        0
                    };
                    let l = duration_nanos(limit);
                    if waited >= l {
                        None
                    } else {
                        Some(l - waited)
                    }
                },
            },
        }
    }

    /// Takes the front task at `now` if the rate limit allows it: `None`
    /// when it does not or when the queue is empty, with the queue unchanged.
    /// A task taken is recorded as taken at `now`.
    pub fn try_dequeue(&mut self, now: u128) -> (r: Option<T>)
        ensures
            (!old(self).allows_at(now) || old(self)@.len() == 0) ==> r is None && final(self)@ == old(
                self,
            )@ && final(self).last_dequeue_spec() == old(self).last_dequeue_spec(),
            (old(self).allows_at(now) && old(self)@.len() > 0) ==> r == Some(old(self)@[0])
                && final(self)@ == old(self)@.drop_first() && final(self).last_dequeue_spec() == Some(
                now,
            ),
            final(self).closed_spec() == old(self).closed_spec(),
            final(self).config_spec() == old(self).config_spec(),
    {
        if !self.check_rate_limit(now) {
            return None;
        }
        let item = self.items.pop_front();
        if item.is_some() {
            self.last_dequeue = Some(now);
        }
        item
    }

    /// Takes the front task at `now`. While the rate limit does not allow
    /// a task, this is [`DequeueOutcome::Wait`] with the time still to wait,
    /// and the queue stays as it was. Otherwise it is the front task if there
    /// is one (recorded as taken at `now`), [`DequeueOutcome::Closed`] when
    /// the queue is empty and closed, and [`DequeueOutcome::Empty`] when it is
    /// empty and open.
    pub fn dequeue(&mut self, now: u128) -> (r: DequeueOutcome<T>)
        ensures
            !old(self).allows_at(now) ==> r == DequeueOutcome::<T>::Wait(
                rate_delay(old(self).config_spec().rate_limit, old(self).last_dequeue_spec(), now)->0,
            ) && final(self)@ == old(self)@ && final(self).last_dequeue_spec()
                == old(self).last_dequeue_spec(),
            old(self).allows_at(now) && old(self)@.len() > 0 ==> r == DequeueOutcome::Item(old(self)@[0])
                && final(self)@ == old(self)@.drop_first() && final(self).last_dequeue_spec() == Some(
                now,
            ),
            old(self).allows_at(now) && old(self)@.len() == 0 ==> final(self)@ == old(self)@
                && final(self).last_dequeue_spec() == old(self).last_dequeue_spec() && (if old(
                self,
            ).closed_spec() {
                r is Closed
            } else {
                r is Empty
            }),
            final(self).closed_spec() == old(self).closed_spec(),
            final(self).config_spec() == old(self).config_spec(),
    {
        if let Some(delay) = self.rate_limit_delay(now) {
            return DequeueOutcome::Wait(delay);
        }
        match self.items.pop_front() {
            Some(item) => {
                self.last_dequeue = Some(now);
                DequeueOutcome::Item(item)
            },
            None => if self.closed {
                DequeueOutcome::Closed
            } else {
                DequeueOutcome::Empty
            },
        }
    }

    /// Closes the queue: it takes no new task; those in it stay.
    pub fn close(&mut self)
        ensures
            final(self)@ == old(self)@,
            final(self).closed_spec(),
            final(self).last_dequeue_spec() == old(self).last_dequeue_spec(),
            final(self).config_spec() == old(self).config_spec(),
    {
        self.closed = true;
    }

    /// The number of tasks in the queue.
    pub fn len(&self) -> (r: usize)
        ensures
            r == self@.len(),
    {
        self.items.len()
    }

    /// Whether the queue holds no task.
    pub fn is_empty(&self) -> (r: bool)
        ensures
            r == (self@.len() == 0),
    {
        self.items.len() == 0
    }

    /// Whether the queue is closed.
    pub fn is_closed(&self) -> (r: bool)
        ensures
            r == self.closed_spec(),
    {
        self.closed
    }
}

impl<T> Default for TaskQueue<T> {
    fn default() -> (r: Self)
        ensures
            r@ == Seq::<T>::empty(),
            !r.closed_spec(),
            r.last_dequeue_spec() is None,
            r.config_spec().rate_limit is None,
    {
        Self::new()
    }
}

/// Tasks leave a queue in the order they entered it: putting a task at the
/// back of a non-empty queue changes neither which task is taken next nor
/// the order of the others, and the new task comes after all of them.
pub proof fn law_first_in_first_out<T>(tasks: Seq<T>, item: T)
    requires
        tasks.len() > 0,
    ensures
        tasks.push(item)[0] == tasks[0],
        tasks.push(item).drop_first() == tasks.drop_first().push(item),
{
    assert(tasks.push(item).drop_first() =~= tasks.drop_first().push(item));
}

/// Under a rate limit, a task is taken only once the limit has passed since
/// the last one; and waiting for the delay that the queue names is enough.
pub proof fn law_rate_limit_spacing(limit: Duration, last: u128, now: u128)
    requires
        now >= last,
    ensures
        rate_allows(Some(limit), Some(last), now) <==> now - last >= duration_as_nanos(limit),
        rate_delay(Some(limit), Some(last), now) is None <==> rate_allows(Some(limit), Some(last), now),
        rate_delay(Some(limit), Some(last), now) matches Some(d) ==> (now + d <= u128::MAX
            ==> rate_allows(Some(limit), Some(last), (now + d) as u128)),
{
}

/// The tasks of a queue that held `tasks` once each of `items` is put at its
/// back, in order.
pub open spec fn pushed_all<T>(tasks: Seq<T>, items: Seq<T>) -> Seq<T>
    decreases items.len(),
{
    if items.len() == 0 {
        tasks
    } else {
        pushed_all(tasks, items.drop_last()).push(items.last())
    }
}

/// Round trip: putting `items` one by one into an empty queue and then
/// taking tasks out gives back every item exactly once, in the order they
/// were put in; once all are taken the queue is empty. The `k`-th take finds
/// the queue holding `items.skip(k)` and returns `items[k]`.
pub proof fn law_round_trip<T>(items: Seq<T>)
    ensures
        pushed_all(Seq::<T>::empty(), items) == items,
        forall|k: int|
            0 <= k < items.len() ==> (#[trigger] items.skip(k))[0] == items[k] && items.skip(k).drop_first()
                == items.skip(k + 1),
        items.skip(items.len() as int).len() == 0,
    decreases items.len(),
{
    if items.len() > 0 {
        law_round_trip(items.drop_last());
        assert(items.drop_last().push(items.last()) =~= items);
    }
    assert forall|k: int| 0 <= k < items.len() implies (#[trigger] items.skip(k))[0] == items[k]
        && items.skip(k).drop_first() == items.skip(k + 1) by {
        assert(items.skip(k).drop_first() =~= items.skip(k + 1));
    }
}

/// Under a rate limit, any two tasks taken from a queue are at least the
/// limit apart, not only two consecutive ones: `times` are the moments of
/// the takes, in order, each allowed by the limit after the one before.
pub proof fn law_all_takes_spaced(limit: Duration, times: Seq<u128>)
    requires
        forall|k: int| 0 <= k < times.len() - 1 ==> #[trigger] times[k] <= times[k + 1],
        forall|k: int|
            0 <= k < times.len() - 1 ==> rate_allows(Some(limit), Some(#[trigger] times[k]), times[k + 1]),
    ensures
        forall|i: int, j: int|
            0 <= i < j < times.len() ==> #[trigger] times[j] - #[trigger] times[i] >= duration_as_nanos(limit),
    decreases times.len(),
{
    if times.len() > 1 {
        let prev = times.drop_last();
        assert forall|k: int| 0 <= k < prev.len() - 1 implies #[trigger] prev[k] <= prev[k + 1] by {
            assert(prev[k] == times[k] && prev[k + 1] == times[k + 1]);
        }
        assert forall|k: int| 0 <= k < prev.len() - 1 implies rate_allows(
            Some(limit),
            Some(#[trigger] prev[k]),
            prev[k + 1],
        ) by {
            assert(prev[k] == times[k] && prev[k + 1] == times[k + 1]);
        }
        law_all_takes_spaced(limit, prev);
        let n = times.len() - 1;
        assert forall|i: int, j: int| 0 <= i < j < times.len() implies #[trigger] times[j] - #[trigger] times[i]
            >= duration_as_nanos(limit) by {
            if j < n {
                assert(prev[i] == times[i] && prev[j] == times[j]);
            } else {
                assert(rate_allows(Some(limit), Some(times[n - 1]), times[n]));
                if i < n - 1 {
                    assert(prev[i] == times[i] && prev[n - 1] == times[n - 1]);
                    assert(prev[n - 1] - prev[i] >= duration_as_nanos(limit));
                }
            }
        }
    }
}

/// How long the queue says to wait is the least wait that is enough: the
/// rest of the limit since the last take, so that waiting it allows the next
/// task and waiting one nanosecond less does not.
pub proof fn law_rate_delay_is_rest_of_limit(limit: Duration, last: u128, now: u128)
    requires
        now >= last,
        now - last < duration_as_nanos(limit),
    ensures
        rate_delay(Some(limit), Some(last), now) == Some((duration_as_nanos(limit) - (now - last)) as u128),
        !rate_allows(Some(limit), Some(last), now),
        now + (duration_as_nanos(limit) - (now - last)) <= u128::MAX ==> rate_allows(
            Some(limit),
            Some(last),
            (now + (duration_as_nanos(limit) - (now - last))) as u128,
        ),
        !rate_allows(Some(limit), Some(last), (now + (duration_as_nanos(limit) - (now - last)) - 1) as u128),
        (now + (duration_as_nanos(limit) - (now - last))) - last == duration_as_nanos(limit),
{
}

} // verus!
