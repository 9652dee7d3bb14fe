//! Random distribution of work hours over days.

use rand::distributions::uniform::{UniformInt, UniformSampler};
use rand::rngs::ThreadRng;
use vstd::prelude::*;

verus! {

/// The thread-local generator of `rand`, carried through as an opaque value.
#[verifier::external_type_specification]
#[verifier::external_body]
pub struct ExThreadRng(ThreadRng);

/// Sum of the elements of `s`.
pub open spec fn total(s: Seq<u32>) -> int
    decreases s.len(),
{
    if s.len() == 0 {
        0
    } else {
        total(s.drop_last()) + s.last()
    }
}

/// `s` is in ascending order.
pub open spec fn ascending(s: Seq<u32>) -> bool {
    forall|i: int, j: int| 0 <= i <= j < s.len() ==> s[i] <= s[j]
}

/// Draws one number with `UniformInt::<u32>::new_inclusive(low, high)` and
/// `UniformSampler::sample`. The sampler is built for the closed range
/// `[low, high]` and panics if that range is empty; whatever the generator
/// yields, the number drawn lies in the range.
#[verifier::external_body]
fn draw_inclusive(low: u32, high: u32, r: &mut ThreadRng) -> (drawn: u32)
    requires
        low <= high,
    ensures
        low <= drawn <= high,
{
    UniformInt::<u32>::new_inclusive(low, high).sample(r)
}

/// Sorts with `Vec::sort_unstable` (through `slice::sort_unstable`): the
/// elements are rearranged into ascending order, none added and none lost.
#[verifier::external_body]
fn sort_ascending(v: &mut Vec<u32>)
    ensures
        ascending(final(v)@),
        final(v)@.to_multiset() == old(v)@.to_multiset(),
{
    v.sort_unstable()
}

/// The `i`-th gap that the cut points `cuts` leave on a line of length `n`:
/// from the cut before it, or from 0, up to the cut at `i`, or up to `n`.
pub open spec fn gap(n: u32, cuts: Seq<u32>, i: int) -> int {
    (if i < cuts.len() {
        cuts[i] as int
    } else {
        n as int
    }) - (if i > 0 {
        cuts[i - 1] as int
    } else {
        0
    })
}

/// `cuts` are cut points on a line of length `n`, in ascending order.
pub open spec fn cut_points(cuts: Seq<u32>, n: u32) -> bool {
    &&& ascending(cuts)
    &&& forall|i: int| 0 <= i < cuts.len() ==> cuts[i] <= n
}

/// `parts` holds the gaps that `cuts` leave on a line of length `n`, in
/// order, up to but without the first gap that is over `max`.
pub open spec fn gaps_up_to_cap(parts: Seq<u32>, n: u32, max: u32, cuts: Seq<u32>) -> bool {
    &&& parts.len() <= cuts.len() + 1
    &&& forall|i: int| 0 <= i < parts.len() ==> parts[i] == gap(n, cuts, i) && parts[i] <= max
    &&& parts.len() <= cuts.len() ==> gap(n, cuts, parts.len() as int) > max
}

/// `parts` splits `n` into exactly `k` parts, none over `max`.
pub open spec fn is_partition(parts: Seq<u32>, n: u32, k: u32, max: u32) -> bool {
    &&& parts.len() == k
    &&& forall|i: int| 0 <= i < parts.len() ==> parts[i] <= max
    &&& total(parts) == n
}

/// Appending an element adds it to the total.
pub proof fn lemma_total_push(s: Seq<u32>, x: u32)
    ensures
        total(s.push(x)) == total(s) + x,
{
    assert(s.push(x).drop_last() =~= s);
}

/// Parts of which none is over `max` add up to at most `max` times their
/// number.
pub proof fn lemma_total_capped(s: Seq<u32>, max: u32)
    requires
        forall|i: int| 0 <= i < s.len() ==> s[i] <= max,
    ensures
        total(s) <= s.len() * max,
    decreases s.len(),
{
    if s.len() > 0 {
        lemma_total_capped(s.drop_last(), max);
        assert((s.len() - 1) * max + max == s.len() * max) by (nonlinear_arith);
    }
}

/// There is no way to split `n` into `k` parts, none over `max`, unless `n`
/// is at most `k * max`.
pub proof fn lemma_partition_needs_room(parts: Seq<u32>, n: u32, k: u32, max: u32)
    requires
        is_partition(parts, n, k, max),
    ensures
        n <= k * max,
{
    lemma_total_capped(parts, max);
}

/// Turns cut points into parts: writes into `target` the gaps between
/// consecutive cuts, the first measured from 0 and the last up to `n`, and
/// stops at the first gap over `max`. Returns whether all gaps were written.
pub fn parts_between(n: u32, max: u32, offsets: &Vec<u32>, target: &mut Vec<u32>) -> (complete:
    bool)
    requires
        cut_points(offsets@, n),
    ensures
        gaps_up_to_cap(final(target)@, n, max, offsets@),
        complete == (final(target)@.len() == offsets@.len() + 1),
        complete ==> total(final(target)@) == n,
{
    target.clear();
    target.reserve(offsets.len());
    let mut last: u32 = 0;
    let mut i: usize = 0;
    while i < offsets.len()
        invariant
            cut_points(offsets@, n),
            i <= offsets.len(),
            target@.len() == i,
            last == (if i > 0 {
                offsets@[i - 1]
            } else {
                0
            }),
            forall|j: int| 0 <= j < i ==> target@[j] == gap(n, offsets@, j) && target@[j] <= max,
            total(target@) == last,
        decreases offsets.len() - i,
    {
        let cut: u32 = offsets[i];
        let p: u32 = cut - last;
        if p > max {
            return false;
        }
        proof {
            lemma_total_push(target@, p);
        }
        target.push(p);
        last = cut;
        i += 1;
    }
    let p: u32 = n - last;
    if p > max {
        return false;
    }
    proof {
        lemma_total_push(target@, p);
    }
    target.push(p);
    true
}

/// One round of the sampler: draws `k - 1` cut points uniformly from
/// `[0, n]` into `offsets`, sorts them, and writes the `k` gaps between them
/// into `target`. Returns `false`, with `target` cut short, as soon as a gap
/// is over `max`.
pub fn partition_inner(
    n: u32,
    k: u32,
    max: u32,
    target: &mut Vec<u32>,
    offsets: &mut Vec<u32>,
    r: &mut ThreadRng,
) -> (complete: bool)
    requires
        k >= 1,
    ensures
        final(offsets)@.len() == k - 1,
        cut_points(final(offsets)@, n),
        gaps_up_to_cap(final(target)@, n, max, final(offsets)@),
        complete == (final(target)@.len() == k),
        complete ==> is_partition(final(target)@, n, k, max),
{
    let cuts: usize = k as usize - 1;
    offsets.clear();
    while offsets.len() < cuts
        invariant
            offsets@.len() <= cuts,
            forall|i: int| 0 <= i < offsets@.len() ==> offsets@[i] <= n,
        decreases cuts - offsets@.len(),
    {
        let cut: u32 = draw_inclusive(0, n, r);
        offsets.push(cut);
    }
    let ghost drawn = offsets@;
    sort_ascending(offsets);
    proof {
        drawn.to_multiset_ensures();
        offsets@.to_multiset_ensures();
        assert forall|i: int| 0 <= i < offsets@.len() implies offsets@[i] <= n by {
            let x = offsets@[i];
            assert(offsets@.contains(x));
            assert(offsets@.to_multiset().count(x) > 0);
            assert(drawn.to_multiset().count(x) > 0);
            assert(drawn.contains(x));
        }
    }
    parts_between(n, max, offsets, target)
}

/// The part at index `i` when `n` is dealt out front to back, each part
/// taking as much as `max` allows of what is left.
pub open spec fn front_part(n: u32, max: u32, i: int) -> int {
    let left = n - i * max;
    if left <= 0 {
        0
    } else if left <= max {
        left
    } else {
        max as int
    }
}

/// Splits `n` into `k` parts without drawing: the parts are filled front to
/// back, each with as much as `max` allows of what is left.
pub fn fill_front_to_back(n: u32, k: u32, max: u32) -> (parts: Vec<u32>)
    requires
        n <= k * max,
    ensures
        is_partition(parts@, n, k, max),
        forall|i: int| 0 <= i < k ==> parts@[i] == front_part(n, max, i),
{
    let mut parts: Vec<u32> = Vec::new();
    let mut rest: u32 = n;
    let mut i: u32 = 0;
    while i < k
        invariant
            i <= k,
            n <= k * max,
            parts@.len() == i,
            forall|j: int| 0 <= j < i ==> parts@[j] == front_part(n, max, j) && parts@[j] <= max,
            total(parts@) + rest == n,
            rest == (if n - i * max <= 0 {
                0
            } else {
                n - i * max
            }),
        decreases k - i,
    {
        let p: u32 = if rest < max {
            rest
        } else {
            max
        };
        proof {
            lemma_total_push(parts@, p);
            assert((i + 1) * max == i * max + max) by (nonlinear_arith);
        }
        parts.push(p);
        rest -= p;
        i += 1;
    }
    parts
}

/// How many rounds [`partition`] draws before it stops drawing.
pub const ROUNDS: u64 = 0xffff_ffff_ffff_ffff;

/// Splits `n` into exactly `k` parts, none over `max`, by rejection
/// sampling: a round of [`partition_inner`] is repeated until one yields all
/// `k` parts. Should [`ROUNDS`] rounds in a row be rejected, the parts are
/// filled front to back instead. Nothing is drawn for no parts at all.
pub fn partition(n: u32, k: u32, max: u32, r: &mut ThreadRng) -> (parts: Vec<u32>)
    requires
        n <= k * max,
    ensures
        is_partition(parts@, n, k, max),
{
    let mut result: Vec<u32> = Vec::new();
    if k == 0 {
        return result;
    }
    let mut offsets: Vec<u32> = Vec::new();
    let mut rounds: u64 = ROUNDS;
    while rounds > 0
        invariant
            k >= 1,
        decreases rounds,
    {
        if partition_inner(n, k, max, &mut result, &mut offsets, r) {
            return result;
        }
        rounds -= 1;
    }
    fill_front_to_back(n, k, max)
}

/// One assigned interval of whole hours, from `from` up to `to`.
#[derive(Debug, Clone, Copy, PartialEq, Eq)]
pub struct Time {
    pub from: u32,
    pub to: u32,
}

/// A request to generate: `hours` to spread over `days` days, at most
/// `max_per_day` on one day, each interval inside the window from `from` to
/// `to`.
#[derive(Debug, Clone, Copy, PartialEq, Eq)]
pub struct Parameters {
    pub hours: u32,
    pub days: u32,
    pub from: u32,
    pub to: u32,
    pub max_per_day: u32,
}

impl Parameters {
    /// The hours that fit in all: every day filled up to the daily maximum.
    pub open spec fn capacity(self) -> int {
        self.days * self.max_per_day
    }

    /// The free time is what gets distributed, rather than the hours, once
    /// the hours reach half of the capacity.
    pub open spec fn distributes_free_time(self) -> bool {
        self.capacity() / 2 <= self.hours
    }

    /// The amount handed to the sampler.
    pub open spec fn distributed(self) -> int {
        if self.distributes_free_time() {
            self.capacity() - self.hours
        } else {
            self.hours as int
        }
    }

    /// The longest interval that can come out for one day.
    pub open spec fn longest(self) -> int {
        if self.hours <= self.max_per_day {
            self.hours as int
        } else {
            self.max_per_day as int
        }
    }

    /// What [`generate_times`] asks of a request: the capacity fits in a
    /// `u32` and holds the hours, and, unless there are no hours at all, the
    /// longest possible interval fits in the window.
    pub open spec fn feasible(self) -> bool {
        &&& self.capacity() <= u32::MAX
        &&& self.hours <= self.capacity()
        &&& self.hours > 0 ==> self.from + self.longest() <= self.to
    }

    /// Tests whether the request is [`feasible`](Self::feasible).
    pub fn is_feasible(&self) -> (ok: bool)
        ensures
            ok == self.feasible(),
    {
        proof {
            assert(self.days * self.max_per_day <= 0xffff_ffff * 0xffff_ffff) by (nonlinear_arith)
                requires
                    self.days <= 0xffff_ffff,
                    self.max_per_day <= 0xffff_ffff,
            ;
        }
        let capacity: u64 = self.days as u64 * self.max_per_day as u64;
        if capacity > u32::MAX as u64 || self.hours as u64 > capacity {
            return false;
        }
        if self.hours == 0 {
            return true;
        }
        let longest: u32 = if self.hours <= self.max_per_day {
            self.hours
        } else {
            self.max_per_day
        };
        self.from as u64 + longest as u64 <= self.to as u64
    }
}

/// The hours that a slot holds: the length of its interval, none if empty.
pub open spec fn slot_hours(slot: Option<Time>) -> int {
    match slot {
        Some(time) => time.to - time.from,
        None => 0,
    }
}

/// The hours that all of `times` hold together.
pub open spec fn assigned_hours(times: Seq<Option<Time>>) -> int
    decreases times.len(),
{
    if times.len() == 0 {
        0
    } else {
        assigned_hours(times.drop_last()) + slot_hours(times.last())
    }
}

/// A slot is empty, or its interval is not empty, lies inside the window
/// from `from` to `to` and is at most `max_per_day` long.
pub open spec fn slot_fits(slot: Option<Time>, from: u32, to: u32, max_per_day: u32) -> bool {
    match slot {
        Some(time) => from <= time.from && time.from < time.to && time.to <= to && time.to
            - time.from <= max_per_day,
        None => true,
    }
}

/// No element is over the total.
pub proof fn lemma_total_bounds(s: Seq<u32>, i: int)
    requires
        0 <= i < s.len(),
    ensures
        s[i] <= total(s),
        0 <= total(s),
    decreases s.len(),
{
    lemma_total_nonnegative(s.drop_last());
    if i < s.len() - 1 {
        lemma_total_bounds(s.drop_last(), i);
    }
}

/// A total is never negative.
pub proof fn lemma_total_nonnegative(s: Seq<u32>)
    ensures
        0 <= total(s),
    decreases s.len(),
{
    if s.len() > 0 {
        lemma_total_nonnegative(s.drop_last());
    }
}

/// The work of each day, given the part that the sampler dealt it: the part
/// itself, or, where free time was distributed, what the part leaves of
/// `max_per_day`.
pub fn work_durations(parts: &Vec<u32>, free_time: bool, max_per_day: u32) -> (durations: Vec<
    u32,
>)
    requires
        free_time ==> forall|i: int| 0 <= i < parts@.len() ==> parts@[i] <= max_per_day,
    ensures
        durations@.len() == parts@.len(),
        forall|i: int|
            0 <= i < parts@.len() ==> durations@[i] == (if free_time {
                max_per_day - parts@[i]
            } else {
                parts@[i] as int
            }),
        total(durations@) == (if free_time {
            parts@.len() * max_per_day - total(parts@)
        } else {
            total(parts@)
        }),
{
    let mut durations: Vec<u32> = Vec::new();
    let mut i: usize = 0;
    while i < parts.len()
        invariant
            i <= parts@.len(),
            durations@.len() == i,
            free_time ==> forall|j: int| 0 <= j < parts@.len() ==> parts@[j] <= max_per_day,
            forall|j: int|
                0 <= j < i ==> durations@[j] == (if free_time {
                    max_per_day - parts@[j]
                } else {
                    parts@[j] as int
                }),
            total(durations@) == (if free_time {
                i * max_per_day - total(parts@.take(i as int))
            } else {
                total(parts@.take(i as int))
            }),
        decreases parts@.len() - i,
    {
        let part: u32 = parts[i];
        let duration: u32 = if free_time {
            max_per_day - part
        } else {
            part
        };
        proof {
            lemma_total_push(durations@, duration);
            assert(parts@.take(i + 1).drop_last() =~= parts@.take(i as int));
            assert((i + 1) * max_per_day == i * max_per_day + max_per_day) by (nonlinear_arith);
        }
        durations.push(duration);
        i += 1;
    }
    proof {
        assert(parts@.take(parts@.len() as int) =~= parts@);
    }
    durations
}

/// Appending a slot adds its hours to the hours assigned.
pub proof fn lemma_assigned_push(times: Seq<Option<Time>>, slot: Option<Time>)
    ensures
        assigned_hours(times.push(slot)) == assigned_hours(times) + slot_hours(slot),
{
    assert(times.push(slot).drop_last() =~= times);
}

/// Spreads `hours` over `days` days and gives each day an interval, or none
/// where the day got no hours. The parts come from [`partition`], which is
/// handed the hours or, from half of the capacity on, the free time; each
/// interval starts at an hour drawn uniformly from those that keep it inside
/// the window.
pub fn generate_times(parameters: Parameters, r: &mut ThreadRng) -> (times: Vec<Option<Time>>)
    requires
        parameters.feasible(),
    ensures
        times@.len() == parameters.days,
        forall|i: int|
            0 <= i < times@.len() ==> slot_fits(
                #[trigger] times@[i],
                parameters.from,
                parameters.to,
                parameters.max_per_day,
            ),
        assigned_hours(times@) == parameters.hours,
{
    let Parameters { hours, days, from, to, max_per_day } = parameters;
    let max_total: u32 = days * max_per_day;
    let distribute_free_time: bool = max_total / 2 <= hours;
    let distribute: u32 = if distribute_free_time {
        max_total - hours
    } else {
        hours
    };
    let parts: Vec<u32> = partition(distribute, days, max_per_day, r);
    let durations: Vec<u32> = work_durations(&parts, distribute_free_time, max_per_day);
    let mut times: Vec<Option<Time>> = Vec::new();
    let mut i: usize = 0;
    while i < durations.len()
        invariant
            i <= durations@.len(),
            times@.len() == i,
            total(durations@) == hours,
            forall|j: int| 0 <= j < durations@.len() ==> durations@[j] <= max_per_day,
            hours > 0 ==> from + parameters.longest() <= to,
            parameters.hours == hours,
            parameters.max_per_day == max_per_day,
            forall|j: int| 0 <= j < i ==> slot_fits(#[trigger] times@[j], from, to, max_per_day),
            assigned_hours(times@) == total(durations@.take(i as int)),
        decreases durations@.len() - i,
    {
        let duration: u32 = durations[i];
        let slot: Option<Time> = if duration == 0 {
            None
        } else {
            proof {
                lemma_total_bounds(durations@, i as int);
            }
            let start: u32 = draw_inclusive(from, to - duration, r);
            Some(Time { from: start, to: start + duration })
        };
        proof {
            lemma_assigned_push(times@, slot);
            assert(durations@.take(i + 1).drop_last() =~= durations@.take(i as int));
        }
        times.push(slot);
        i += 1;
    }
    proof {
        assert(durations@.take(durations@.len() as int) =~= durations@);
    }
    times
}

/// Every interval starts no later than it ends.
pub open spec fn slots_ordered(times: Seq<Option<Time>>) -> bool {
    forall|i: int| 0 <= i < times.len() ==> slot_hours(#[trigger] times[i]) >= 0
}

/// Where every interval is ordered, the hours of the first slots are no
/// more than the hours of all.
pub proof fn lemma_assigned_prefix(times: Seq<Option<Time>>, i: int)
    requires
        slots_ordered(times),
        0 <= i <= times.len(),
    ensures
        0 <= assigned_hours(times.take(i)) <= assigned_hours(times),
    decreases times.len() - i,
{
    if i == times.len() {
        assert(times.take(i) =~= times);
        lemma_assigned_nonnegative(times);
    } else {
        lemma_assigned_prefix(times, i + 1);
        assert(times.take(i + 1).drop_last() =~= times.take(i));
        assert(slot_hours(times[i]) >= 0);
        lemma_assigned_nonnegative(times.take(i));
    }
}

/// Where every interval is ordered, the hours assigned are not negative.
pub proof fn lemma_assigned_nonnegative(times: Seq<Option<Time>>)
    requires
        slots_ordered(times),
    ensures
        0 <= assigned_hours(times),
    decreases times.len(),
{
    if times.len() > 0 {
        assert(slot_hours(times[times.len() - 1]) >= 0);
        lemma_assigned_nonnegative(times.drop_last());
    }
}

/// Adds up the hours of all intervals. There is no sum where an interval
/// ends before it starts, or where the hours do not fit in a `u32`.
pub fn count_hours(times: &Vec<Option<Time>>) -> (hours: Option<u32>)
    ensures
        hours matches Some(sum) ==> slots_ordered(times@) && sum == assigned_hours(times@),
        hours is None ==> !slots_ordered(times@) || assigned_hours(times@) > u32::MAX,
{
    let mut sum: u32 = 0;
    let mut i: usize = 0;
    while i < times.len()
        invariant
            i <= times@.len(),
            slots_ordered(times@.take(i as int)),
            sum == assigned_hours(times@.take(i as int)),
        decreases times@.len() - i,
    {
        let length: u32 = match times[i] {
            Some(time) => {
                if time.to < time.from {
                    assert(slot_hours(times@[i as int]) < 0);
                    return None;
                }
                time.to - time.from
            },
            None => 0,
        };
        proof {
            assert(times@.take(i + 1).drop_last() =~= times@.take(i as int));
            assert(slots_ordered(times@.take(i + 1))) by {
                assert forall|j: int| 0 <= j < i + 1 implies slot_hours(
                    #[trigger] times@.take(i + 1)[j],
                ) >= 0 by {
                    if j < i {
                        assert(times@.take(i + 1)[j] == times@.take(i as int)[j]);
                    }
                }
            }
        }
        if length > u32::MAX - sum {
            proof {
                if slots_ordered(times@) {
                    lemma_assigned_prefix(times@, i + 1);
                }
            }
            return None;
        }
        sum += length;
        i += 1;
    }
    proof {
        assert(times@.take(times@.len() as int) =~= times@);
    }
    Some(sum)
}

} // verus!
