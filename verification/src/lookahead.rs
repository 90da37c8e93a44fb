//! The limiter's gain computer: a sliding minimum, a release that never rises
//! above it, and a moving average that has arrived by the time a peak comes
//! out of the delay.

use vstd::prelude::*;

use crate::num::{
    a_gain_shrinks, is_gain, min, min_of, ratio, ratio_of, Fixed, Sample, Wide, FRACTION,
};
use crate::ring::{remembered, Shift};

verus! {

/// A need still in the window: how many frames ago it came, and what it is.
pub struct Entry<S> {
    pub age: nat,
    pub value: S,
}

/// Frames from one stamp to a later one, the stamps wrapping round.
pub open spec fn since(now: u64, then: u64) -> int {
    if now >= then {
        now - then
    } else {
        now - then + 0x1_0000_0000_0000_0000
    }
}

/// The sliding minimum's monotonic queue: values ascending from the front,
/// with the frame each arrived on. A ring as long as the window.
pub struct SlidingMin<S> {
    values: Vec<S>,
    frames: Vec<u64>,
    front: usize,
    len: usize,
    /// The stamp of the newest frame.
    frame: u64,
}

/// The queue without what leaves the window with the next frame.
pub open spec fn without_old<S>(queue: Seq<Entry<S>>, window: int) -> Seq<Entry<S>>
    decreases queue.len(),
{
    if queue.len() > 0 && queue.first().age + 1 >= window {
        without_old(queue.drop_first(), window)
    } else {
        queue
    }
}

/// The queue without what can never be the minimum again while `need` is in
/// the window.
pub open spec fn without_larger<S: Sample>(queue: Seq<Entry<S>>, need: S) -> Seq<Entry<S>>
    decreases queue.len(),
{
    if queue.len() > 0 && !queue.last().value.below(need) {
        without_larger(queue.drop_last(), need)
    } else {
        queue
    }
}

/// The queue one frame later.
pub open spec fn aged<S>(queue: Seq<Entry<S>>) -> Seq<Entry<S>> {
    queue.map_values(|entry: Entry<S>| Entry { age: entry.age + 1, value: entry.value })
}

/// The queue after a frame with a need.
pub open spec fn admitted<S: Sample>(queue: Seq<Entry<S>>, need: S, window: int) -> Seq<Entry<S>> {
    aged(without_larger(without_old(queue, window), need)).push(Entry { age: 0, value: need })
}

/// Whether a queue's entries lie in the window, the oldest first.
pub open spec fn in_window<S>(queue: Seq<Entry<S>>, window: int) -> bool {
    &&& forall|i: int| 0 <= i < queue.len() ==> (#[trigger] queue[i]).age < window
    &&& forall|i: int, j: int|
        0 <= i < j < queue.len() ==> (#[trigger] queue[i]).age >= (#[trigger] queue[j]).age + (j
            - i)
}

impl<S> SlidingMin<S> {
    closed spec fn place(&self, index: int) -> int {
        let at = self.front + index;
        if at >= self.values@.len() {
            at - self.values@.len()
        } else {
            at
        }
    }

    /// How many frames a need stays in force, its own among them.
    pub closed spec fn window(&self) -> int {
        self.values@.len() as int
    }
}

impl<S> View for SlidingMin<S> {
    type V = Seq<Entry<S>>;

    closed spec fn view(&self) -> Seq<Entry<S>> {
        Seq::new(
            self.len as nat,
            |i: int|
                Entry {
                    age: since(self.frame, self.frames[self.place(i)]) as nat,
                    value: self.values[self.place(i)],
                },
        )
    }
}

impl<S: Sample> SlidingMin<S> {
    pub closed spec fn well_formed(&self) -> bool {
        &&& self.values@.len() == self.frames@.len()
        &&& self.front < self.values@.len()
        &&& self.len <= self.values@.len()
        &&& in_window(self@, self.values@.len() as int)
    }

    /// A queue for a window of some frames, with nothing in it.
    pub fn new(window: usize) -> (queue: Self)
        requires
            window > 0,
        ensures
            queue.well_formed(),
            queue.window() == window,
            queue@ == Seq::<Entry<S>>::empty(),
    {
        let mut values: Vec<S> = Vec::with_capacity(window);
        let mut frames: Vec<u64> = Vec::with_capacity(window);
        while values.len() < window
            invariant
                values@.len() <= window,
                frames@.len() == values@.len(),
            decreases window - values@.len(),
        {
            values.push(S::of(1));
            frames.push(0);
        }
        let queue = SlidingMin { values, frames, front: 0, len: 0, frame: 0 };
        assert(queue@ =~= Seq::empty());
        queue
    }

    pub fn clear(&mut self)
        requires
            old(self).well_formed(),
        ensures
            final(self).well_formed(),
            final(self).window() == old(self).window(),
            final(self)@ == Seq::<Entry<S>>::empty(),
    {
        self.len = 0;
        assert(self@ =~= Seq::empty());
    }

    /// Take the oldest entry out.
    fn drop_front(&mut self)
        requires
            old(self).well_formed(),
            old(self)@.len() > 0,
        ensures
            final(self).well_formed(),
            final(self).window() == old(self).window(),
            final(self).frame == old(self).frame,
            final(self).len == old(self).len - 1,
            final(self)@ == old(self)@.drop_first(),
    {
        let capacity: usize = self.values.len();
        self.front = if self.front + 1 >= capacity {
            0
        } else {
            self.front + 1
        };
        self.len = self.len - 1;
        assert(self@ =~= old(self)@.drop_first());
    }

    /// Let `need` in at the next frame and return the minimum over the window.
    pub fn sliding_min(&mut self, need: S) -> (held: S)
        requires
            old(self).well_formed(),
        ensures
            final(self).well_formed(),
            final(self).window() == old(self).window(),
            final(self)@ == admitted(old(self)@, need, old(self).window()),
            held == final(self)@[0].value,
    {
        let window: usize = self.values.len();
        // What leaves the window goes first, so that the ring always has room.
        while self.len > 0 && self.frame.wrapping_sub(self.frames[self.front])
            >= (window - 1) as u64
            invariant
                self.well_formed(),
                window == self.window(),
                self.window() == old(self).window(),
                self.frame == old(self).frame,
                without_old(self@, window as int) == without_old(old(self)@, window as int),
            decreases self.len,
        {
            assert(self@.first().age == since(self.frame, self.frames[self.front as int]));
            self.drop_front();
        }
        let ghost fresh = without_old(old(self)@, window as int);
        proof {
            if self.len > 0 {
                assert(self@.first().age == since(self.frame, self.frames[self.front as int]));
            }
            assert(self@ == fresh);
        }
        while self.len > 0 && !self.values[self.back()].lt(need)
            invariant
                self.well_formed(),
                window == self.window(),
                self.window() == old(self).window(),
                self.frame == old(self).frame,
                self@.len() > 0 ==> self@.first().age + 1 < window,
                without_larger(self@, need) == without_larger(fresh, need),
            decreases self.len,
        {
            assert(self@.last().value == self.values[self.place(self.len - 1)]);
            let ghost before = self@;
            self.len = self.len - 1;
            assert(self@ =~= before.drop_last());
        }
        let ghost kept = self@;
        proof {
            if self.len > 0 {
                assert(kept.last().value == self.values[self.place(self.len - 1)]);
                assert(kept.first().age >= kept.len() - 1) by {
                    if kept.len() > 1 {
                        assert(kept[0].age >= kept[kept.len() - 1].age + (kept.len() - 1));
                    }
                }
            }
            assert(kept == without_larger(fresh, need));
            assert(self.len < window);
        }
        let at: usize = self.slot(self.len);
        let now: u64 = self.frame.wrapping_add(1);
        self.frame = now;
        self.values[at] = need;
        self.frames[at] = now;
        self.len = self.len + 1;
        proof {
            assert forall|i: int| 0 <= i < kept.len() implies self@[i] == #[trigger] aged(
                kept,
            )[i] by {
                assert(kept[i].age + 1 < window) by {
                    if i > 0 {
                        assert(kept[0].age >= kept[i].age + i);
                    }
                }
            }
            assert(self@ =~= admitted(old(self)@, need, window as int));
            assert forall|i: int, j: int| 0 <= i < j < self@.len() implies (
            #[trigger] self@[i]).age >= (#[trigger] self@[j]).age + (j - i) by {
                if j < kept.len() {
                    assert(kept[i].age >= kept[j].age + (j - i));
                } else if i < kept.len() - 1 {
                    assert(kept[i].age >= kept[kept.len() - 1].age + (kept.len() - 1 - i));
                }
            }
            assert forall|i: int| 0 <= i < self@.len() implies (#[trigger] self@[i]).age
                < window by {
                if 0 < i < kept.len() {
                    assert(kept[0].age >= kept[i].age + i);
                }
            }
        }
        self.values[self.front]
    }

    /// Where the entry of an index lies.
    fn slot(&self, index: usize) -> (at: usize)
        requires
            self.well_formed(),
            index < self.values@.len(),
        ensures
            at == self.place(index as int),
            at < self.values@.len(),
    {
        let capacity: usize = self.values.len();
        if index >= capacity - self.front {
            index - (capacity - self.front)
        } else {
            self.front + index
        }
    }

    /// Where the newest entry lies.
    fn back(&self) -> (at: usize)
        requires
            self.well_formed(),
            self.len > 0,
        ensures
            at == self.place(self.len - 1),
            at < self.values@.len(),
    {
        self.slot(self.len - 1)
    }
}

/// Whether "not below" is an order on some values: of two, at least one is not
/// below the other, and what is not below what is not below a third is not
/// below the third.
pub open spec fn comparable<S: Sample>(values: Seq<S>) -> bool {
    &&& forall|i: int, j: int|
        0 <= i < values.len() && 0 <= j < values.len() && #[trigger] beneath(values, i, j)
            ==> !beneath(values, j, i)
    &&& forall|i: int, j: int, k: int|
        0 <= i < values.len() && 0 <= j < values.len() && 0 <= k < values.len()
            && !#[trigger] beneath(values, i, j) && !#[trigger] beneath(values, j, k)
            ==> !beneath(values, i, k)
}

/// Whether one value of a row is below another.
pub open spec fn beneath<S: Sample>(values: Seq<S>, i: int, j: int) -> bool {
    values[i].below(values[j])
}

/// The need that came `age` frames before the newest.
pub open spec fn need_at<S>(needs: Seq<S>, age: int) -> S {
    needs[needs.len() - 1 - age]
}

/// Whether a queue stands for the needs so far: its entries are needs in the
/// window, ascending, and every need in the window has an entry no older that
/// it is not below.
pub open spec fn stands_for<S: Sample>(queue: Seq<Entry<S>>, needs: Seq<S>, window: int) -> bool {
    &&& in_window(queue, window)
    &&& forall|i: int|
        0 <= i < queue.len() ==> (#[trigger] queue[i]).age < needs.len() && queue[i].value
            == needs[needs.len() - 1 - queue[i].age]
    &&& forall|i: int, j: int|
        0 <= i < j < queue.len() ==> !(#[trigger] queue[j]).value.below(
            (#[trigger] queue[i]).value,
        )
    &&& forall|age: int|
        #![trigger need_at(needs, age)]
        0 <= age < needs.len() && age < window ==> exists|i: int|
            0 <= i < queue.len() && (#[trigger] queue[i]).age <= age && !need_at(
                needs,
                age,
            ).below(queue[i].value)
}

proof fn lemma_without_old<S>(queue: Seq<Entry<S>>, window: int) -> (gone: int)
    ensures
        0 <= gone <= queue.len(),
        without_old(queue, window) == queue.skip(gone),
        forall|i: int| 0 <= i < gone ==> (#[trigger] queue[i]).age + 1 >= window,
        gone < queue.len() ==> queue[gone].age + 1 < window,
    decreases queue.len(),
{
    if queue.len() > 0 && queue.first().age + 1 >= window {
        let rest = lemma_without_old(queue.drop_first(), window);
        assert(queue.drop_first().skip(rest) =~= queue.skip(rest + 1));
        assert forall|i: int| 0 <= i < rest + 1 implies (#[trigger] queue[i]).age + 1
            >= window by {
            if i > 0 {
                assert(queue[i] == queue.drop_first()[i - 1]);
            }
        }
        rest + 1
    } else {
        assert(queue.skip(0) =~= queue);
        0
    }
}

proof fn lemma_without_larger<S: Sample>(queue: Seq<Entry<S>>, need: S) -> (kept: int)
    ensures
        0 <= kept <= queue.len(),
        without_larger(queue, need) == queue.take(kept),
        forall|i: int| kept <= i < queue.len() ==> !(#[trigger] queue[i]).value.below(need),
        kept > 0 ==> queue[kept - 1].value.below(need),
    decreases queue.len(),
{
    if queue.len() > 0 && !queue.last().value.below(need) {
        let kept = lemma_without_larger(queue.drop_last(), need);
        assert(queue.drop_last().take(kept) =~= queue.take(kept));
        assert forall|i: int| kept <= i < queue.len() implies !(
        #[trigger] queue[i]).value.below(need) by {
            if i < queue.len() - 1 {
                assert(queue[i] == queue.drop_last()[i]);
            }
        }
        kept
    } else {
        assert(queue.take(queue.len() as int) =~= queue);
        queue.len() as int
    }
}

/// How a queue is parted by a need: `gone` entries leave the window, the next
/// `kept` stay, and the rest can never be the minimum again.
spec fn parted<S: Sample>(
    queue: Seq<Entry<S>>,
    need: S,
    window: int,
    gone: int,
    kept: int,
) -> bool {
    let after = admitted(queue, need, window);
    &&& 0 <= gone <= queue.len()
    &&& 0 <= kept <= queue.len() - gone
    &&& after.len() == kept + 1
    &&& after[kept] == (Entry { age: 0, value: need })
    &&& forall|i: int|
        0 <= i < kept ==> #[trigger] after[i] == (Entry {
            age: queue[gone + i].age + 1,
            value: queue[gone + i].value,
        })
    &&& forall|i: int| 0 <= i < gone ==> (#[trigger] queue[i]).age + 1 >= window
    &&& forall|i: int| gone + kept <= i < queue.len() ==> !(#[trigger] queue[i]).value.below(need)
    &&& kept > 0 ==> queue[gone + kept - 1].value.below(need) && queue[gone].age + 1 < window
}

proof fn lemma_parted<S: Sample>(queue: Seq<Entry<S>>, need: S, window: int) -> (parts: (
    int,
    int,
))
    ensures
        parted(queue, need, window, parts.0, parts.1),
{
    let gone = lemma_without_old(queue, window);
    let fresh = without_old(queue, window);
    let kept = lemma_without_larger(fresh, need);
    let stays = without_larger(fresh, need);
    let after = admitted(queue, need, window);
    assert forall|i: int| 0 <= i < kept implies #[trigger] after[i] == (Entry {
        age: queue[gone + i].age + 1,
        value: queue[gone + i].value,
    }) by {
        assert(stays[i] == queue[gone + i]);
    }
    assert forall|i: int| gone + kept <= i < queue.len() implies !(
    #[trigger] queue[i]).value.below(need) by {
        assert(fresh[i - gone] == queue[i]);
    }
    if kept > 0 {
        assert(fresh[kept - 1] == queue[gone + kept - 1]);
    }
    (gone, kept)
}

proof fn lemma_still_in_window<S: Sample>(
    queue: Seq<Entry<S>>,
    need: S,
    window: int,
    gone: int,
    kept: int,
)
    requires
        window > 0,
        in_window(queue, window),
        parted(queue, need, window, gone, kept),
    ensures
        in_window(admitted(queue, need, window), window),
{
    let after = admitted(queue, need, window);
    assert forall|i: int| 0 <= i < after.len() implies (#[trigger] after[i]).age < window by {
        if 0 < i < kept {
            assert(queue[gone].age >= queue[gone + i].age + i);
        }
    }
    assert forall|i: int, j: int| 0 <= i < j < after.len() implies (#[trigger] after[i]).age >= (
    #[trigger] after[j]).age + (j - i) by {
        if j < kept {
            assert(queue[gone + i].age >= queue[gone + j].age + (j - i));
        } else if i < kept - 1 {
            assert(queue[gone + i].age >= queue[gone + kept - 1].age + (kept - 1 - i));
        }
    }
}

proof fn lemma_still_needs<S: Sample>(
    queue: Seq<Entry<S>>,
    needs: Seq<S>,
    need: S,
    window: int,
    gone: int,
    kept: int,
)
    requires
        stands_for(queue, needs, window),
        parted(queue, need, window, gone, kept),
    ensures
        ({
            let after = admitted(queue, need, window);
            let all = needs.push(need);
            forall|i: int|
                0 <= i < after.len() ==> (#[trigger] after[i]).age < all.len() && after[i].value
                    == all[all.len() - 1 - after[i].age]
        }),
{
    let after = admitted(queue, need, window);
    let all = needs.push(need);
    assert forall|i: int| 0 <= i < after.len() implies (#[trigger] after[i]).age < all.len()
        && after[i].value == all[all.len() - 1 - after[i].age] by {
        if i < kept {
            let entry = queue[gone + i];
            assert(entry.value == needs[needs.len() - 1 - entry.age]);
        }
    }
}

proof fn lemma_still_ascending<S: Sample>(
    queue: Seq<Entry<S>>,
    needs: Seq<S>,
    need: S,
    window: int,
    gone: int,
    kept: int,
    i: int,
    j: int,
)
    requires
        stands_for(queue, needs, window),
        comparable(needs.push(need)),
        parted(queue, need, window, gone, kept),
        0 <= i < j < admitted(queue, need, window).len(),
    ensures
        !admitted(queue, need, window)[j].value.below(admitted(queue, need, window)[i].value),
{
    let after = admitted(queue, need, window);
    let all = needs.push(need);
    let newest = needs.len() as int;
    lemma_still_needs(queue, needs, need, window, gone, kept);
    if j < kept {
        assert(after[i].value == queue[gone + i].value);
        assert(after[j].value == queue[gone + j].value);
        assert(!queue[gone + j].value.below(queue[gone + i].value));
    } else if need.below(after[i].value) {
        let a = all.len() - 1 - after[i].age;
        let b = all.len() - 1 - after[kept - 1].age;
        assert(beneath(all, newest, a));
        assert(!beneath(all, a, newest));
        assert(after[kept - 1].value == queue[gone + kept - 1].value);
        assert(beneath(all, b, newest));
        if i < kept - 1 {
            assert(after[i].value == queue[gone + i].value);
            assert(!queue[gone + kept - 1].value.below(queue[gone + i].value));
            assert(!beneath(all, b, a));
        }
    }
}

proof fn lemma_still_covered<S: Sample>(
    queue: Seq<Entry<S>>,
    needs: Seq<S>,
    need: S,
    window: int,
    gone: int,
    kept: int,
    age: int,
) -> (at: int)
    requires
        stands_for(queue, needs, window),
        comparable(needs.push(need)),
        parted(queue, need, window, gone, kept),
        0 <= age <= needs.len(),
        age < window,
    ensures
        ({
            let after = admitted(queue, need, window);
            &&& 0 <= at < after.len()
            &&& after[at].age <= age
            &&& !need_at(needs.push(need), age).below(after[at].value)
        }),
{
    let after = admitted(queue, need, window);
    let all = needs.push(need);
    let newest = needs.len() as int;
    if age == 0 {
        assert(!beneath(all, newest, newest));
        kept
    } else {
        assert(need_at(all, age) == need_at(needs, age - 1));
        let i = choose|i: int|
            0 <= i < queue.len() && (#[trigger] queue[i]).age <= age - 1 && !need_at(
                needs,
                age - 1,
            ).below(queue[i].value);
        assert(queue[i].age <= age - 1);
        if i < gone + kept {
            assert(after[i - gone].value == queue[i].value);
            i - gone
        } else {
            let a = all.len() - 1 - age;
            let b = needs.len() - 1 - queue[i].age;
            assert(all[b] == queue[i].value);
            assert(!beneath(all, a, b));
            assert(!beneath(all, b, newest));
            assert(!beneath(all, a, newest));
            kept
        }
    }
}

/// A queue that stands for the needs so far stands for one more.
pub proof fn admitting_keeps_the_needs<S: Sample>(
    queue: Seq<Entry<S>>,
    needs: Seq<S>,
    need: S,
    window: int,
)
    requires
        window > 0,
        stands_for(queue, needs, window),
        comparable(needs.push(need)),
    ensures
        stands_for(admitted(queue, need, window), needs.push(need), window),
{
    let (gone, kept) = lemma_parted(queue, need, window);
    let after = admitted(queue, need, window);
    let all = needs.push(need);
    lemma_still_in_window(queue, need, window, gone, kept);
    lemma_still_needs(queue, needs, need, window, gone, kept);
    assert forall|i: int, j: int| 0 <= i < j < after.len() implies !(
    #[trigger] after[j]).value.below((#[trigger] after[i]).value) by {
        lemma_still_ascending(queue, needs, need, window, gone, kept, i, j);
    }
    assert forall|age: int|
        #![trigger need_at(all, age)]
        0 <= age < all.len() && age < window implies exists|i: int|
        0 <= i < after.len() && (#[trigger] after[i]).age <= age && !need_at(all, age).below(
            after[i].value,
        ) by {
        let at = lemma_still_covered(queue, needs, need, window, gone, kept, age);
        assert(after[at].age <= age);
    }
}

/// The front of a queue that stands for the needs is the least need in the
/// window.
pub proof fn the_front_is_the_least<S: Sample>(
    queue: Seq<Entry<S>>,
    needs: Seq<S>,
    window: int,
    age: int,
)
    requires
        window > 0,
        stands_for(queue, needs, window),
        comparable(needs),
        0 <= age < needs.len(),
        age < window,
    ensures
        queue.len() > 0,
        queue[0].age < window,
        queue[0].value == need_at(needs, queue[0].age as int),
        !need_at(needs, age).below(queue[0].value),
{
    let i = choose|i: int|
        0 <= i < queue.len() && (#[trigger] queue[i]).age <= age && !need_at(needs, age).below(
            queue[i].value,
        );
    assert(queue[i].age <= age);
    if i > 0 {
        let a = needs.len() - 1 - age;
        let b = needs.len() - 1 - queue[i].age;
        let c = needs.len() - 1 - queue[0].age;
        assert(needs[a] == need_at(needs, age));
        assert(needs[b] == queue[i].value);
        assert(needs[c] == queue[0].value);
        assert(!queue[i].value.below(queue[0].value));
        assert(!beneath(needs, a, b));
        assert(!beneath(needs, b, c));
        assert(!beneath(needs, a, c));
    }
}

/// The gain computer: the sliding minimum of the needs, released and averaged.
pub struct GainComputer<S, W> {
    minimum: SlidingMin<S>,
    /// The released gain, at most the sliding minimum.
    released: S,
    release_coeff: S,
    /// The last released gains and their sum.
    average: Shift<S>,
    average_sum: W,
    /// Consecutive frames the released gain has been exactly one. Once the
    /// whole average is, the sum is snapped back to exact, so a quiet passage
    /// comes out identical to its input.
    unity_run: usize,
}

/// What a gain computer is, apart from where its rows lie.
pub struct GainState<S, W> {
    pub queue: Seq<Entry<S>>,
    pub window: int,
    pub released: S,
    pub release_coeff: S,
    pub average: Seq<S>,
    pub sum: W,
    pub unity_run: int,
}

impl<S, W> View for GainComputer<S, W> {
    type V = GainState<S, W>;

    closed spec fn view(&self) -> GainState<S, W> {
        GainState {
            queue: self.minimum@,
            window: self.minimum.window(),
            released: self.released,
            release_coeff: self.release_coeff,
            average: self.average@,
            sum: self.average_sum,
            unity_run: self.unity_run as int,
        }
    }
}

/// The released gain after a held one: down at once, and up through a
/// one-pole, which lands where the gap is inaudible.
pub open spec fn released_after<S: Sample>(released: S, held: S, coeff: S) -> S {
    if held.at_most(released) {
        held
    } else {
        let rising = held.plus(coeff.times(released.minus(held)));
        if held.minus(rising).below(ratio_of(1, 1_000_000)) {
            held
        } else {
            rising
        }
    }
}

/// A run one frame longer.
pub open spec fn longer(run: int) -> int {
    if run < usize::MAX {
        run + 1
    } else {
        run
    }
}

/// The gain computer after a need.
pub open spec fn gain_next<S: Sample, W: Wide<S>>(
    gain: GainState<S, W>,
    need: S,
) -> GainState<S, W> {
    let queue = admitted(gain.queue, need, gain.window);
    let released = released_after(gain.released, queue[0].value, gain.release_coeff);
    let unity_run = if released.equals_spec(S::of_spec(1)) {
        longer(gain.unity_run)
    } else {
        0
    };
    GainState {
        queue,
        released,
        average: remembered(gain.average, released),
        sum: if unity_run >= gain.average.len() {
            W::of_spec(gain.average.len())
        } else {
            gain.sum.plus(
                W::widen_spec(released).minus(W::widen_spec(gain.average.last())),
            )
        },
        unity_run,
        ..gain
    }
}

/// The gain a gain computer asks for: one where every released gain it
/// averages is one, and their mean, at most one, otherwise.
pub open spec fn gain_out<S: Sample, W: Wide<S>>(gain: GainState<S, W>) -> S {
    if gain.unity_run >= gain.average.len() {
        S::of_spec(1)
    } else {
        min_of(
            gain.sum.over(W::of_spec(gain.average.len())).narrow_spec(),
            S::of_spec(1),
        )
    }
}

/// A gain computer that has seen no need.
pub open spec fn gain_new<S: Sample, W: Wide<S>>(
    lookahead: nat,
    window: int,
    release_coeff: S,
) -> GainState<S, W> {
    GainState {
        queue: Seq::empty(),
        window,
        released: S::of_spec(1),
        release_coeff,
        average: Seq::new(lookahead, |i: int| S::of_spec(1)),
        sum: W::of_spec(lookahead),
        unity_run: lookahead as int,
    }
}

impl<S: Sample, W: Wide<S>> GainComputer<S, W> {
    pub closed spec fn well_formed(&self) -> bool {
        self.minimum.well_formed() && self.average.well_formed()
    }

    pub fn new(lookahead: usize, window: usize, release_coeff: S) -> (gain: Self)
        requires
            lookahead > 0,
            window > 0,
        ensures
            gain.well_formed(),
            gain@ == gain_new::<S, W>(lookahead as nat, window as int, release_coeff),
    {
        let gain = GainComputer {
            minimum: SlidingMin::new(window),
            released: S::of(1),
            release_coeff,
            average: Shift::filled(lookahead, S::of(1)),
            average_sum: W::of(lookahead),
            unity_run: lookahead,
        };
        assert(gain@.average =~= gain_new::<S, W>(
            lookahead as nat,
            window as int,
            release_coeff,
        ).average);
        gain
    }

    /// Let go of any reduction.
    pub fn clear(&mut self)
        requires
            old(self).well_formed(),
        ensures
            final(self).well_formed(),
            final(self)@ == gain_new::<S, W>(
                old(self)@.average.len(),
                old(self)@.window,
                old(self)@.release_coeff,
            ),
    {
        let lookahead: usize = self.average.len();
        self.minimum.clear();
        self.released = S::of(1);
        self.average.fill(S::of(1));
        self.average_sum = W::of(lookahead);
        self.unity_run = lookahead;
        assert(self@.average =~= gain_new::<S, W>(
            lookahead as nat,
            old(self)@.window,
            old(self)@.release_coeff,
        ).average);
    }

    pub fn set_release(&mut self, release_coeff: S)
        requires
            old(self).well_formed(),
        ensures
            final(self).well_formed(),
            final(self)@ == (GainState { release_coeff, ..old(self)@ }),
    {
        self.release_coeff = release_coeff;
    }

    /// Whether every released gain in the average is one.
    pub fn is_unity(&self) -> (answer: bool)
        ensures
            answer == (self@.unity_run >= self@.average.len()),
    {
        self.unity_run >= self.average.len()
    }

    /// Take the need of the next frame and return the gain to apply.
    pub fn next(&mut self, need: S) -> (gain: S)
        requires
            old(self).well_formed(),
        ensures
            final(self).well_formed(),
            final(self)@ == gain_next(old(self)@, need),
            gain == gain_out(final(self)@),
    {
        let held = self.minimum.sliding_min(need);
        self.released = if held.le(self.released) {
            held
        } else {
            let rising = held.add(self.release_coeff.mul(self.released.sub(held)));
            if held.sub(rising).lt(ratio(1, 1_000_000)) {
                held
            } else {
                rising
            }
        };
        let lookahead: usize = self.average.len();
        let leaving = self.average.pass(self.released);
        self.average_sum =
        self.average_sum.add(W::widen(self.released).sub(W::widen(leaving)));
        self.unity_run = if self.released.equals(S::of(1)) {
            self.unity_run.saturating_add(1)
        } else {
            0
        };
        if self.unity_run >= lookahead {
            self.average_sum = W::of(lookahead);
            S::of(1)
        } else {
            min(self.average_sum.div(W::of(lookahead)).narrow(), S::of(1))
        }
    }
}

/// The gain computer after each of a row of needs.
pub open spec fn gain_after<S: Sample, W: Wide<S>>(
    gain: GainState<S, W>,
    needs: Seq<S>,
) -> GainState<S, W>
    decreases needs.len(),
{
    if needs.len() == 0 {
        gain
    } else {
        gain_next(gain_after(gain, needs.drop_last()), needs.last())
    }
}

/// The sum of a row, in counts.
pub open spec fn total(row: Seq<Fixed>) -> int
    decreases row.len(),
{
    if row.len() == 0 {
        0
    } else {
        total(row.drop_last()) + row.last().raw
    }
}

proof fn lemma_total_of_front(value: Fixed, row: Seq<Fixed>)
    ensures
        total(seq![value] + row) == value.raw + total(row),
    decreases row.len(),
{
    if row.len() == 0 {
        assert(seq![value] + row =~= seq![value]);
        assert(seq![value].drop_last() =~= Seq::<Fixed>::empty());
        reveal_with_fuel(total, 2);
    } else {
        lemma_total_of_front(value, row.drop_last());
        assert((seq![value] + row).drop_last() =~= seq![value] + row.drop_last());
    }
}

proof fn lemma_total_is_bounded(row: Seq<Fixed>, least: int, most: int)
    requires
        forall|i: int| 0 <= i < row.len() ==> least <= (#[trigger] row[i]).raw <= most,
    ensures
        least * row.len() <= total(row) <= most * row.len(),
    decreases row.len(),
{
    if row.len() > 0 {
        let rest = row.drop_last();
        assert forall|i: int| 0 <= i < rest.len() implies least <= (#[trigger] rest[i]).raw
            <= most by {
            assert(rest[i] == row[i]);
        }
        lemma_total_is_bounded(rest, least, most);
        assert(least * row.len() == least * rest.len() + least) by (nonlinear_arith)
            requires
                row.len() == rest.len() + 1,
        ;
        assert(most * row.len() == most * rest.len() + most) by (nonlinear_arith)
            requires
                row.len() == rest.len() + 1,
        ;
    }
}

/// Fixed-point numbers are in order.
proof fn lemma_fixed_is_comparable(values: Seq<Fixed>)
    ensures
        comparable(values),
{
    assert forall|i: int, j: int, k: int|
        0 <= i < values.len() && 0 <= j < values.len() && 0 <= k < values.len() && !#[trigger] beneath(
            values,
            i,
            j,
        ) && !#[trigger] beneath(values, j, k) implies !beneath(values, i, k) by {
    }
}

/// The release can only ever lag below the minimum, never above it.
pub proof fn the_release_never_rises_above_the_minimum(
    released: Fixed,
    held: Fixed,
    coeff: Fixed,
)
    requires
        is_gain(released),
        is_gain(held),
        is_gain(coeff),
    ensures
        released_after(released, held, coeff).raw <= held.raw,
        is_gain(released_after(released, held, coeff)),
{
    if held.raw > released.raw {
        a_gain_shrinks(coeff, released.minus(held));
    }
}

/// Whether every gain that is averaged is at most every need it had to keep
/// under, and the sum is their sum.
spec fn keeps_under(gain: GainState<Fixed, Fixed>, needs: Seq<Fixed>) -> bool {
    &&& stands_for(gain.queue, needs, gain.window)
    &&& is_gain(gain.released)
    &&& is_gain(gain.release_coeff)
    &&& gain.sum.raw == total(gain.average)
    &&& gain.unity_run >= 0
    &&& forall|age: int| 0 <= age < gain.average.len() ==> is_gain(#[trigger] gain.average[age])
    &&& forall|age: int|
        0 <= age < gain.average.len() && age < gain.unity_run ==> (
        #[trigger] gain.average[age]).raw == FRACTION
    &&& forall|age: int, j: int|
        0 <= age < gain.average.len() && 0 <= j <= needs.len() - 1 - age && needs.len() - 1 - age
            - gain.window < j ==> (#[trigger] gain.average[age]).raw <= (#[trigger] needs[j]).raw
}

proof fn lemma_one_need_keeps_under(
    gain: GainState<Fixed, Fixed>,
    needs: Seq<Fixed>,
    need: Fixed,
)
    requires
        gain.window > 0,
        0 < gain.average.len() < 0x7fff_ffff,
        is_gain(need),
        forall|j: int| 0 <= j < needs.len() ==> is_gain(#[trigger] needs[j]),
        keeps_under(gain, needs),
    ensures
        keeps_under(gain_next(gain, need), needs.push(need)),
{
    let all = needs.push(need);
    let after = gain_next(gain, need);
    let lookahead = gain.average.len() as int;
    lemma_fixed_is_comparable(all);
    admitting_keeps_the_needs(gain.queue, needs, need, gain.window);
    the_front_is_the_least(after.queue, all, gain.window, 0);
    let held = after.queue[0].value;
    let at = all.len() - 1 - after.queue[0].age;
    assert(held == all[at]);
    assert(is_gain(held));
    the_release_never_rises_above_the_minimum(gain.released, held, gain.release_coeff);
    assert forall|age: int, j: int|
        0 <= age < after.average.len() && 0 <= j <= all.len() - 1 - age && all.len() - 1 - age
            - gain.window < j implies (#[trigger] after.average[age]).raw <= (
    #[trigger] all[j]).raw by {
        if age == 0 {
            the_front_is_the_least(after.queue, all, gain.window, all.len() - 1 - j);
            assert(need_at(all, all.len() - 1 - j) == all[j]);
        } else {
            assert(after.average[age] == gain.average[age - 1]);
            assert(all[j] == needs[j]);
        }
    }
    assert forall|age: int| 0 <= age < after.average.len() implies is_gain(
        #[trigger] after.average[age],
    ) by {
        if age > 0 {
            assert(after.average[age] == gain.average[age - 1]);
        }
    }
    assert forall|age: int|
        0 <= age < after.average.len() && age < after.unity_run implies (
    #[trigger] after.average[age]).raw == FRACTION by {
        if age > 0 {
            assert(after.average[age] == gain.average[age - 1]);
        }
    }
    // The sum of the row moves by what came and what left.
    let rest = gain.average.drop_last();
    lemma_total_of_front(after.released, rest);
    assert(total(after.average) == total(gain.average) + after.released.raw
        - gain.average.last().raw);
    lemma_total_is_bounded(gain.average, 0, FRACTION as int);
    lemma_total_is_bounded(after.average, 0, FRACTION as int);
    assert(FRACTION * lookahead <= 0x7fff_ffff_0000_0000) by (nonlinear_arith)
        requires
            lookahead <= 0x7fff_ffff,
            FRACTION == 0x1_0000_0000,
    ;
    if after.unity_run >= lookahead {
        assert forall|i: int| 0 <= i < after.average.len() implies FRACTION <= (
        #[trigger] after.average[i]).raw <= FRACTION by {
        }
        lemma_total_is_bounded(after.average, FRACTION as int, FRACTION as int);
        assert(lookahead * FRACTION == FRACTION * lookahead) by (nonlinear_arith);
    }
}

proof fn lemma_all_needs_keep_under(
    gain: GainState<Fixed, Fixed>,
    needs: Seq<Fixed>,
    lookahead: nat,
    window: int,
    release_coeff: Fixed,
)
    requires
        window > 0,
        0 < lookahead < 0x7fff_ffff,
        is_gain(release_coeff),
        gain == gain_new::<Fixed, Fixed>(lookahead, window, release_coeff),
        forall|j: int| 0 <= j < needs.len() ==> is_gain(#[trigger] needs[j]),
    ensures
        keeps_under(gain_after(gain, needs), needs),
        gain_after(gain, needs).window == window,
        gain_after(gain, needs).average.len() == lookahead,
    decreases needs.len(),
{
    if needs.len() == 0 {
        let average = gain.average;
        assert forall|i: int| 0 <= i < average.len() implies FRACTION <= (
        #[trigger] average[i]).raw <= FRACTION by {
        }
        lemma_total_is_bounded(average, FRACTION as int, FRACTION as int);
        assert(lookahead * FRACTION == FRACTION * lookahead) by (nonlinear_arith);
        assert(FRACTION * lookahead <= 0x7fff_ffff_0000_0000) by (nonlinear_arith)
            requires
                lookahead <= 0x7fff_ffff,
                FRACTION == 0x1_0000_0000,
        ;
    } else {
        let before = needs.drop_last();
        assert forall|j: int| 0 <= j < before.len() implies is_gain(#[trigger] before[j]) by {
            assert(before[j] == needs[j]);
        }
        lemma_all_needs_keep_under(gain, before, lookahead, window, release_coeff);
        lemma_one_need_keeps_under(gain_after(gain, before), before, needs.last());
        assert(before.push(needs.last()) =~= needs);
    }
}

/// The guarantee: the gain is at or below every need that still has to be
/// kept under by all the frames it averages over. With a window wider than the
/// lookahead, these are the needs of the frames around the one that comes out
/// of the delay.
pub proof fn the_gain_keeps_under_every_need(
    needs: Seq<Fixed>,
    lookahead: nat,
    window: int,
    release_coeff: Fixed,
    j: int,
)
    requires
        window > 0,
        0 < lookahead < 0x7fff_ffff,
        is_gain(release_coeff),
        forall|i: int| 0 <= i < needs.len() ==> is_gain(#[trigger] needs[i]),
        0 <= j <= needs.len() - lookahead,
        needs.len() - 1 - window < j,
    ensures
        gain_out(
            gain_after(gain_new::<Fixed, Fixed>(lookahead, window, release_coeff), needs),
        ).raw <= needs[j].raw,
{
    let start = gain_new::<Fixed, Fixed>(lookahead, window, release_coeff);
    let gain = gain_after(start, needs);
    lemma_all_needs_keep_under(start, needs, lookahead, window, release_coeff);
    let need = needs[j].raw as int;
    if gain.unity_run >= lookahead {
        assert(gain.average[0].raw == FRACTION);
        assert(gain.average[0].raw <= needs[j].raw);
    } else {
        assert forall|age: int| 0 <= age < gain.average.len() implies 0 <= (
        #[trigger] gain.average[age]).raw <= need by {
            assert(is_gain(gain.average[age]));
            assert(gain.average[age].raw <= needs[j].raw);
        }
        lemma_total_is_bounded(gain.average, 0, need);
        let sum = gain.sum.raw as int;
        let f = FRACTION as int;
        assert(lookahead * f <= 0x7fff_ffff_0000_0000) by (nonlinear_arith)
            requires
                lookahead <= 0x7fff_ffff,
                f == 0x1_0000_0000,
        ;
        assert(0 < lookahead * f) by (nonlinear_arith)
            requires
                lookahead > 0,
                f == 0x1_0000_0000,
        ;
        assert(0 <= sum * f <= need * (lookahead * f)) by (nonlinear_arith)
            requires
                0 <= sum <= need * lookahead,
                f == 0x1_0000_0000,
        ;
        lemma_quotient_is_bounded(sum * f, lookahead * f, need);
    }
}

proof fn lemma_quotient_is_bounded(n: int, d: int, most: int)
    requires
        0 <= n <= most * d,
        d > 0,
    ensures
        0 <= n / d <= most,
{
    assert(0 <= n / d <= most) by (nonlinear_arith)
        requires
            0 <= n <= most * d,
            d > 0,
    ;
}

/// Whether a gain computer has nothing to do: every need it remembers is one,
/// and every gain it averages.
pub open spec fn gain_idle<S: Sample, W: Wide<S>>(gain: GainState<S, W>) -> bool {
    &&& gain.released == S::of_spec(1)
    &&& gain.unity_run >= gain.average.len()
    &&& forall|i: int|
        0 <= i < gain.queue.len() ==> (#[trigger] gain.queue[i]).value == S::of_spec(1)
}

proof fn lemma_dropping_old_keeps_ones(queue: Seq<Entry<Fixed>>, window: int)
    requires
        forall|i: int| 0 <= i < queue.len() ==> (#[trigger] queue[i]).value == Fixed::of_spec(1),
    ensures
        forall|i: int|
            0 <= i < without_old(queue, window).len() ==> (#[trigger] without_old(
                queue,
                window,
            )[i]).value == Fixed::of_spec(1),
    decreases queue.len(),
{
    if queue.len() > 0 && queue.first().age + 1 >= window {
        let rest = queue.drop_first();
        assert forall|i: int| 0 <= i < rest.len() implies (#[trigger] rest[i]).value
            == Fixed::of_spec(1) by {
            assert(rest[i] == queue[i + 1]);
        }
        lemma_dropping_old_keeps_ones(rest, window);
        assert(without_old(queue, window) == without_old(rest, window));
    } else {
        assert(without_old(queue, window) == queue);
    }
}

proof fn lemma_a_need_of_one_drops_ones(queue: Seq<Entry<Fixed>>)
    requires
        forall|i: int| 0 <= i < queue.len() ==> (#[trigger] queue[i]).value == Fixed::of_spec(1),
    ensures
        without_larger(queue, Fixed::of_spec(1)).len() == 0,
    decreases queue.len(),
{
    if queue.len() > 0 {
        let rest = queue.drop_last();
        assert forall|i: int| 0 <= i < rest.len() implies (#[trigger] rest[i]).value
            == Fixed::of_spec(1) by {
            assert(rest[i] == queue[i]);
        }
        assert(queue[queue.len() - 1].value == Fixed::of_spec(1));
        lemma_a_need_of_one_drops_ones(rest);
    }
}

/// A gain computer with nothing to do, asked for nothing, goes on doing
/// nothing.
pub proof fn an_idle_gain_stays_idle(gain: GainState<Fixed, Fixed>)
    requires
        gain_idle(gain),
        0 < gain.average.len() <= usize::MAX,
    ensures
        gain_idle(gain_next(gain, Fixed::of_spec(1))),
        gain_out(gain_next(gain, Fixed::of_spec(1))) == Fixed::of_spec(1),
{
    let one = Fixed::of_spec(1);
    let kept = without_old(gain.queue, gain.window);
    lemma_dropping_old_keeps_ones(gain.queue, gain.window);
    lemma_a_need_of_one_drops_ones(kept);
    let queue = admitted(gain.queue, one, gain.window);
    assert(queue.len() == 1 && queue[0].value == one);
    let after = gain_next(gain, one);
    assert(after.released == one);
    assert(after.unity_run >= gain.average.len());
}

/// The queue of a run of needs, from nothing.
pub open spec fn queue_of<S: Sample>(needs: Seq<S>, window: int) -> Seq<Entry<S>>
    decreases needs.len(),
{
    if needs.len() == 0 {
        Seq::empty()
    } else {
        admitted(queue_of(needs.drop_last(), window), needs.last(), window)
    }
}

/// The first of the needs still in the window.
pub open spec fn window_start(count: int, window: int) -> int {
    if count < window {
        0
    } else {
        count - window
    }
}

proof fn lemma_queue_of_stands(needs: Seq<Fixed>, window: int)
    requires
        window > 0,
    ensures
        stands_for(queue_of(needs, window), needs, window),
    decreases needs.len(),
{
    if needs.len() > 0 {
        let before = needs.drop_last();
        lemma_queue_of_stands(before, window);
        assert(before.push(needs.last()) =~= needs);
        admitting_keeps_the_needs(queue_of(before, window), before, needs.last(), window);
    }
}

/// Whatever the needs, call after call, what the sliding minimum holds is the
/// least of the last `window` of them: one of those, and no more than any.
pub proof fn a_run_of_needs_holds_its_least(needs: Seq<Fixed>, window: int)
    requires
        window > 0,
        needs.len() > 0,
    ensures
        ({
            let queue = queue_of(needs, window);
            let start = window_start(needs.len() as int, window);
            &&& queue.len() > 0
            &&& exists|j: int| start <= j < needs.len() && queue[0].value == #[trigger] needs[j]
            &&& forall|j: int|
                start <= j < needs.len() ==> queue[0].value.raw <= (#[trigger] needs[j]).raw
        }),
{
    let queue = queue_of(needs, window);
    let start = window_start(needs.len() as int, window);
    lemma_queue_of_stands(needs, window);
    the_front_is_the_least(queue, needs, window, 0);
    let newest = needs.len() - 1;
    assert(needs[newest - queue[0].age] == queue[0].value);
    assert forall|j: int| start <= j < needs.len() implies queue[0].value.raw <= (
    #[trigger] needs[j]).raw by {
        the_front_is_the_least(queue, needs, window, newest - j);
        assert(need_at(needs, newest - j) == needs[j]);
    }
}

/// Needs that rise strictly leave the oldest in the window in front.
pub proof fn a_rise_leaves_the_oldest_in_front(needs: Seq<Fixed>, window: int)
    requires
        window > 0,
        needs.len() > 0,
        forall|i: int, j: int|
            0 <= i < j < needs.len() ==> (#[trigger] needs[i]).raw < (#[trigger] needs[j]).raw,
    ensures
        queue_of(needs, window)[0].value == needs[window_start(needs.len() as int, window)],
{
    a_run_of_needs_holds_its_least(needs, window);
    let queue = queue_of(needs, window);
    let start = window_start(needs.len() as int, window);
    let j = choose|j: int| start <= j < needs.len() && queue[0].value == #[trigger] needs[j];
    assert(queue[0].value.raw <= needs[start].raw);
}

} // verus!
