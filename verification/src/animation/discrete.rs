//! Animation that applies specific values at specific points in time, and
//! that can be played backwards: rewinding restores the value that was in
//! effect at the earlier time.
use vstd::prelude::*;

use crate::animation::{AnimationTime, Instant};

verus! {

/// Identifier for relating discrete stops that should be pruned as a group
/// if they all occur in the future
pub type DeterminismId = usize;

/// Source of fresh, strictly increasing determinism identifiers
#[derive(Debug, Copy, Clone)]
pub struct Determinisms {
    head: DeterminismId,
}

impl Default for Determinisms {
    fn default() -> (d: Self)
        ensures
            d.head() == 0,
    {
        Determinisms { head: 0 }
    }
}

/// One call of `next` on a source whose next identifier is `h`: it hands
/// out `h`, and `h + 1` is next
pub open spec fn next_step(h: nat) -> (nat, nat) {
    (h, h + 1)
}

/// The identifiers that `n` successive calls of `next` hand out, starting
/// from a source whose next identifier is `h`
pub open spec fn handed_out(h: nat, n: nat) -> Seq<nat>
    decreases n,
{
    if n == 0 {
        Seq::empty()
    } else {
        seq![next_step(h).0] + handed_out(next_step(h).1, (n - 1) as nat)
    }
}

/// Successive calls of `next` from `h` hand out `h`, `h + 1`, ...,
/// `h + n - 1`: strictly increasing, so no identifier is handed out twice
pub proof fn law_next_counts_up(h: nat, n: nat)
    ensures
        handed_out(h, n) == Seq::new(n, |i: int| (h + i) as nat),
        forall|i: int, j: int| 0 <= i < j < n ==> handed_out(h, n)[i] < handed_out(h, n)[j],
    decreases n,
{
    if n > 0 {
        law_next_counts_up(h + 1, (n - 1) as nat);
        assert(handed_out(h, n) =~= Seq::new(n, |i: int| (h + i) as nat));
    }
}

impl Determinisms {
    /// The identifier the next call to `next` hands out
    pub closed spec fn head(&self) -> nat {
        self.head as nat
    }

    /// The identifier the next call to `next` hands out
    pub fn peek(&self) -> (id: DeterminismId)
        ensures
            id == self.head(),
    {
        self.head
    }

    /// Hands out the current identifier and advances to the following one.
    pub fn next(&mut self) -> (id: DeterminismId)
        requires
            old(self).head() < usize::MAX,
        ensures
            (id as nat, final(self).head()) == next_step(old(self).head()),
    {
        let id = self.head;
        self.head = self.head + 1;
        id
    }
}

/// A value that applies from instant `t` on
#[derive(Debug, Default, Copy, Clone, PartialEq)]
pub struct DiscreteStop<T> {
    pub t: Instant,
    pub value: T,
    pub determinism: DeterminismId,
    pub disabled: bool,
}

/// Animation that applies specific values at specific points in time
#[derive(Debug, Clone)]
pub struct Discrete<T> {
    pub t: Instant,
    pub prev_t: Instant,
    pub _stops: Vec<DiscreteStop<T>>,
    pub wants_update: bool,
}

/// Stops ordered by strictly increasing instant
pub open spec fn strictly_sorted<T>(s: Seq<DiscreteStop<T>>) -> bool {
    forall|i: int, j: int| 0 <= i < j < s.len() ==> s[i].t < s[j].t
}

/// `i` is the first position of `s` whose stop has its instant
pub open spec fn first_at_its_time<T>(s: Seq<DiscreteStop<T>>, i: int) -> bool {
    &&& 0 <= i < s.len()
    &&& forall|j: int| 0 <= j < i ==> s[j].t != s[i].t
}

/// Some stop of `s` is at instant `t`
pub open spec fn has_time<T>(s: Seq<DiscreteStop<T>>, t: Instant) -> bool {
    exists|k: int| 0 <= k < s.len() && #[trigger] s[k].t == t
}

/// `x` is the first stop of `s` at its instant
pub open spec fn kept_first<T>(s: Seq<DiscreteStop<T>>, x: DiscreteStop<T>) -> bool {
    exists|i: int| first_at_its_time(s, i) && s[i] == x
}

/// `r` is `s` sorted by instant with one stop kept per instant: the first
/// stop of `s` at that instant
pub open spec fn is_normalization<T>(s: Seq<DiscreteStop<T>>, r: Seq<DiscreteStop<T>>) -> bool {
    &&& strictly_sorted(r)
    &&& forall|k: int| 0 <= k < r.len() ==> kept_first(s, #[trigger] r[k])
    &&& forall|i: int| 0 <= i < s.len() ==> has_time(r, #[trigger] s[i].t)
}

/// Position of the last stop satisfying `p`
pub open spec fn last_index<T>(s: Seq<DiscreteStop<T>>, p: spec_fn(DiscreteStop<T>) -> bool) -> Option<int>
    decreases s.len(),
{
    if s.len() == 0 {
        None
    } else if p(s.last()) {
        Some(s.len() - 1)
    } else {
        last_index(s.drop_last(), p)
    }
}

/// Position of the first stop satisfying `p`
pub open spec fn first_index<T>(s: Seq<DiscreteStop<T>>, p: spec_fn(DiscreteStop<T>) -> bool) -> Option<int>
    decreases s.len(),
{
    if s.len() == 0 {
        None
    } else {
        match first_index(s.drop_last(), p) {
            Some(i) => Some(i),
            None => if p(s.last()) {
                Some(s.len() - 1)
            } else {
                None
            },
        }
    }
}

/// Position of the stop in effect at `t`: the last one at or before `t`
pub open spec fn stop_at_index<T>(s: Seq<DiscreteStop<T>>, t: Instant) -> Option<int> {
    last_index(s, at_or_before(t))
}

/// The stops of `s` whose determinism group has a stop at or before `t`
pub open spec fn prune<T>(s: Seq<DiscreteStop<T>>, t: Instant) -> Seq<DiscreteStop<T>> {
    s.filter(in_past_group(s, t))
}

/// Stops of a determinism group of `s` with a stop at or before `t`
pub open spec fn in_past_group<T>(s: Seq<DiscreteStop<T>>, t: Instant) -> spec_fn(DiscreteStop<T>) -> bool {
    |x: DiscreteStop<T>| group_has_past(s, x.determinism, t)
}

/// Some stop of group `g` lies at or before `t`
pub open spec fn group_has_past<T>(s: Seq<DiscreteStop<T>>, g: DeterminismId, t: Instant) -> bool {
    exists|k: int| 0 <= k < s.len() && #[trigger] s[k].determinism == g && s[k].t <= t
}

/// Whether evaluating at `time` discards the stops of groups lying wholly in
/// the future: on unpausing, or on rewinding without pausing
pub open spec fn prunes_at(time: AnimationTime, prev_t: Instant) -> bool {
    (time.prev_paused && !time.paused) || (!time.paused && time.t < prev_t)
}

/// Stops are dropped only on unpausing or on rewinding while playing:
/// while paused, or while playing on without rewinding, every stop stays
pub proof fn law_prunes_only_on_unpause_or_rewind(time: AnimationTime, prev_t: Instant)
    ensures
        time.paused ==> !prunes_at(time, prev_t),
        !time.paused && !time.prev_paused && prev_t <= time.t ==> !prunes_at(time, prev_t),
        time.prev_paused && !time.paused ==> prunes_at(time, prev_t),
        !time.paused && time.t < prev_t ==> prunes_at(time, prev_t),
{
}

/// Enabled stops lying between `lo` and `hi`, both included
pub open spec fn window<T>(lo: Instant, hi: Instant) -> spec_fn(DiscreteStop<T>) -> bool {
    |x: DiscreteStop<T>| lo <= x.t && x.t <= hi && !x.disabled
}

/// Enabled stops at or before `t` and before `prev`
pub open spec fn enabled_before<T>(t: Instant, prev: Instant) -> spec_fn(DiscreteStop<T>) -> bool {
    |x: DiscreteStop<T>| x.t <= t && x.t < prev && !x.disabled
}

/// Position of the stop a `try_fire_stop_*` call at `t` returns: the stop in
/// effect at `t` if the animation has reached `t` and that stop is enabled
pub open spec fn fire_index<T>(s: Seq<DiscreteStop<T>>, reached: bool, t: Instant) -> Option<int> {
    if reached {
        match stop_at_index(s, t) {
            Some(i) => if !s[i].disabled {
                Some(i)
            } else {
                None
            },
            None => None,
        }
    } else {
        None
    }
}

/// Position of the stop whose value an evaluation moving from `prev` to `t`
/// produces.
///
/// Moving forward, it is the latest enabled stop passed, `prev` and `t`
/// included. Moving backward past an enabled stop, it is the latest enabled
/// stop at or before `t` (the value in effect there), or, if there is none,
/// the earliest enabled stop passed. Not moving produces nothing.
pub open spec fn fired_index<T>(s: Seq<DiscreteStop<T>>, prev: Instant, t: Instant) -> Option<int> {
    if t > prev {
        last_index(s, window(prev, t))
    } else if t < prev {
        match first_index(s, window(t, prev)) {
            None => None,
            Some(f) => match last_index(s, enabled_before(t, prev)) {
                Some(j) => Some(j),
                None => Some(f),
            },
        }
    } else {
        None
    }
}

/// Stops at or after `t`
pub open spec fn at_or_after<T>(t: Instant) -> spec_fn(DiscreteStop<T>) -> bool {
    |x: DiscreteStop<T>| x.t >= t
}

/// Stops at or before `t`
pub open spec fn at_or_before<T>(t: Instant) -> spec_fn(DiscreteStop<T>) -> bool {
    |x: DiscreteStop<T>| x.t <= t
}

/// The stops of `s` at or after `t`, in order
pub open spec fn after_filter<T>(s: Seq<DiscreteStop<T>>, t: Instant) -> Seq<DiscreteStop<T>> {
    s.filter(at_or_after(t))
}

/// The stops of `s` at or before `t`, latest first
pub open spec fn before_filter<T>(s: Seq<DiscreteStop<T>>, t: Instant) -> Seq<DiscreteStop<T>> {
    s.filter(at_or_before(t)).reverse()
}

proof fn lemma_last_index_take<T>(s: Seq<DiscreteStop<T>>, p: spec_fn(DiscreteStop<T>) -> bool, i: int)
    requires
        0 <= i < s.len(),
    ensures
        last_index(s.take(i + 1), p) == if p(s[i]) {
            Some(i)
        } else {
            last_index(s.take(i), p)
        },
{
    assert(s.take(i + 1).drop_last() =~= s.take(i));
}

proof fn lemma_first_index_take<T>(s: Seq<DiscreteStop<T>>, p: spec_fn(DiscreteStop<T>) -> bool, i: int)
    requires
        0 <= i < s.len(),
    ensures
        first_index(s.take(i + 1), p) == match first_index(s.take(i), p) {
            Some(j) => Some(j),
            None => if p(s[i]) {
                Some(i)
            } else {
                None
            },
        },
{
    assert(s.take(i + 1).drop_last() =~= s.take(i));
}

/// What `last_index` finds: a position satisfying `p` with none after it
pub proof fn lemma_last_index<T>(s: Seq<DiscreteStop<T>>, p: spec_fn(DiscreteStop<T>) -> bool)
    ensures
        match last_index(s, p) {
            Some(i) => 0 <= i < s.len() && p(s[i]) && forall|j: int| i < j < s.len() ==> !p(#[trigger] s[j]),
            None => forall|j: int| 0 <= j < s.len() ==> !p(#[trigger] s[j]),
        },
    decreases s.len(),
{
    if s.len() > 0 {
        lemma_last_index(s.drop_last(), p);
        assert forall|j: int| 0 <= j < s.len() - 1 implies s[j] == s.drop_last()[j] by {}
    }
}

/// What `first_index` finds: a position satisfying `p` with none before it
pub proof fn lemma_first_index<T>(s: Seq<DiscreteStop<T>>, p: spec_fn(DiscreteStop<T>) -> bool)
    ensures
        match first_index(s, p) {
            Some(i) => 0 <= i < s.len() && p(s[i]) && forall|j: int| 0 <= j < i ==> !p(#[trigger] s[j]),
            None => forall|j: int| 0 <= j < s.len() ==> !p(#[trigger] s[j]),
        },
    decreases s.len(),
{
    if s.len() > 0 {
        lemma_first_index(s.drop_last(), p);
        assert forall|j: int| 0 <= j < s.len() - 1 implies s[j] == s.drop_last()[j] by {}
    }
}

proof fn lemma_filter_take<T>(s: Seq<DiscreteStop<T>>, p: spec_fn(DiscreteStop<T>) -> bool, i: int)
    requires
        0 <= i < s.len(),
    ensures
        s.take(i + 1).filter(p) == if p(s[i]) {
            s.take(i).filter(p).push(s[i])
        } else {
            s.take(i).filter(p)
        },
{
    assert(s.take(i + 1) =~= s.take(i).push(s[i]));
    s.take(i).lemma_filter_push(s[i], p);
}

/// Keeping a subsequence of sorted stops keeps them sorted
proof fn lemma_filter_sorted<T>(s: Seq<DiscreteStop<T>>, p: spec_fn(DiscreteStop<T>) -> bool)
    requires
        strictly_sorted(s),
    ensures
        strictly_sorted(s.filter(p)),
        forall|k: int| 0 <= k < s.filter(p).len() ==> s.contains(#[trigger] s.filter(p)[k]),
    decreases s.len(),
{
    reveal(Seq::filter);
    if s.len() > 0 {
        let d = s.drop_last();
        assert(strictly_sorted(d));
        lemma_filter_sorted(d, p);
        let fd = d.filter(p);
        assert forall|k: int| 0 <= k < fd.len() implies #[trigger] fd[k].t < s.last().t by {
            assert(d.contains(fd[k]));
            let j = choose|j: int| 0 <= j < d.len() && d[j] == fd[k];
            assert(s[j] == d[j]);
        }
        assert forall|k: int| 0 <= k < s.filter(p).len() implies s.contains(#[trigger] s.filter(p)[k]) by {
            if k < fd.len() {
                assert(d.contains(fd[k]));
                let j = choose|j: int| 0 <= j < d.len() && d[j] == fd[k];
                assert(s[j] == d[j]);
                assert(s.filter(p)[k] == fd[k]);
            } else {
                assert(s.filter(p)[k] == s[s.len() - 1]);
            }
        }
    }
}

impl<T: Clone> Default for Discrete<T> {
    /// An animation at instant 0 without stops
    fn default() -> (d: Self)
        ensures
            d.t == 0,
            d.prev_t == 0,
            d._stops@.len() == 0,
            d.wants_update,
    {
        Discrete { t: 0, prev_t: 0, _stops: Vec::new(), wants_update: true }
    }
}

impl<T: Clone> Discrete<T> {
    /// The stops are ordered by strictly increasing instant whenever the
    /// animation does not ask for them to be re-sorted
    pub open spec fn wf(&self) -> bool {
        self.wants_update || strictly_sorted(self._stops@)
    }


    /// An animation whose stops carry the given instants and values, each
    /// enabled and in determinism group 0
    pub fn from_pairs(pairs: Vec<(Instant, T)>) -> (d: Self)
        ensures
            d.t == 0,
            d.prev_t == 0,
            d.wants_update,
            d._stops@.len() == pairs@.len(),
            forall|i: int|
                0 <= i < pairs@.len() ==> (#[trigger] d._stops@[i]) == (DiscreteStop {
                    t: pairs@[i].0,
                    value: pairs@[i].1,
                    determinism: 0,
                    disabled: false,
                }),
    {
        let mut pairs = pairs;
        let ghost all = pairs@;
        let mut stops: Vec<DiscreteStop<T>> = Vec::new();
        while pairs.len() > 0
            invariant
                stops@.len() + pairs@.len() == all.len(),
                pairs@ == all.skip(stops@.len() as int),
                forall|i: int|
                    0 <= i < stops@.len() ==> (#[trigger] stops@[i]) == (DiscreteStop {
                        t: all[i].0,
                        value: all[i].1,
                        determinism: 0,
                        disabled: false,
                    }),
            decreases pairs@.len(),
        {
            let (t, value) = pairs.remove(0);
            stops.push(DiscreteStop { t, value, determinism: 0, disabled: false });
            assert(pairs@ =~= all.skip(stops@.len() as int));
        }
        Discrete { t: 0, prev_t: 0, _stops: stops, wants_update: true }
    }

    /// Sort the stops by instant, keeping the first stop of each instant
    pub fn update_stops(&mut self) -> (r: &mut Self)
        ensures
            is_normalization(old(self)._stops@, r._stops@),
            r.t == old(self).t,
            r.prev_t == old(self).prev_t,
            !r.wants_update,
            *final(r) == *final(self),
    {
        let mut rest: Vec<DiscreteStop<T>> = Vec::new();
        std::mem::swap(&mut rest, &mut self._stops);
        let ghost s = rest@;
        let total = rest.len();
        let mut out: Vec<DiscreteStop<T>> = Vec::new();
        let mut done: usize = 0;
        while rest.len() > 0
            invariant
                done + rest@.len() == s.len(),
                s.len() == total,
                rest@ == s.skip(done as int),
                strictly_sorted(out@),
                forall|k: int| 0 <= k < out@.len() ==> kept_first(s, #[trigger] out@[k]),
                forall|i: int| 0 <= i < done ==> has_time(out@, #[trigger] s[i].t),
            decreases rest@.len(),
        {
            let stop = rest.remove(0);
            assert(stop == s[done as int]);
            let mut pos: usize = 0;
            while pos < out.len() && out[pos].t < stop.t
                invariant
                    pos <= out@.len(),
                    forall|k: int| 0 <= k < pos ==> (#[trigger] out@[k]).t < stop.t,
                decreases out@.len() - pos,
            {
                pos = pos + 1;
            }
            let ghost prev_out = out@;
            if pos < out.len() && out[pos].t == stop.t {
                // an earlier stop already holds this instant
            } else {
                proof {
                    assert forall|j: int| 0 <= j < done implies s[j].t != stop.t by {
                        assert(has_time(out@, s[j].t));
                        let k = choose|k: int| 0 <= k < out@.len() && #[trigger] out@[k].t == s[j].t;
                        if k < pos {
                        } else {
                            assert(out@[pos as int].t <= out@[k].t);
                        }
                    }
                    assert(first_at_its_time(s, done as int));
                }
                out.insert(pos, stop);
                proof {
                    assert forall|k: int| 0 <= k < out@.len() implies kept_first(s, #[trigger] out@[k]) by {
                        if k < pos {
                            assert(out@[k] == prev_out[k]);
                        } else if k == pos {
                            assert(out@[k] == s[done as int]);
                        } else {
                            assert(out@[k] == prev_out[k - 1]);
                        }
                    }
                    assert forall|i: int, j: int| 0 <= i < j < out@.len() implies out@[i].t < out@[j].t by {
                        if j < pos {
                            assert(out@[i] == prev_out[i] && out@[j] == prev_out[j]);
                        } else if j == pos {
                            assert(out@[i] == prev_out[i]);
                        } else if i < pos {
                            assert(out@[i] == prev_out[i] && out@[j] == prev_out[j - 1]);
                        } else if i == pos {
                            assert(out@[j] == prev_out[j - 1]);
                        } else {
                            assert(out@[i] == prev_out[i - 1] && out@[j] == prev_out[j - 1]);
                        }
                    }
                }
            }
            proof {
                assert forall|i: int| 0 <= i < done + 1 implies has_time(out@, #[trigger] s[i].t) by {
                    if i < done {
                        assert(has_time(prev_out, s[i].t));
                        let k = choose|k: int| 0 <= k < prev_out.len() && #[trigger] prev_out[k].t == s[i].t;
                        if out@.len() == prev_out.len() {
                            assert(out@[k].t == s[i].t);
                        } else if k < pos {
                            assert(out@[k].t == s[i].t);
                        } else {
                            assert(out@[k + 1].t == s[i].t);
                        }
                    } else {
                        assert(out@[pos as int].t == s[i].t);
                    }
                }
            }
            done = done + 1;
            assert(rest@ =~= s.skip(done as int));
        }
        self._stops = out;
        self.wants_update = false;
        self
    }
}

/// Position of the last enabled stop of `stops` between `lo` and `hi`
fn last_in_window<T>(stops: &Vec<DiscreteStop<T>>, lo: Instant, hi: Instant) -> (r: Option<usize>)
    ensures
        match last_index(stops@, window(lo, hi)) {
            Some(i) => r is Some && r->0 == i,
            None => r is None,
        },
{
    let mut found: Option<usize> = None;
    let mut i: usize = 0;
    while i < stops.len()
        invariant
            i <= stops@.len(),
            match last_index(stops@.take(i as int), window(lo, hi)) {
                Some(j) => found is Some && found->0 == j,
                None => found is None,
            },
            match last_index(stops@.take(i as int), window(lo, hi)) {
                Some(j) => 0 <= j < i,
                None => true,
            },
        decreases stops@.len() - i,
    {
        proof {
            lemma_last_index_take(stops@, window(lo, hi), i as int);
            lemma_last_index(stops@.take(i as int), window(lo, hi));
        }
        let s = &stops[i];
        if lo <= s.t && s.t <= hi && !s.disabled {
            found = Some(i);
        }
        i = i + 1;
        proof {
            lemma_last_index(stops@.take(i as int), window(lo, hi));
        }
    }
    assert(stops@.take(stops@.len() as int) =~= stops@);
    found
}

/// Position of the first enabled stop of `stops` between `lo` and `hi`
fn first_in_window<T>(stops: &Vec<DiscreteStop<T>>, lo: Instant, hi: Instant) -> (r: Option<usize>)
    ensures
        match first_index(stops@, window(lo, hi)) {
            Some(i) => r is Some && r->0 == i,
            None => r is None,
        },
{
    let mut found: Option<usize> = None;
    let mut i: usize = 0;
    while i < stops.len()
        invariant
            i <= stops@.len(),
            match first_index(stops@.take(i as int), window(lo, hi)) {
                Some(j) => found is Some && found->0 == j,
                None => found is None,
            },
            match first_index(stops@.take(i as int), window(lo, hi)) {
                Some(j) => 0 <= j < i,
                None => true,
            },
        decreases stops@.len() - i,
    {
        proof {
            lemma_first_index_take(stops@, window(lo, hi), i as int);
            lemma_first_index(stops@.take(i as int), window(lo, hi));
        }
        let s = &stops[i];
        if found.is_none() && lo <= s.t && s.t <= hi && !s.disabled {
            found = Some(i);
        }
        i = i + 1;
    }
    assert(stops@.take(stops@.len() as int) =~= stops@);
    found
}

impl<T: Clone> Discrete<T> {
    /// The stops, in their current order
    pub fn stops(&self) -> (r: &[DiscreteStop<T>])
        ensures
            r@ == self._stops@,
    {
        self._stops.as_slice()
    }

    /// The stops, open for modification; they are re-sorted before the next
    /// evaluation
    pub fn stops_mut(&mut self) -> (r: &mut Vec<DiscreteStop<T>>)
        ensures
            *r == old(self)._stops,
            final(self)._stops == *final(r),
            final(self).t == old(self).t,
            final(self).prev_t == old(self).prev_t,
            final(self).wants_update,
    {
        self.wants_update = true;
        &mut self._stops
    }

    /// The stop in effect at `t`: the last one at or before it
    pub fn stop_at(&self, t: Instant) -> (r: Option<&DiscreteStop<T>>)
        ensures
            r == (match stop_at_index(self._stops@, t) {
                Some(i) => Some(&self._stops@[i]),
                None => None::<&DiscreteStop<T>>,
            }),
    {
        let mut i = self._stops.len();
        assert(self._stops@.take(i as int) =~= self._stops@);
        while i > 0
            invariant
                i <= self._stops@.len(),
                stop_at_index(self._stops@, t) == stop_at_index(self._stops@.take(i as int), t),
            decreases i,
        {
            let s = &self._stops[i - 1];
            proof {
                assert(self._stops@.take(i as int).drop_last() =~= self._stops@.take(i - 1));
                assert(self._stops@.take(i as int).last() == self._stops@[i - 1]);
            }
            if s.t <= t {
                return Some(s);
            }
            i = i - 1;
        }
        None
    }

    /// The stops at or after `t`, in order
    pub fn stops_after(&self, t: Instant) -> (r: Vec<&DiscreteStop<T>>)
        ensures
            r@.len() == after_filter(self._stops@, t).len(),
            forall|k: int| 0 <= k < r@.len() ==> *r@[k] == after_filter(self._stops@, t)[k],
    {
        let mut r: Vec<&DiscreteStop<T>> = Vec::new();
        let mut i: usize = 0;
        while i < self._stops.len()
            invariant
                i <= self._stops@.len(),
                r@.len() == self._stops@.take(i as int).filter(at_or_after(t)).len(),
                forall|k: int| 0 <= k < r@.len() ==> *r@[k] == self._stops@.take(i as int).filter(at_or_after(t))[k],
            decreases self._stops@.len() - i,
        {
            proof {
                lemma_filter_take(self._stops@, at_or_after(t), i as int);
            }
            let s = &self._stops[i];
            assert(at_or_after(t)(self._stops@[i as int]) == (s.t >= t));
            if s.t >= t {
                r.push(s);
            }
            i = i + 1;
        }
        assert(self._stops@.take(self._stops@.len() as int) =~= self._stops@);
        r
    }

    /// The stops at or before `t`, latest first
    pub fn stops_before(&self, t: Instant) -> (r: Vec<&DiscreteStop<T>>)
        ensures
            r@.len() == before_filter(self._stops@, t).len(),
            forall|k: int| 0 <= k < r@.len() ==> *r@[k] == before_filter(self._stops@, t)[k],
    {
        let mut fwd: Vec<&DiscreteStop<T>> = Vec::new();
        let mut i: usize = 0;
        while i < self._stops.len()
            invariant
                i <= self._stops@.len(),
                fwd@.len() == self._stops@.take(i as int).filter(at_or_before(t)).len(),
                forall|k: int| 0 <= k < fwd@.len() ==> *fwd@[k] == self._stops@.take(i as int).filter(at_or_before(t))[k],
            decreases self._stops@.len() - i,
        {
            proof {
                lemma_filter_take(self._stops@, at_or_before(t), i as int);
            }
            let s = &self._stops[i];
            assert(at_or_before(t)(self._stops@[i as int]) == (s.t <= t));
            if s.t <= t {
                fwd.push(s);
            }
            i = i + 1;
        }
        assert(self._stops@.take(self._stops@.len() as int) =~= self._stops@);
        let ghost f = self._stops@.filter(at_or_before(t));
        let mut r: Vec<&DiscreteStop<T>> = Vec::new();
        let mut j = fwd.len();
        while j > 0
            invariant
                j <= fwd@.len(),
                fwd@.len() == f.len(),
                forall|k: int| 0 <= k < fwd@.len() ==> *fwd@[k] == f[k],
                r@.len() == f.len() - j,
                forall|k: int| 0 <= k < r@.len() ==> *r@[k] == f[f.len() - 1 - k],
            decreases j,
        {
            r.push(fwd[j - 1]);
            j = j - 1;
        }
        r
    }

    /// The stops at or after the instant of the previous evaluation
    pub fn stops_forward(&self) -> (r: Vec<&DiscreteStop<T>>)
        ensures
            r@.len() == after_filter(self._stops@, self.prev_t).len(),
            forall|k: int| 0 <= k < r@.len() ==> *r@[k] == after_filter(self._stops@, self.prev_t)[k],
    {
        self.stops_after(self.prev_t)
    }

    /// The stops at or before the instant of the previous evaluation, latest first
    pub fn stops_backward(&self) -> (r: Vec<&DiscreteStop<T>>)
        ensures
            r@.len() == before_filter(self._stops@, self.prev_t).len(),
            forall|k: int| 0 <= k < r@.len() ==> *r@[k] == before_filter(self._stops@, self.prev_t)[k],
    {
        self.stops_before(self.prev_t)
    }

    /// Adds a stop; the stops are re-sorted before the next evaluation
    pub fn insert_stop(&mut self, stop: DiscreteStop<T>) -> (r: &mut Self)
        ensures
            r._stops@ == old(self)._stops@.push(stop),
            r.t == old(self).t,
            r.prev_t == old(self).prev_t,
            r.wants_update,
            *final(r) == *final(self),
    {
        self._stops.push(stop);
        self.wants_update = true;
        self
    }
}

impl<T: Clone> Discrete<T> {
    /// Keeps the stops of `keep` and drops the others, preserving order
    fn retain_stops(&mut self, keep: &Vec<bool>, Ghost(p): Ghost<spec_fn(DiscreteStop<T>) -> bool>)
        requires
            keep@.len() == old(self)._stops@.len(),
            forall|i: int| 0 <= i < keep@.len() ==> keep@[i] == p(#[trigger] old(self)._stops@[i]),
        ensures
            final(self)._stops@ == old(self)._stops@.filter(p),
            final(self).t == old(self).t,
            final(self).prev_t == old(self).prev_t,
            final(self).wants_update == old(self).wants_update,
    {
        let mut rest: Vec<DiscreteStop<T>> = Vec::new();
        std::mem::swap(&mut rest, &mut self._stops);
        let ghost s = rest@;
        let total = rest.len();
        let mut out: Vec<DiscreteStop<T>> = Vec::new();
        let mut k: usize = 0;
        while rest.len() > 0
            invariant
                k + rest@.len() == s.len(),
                s.len() == total,
                keep@.len() == s.len(),
                forall|i: int| 0 <= i < keep@.len() ==> keep@[i] == p(#[trigger] s[i]),
                rest@ == s.skip(k as int),
                out@ == s.take(k as int).filter(p),
            decreases rest@.len(),
        {
            proof {
                lemma_filter_take(s, p, k as int);
            }
            let x = rest.remove(0);
            assert(x == s[k as int]);
            if keep[k] {
                out.push(x);
            }
            k = k + 1;
            assert(rest@ =~= s.skip(k as int));
        }
        assert(s.take(s.len() as int) =~= s);
        self._stops = out;
    }

    /// Drops the stops after `t`
    pub fn remove_stops_after(&mut self, t: Instant) -> (r: &mut Self)
        ensures
            r._stops@ == old(self)._stops@.filter(at_or_before(t)),
            r.t == old(self).t,
            r.prev_t == old(self).prev_t,
            r.wants_update == old(self).wants_update,
            *final(r) == *final(self),
    {
        let mut keep: Vec<bool> = Vec::new();
        let mut i: usize = 0;
        while i < self._stops.len()
            invariant
                i <= self._stops@.len(),
                keep@.len() == i,
                forall|j: int| 0 <= j < i ==> keep@[j] == at_or_before(t)(#[trigger] self._stops@[j]),
            decreases self._stops@.len() - i,
        {
            keep.push(self._stops[i].t <= t);
            i = i + 1;
        }
        self.retain_stops(&keep, Ghost(at_or_before(t)));
        self
    }

    /// Drops every stop whose determinism group lies wholly after `t`
    pub fn prune_non_deterministic(&mut self, t: Instant)
        ensures
            final(self)._stops@ == prune(old(self)._stops@, t),
            final(self).t == old(self).t,
            final(self).prev_t == old(self).prev_t,
            final(self).wants_update == old(self).wants_update,
    {
        let ghost s = self._stops@;
        let n = self._stops.len();
        let mut keep: Vec<bool> = Vec::new();
        let mut i: usize = 0;
        while i < n
            invariant
                n == s.len(),
                self._stops@ == s,
                i <= n,
                keep@.len() == i,
                forall|j: int| 0 <= j < i ==> keep@[j] == in_past_group(s, t)(#[trigger] s[j]),
            decreases n - i,
        {
            let g = self._stops[i].determinism;
            let mut found = false;
            let mut j: usize = 0;
            while j < n
                invariant
                    n == s.len(),
                    self._stops@ == s,
                    j <= n,
                    found <==> exists|k: int| 0 <= k < j && #[trigger] s[k].determinism == g && s[k].t <= t,
                decreases n - j,
            {
                let other = &self._stops[j];
                if other.determinism == g && other.t <= t {
                    found = true;
                }
                j = j + 1;
            }
            keep.push(found);
            i = i + 1;
        }
        self.retain_stops(&keep, Ghost(in_past_group(s, t)));
    }

    /// The value of the stop in effect at `t`, if the animation has reached
    /// `t` going forward and that stop is enabled
    pub fn try_fire_stop_forward(&mut self, t: Instant) -> (r: Option<T>)
        ensures
            *final(self) == *old(self),
            match fire_index(old(self)._stops@, old(self).t >= t, t) {
                Some(i) => r is Some && cloned(old(self)._stops@[i].value, r->0),
                None => r is None,
            },
    {
        if self.t >= t {
            match self.stop_at(t) {
                Some(stop) => if !stop.disabled {
                    Some(stop.value.clone())
                } else {
                    None
                },
                None => None,
            }
        } else {
            None
        }
    }

    /// The value of the stop in effect at `t`, if the animation has reached
    /// `t` going backward and that stop is enabled
    pub fn try_fire_stop_backward(&mut self, t: Instant) -> (r: Option<T>)
        ensures
            *final(self) == *old(self),
            match fire_index(old(self)._stops@, old(self).t <= t, t) {
                Some(i) => r is Some && cloned(old(self)._stops@[i].value, r->0),
                None => r is None,
            },
    {
        if self.t <= t {
            match self.stop_at(t) {
                Some(stop) => if !stop.disabled {
                    Some(stop.value.clone())
                } else {
                    None
                },
                None => None,
            }
        } else {
            None
        }
    }

    /// Advances the animation to `time` and returns the value of the stop it
    /// fires, if any (see `fired_index`).
    ///
    /// Stops are re-sorted first if they were changed; groups of stops lying
    /// wholly in the future are dropped on unpausing or on rewinding without
    /// pausing, since the events that made them may not happen again.
    pub fn animate_impl(&mut self, time: AnimationTime) -> (r: Option<T>)
        ensures
            final(self).t == time.t,
            final(self).prev_t == old(self).t,
            !final(self).wants_update,
            old(self).wants_update ==> exists|n: Seq<DiscreteStop<T>>|
                is_normalization(old(self)._stops@, n) && final(self)._stops@ == if prunes_at(time, old(self).t) {
                    prune(n, time.t)
                } else {
                    n
                },
            !old(self).wants_update ==> final(self)._stops@ == if prunes_at(time, old(self).t) {
                prune(old(self)._stops@, time.t)
            } else {
                old(self)._stops@
            },
            old(self).wf() ==> strictly_sorted(final(self)._stops@),
            time.paused || (!time.prev_paused && old(self).t <= time.t) ==> (old(self).wants_update
                ==> is_normalization(old(self)._stops@, final(self)._stops@)),
            time.paused || (!time.prev_paused && old(self).t <= time.t) ==> (!old(self).wants_update
                ==> final(self)._stops@ == old(self)._stops@),
            match fired_index(final(self)._stops@, old(self).t, time.t) {
                Some(i) => r is Some && cloned(final(self)._stops@[i].value, r->0),
                None => r is None,
            },
    {
        if self.wants_update {
            self.update_stops();
        }
        let ghost base = self._stops@;
        proof {
            if old(self).wf() {
                assert(strictly_sorted(base));
            }
        }
        self.prev_t = self.t;
        self.t = time.t;
        if (time.prev_paused && !time.paused) || (!time.paused && self.t < self.prev_t) {
            self.prune_non_deterministic(time.t);
            proof {
                if strictly_sorted(base) {
                    lemma_filter_sorted(base, in_past_group(base, time.t));
                }
            }
        }
        let t = self.t;
        let prev = self.prev_t;
        let idx: Option<usize> = if t > prev {
            last_in_window(&self._stops, prev, t)
        } else if t < prev {
            match first_in_window(&self._stops, t, prev) {
                None => None,
                Some(f) => {
                    proof {
                        assert(window::<T>(i64::MIN, t) =~= enabled_before::<T>(t, prev));
                    }
                    match last_in_window(&self._stops, i64::MIN, t) {
                        Some(j) => Some(j),
                        None => Some(f),
                    }
                },
            }
        } else {
            None
        };
        proof {
            match idx {
                Some(i) => {
                    if t > prev {
                        lemma_last_index(self._stops@, window(prev, t));
                    } else {
                        lemma_first_index(self._stops@, window(t, prev));
                        lemma_last_index(self._stops@, window(i64::MIN, t));
                    }
                },
                None => {},
            }
        }
        assert(match fired_index(self._stops@, prev, t) {
            Some(i) => idx is Some && idx->0 == i && 0 <= i < self._stops@.len(),
            None => idx is None,
        });
        match idx {
            Some(i) => Some(self._stops[i].value.clone()),
            None => None,
        }
    }
}

impl<T: Clone> Discrete<T> {
    /// The stop in effect at `t`, open for modification; the stops are
    /// re-sorted before the next evaluation
    pub fn stop_at_mut(&mut self, t: Instant) -> (r: Option<&mut DiscreteStop<T>>)
        ensures
            final(self).t == old(self).t,
            final(self).prev_t == old(self).prev_t,
            final(self).wants_update,
            match stop_at_index(old(self)._stops@, t) {
                Some(i) => r is Some && *r->0 == old(self)._stops@[i]
                    && final(self)._stops@ == old(self)._stops@.update(i, *final(r->0)),
                None => r is None && final(self)._stops@ == old(self)._stops@,
            },
    {
        self.wants_update = true;
        let mut i = self._stops.len();
        assert(self._stops@.take(i as int) =~= self._stops@);
        while i > 0
            invariant
                i <= self._stops@.len(),
                self._stops@ == old(self)._stops@,
                self.t == old(self).t,
                self.prev_t == old(self).prev_t,
                self.wants_update,
                stop_at_index(self._stops@, t) == stop_at_index(self._stops@.take(i as int), t),
            decreases i,
        {
            proof {
                assert(self._stops@.take(i as int).drop_last() =~= self._stops@.take(i - 1));
                assert(self._stops@.take(i as int).last() == self._stops@[i - 1]);
            }
            if self._stops[i - 1].t <= t {
                return Some(&mut self._stops[i - 1]);
            }
            i = i - 1;
        }
        None
    }
}

/// Enabled stops at or before `t`: those whose value can be in effect at `t`
pub open spec fn enabled_until<T>(t: Instant) -> spec_fn(DiscreteStop<T>) -> bool {
    |x: DiscreteStop<T>| x.t <= t && !x.disabled
}

/// Two strictly sorted sequences holding the same instants hold them in
/// the same positions
proof fn lemma_same_instants<T>(a: Seq<DiscreteStop<T>>, b: Seq<DiscreteStop<T>>)
    requires
        strictly_sorted(a),
        strictly_sorted(b),
        forall|k: int| 0 <= k < a.len() ==> has_time(b, #[trigger] a[k].t),
        forall|k: int| 0 <= k < b.len() ==> has_time(a, #[trigger] b[k].t),
    ensures
        a.len() == b.len(),
        forall|k: int| 0 <= k < a.len() ==> #[trigger] a[k].t == b[k].t,
{
    let n = if a.len() < b.len() { a.len() as int } else { b.len() as int };
    assert forall|k: int| 0 <= k < n implies #[trigger] a[k].t == b[k].t by {
        lemma_same_instants_at(a, b, k);
    }
    if a.len() > n {
        assert(has_time(b, a[n].t));
        let m = choose|m: int| 0 <= m < b.len() && #[trigger] b[m].t == a[n].t;
        assert(a[m].t == b[m].t);
    }
    if b.len() > n {
        assert(has_time(a, b[n].t));
        let m = choose|m: int| 0 <= m < a.len() && #[trigger] a[m].t == b[n].t;
        assert(a[m].t == b[m].t);
    }
}

proof fn lemma_same_instants_at<T>(a: Seq<DiscreteStop<T>>, b: Seq<DiscreteStop<T>>, k: int)
    requires
        strictly_sorted(a),
        strictly_sorted(b),
        forall|j: int| 0 <= j < a.len() ==> has_time(b, #[trigger] a[j].t),
        forall|j: int| 0 <= j < b.len() ==> has_time(a, #[trigger] b[j].t),
        0 <= k < a.len(),
        k < b.len(),
    ensures
        a[k].t == b[k].t,
    decreases k,
{
    if k > 0 {
        lemma_same_instants_at(a, b, k - 1);
    }
    assert forall|j: int| 0 <= j < k implies #[trigger] a[j].t == b[j].t by {
        lemma_same_instants_at(a, b, j);
    }
    assert(has_time(b, a[k].t));
    let m = choose|m: int| 0 <= m < b.len() && #[trigger] b[m].t == a[k].t;
    if m < k {
        assert(a[m].t == b[m].t);
    }
    assert(b[k].t <= a[k].t);
    assert(has_time(a, b[k].t));
    let m2 = choose|m: int| 0 <= m < a.len() && #[trigger] a[m].t == b[k].t;
    if m2 < k {
        assert(a[m2].t == b[m2].t);
    }
    assert(a[k].t <= b[k].t);
}

/// Sorting and deduplicating stops has one outcome: `update_stops` is
/// deterministic, and applied to stops it produced it changes nothing
pub proof fn law_normalization_unique<T>(s: Seq<DiscreteStop<T>>, r1: Seq<DiscreteStop<T>>, r2: Seq<DiscreteStop<T>>)
    requires
        is_normalization(s, r1),
        is_normalization(s, r2),
    ensures
        r1 == r2,
        is_normalization(r1, r1),
{
    assert forall|k: int| 0 <= k < r1.len() implies has_time(r2, #[trigger] r1[k].t) by {
        assert(kept_first(s, r1[k]));
        let i = choose|i: int| first_at_its_time(s, i) && s[i] == r1[k];
        assert(has_time(r2, s[i].t));
    }
    assert forall|k: int| 0 <= k < r2.len() implies has_time(r1, #[trigger] r2[k].t) by {
        assert(kept_first(s, r2[k]));
        let i = choose|i: int| first_at_its_time(s, i) && s[i] == r2[k];
        assert(has_time(r1, s[i].t));
    }
    lemma_same_instants(r1, r2);
    assert forall|k: int| 0 <= k < r1.len() implies r1[k] == r2[k] by {
        assert(kept_first(s, r1[k]));
        assert(kept_first(s, r2[k]));
        let i1 = choose|i: int| first_at_its_time(s, i) && s[i] == r1[k];
        let i2 = choose|i: int| first_at_its_time(s, i) && s[i] == r2[k];
        assert(r1[k].t == r2[k].t);
        if i1 < i2 {
            assert(s[i1].t != s[i2].t);
        } else if i2 < i1 {
            assert(s[i2].t != s[i1].t);
        }
    }
    assert(r1 =~= r2);
    lemma_sorted_is_normalized(r1);
}

/// Stops already sorted by strictly increasing instant are their own
/// normalization
pub proof fn lemma_sorted_is_normalized<T>(s: Seq<DiscreteStop<T>>)
    requires
        strictly_sorted(s),
    ensures
        is_normalization(s, s),
{
    assert forall|k: int| 0 <= k < s.len() implies kept_first(s, #[trigger] s[k]) by {
        assert(first_at_its_time(s, k));
    }
    assert forall|i: int| 0 <= i < s.len() implies has_time(s, #[trigger] s[i].t) by {
        assert(s[i].t == s[i].t);
    }
}

/// Playing forward from `prev` to `t` produces the value in effect at `t`
/// (the latest enabled stop at or before `t`) when that stop was passed on
/// the way, and nothing otherwise
pub proof fn law_forward_fires_value_in_effect<T>(s: Seq<DiscreteStop<T>>, prev: Instant, t: Instant)
    requires
        strictly_sorted(s),
        prev < t,
    ensures
        fired_index(s, prev, t) == match last_index(s, enabled_until::<T>(t)) {
            Some(j) => if s[j].t >= prev {
                Some(j)
            } else {
                None
            },
            None => None,
        },
{
    lemma_last_index(s, window(prev, t));
    lemma_last_index(s, enabled_until::<T>(t));
    match last_index(s, enabled_until::<T>(t)) {
        Some(j) => {
            if s[j].t >= prev {
                assert(window(prev, t)(s[j]));
                match last_index(s, window(prev, t)) {
                    Some(i) => {
                        assert(enabled_until::<T>(t)(s[i]));
                    },
                    None => {},
                }
            } else {
                match last_index(s, window(prev, t)) {
                    Some(i) => {
                        assert(enabled_until::<T>(t)(s[i]));
                        assert(i <= j);
                        if i < j {
                            assert(s[i].t < s[j].t);
                        }
                    },
                    None => {},
                }
            }
        },
        None => {
            match last_index(s, window(prev, t)) {
                Some(i) => {
                    assert(enabled_until::<T>(t)(s[i]));
                },
                None => {},
            }
        },
    }
}

/// Rewinding from `prev` to `t` produces a value exactly when an enabled
/// stop was passed on the way back; that value is the one in effect at `t`
/// whenever some enabled stop lies at or before `t`
pub proof fn law_rewind_restores_value_in_effect<T>(s: Seq<DiscreteStop<T>>, prev: Instant, t: Instant)
    requires
        t < prev,
    ensures
        fired_index(s, prev, t) is Some <==> first_index(s, window(t, prev)) is Some,
        fired_index(s, prev, t) is Some && last_index(s, enabled_until::<T>(t)) is Some ==> fired_index(s, prev, t)
            == last_index(s, enabled_until::<T>(t)),
{
    assert(enabled_before::<T>(t, prev) =~= enabled_until::<T>(t));
}

/// Keeps the stops that satisfy `q` where every stop satisfies it
proof fn lemma_filter_keeps_all<T>(s: Seq<DiscreteStop<T>>, q: spec_fn(DiscreteStop<T>) -> bool)
    requires
        forall|i: int| 0 <= i < s.len() ==> q(#[trigger] s[i]),
    ensures
        s.filter(q) == s,
    decreases s.len(),
{
    reveal(Seq::filter);
    if s.len() > 0 {
        lemma_filter_keeps_all(s.drop_last(), q);
        assert(s.drop_last().push(s.last()) =~= s);
    }
}

/// Pruning at `t` never drops a stop at or before `t`, and pruning again
/// at the same instant changes nothing
pub proof fn law_prune_keeps_past<T>(s: Seq<DiscreteStop<T>>, t: Instant)
    ensures
        forall|k: int| 0 <= k < s.len() && s[k].t <= t ==> prune(s, t).contains(#[trigger] s[k]),
        prune(prune(s, t), t) == prune(s, t),
{
    broadcast use Seq::lemma_filter_contains, Seq::lemma_filter_pred, Seq::lemma_filter_contains_rev;

    let p = in_past_group(s, t);
    let f = prune(s, t);
    assert forall|k: int| 0 <= k < s.len() && s[k].t <= t implies f.contains(#[trigger] s[k]) by {
        assert(group_has_past(s, s[k].determinism, t));
        s.lemma_filter_contains(p, k);
    }
    assert forall|i: int| 0 <= i < f.len() implies in_past_group(f, t)(#[trigger] f[i]) by {
        s.lemma_filter_pred(p, i);
        assert(group_has_past(s, f[i].determinism, t));
        let k = choose|k: int| 0 <= k < s.len() && #[trigger] s[k].determinism == f[i].determinism && s[k].t <= t;
        assert(f.contains(s[k]));
        let m = choose|m: int| 0 <= m < f.len() && f[m] == s[k];
        assert(f[m].determinism == f[i].determinism && f[m].t <= t);
    }
    lemma_filter_keeps_all(f, in_past_group(f, t));
}

} // verus!
