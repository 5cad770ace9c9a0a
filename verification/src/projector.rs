//! The projection core: a `Projector` wraps one pure applier and derives
//! entity state from an ordered event sequence.
//!
//! Contracts are stated against an abstract model of the applier: a spec
//! function `m` from state view and event to the next state view. A caller
//! that supplies an applier whose `ensures` pins its result to such an `m`
//! learns the exact fold result; every clause below is quantified over all
//! models the applier refines.

use vstd::prelude::*;

verus! {

/// The state reached after folding `events` in order, starting from `z`.
pub open spec fn fold_state<V, U>(m: spec_fn(V, U) -> V, z: V, events: Seq<U>) -> V
    decreases events.len(),
{
    if events.len() == 0 {
        z
    } else {
        m(fold_state(m, z, events.drop_last()), events.last())
    }
}

/// The run of intermediate states: element `i` is the state after the
/// first `i + 1` events.
pub open spec fn state_seq<V, U>(m: spec_fn(V, U) -> V, z: V, events: Seq<U>) -> Seq<V> {
    Seq::new(events.len(), |i: int| fold_state(m, z, events.take(i + 1)))
}

/// The applier accepts every state/event pair (it is total).
pub open spec fn applier_callable<T: View, U, F: Fn(&T, &U) -> T>(f: F) -> bool {
    forall|s: &T, e: &U| #[trigger] call_requires(f, (s, e))
}

/// Every result the applier can return on `(s, e)` has view `m(s@, e)`:
/// the applier refines the model `m`.
pub open spec fn applier_abides<T: View, U, F: Fn(&T, &U) -> T>(
    f: F,
    m: spec_fn(T::V, U) -> T::V,
) -> bool {
    forall|s: &T, e: &U, r: T| #[trigger] call_ensures(f, (s, e), r) ==> r@ == m((*s)@, *e)
}

/// `z` is a value the entity type's `Default::default` can return.
pub open spec fn is_zero_state<T: Default>(z: T) -> bool {
    call_ensures(T::default, (), z)
}

/// What `project_last_state` returns: for some zero state the entity type
/// admits, the result's view is the fold of the whole sequence under every
/// model the applier refines.
pub open spec fn projects_to<T: Default + View, U, F: Fn(&T, &U) -> T>(
    f: F,
    events: Seq<U>,
    r: T,
) -> bool {
    exists|z: T|
        #[trigger] is_zero_state(z) && (forall|m: spec_fn(T::V, U) -> T::V|
            #[trigger] applier_abides(f, m) ==> r@ == fold_state(m, z@, events))
}

/// Every result the matcher can return on a state `s` is `q(s@)`: the
/// matcher refines the predicate model `q`.
pub open spec fn matcher_abides<T: View, P: Fn(&T) -> bool>(p: P, q: spec_fn(T::V) -> bool) -> bool {
    forall|s: &T, b: bool| #[trigger] call_ensures(p, (s,), b) ==> b == q((*s)@)
}

/// The matcher accepts every state.
pub open spec fn matcher_callable<T: View, P: Fn(&T) -> bool>(p: P) -> bool {
    forall|s: &T| #[trigger] call_requires(p, (s,))
}

/// The position of the first state satisfying `q`, or `states.len()` when
/// none does.
pub open spec fn first_match_index<V>(states: Seq<V>, q: spec_fn(V) -> bool) -> int
    decreases states.len(),
{
    if states.len() == 0 {
        0
    } else if q(states.first()) {
        0
    } else {
        1 + first_match_index(states.drop_first(), q)
    }
}

/// A position with a match and nothing matching before it is the first
/// match; a run with no match at all puts the first match at the end.
pub proof fn lemma_first_match_index_at<V>(states: Seq<V>, q: spec_fn(V) -> bool, i: int)
    requires
        0 <= i <= states.len(),
        forall|j: int| 0 <= j < i ==> !q(states[j]),
        i < states.len() ==> q(states[i]),
    ensures
        i < states.len() ==> first_match_index(states, q) == i,
        i == states.len() ==> first_match_index(states, q) == states.len(),
    decreases states.len(),
{
    if states.len() > 0 {
        if !q(states.first()) {
            lemma_first_match_index_at(states.drop_first(), q, i - 1);
        }
    }
}

/// What `match_from_stream` returns: for some zero state, under every
/// applier model `m` and matcher model `q`, the result is the first
/// intermediate state whose view satisfies `q`, or `None` when no state of
/// the whole run does.
pub open spec fn matches_to<T: Default + View, U, F: Fn(&T, &U) -> T, P: Fn(&T) -> bool>(
    f: F,
    p: P,
    events: Seq<U>,
    r: Option<T>,
) -> bool {
    exists|z: T|
        #[trigger] is_zero_state(z) && (forall|m: spec_fn(T::V, U) -> T::V, q: spec_fn(T::V) -> bool|
            #![trigger applier_abides(f, m), matcher_abides(p, q)]
            applier_abides(f, m) && matcher_abides(p, q) ==> {
                let states = state_seq(m, z@, events);
                let k = first_match_index(states, q);
                if k < states.len() {
                    r is Some && (r->0)@ == states[k]
                } else {
                    r is None
                }
            })
}

/// Every value `T::clone` can return has the view of its argument.
pub open spec fn clone_preserves_view<T: Clone + View>() -> bool {
    forall|a: &T, r: T| #[trigger] call_ensures(T::clone, (a,), r) ==> r@ == (*a)@
}

/// Every answer `T::eq` can give on `(a, b)` is `q(a@, b@)`: the entity
/// type's equality refines the view-level relation `q`.
pub open spec fn eq_abides<T: PartialEq + View>(q: spec_fn(T::V, T::V) -> bool) -> bool {
    forall|a: &T, b: &T, r: bool| #[trigger] call_ensures(<T as PartialEq>::eq, (a, b), r)
        ==> r == q((*a)@, (*b)@)
}

/// The views of a sequence of entities.
pub open spec fn views_of<T: View>(s: Seq<T>) -> Seq<T::V> {
    s.map_values(|t: T| t@)
}

/// Some already-retained version is related to `x` by `q`.
pub open spec fn seen_before<V>(kept: Seq<V>, x: V, q: spec_fn(V, V) -> bool) -> bool {
    exists|j: int| 0 <= j < kept.len() && q(kept[j], x)
}

/// Global distinctness over a run of states: each state is retained at its
/// first appearance and suppressed whenever it is related by `q` to a
/// version retained earlier; first-occurrence order is preserved.
pub open spec fn versions_of<V>(states: Seq<V>, q: spec_fn(V, V) -> bool) -> Seq<V>
    decreases states.len(),
{
    if states.len() == 0 {
        Seq::empty()
    } else {
        let kept = versions_of(states.drop_last(), q);
        if seen_before(kept, states.last(), q) {
            kept
        } else {
            kept.push(states.last())
        }
    }
}

/// What `versions_from_stream` returns: for some zero state, under every
/// applier model and equality model, and when cloning preserves views, the
/// result is the run of intermediate states with duplicates removed.
pub open spec fn versions_to<T: Default + View + PartialEq + Clone, U, F: Fn(&T, &U) -> T>(
    f: F,
    events: Seq<U>,
    r: Seq<T>,
) -> bool {
    exists|z: T|
        #[trigger] is_zero_state(z) && (forall|
            m: spec_fn(T::V, U) -> T::V,
            q: spec_fn(T::V, T::V) -> bool,
        |
            #![trigger applier_abides(f, m), eq_abides::<T>(q)]
            applier_abides(f, m) && eq_abides::<T>(q) && clone_preserves_view::<T>()
                ==> views_of(r) == versions_of(state_seq(m, z@, events), q))
}

/// An immutable wrapper around one pure applier `(state, event) -> state`.
/// It carries no per-run state: every query derives its result afresh from
/// the event sequence handed to it.
#[verifier::reject_recursive_types(T)]
#[verifier::reject_recursive_types(U)]
pub struct Projector<T, U, F> where F: Fn(&T, &U) -> T {
    pub applier: F,
    pub entity: core::marker::PhantomData<T>,
    pub event: core::marker::PhantomData<U>,
}

impl<T: Default + View, U, F: Fn(&T, &U) -> T> Projector<T, U, F> {
    /// Wraps the applier; no validation is performed.
    pub fn from_applier(applier: F) -> (r: Self)
        ensures
            r.applier == applier,
    {
        Projector { applier, entity: core::marker::PhantomData, event: core::marker::PhantomData }
    }

    /// Folds every event in order into the entity state, starting from the
    /// entity type's zero value; returns the zero value itself when the
    /// sequence is empty.
    pub fn project_last_state(&self, events: Vec<U>) -> (r: T)
        requires
            applier_callable(self.applier),
        ensures
            projects_to(self.applier, events@, r),
    {
        let mut state: T = T::default();
        let ghost z: T = state;
        let mut i: usize = 0;
        while i < events.len()
            invariant
                0 <= i <= events.len(),
                applier_callable(self.applier),
                is_zero_state(z),
                forall|m: spec_fn(T::V, U) -> T::V| #[trigger]
                    applier_abides(self.applier, m) ==> state@ == fold_state(
                        m,
                        z@,
                        events@.take(i as int),
                    ),
            decreases events.len() - i,
        {
            let ghost prev = state;
            state = (self.applier)(&state, &events[i]);
            proof {
                assert forall|m: spec_fn(T::V, U) -> T::V| #[trigger]
                    applier_abides(self.applier, m) implies state@ == fold_state(
                    m,
                    z@,
                    events@.take(i + 1),
                ) by {
                    assert(state@ == m(prev@, events@[i as int]));
                    assert(events@.take(i + 1).drop_last() =~= events@.take(i as int));
                    assert(events@.take(i + 1).last() == events@[i as int]);
                }
            }
            i += 1;
        }
        proof {
            assert(events@.take(events@.len() as int) =~= events@);
        }
        state
    }

    /// Searches the run of intermediate states for the first one the
    /// matcher accepts and returns it, or `None` when no state of the whole
    /// run matches. The search stops at the first match: events beyond it
    /// are never applied (see `EntityStream::find_state` for that fact
    /// stated of the stream position).
    pub fn match_from_stream<P: Fn(&T) -> bool>(&self, events: Vec<U>, matcher: P) -> (r: Option<
        T,
    >)
        requires
            applier_callable(self.applier),
            matcher_callable(matcher),
        ensures
            matches_to(self.applier, matcher, events@, r),
    {
        let mut state: T = T::default();
        let ghost z: T = state;
        let mut i: usize = 0;
        while i < events.len()
            invariant
                0 <= i <= events.len(),
                applier_callable(self.applier),
                matcher_callable(matcher),
                is_zero_state(z),
                forall|m: spec_fn(T::V, U) -> T::V| #[trigger]
                    applier_abides(self.applier, m) ==> state@ == fold_state(
                        m,
                        z@,
                        events@.take(i as int),
                    ),
                forall|m: spec_fn(T::V, U) -> T::V, q: spec_fn(T::V) -> bool|
                    #![trigger applier_abides(self.applier, m), matcher_abides(matcher, q)]
                    applier_abides(self.applier, m) && matcher_abides(matcher, q) ==> forall|j: int|
                        0 <= j < i ==> !q(#[trigger] state_seq(m, z@, events@)[j]),
            decreases events.len() - i,
        {
            let ghost prev = state;
            state = (self.applier)(&state, &events[i]);
            proof {
                assert forall|m: spec_fn(T::V, U) -> T::V| #[trigger]
                    applier_abides(self.applier, m) implies state@ == fold_state(
                    m,
                    z@,
                    events@.take(i + 1),
                ) by {
                    assert(state@ == m(prev@, events@[i as int]));
                    assert(events@.take(i + 1).drop_last() =~= events@.take(i as int));
                }
            }
            let matched = matcher(&state);
            if matched {
                proof {
                    assert forall|m: spec_fn(T::V, U) -> T::V, q: spec_fn(T::V) -> bool|
                        #![trigger applier_abides(self.applier, m), matcher_abides(matcher, q)]
                        applier_abides(self.applier, m) && matcher_abides(
                        matcher,
                        q,
                    ) implies {
                        let states = state_seq(m, z@, events@);
                        let k = first_match_index(states, q);
                        k < states.len() && state@ == states[k]
                    } by {
                        let states = state_seq(m, z@, events@);
                        assert(states[i as int] == fold_state(m, z@, events@.take(i + 1)));
                        assert(q(states[i as int]));
                        lemma_first_match_index_at(states, q, i as int);
                    }
                }
                return Some(state);
            }
            proof {
                assert forall|m: spec_fn(T::V, U) -> T::V, q: spec_fn(T::V) -> bool|
                    #![trigger applier_abides(self.applier, m), matcher_abides(matcher, q)]
                    applier_abides(self.applier, m) && matcher_abides(matcher, q) implies forall|
                    j: int,
                |
                    0 <= j < i + 1 ==> !q(#[trigger] state_seq(m, z@, events@)[j]) by {
                    assert(state_seq(m, z@, events@)[i as int] == fold_state(
                        m,
                        z@,
                        events@.take(i + 1),
                    ));
                    assert(!q(state_seq(m, z@, events@)[i as int]));
                }
            }
            i += 1;
        }
        proof {
            assert forall|m: spec_fn(T::V, U) -> T::V, q: spec_fn(T::V) -> bool|
                #![trigger applier_abides(self.applier, m), matcher_abides(matcher, q)]
                applier_abides(self.applier, m) && matcher_abides(matcher, q) implies {
                let states = state_seq(m, z@, events@);
                first_match_index(states, q) == states.len()
            } by {
                let states = state_seq(m, z@, events@);
                lemma_first_match_index_at(states, q, states.len() as int);
            }
        }
        None
    }

    /// Folds the events and collects the run of intermediate states with
    /// duplicates removed: a state equal to any version retained earlier in
    /// the run is suppressed, so only the points where the projected state
    /// first took a value remain, in first-occurrence order.
    pub fn versions_from_stream(&self, events: Vec<U>) -> (r: Vec<T>) where T: PartialEq + Clone
        requires
            applier_callable(self.applier),
        ensures
            versions_to(self.applier, events@, r@),
    {
        let mut out: Vec<T> = Vec::new();
        let mut state: T = T::default();
        let ghost z: T = state;
        let mut i: usize = 0;
        while i < events.len()
            invariant
                0 <= i <= events.len(),
                applier_callable(self.applier),
                is_zero_state(z),
                forall|m: spec_fn(T::V, U) -> T::V| #[trigger]
                    applier_abides(self.applier, m) ==> state@ == fold_state(
                        m,
                        z@,
                        events@.take(i as int),
                    ),
                forall|m: spec_fn(T::V, U) -> T::V, q: spec_fn(T::V, T::V) -> bool|
                    #![trigger applier_abides(self.applier, m), eq_abides::<T>(q)]
                    applier_abides(self.applier, m) && eq_abides::<T>(q)
                        && clone_preserves_view::<T>() ==> views_of(out@) == versions_of(
                        state_seq(m, z@, events@).take(i as int),
                        q,
                    ),
            decreases events.len() - i,
        {
            let ghost prev = state;
            let ghost out_before = out@;
            state = (self.applier)(&state, &events[i]);
            proof {
                assert forall|m: spec_fn(T::V, U) -> T::V| #[trigger]
                    applier_abides(self.applier, m) implies state@ == fold_state(
                    m,
                    z@,
                    events@.take(i + 1),
                ) by {
                    assert(state@ == m(prev@, events@[i as int]));
                    assert(events@.take(i + 1).drop_last() =~= events@.take(i as int));
                }
            }
            let dup = state_seen(&out, &state);
            if !dup {
                out.push(state.clone());
            }
            proof {
                assert forall|m: spec_fn(T::V, U) -> T::V, q: spec_fn(T::V, T::V) -> bool|
                    #![trigger applier_abides(self.applier, m), eq_abides::<T>(q)]
                    applier_abides(self.applier, m) && eq_abides::<T>(q)
                        && clone_preserves_view::<T>() implies views_of(out@) == versions_of(
                    state_seq(m, z@, events@).take(i + 1),
                    q,
                ) by {
                    let ss = state_seq(m, z@, events@);
                    assert(ss.take(i + 1).drop_last() =~= ss.take(i as int));
                    assert(ss.take(i + 1).last() == ss[i as int]);
                    assert(ss[i as int] == state@);
                    assert(views_of(out_before) == versions_of(ss.take(i as int), q));
                    if dup {
                        assert(seen_before(versions_of(ss.take(i as int), q), state@, q));
                        assert(out@ == out_before);
                    } else {
                        assert(!seen_before(versions_of(ss.take(i as int), q), state@, q));
                        assert((out@[out@.len() - 1])@ == state@);
                        assert(views_of(out@) =~= views_of(out_before).push(state@));
                    }
                }
            }
            i += 1;
        }
        proof {
            assert(events@.take(events@.len() as int) =~= events@);
            assert forall|m: spec_fn(T::V, U) -> T::V, q: spec_fn(T::V, T::V) -> bool|
                #![trigger applier_abides(self.applier, m), eq_abides::<T>(q)]
                applier_abides(self.applier, m) && eq_abides::<T>(q)
                    && clone_preserves_view::<T>() implies views_of(out@) == versions_of(
                state_seq(m, z@, events@),
                q,
            ) by {
                let ss = state_seq(m, z@, events@);
                assert(ss.take(i as int) =~= ss);
            }
        }
        out
    }

    /// Begins a lazy run over `events`: the returned stream has consumed
    /// nothing yet and will apply one event per pull. The event sequence is
    /// moved into the stream and consumed exactly once.
    pub fn stream_entities<'a>(&'a self, events: Vec<U>) -> (r: EntityStream<'a, T, U, F>)
        requires
            applier_callable(self.applier),
        ensures
            r.wf(),
            r.projector == self,
            r.events == events,
            r.idx == 0,
    {
        let state: T = T::default();
        let ghost z: T = state;
        proof {
            assert(events@.take(0) =~= Seq::<U>::empty());
        }
        EntityStream { projector: self, events, idx: 0, state, zero: Ghost(z) }
    }
}

/// Whether any retained version equals `x`, under every view-level
/// relation the entity type's equality refines.
fn state_seen<T: PartialEq + View>(kept: &Vec<T>, x: &T) -> (r: bool)
    ensures
        forall|q: spec_fn(T::V, T::V) -> bool| #[trigger]
            eq_abides::<T>(q) ==> r == seen_before(views_of(kept@), (*x)@, q),
{
    let mut j: usize = 0;
    while j < kept.len()
        invariant
            0 <= j <= kept.len(),
            forall|q: spec_fn(T::V, T::V) -> bool| #[trigger]
                eq_abides::<T>(q) ==> forall|j2: int|
                    0 <= j2 < j ==> !q(#[trigger] views_of(kept@)[j2], (*x)@),
        decreases kept.len() - j,
    {
        let hit = kept[j].eq(x);
        if hit {
            proof {
                assert forall|q: spec_fn(T::V, T::V) -> bool| #[trigger]
                    eq_abides::<T>(q) implies seen_before(views_of(kept@), (*x)@, q) by {
                    assert(views_of(kept@)[j as int] == (kept@[j as int])@);
                    assert(q(views_of(kept@)[j as int], (*x)@));
                }
            }
            return true;
        }
        proof {
            assert forall|q: spec_fn(T::V, T::V) -> bool| #[trigger]
                eq_abides::<T>(q) implies forall|j2: int|
                0 <= j2 < j + 1 ==> !q(#[trigger] views_of(kept@)[j2], (*x)@) by {
                assert(views_of(kept@)[j as int] == (kept@[j as int])@);
                assert(!q(views_of(kept@)[j as int], (*x)@));
            }
        }
        j += 1;
    }
    false
}

/// A run of projection in progress: `idx` events have been applied so far
/// and `state` is the entity they produced. Pulled one state at a time;
/// events past the last pull are never touched.
#[verifier::reject_recursive_types(T)]
#[verifier::reject_recursive_types(U)]
pub struct EntityStream<'a, T, U, F> where F: Fn(&T, &U) -> T {
    pub projector: &'a Projector<T, U, F>,
    pub events: Vec<U>,
    pub idx: usize,
    pub state: T,
    pub zero: Ghost<T>,
}

impl<'a, T: Default + View, U, F: Fn(&T, &U) -> T> EntityStream<'a, T, U, F> {
    /// The stream's invariant: the held state is the fold of the events
    /// already consumed, under every model the applier refines.
    pub open spec fn wf(self) -> bool {
        &&& self.idx <= self.events@.len()
        &&& applier_callable(self.projector.applier)
        &&& is_zero_state(self.zero@)
        &&& forall|m: spec_fn(T::V, U) -> T::V| #[trigger]
            applier_abides(self.projector.applier, m) ==> self.state@ == fold_state(
                m,
                (self.zero@)@,
                self.events@.take(self.idx as int),
            )
    }

    /// How many events have been consumed so far.
    pub fn position(&self) -> (r: usize)
        ensures
            r == self.idx,
    {
        self.idx
    }

    /// Applies the next event and hands out the state it produced, or
    /// returns `None` once every event has been consumed. Exactly one event
    /// is processed per call.
    pub fn next_state(&mut self) -> (r: Option<T>) where T: Clone
        requires
            old(self).wf(),
        ensures
            final(self).wf(),
            final(self).projector == old(self).projector,
            final(self).events == old(self).events,
            final(self).zero == old(self).zero,
            r is Some <==> old(self).idx < old(self).events@.len(),
            r is Some ==> final(self).idx == old(self).idx + 1,
            r is None ==> final(self).idx == old(self).idx && final(self).state == old(self).state,
            clone_preserves_view::<T>() ==> forall|m: spec_fn(T::V, U) -> T::V| #[trigger]
                applier_abides(old(self).projector.applier, m) && r is Some ==> (r->0)@
                    == fold_state(
                    m,
                    (old(self).zero@)@,
                    old(self).events@.take(old(self).idx + 1),
                ),
    {
        if self.idx < self.events.len() {
            let ghost prev = self.state;
            let next = (self.projector.applier)(&self.state, &self.events[self.idx]);
            let out = next.clone();
            self.state = next;
            self.idx = self.idx + 1;
            proof {
                assert forall|m: spec_fn(T::V, U) -> T::V| #[trigger]
                    applier_abides(self.projector.applier, m) implies self.state@ == fold_state(
                    m,
                    (self.zero@)@,
                    self.events@.take(self.idx as int),
                ) by {
                    assert(self.state@ == m(prev@, self.events@[self.idx - 1]));
                    assert(self.events@.take(self.idx as int).drop_last() =~= self.events@.take(
                        self.idx - 1,
                    ));
                }
            }
            Some(out)
        } else {
            None
        }
    }

    /// Pulls states until the matcher accepts one, hands that state out and
    /// stops right there: the position afterwards is one past the match, so
    /// no event beyond the first matching state is ever applied. Returns
    /// `None`, with every event consumed, when no remaining state matches.
    pub fn find_state<P: Fn(&T) -> bool>(&mut self, matcher: P) -> (r: Option<T>) where T: Clone
        requires
            old(self).wf(),
            matcher_callable(matcher),
        ensures
            final(self).wf(),
            final(self).projector == old(self).projector,
            final(self).events == old(self).events,
            final(self).zero == old(self).zero,
            old(self).idx <= final(self).idx <= old(self).events@.len(),
            forall|m: spec_fn(T::V, U) -> T::V, q: spec_fn(T::V) -> bool|
                #![trigger applier_abides(old(self).projector.applier, m), matcher_abides(matcher, q)]
                applier_abides(old(self).projector.applier, m) && matcher_abides(matcher, q) ==> {
                    let states = state_seq(m, (old(self).zero@)@, old(self).events@);
                    let k = first_match_index(states.skip(old(self).idx as int), q);
                    if old(self).idx + k < states.len() {
                        &&& final(self).idx == old(self).idx + k + 1
                        &&& r is Some
                        &&& (clone_preserves_view::<T>() ==> (r->0)@ == states[old(self).idx + k])
                    } else {
                        &&& final(self).idx == states.len()
                        &&& r is None
                    }
                },
    {
        let ghost start = old(self).idx as int;
        while self.idx < self.events.len()
            invariant
                self.wf(),
                matcher_callable(matcher),
                self.projector == old(self).projector,
                self.events == old(self).events,
                self.zero == old(self).zero,
                start == old(self).idx,
                start <= self.idx <= self.events@.len(),
                forall|m: spec_fn(T::V, U) -> T::V, q: spec_fn(T::V) -> bool|
                    #![trigger applier_abides(self.projector.applier, m), matcher_abides(matcher, q)]
                    applier_abides(self.projector.applier, m) && matcher_abides(matcher, q)
                        ==> forall|j: int|
                        start <= j < self.idx ==> !q(
                            #[trigger] state_seq(m, (self.zero@)@, self.events@)[j],
                        ),
            decreases self.events@.len() - self.idx,
        {
            let ghost prev = self.state;
            let next = (self.projector.applier)(&self.state, &self.events[self.idx]);
            self.state = next;
            self.idx = self.idx + 1;
            proof {
                assert forall|m: spec_fn(T::V, U) -> T::V| #[trigger]
                    applier_abides(self.projector.applier, m) implies self.state@ == fold_state(
                    m,
                    (self.zero@)@,
                    self.events@.take(self.idx as int),
                ) by {
                    assert(self.state@ == m(prev@, self.events@[self.idx - 1]));
                    assert(self.events@.take(self.idx as int).drop_last() =~= self.events@.take(
                        self.idx - 1,
                    ));
                }
            }
            let matched = matcher(&self.state);
            if matched {
                let out = self.state.clone();
                proof {
                    let pos = self.idx - 1;
                    assert forall|m: spec_fn(T::V, U) -> T::V, q: spec_fn(T::V) -> bool|
                        #![trigger applier_abides(self.projector.applier, m), matcher_abides(matcher, q)]
                        applier_abides(self.projector.applier, m) && matcher_abides(
                        matcher,
                        q,
                    ) implies {
                        let states = state_seq(m, (self.zero@)@, self.events@);
                        let k = first_match_index(states.skip(start), q);
                        start + k == pos && self.state@ == states[pos]
                    } by {
                        let states = state_seq(m, (self.zero@)@, self.events@);
                        let sk = states.skip(start);
                        assert(states[pos] == fold_state(
                            m,
                            (self.zero@)@,
                            self.events@.take(pos + 1),
                        ));
                        assert(q(states[pos]));
                        assert forall|j: int| 0 <= j < pos - start implies !q(sk[j]) by {
                            assert(sk[j] == states[start + j]);
                        }
                        assert(sk[pos - start] == states[pos]);
                        lemma_first_match_index_at(sk, q, pos - start);
                    }
                }
                return Some(out);
            }
            proof {
                assert forall|m: spec_fn(T::V, U) -> T::V, q: spec_fn(T::V) -> bool|
                    #![trigger applier_abides(self.projector.applier, m), matcher_abides(matcher, q)]
                    applier_abides(self.projector.applier, m) && matcher_abides(
                    matcher,
                    q,
                ) implies forall|j: int|
                    start <= j < self.idx ==> !q(
                        #[trigger] state_seq(m, (self.zero@)@, self.events@)[j],
                    ) by {
                    assert(state_seq(m, (self.zero@)@, self.events@)[self.idx - 1] == fold_state(
                        m,
                        (self.zero@)@,
                        self.events@.take(self.idx as int),
                    ));
                    assert(!q(state_seq(m, (self.zero@)@, self.events@)[self.idx - 1]));
                }
            }
        }
        proof {
            assert forall|m: spec_fn(T::V, U) -> T::V, q: spec_fn(T::V) -> bool|
                #![trigger applier_abides(self.projector.applier, m), matcher_abides(matcher, q)]
                applier_abides(self.projector.applier, m) && matcher_abides(matcher, q) implies {
                let states = state_seq(m, (self.zero@)@, self.events@);
                start + first_match_index(states.skip(start), q) >= states.len()
            } by {
                let states = state_seq(m, (self.zero@)@, self.events@);
                let sk = states.skip(start);
                assert forall|j: int| 0 <= j < sk.len() implies !q(sk[j]) by {
                    assert(sk[j] == states[start + j]);
                }
                lemma_first_match_index_at(sk, q, sk.len() as int);
            }
        }
        None
    }
}

/// Every zero state the entity type admits has the view of `z`: its
/// `Default::default` is deterministic up to views.
pub open spec fn pins_zero_state<T: Default + View>(z: T) -> bool {
    forall|z2: T| #[trigger] is_zero_state(z2) ==> z2@ == z@
}

/// Determinism: for a fixed applier (refining a model `m`) and a fixed
/// event sequence, any two results of `project_last_state` have the same
/// view, provided the entity type's zero value is itself determined.
pub proof fn lemma_project_last_state_deterministic<T: Default + View, U, F: Fn(&T, &U) -> T>(
    f: F,
    m: spec_fn(T::V, U) -> T::V,
    z: T,
    events: Seq<U>,
    r1: T,
    r2: T,
)
    requires
        applier_abides(f, m),
        pins_zero_state(z),
        projects_to(f, events, r1),
        projects_to(f, events, r2),
    ensures
        r1@ == r2@,
{
    let z1 = choose|z1: T|
        #[trigger] is_zero_state(z1) && (forall|m2: spec_fn(T::V, U) -> T::V|
            #[trigger] applier_abides(f, m2) ==> r1@ == fold_state(m2, z1@, events));
    let z2 = choose|z2: T|
        #[trigger] is_zero_state(z2) && (forall|m2: spec_fn(T::V, U) -> T::V|
            #[trigger] applier_abides(f, m2) ==> r2@ == fold_state(m2, z2@, events));
    assert(r1@ == fold_state(m, z1@, events));
    assert(r2@ == fold_state(m, z2@, events));
    assert(z1@ == z@ && z2@ == z@);
}

/// Fold correctness on three events: the final state is the applier model
/// nested left to right over the zero value.
pub proof fn lemma_fold_state_three<V, U>(m: spec_fn(V, U) -> V, z: V, e1: U, e2: U, e3: U)
    ensures
        fold_state(m, z, seq![e1, e2, e3]) == m(m(m(z, e1), e2), e3),
{
    let s = seq![e1, e2, e3];
    assert(s.drop_last() =~= seq![e1, e2]);
    assert(seq![e1, e2].drop_last() =~= seq![e1]);
    assert(seq![e1].drop_last() =~= Seq::<U>::empty());
    assert(fold_state(m, z, Seq::<U>::empty()) == z);
    assert(fold_state(m, z, seq![e1]) == m(z, e1));
    assert(fold_state(m, z, seq![e1, e2]) == m(m(z, e1), e2));
    assert(fold_state(m, z, s) == m(m(m(z, e1), e2), e3));
}

/// Streaming consistency: on a non-empty sequence the last element of the
/// run of intermediate states is the terminal fold; on an empty sequence
/// the run is empty and the fold is the zero value.
pub proof fn lemma_stream_consistent_with_last_state<V, U>(
    m: spec_fn(V, U) -> V,
    z: V,
    events: Seq<U>,
)
    ensures
        events.len() > 0 ==> state_seq(m, z, events).last() == fold_state(m, z, events),
        events.len() == 0 ==> state_seq(m, z, events).len() == 0 && fold_state(m, z, events) == z,
{
    if events.len() > 0 {
        assert(events.take(events.len() as int) =~= events);
    }
}

/// Distinctness: the retained versions are pairwise unrelated by `q`, and
/// each of them is some state of the run.
pub proof fn lemma_versions_distinct<V>(states: Seq<V>, q: spec_fn(V, V) -> bool)
    ensures
        forall|j: int, k: int|
            0 <= j < k < versions_of(states, q).len() ==> !q(
                #[trigger] versions_of(states, q)[j],
                #[trigger] versions_of(states, q)[k],
            ),
        forall|k: int|
            0 <= k < versions_of(states, q).len() ==> exists|i: int|
                0 <= i < states.len() && #[trigger] versions_of(states, q)[k] == states[i],
    decreases states.len(),
{
    if states.len() > 0 {
        lemma_versions_distinct(states.drop_last(), q);
        let kept = versions_of(states.drop_last(), q);
        if !seen_before(kept, states.last(), q) {
            assert forall|k: int|
                0 <= k < versions_of(states, q).len() implies exists|i: int|
                0 <= i < states.len() && #[trigger] versions_of(states, q)[k] == states[i] by {
                if k < kept.len() {
                    let i = choose|i: int|
                        0 <= i < states.drop_last().len() && #[trigger] kept[k] == states.drop_last(
                        )[i];
                    assert(versions_of(states, q)[k] == states[i]);
                } else {
                    assert(versions_of(states, q)[k] == states[states.len() - 1]);
                }
            }
        } else {
            assert forall|k: int|
                0 <= k < versions_of(states, q).len() implies exists|i: int|
                0 <= i < states.len() && #[trigger] versions_of(states, q)[k] == states[i] by {
                let i = choose|i: int|
                    0 <= i < states.drop_last().len() && #[trigger] kept[k] == states.drop_last(
                    )[i];
                assert(versions_of(states, q)[k] == states[i]);
            }
        }
    }
}

} // verus!
