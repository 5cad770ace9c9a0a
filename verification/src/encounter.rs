//! An example consumer of the projection core: a visit-report aggregator
//! that folds check-in/check-out events into a merged time interval and a
//! per-participant interval list.
//!
//! Timestamps are kept as strings and ordered lexicographically by
//! character, which on the ISO-8601 forms used here coincides with
//! chronological order.

use crate::order::{lex_le, str_lex_le};
use crate::projector::{
    applier_abides, applier_callable, is_zero_state, views_of, Projector,
};
use vstd::prelude::*;

verus! {

/// One raw occurrence in a visit log.
pub struct EventData {
    pub id: String,
    pub event_type: String,
    pub timestamp: String,
    pub care_recipient_id: String,
    pub caregiver_id: String,
}

/// A caregiver checking in to or out of a visit.
pub enum VisitEvent {
    CheckIn(EventData),
    CheckOut(EventData),
}

/// One report in the event log: the ordered visit events it carries.
pub struct VisitReport {
    pub id: String,
    pub visit_events: Vec<VisitEvent>,
}

/// A merged time interval, either end possibly still open.
#[derive(Debug, PartialEq, Eq, Hash)]
pub struct Period {
    pub start: Option<String>,
    pub end: Option<String>,
}

/// One caregiver's interval within the encounter.
#[derive(Debug, PartialEq, Eq, Hash)]
pub struct Participant {
    pub id: String,
    pub start: Option<String>,
    pub end: Option<String>,
}

/// The projected entity: the overall interval and the caregivers seen.
#[derive(Debug, PartialEq, Eq, Hash)]
pub struct Encounter {
    pub period: Period,
    pub participant: Vec<Participant>,
}

/// The mathematical value of a `Period`.
pub struct PeriodView {
    pub start: Option<Seq<char>>,
    pub end: Option<Seq<char>>,
}

/// The mathematical value of a `Participant`.
pub struct ParticipantView {
    pub id: Seq<char>,
    pub start: Option<Seq<char>>,
    pub end: Option<Seq<char>>,
}

/// The mathematical value of an `Encounter`.
pub struct EncounterView {
    pub period: PeriodView,
    pub participant: Seq<ParticipantView>,
}

/// The view of an optional string.
pub open spec fn opt_view(o: Option<String>) -> Option<Seq<char>> {
    match o {
        Some(s) => Some(s@),
        None => None,
    }
}

impl View for Period {
    type V = PeriodView;

    open spec fn view(&self) -> PeriodView {
        PeriodView { start: opt_view(self.start), end: opt_view(self.end) }
    }
}

impl View for Participant {
    type V = ParticipantView;

    open spec fn view(&self) -> ParticipantView {
        ParticipantView { id: self.id@, start: opt_view(self.start), end: opt_view(self.end) }
    }
}

impl View for Encounter {
    type V = EncounterView;

    open spec fn view(&self) -> EncounterView {
        EncounterView { period: self.period@, participant: views_of(self.participant@) }
    }
}

/// The encounter no event has touched yet: no interval, no participants.
pub open spec fn empty_encounter_view() -> EncounterView {
    EncounterView {
        period: PeriodView { start: None, end: None },
        participant: Seq::empty(),
    }
}

impl Clone for Period {
    /// A clone has the same value.
    fn clone(&self) -> (r: Self)
        ensures
            r@ == (*self)@,
    {
        Period { start: self.start.clone(), end: self.end.clone() }
    }
}

impl Clone for Participant {
    /// A clone has the same value.
    fn clone(&self) -> (r: Self)
        ensures
            r@ == (*self)@,
    {
        Participant { id: self.id.clone(), start: self.start.clone(), end: self.end.clone() }
    }
}

impl Clone for Encounter {
    /// A clone has the same value.
    fn clone(&self) -> (r: Self)
        ensures
            r@ == (*self)@,
    {
        let mut participant: Vec<Participant> = Vec::new();
        let mut i: usize = 0;
        while i < self.participant.len()
            invariant
                0 <= i <= self.participant@.len(),
                participant@.len() == i,
                forall|j: int| 0 <= j < i ==> (#[trigger] participant@[j])@
                    == (self.participant@[j])@,
            decreases self.participant@.len() - i,
        {
            participant.push(self.participant[i].clone());
            i += 1;
        }
        proof {
            assert forall|j: int| 0 <= j < participant@.len() implies views_of(participant@)[j]
                == views_of(self.participant@)[j] by {
                assert(views_of(participant@)[j] == (participant@[j])@);
                assert(views_of(self.participant@)[j] == (self.participant@[j])@);
            }
            assert(views_of(participant@) =~= views_of(self.participant@));
        }
        Encounter { period: self.period.clone(), participant }
    }
}

impl Default for Period {
    /// The zero period: both ends open.
    fn default() -> (r: Self)
        ensures
            r@ == (PeriodView { start: None, end: None }),
    {
        Period { start: None, end: None }
    }
}

impl Default for Encounter {
    /// The zero encounter: the state before any event is applied.
    fn default() -> (r: Self)
        ensures
            r@ == empty_encounter_view(),
    {
        let participant: Vec<Participant> = Vec::new();
        proof {
            assert(views_of(participant@) =~= Seq::<ParticipantView>::empty());
        }
        Encounter { period: Period { start: None, end: None }, participant }
    }
}

/// The earlier of an optional bound and a timestamp.
pub open spec fn spec_min_opt(t0: Option<Seq<char>>, t1: Seq<char>) -> Seq<char> {
    match t0 {
        Some(u) => if lex_le(u, t1) {
            u
        } else {
            t1
        },
        None => t1,
    }
}

/// The later of an optional bound and a timestamp.
pub open spec fn spec_max_opt(t0: Option<Seq<char>>, t1: Seq<char>) -> Seq<char> {
    match t0 {
        Some(u) => if lex_le(u, t1) {
            t1
        } else {
            u
        },
        None => t1,
    }
}

/// The earlier of an optional bound and a timestamp.
fn min_opt(t0: &Option<String>, t1: &String) -> (r: String)
    ensures
        r@ == spec_min_opt(opt_view(*t0), t1@),
{
    match t0 {
        Some(u) => {
            if str_lex_le(u.as_str(), t1.as_str()) {
                u.clone()
            } else {
                t1.clone()
            }
        },
        None => t1.clone(),
    }
}

/// The later of an optional bound and a timestamp.
fn max_opt(t0: &Option<String>, t1: &String) -> (r: String)
    ensures
        r@ == spec_max_opt(opt_view(*t0), t1@),
{
    match t0 {
        Some(u) => {
            if str_lex_le(u.as_str(), t1.as_str()) {
                t1.clone()
            } else {
                u.clone()
            }
        },
        None => t1.clone(),
    }
}

/// The caregiver the event speaks of.
pub open spec fn event_caregiver_id(e: VisitEvent) -> Seq<char> {
    match e {
        VisitEvent::CheckIn(c) => c.caregiver_id@,
        VisitEvent::CheckOut(c) => c.caregiver_id@,
    }
}

/// When the event happened.
pub open spec fn event_timestamp(e: VisitEvent) -> Seq<char> {
    match e {
        VisitEvent::CheckIn(c) => c.timestamp@,
        VisitEvent::CheckOut(c) => c.timestamp@,
    }
}

/// How one event widens the overall interval: a check-in can only move the
/// start earlier, a check-out can only move the end later.
pub open spec fn spec_apply_period(e: VisitEvent, p: PeriodView) -> PeriodView {
    match e {
        VisitEvent::CheckIn(c) => PeriodView {
            start: Some(spec_min_opt(p.start, c.timestamp@)),
            end: p.end,
        },
        VisitEvent::CheckOut(c) => PeriodView {
            start: p.start,
            end: Some(spec_max_opt(p.end, c.timestamp@)),
        },
    }
}

/// The first participant entry carrying `id`, if any.
pub open spec fn find_participant(ps: Seq<ParticipantView>, id: Seq<char>) -> Option<
    ParticipantView,
>
    decreases ps.len(),
{
    if ps.len() == 0 {
        None
    } else if ps.first().id == id {
        Some(ps.first())
    } else {
        find_participant(ps.drop_first(), id)
    }
}

/// A position whose entry carries `id`, with no earlier such entry, is the
/// one found; a roster without the id yields nothing.
proof fn lemma_find_participant_at(ps: Seq<ParticipantView>, id: Seq<char>, i: int)
    requires
        0 <= i <= ps.len(),
        forall|j: int| 0 <= j < i ==> (#[trigger] ps[j]).id != id,
        i < ps.len() ==> ps[i].id == id,
    ensures
        i < ps.len() ==> find_participant(ps, id) == Some(ps[i]),
        i == ps.len() ==> find_participant(ps, id) is None,
    decreases ps.len(),
{
    if ps.len() > 0 {
        if ps.first().id != id {
            lemma_find_participant_at(ps.drop_first(), id, i - 1);
        }
    }
}

/// The entry the event leaves for its caregiver: a check-in can move the
/// entry's start earlier, a check-out its end later; a caregiver not on the
/// roster yet enters with the event's timestamp as start and no end.
pub open spec fn spec_new_participant(e: VisitEvent, existing: Option<ParticipantView>)
    -> ParticipantView {
    let id = event_caregiver_id(e);
    let ts = event_timestamp(e);
    match existing {
        Some(p) => match e {
            VisitEvent::CheckIn(_) => ParticipantView {
                id,
                start: Some(spec_min_opt(p.start, ts)),
                end: p.end,
            },
            VisitEvent::CheckOut(_) => ParticipantView {
                id,
                start: p.start,
                end: Some(spec_max_opt(p.end, ts)),
            },
        },
        None => ParticipantView { id, start: Some(ts), end: None },
    }
}

/// The roster without the entries carrying `id`, order kept.
pub open spec fn remove_participant(ps: Seq<ParticipantView>, id: Seq<char>) -> Seq<
    ParticipantView,
>
    decreases ps.len(),
{
    if ps.len() == 0 {
        Seq::empty()
    } else {
        let front = remove_participant(ps.drop_last(), id);
        if ps.last().id == id {
            front
        } else {
            front.push(ps.last())
        }
    }
}

/// How one event reshapes the roster: the caregiver's entry (merged with
/// the event, or fresh) moves to the end; everyone else keeps their order.
pub open spec fn spec_apply_participant(e: VisitEvent, ps: Seq<ParticipantView>) -> Seq<
    ParticipantView,
> {
    let id = event_caregiver_id(e);
    remove_participant(ps, id).push(spec_new_participant(e, find_participant(ps, id)))
}

/// How one event reshapes the whole encounter.
pub open spec fn spec_apply_event(e: VisitEvent, s: EncounterView) -> EncounterView {
    EncounterView {
        period: spec_apply_period(e, s.period),
        participant: spec_apply_participant(e, s.participant),
    }
}

/// How one report's events, in order, reshape the encounter.
pub open spec fn spec_apply_events(evs: Seq<VisitEvent>, s: EncounterView) -> EncounterView
    decreases evs.len(),
{
    if evs.len() == 0 {
        s
    } else {
        spec_apply_event(evs.last(), spec_apply_events(evs.drop_last(), s))
    }
}

/// The position of the first roster entry carrying `id`.
fn find_index(participant: &Vec<Participant>, id: &String) -> (r: Option<usize>)
    ensures
        match r {
            Some(k) => k < participant@.len() && (participant@[k as int])@.id == id@ && (forall|
                j: int,
            | 0 <= j < k ==> (#[trigger] participant@[j])@.id != id@),
            None => forall|j: int|
                0 <= j < participant@.len() ==> (#[trigger] participant@[j])@.id != id@,
        },
{
    let mut k: usize = 0;
    while k < participant.len()
        invariant
            0 <= k <= participant@.len(),
            forall|j: int| 0 <= j < k ==> (#[trigger] participant@[j])@.id != id@,
        decreases participant@.len() - k,
    {
        if participant[k].id.eq(id) {
            return Some(k);
        }
        k += 1;
    }
    None
}

/// Applies one event to the overall interval.
fn apply_period(event: &VisitEvent, existing: &Period) -> (r: Period)
    ensures
        r@ == spec_apply_period(*event, (*existing)@),
{
    match event {
        VisitEvent::CheckIn(c) => Period {
            start: Some(min_opt(&existing.start, &c.timestamp)),
            end: existing.end.clone(),
        },
        VisitEvent::CheckOut(c) => Period {
            start: existing.start.clone(),
            end: Some(max_opt(&existing.end, &c.timestamp)),
        },
    }
}

/// Applies one event to the roster: merges it into the entry of the
/// caregiver it speaks of and moves that entry to the end.
fn apply_participant(event: &VisitEvent, participant: &Vec<Participant>) -> (r: Vec<Participant>)
    ensures
        views_of(r@) == spec_apply_participant(*event, views_of(participant@)),
{
    let id: &String = match event {
        VisitEvent::CheckIn(c) => &c.caregiver_id,
        VisitEvent::CheckOut(c) => &c.caregiver_id,
    };
    let found = find_index(participant, id);
    let new_entry: Participant = match found {
        Some(k) => {
            let p = &participant[k];
            proof {
                lemma_find_participant_at(views_of(participant@), id@, k as int);
                assert forall|j: int| 0 <= j < k implies (#[trigger] views_of(participant@)[j]).id
                    != id@ by {
                    assert(views_of(participant@)[j] == (participant@[j])@);
                }
            }
            match event {
                VisitEvent::CheckIn(c) => Participant {
                    id: id.clone(),
                    start: Some(min_opt(&p.start, &c.timestamp)),
                    end: p.end.clone(),
                },
                VisitEvent::CheckOut(c) => Participant {
                    id: id.clone(),
                    start: p.start.clone(),
                    end: Some(max_opt(&p.end, &c.timestamp)),
                },
            }
        },
        None => {
            proof {
                assert forall|j: int| 0 <= j < views_of(participant@).len() implies (
                #[trigger] views_of(participant@)[j]).id != id@ by {
                    assert(views_of(participant@)[j] == (participant@[j])@);
                }
                lemma_find_participant_at(
                    views_of(participant@),
                    id@,
                    views_of(participant@).len() as int,
                );
            }
            match event {
                VisitEvent::CheckIn(c) => Participant {
                    id: id.clone(),
                    start: Some(c.timestamp.clone()),
                    end: None,
                },
                VisitEvent::CheckOut(c) => Participant {
                    id: id.clone(),
                    start: Some(c.timestamp.clone()),
                    end: None,
                },
            }
        },
    };
    let ghost pviews = views_of(participant@);
    let mut out: Vec<Participant> = Vec::new();
    let mut j: usize = 0;
    while j < participant.len()
        invariant
            0 <= j <= participant@.len(),
            pviews == views_of(participant@),
            views_of(out@) == remove_participant(pviews.take(j as int), id@),
        decreases participant@.len() - j,
    {
        let ghost out_before = out@;
        let p = &participant[j];
        if !p.id.eq(id) {
            out.push(p.clone());
        }
        proof {
            assert(pviews.take(j + 1).drop_last() =~= pviews.take(j as int));
            assert(pviews.take(j + 1).last() == (participant@[j as int])@);
            if (participant@[j as int])@.id != id@ {
                assert(views_of(out@) =~= views_of(out_before).push((participant@[j as int])@));
            }
        }
        j += 1;
    }
    out.push(new_entry);
    proof {
        assert(pviews.take(pviews.len() as int) =~= pviews);
        assert(views_of(out@) =~= remove_participant(pviews, id@).push(new_entry@));
    }
    out
}

/// Applies every event of one report, in order, to the encounter.
fn apply_report(state: &Encounter, report: &VisitReport) -> (r: Encounter)
    ensures
        r@ == spec_apply_events(report.visit_events@, (*state)@),
{
    let mut acc: Encounter = state.clone();
    let mut i: usize = 0;
    while i < report.visit_events.len()
        invariant
            0 <= i <= report.visit_events@.len(),
            acc@ == spec_apply_events(report.visit_events@.take(i as int), (*state)@),
        decreases report.visit_events@.len() - i,
    {
        let ev = &report.visit_events[i];
        acc = Encounter {
            period: apply_period(ev, &acc.period),
            participant: apply_participant(ev, &acc.participant),
        };
        proof {
            assert(report.visit_events@.take(i + 1).drop_last() =~= report.visit_events@.take(
                i as int,
            ));
        }
        i += 1;
    }
    proof {
        assert(report.visit_events@.take(report.visit_events@.len() as int)
            =~= report.visit_events@);
    }
    acc
}

/// The applier model the encounter projector refines: fold one report's
/// events into the encounter.
pub open spec fn encounter_model() -> spec_fn(EncounterView, VisitReport) -> EncounterView {
    |s: EncounterView, e: VisitReport| spec_apply_events(e.visit_events@, s)
}

/// The applier the encounter projector wraps: it folds one report's events
/// into the encounter, refining `encounter_model`.
pub fn encounter_applier() -> (r: impl Fn(&Encounter, &VisitReport) -> Encounter)
    ensures
        applier_callable(r),
        applier_abides(r, encounter_model()),
{
    |state: &Encounter, report: &VisitReport| -> (out: Encounter)
        ensures
            out@ == spec_apply_events(report.visit_events@, (*state)@),
        {
            apply_report(state, report)
        }
}

/// A projector folding visit reports into an encounter.
pub fn encounter_projector() -> (r: Projector<
    Encounter,
    VisitReport,
    impl Fn(&Encounter, &VisitReport) -> Encounter,
>)
    ensures
        applier_callable(r.applier),
        applier_abides(r.applier, encounter_model()),
{
    let applier = encounter_applier();
    Projector::from_applier(applier)
}

/// The encounter type's zero state is the empty encounter.
pub proof fn lemma_encounter_zero_pinned(z: Encounter)
    requires
        is_zero_state(z),
    ensures
        z@ == empty_encounter_view(),
{
}

/// End to end: whatever `project_last_state` returns for an applier that
/// refines the encounter model is exactly the fold of the reports over the
/// empty encounter.
pub proof fn lemma_encounter_projection_exact<F: Fn(&Encounter, &VisitReport) -> Encounter>(
    f: F,
    reports: Seq<VisitReport>,
    r: Encounter,
)
    requires
        applier_abides(f, encounter_model()),
        crate::projector::projects_to(f, reports, r),
    ensures
        r@ == crate::projector::fold_state(encounter_model(), empty_encounter_view(), reports),
{
    let z = choose|z: Encounter|
        #[trigger] is_zero_state(z) && (forall|
            m: spec_fn(EncounterView, VisitReport) -> EncounterView,
        |
            #[trigger] applier_abides(f, m) ==> r@ == crate::projector::fold_state(m, z@, reports));
    lemma_encounter_zero_pinned(z);
    assert(r@ == crate::projector::fold_state(encounter_model(), z@, reports));
}

} // verus!
