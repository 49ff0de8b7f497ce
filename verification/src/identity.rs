//! The identity index and tag resolver.
//!
//! Each stored identity's history defines a partition of time into half-open
//! epochs `[event_date, next_event_date)`, each owning one tag. Resolution
//! answers "which identity held tag `t` on date `d`" by interval containment
//! (never by most recent use, since a tag can be reused by different
//! identities over disjoint intervals) and is fail-soft: an unresolved tag
//! comes back unchanged.
//!
//! Resolution semantics, chosen once for all consumers: a successful
//! resolution returns the owning identity's *latest* tag (the tag it holds at
//! the end of its record), not the tag effective at the queried date. The
//! war reconstruction filters by that latest tag; ledger attribution, which
//! wants the tag effective at a date, goes through [`Identity`] epochs
//! directly via [`tag_held_at`].

use crate::dates::Date;
use crate::model::{CountryEvent, CountryEventKind, CountryRecord, SaveModel};
use crate::tags::Tag;
use vstd::prelude::*;

verus! {

/// One entry of an identity's tag timeline.
#[derive(Clone, Copy, PartialEq, Eq, Structural, Debug)]
pub enum NationEventKind {
    /// The identity began the campaign under this tag.
    Initial(Tag),
    /// The identity adopted this tag.
    TagSwitch(Tag),
    /// The identity was annexed and stopped holding any tag.
    Annexed,
}

#[derive(Clone, Copy, PartialEq, Eq, Structural, Debug)]
pub struct NationEvent {
    pub date: Date,
    pub kind: NationEventKind,
}

/// A half-open interval `[from, until)` (open-ended when `until` is `None`)
/// during which one identity owned `tag`.
#[derive(Clone, Copy, PartialEq, Debug)]
pub struct Epoch {
    pub tag: Tag,
    pub from: Date,
    pub until: Option<Date>,
}

/// One stored identity: its fixed stored tag, its tag timeline, the tag it
/// holds at the end of its record, and the epochs its timeline defines.
#[derive(Clone, Debug)]
pub struct Identity {
    pub stored: Tag,
    pub initial: Tag,
    pub latest: Tag,
    pub events: Vec<NationEvent>,
    pub epochs: Vec<Epoch>,
}

/// A successful resolution: the owning identity's stored and latest tags.
#[derive(Clone, Copy, PartialEq, Eq, Structural, Debug)]
pub struct Resolved {
    pub stored: Tag,
    pub current: Tag,
}

/// The tag timeline a country history log induces: its tag switches and
/// annexation, in log order, with everything else dropped.
pub open spec fn nation_history(h: Seq<CountryEvent>) -> Seq<NationEvent>
    decreases h.len(),
{
    if h.len() == 0 {
        Seq::<NationEvent>::empty()
    } else {
        let rest = nation_history(h.drop_last());
        match h.last().kind {
            CountryEventKind::TagSwitch(t) => rest.push(
                NationEvent { date: h.last().date, kind: NationEventKind::TagSwitch(t) },
            ),
            CountryEventKind::Annexed => rest.push(
                NationEvent { date: h.last().date, kind: NationEventKind::Annexed },
            ),
            _ => rest,
        }
    }
}

/// The last tag a timeline assigns (annexation assigns none and keeps the
/// tag held before it).
pub open spec fn latest_tag(stored: Tag, evs: Seq<NationEvent>) -> Tag
    decreases evs.len(),
{
    if evs.len() == 0 {
        stored
    } else {
        match evs.last().kind {
            NationEventKind::Initial(t) => t,
            NationEventKind::TagSwitch(t) => t,
            NationEventKind::Annexed => latest_tag(stored, evs.drop_last()),
        }
    }
}

/// Closes the currently open epoch, if any, at `until`.
pub open spec fn close_epoch(
    done: Seq<Epoch>,
    open: Option<(Tag, Date)>,
    until: Option<Date>,
) -> Seq<Epoch> {
    match open {
        Some(o) => done.push(Epoch { tag: o.0, from: o.1, until }),
        None => done,
    }
}

/// Folds a timeline into closed epochs plus the still-open one: every tag
/// assignment closes the previous epoch at its date and opens a new one;
/// annexation closes without opening.
pub open spec fn epoch_fold(evs: Seq<NationEvent>) -> (Seq<Epoch>, Option<(Tag, Date)>)
    decreases evs.len(),
{
    if evs.len() == 0 {
        (Seq::<Epoch>::empty(), None::<(Tag, Date)>)
    } else {
        let prev = epoch_fold(evs.drop_last());
        let e = evs.last();
        match e.kind {
            NationEventKind::Initial(t) => (
                close_epoch(prev.0, prev.1, Some(e.date)),
                Some((t, e.date)),
            ),
            NationEventKind::TagSwitch(t) => (
                close_epoch(prev.0, prev.1, Some(e.date)),
                Some((t, e.date)),
            ),
            NationEventKind::Annexed => (close_epoch(prev.0, prev.1, Some(e.date)), None),
        }
    }
}

/// The epochs a timeline defines: the folded closed epochs, with the final
/// open epoch left open-ended.
pub open spec fn identity_epochs(evs: Seq<NationEvent>) -> Seq<Epoch> {
    let f = epoch_fold(evs);
    close_epoch(f.0, f.1, None)
}

/// `id` is the identity the given country record and campaign start induce.
pub open spec fn is_identity_of(id: Identity, c: CountryRecord, start: Date) -> bool {
    &&& id.stored == c.stored_tag
    &&& id.initial == c.stored_tag
    &&& id.events@ == seq![
        NationEvent { date: start, kind: NationEventKind::Initial(c.stored_tag) },
    ] + nation_history(c.history@)
    &&& id.latest == latest_tag(c.stored_tag, id.events@)
    &&& id.epochs@ == identity_epochs(id.events@)
}

pub open spec fn events_dates_wf(evs: Seq<NationEvent>) -> bool {
    forall|i: int| 0 <= i < evs.len() ==> (#[trigger] evs[i]).date.wf()
}

pub open spec fn epoch_dates_wf(e: Epoch) -> bool {
    &&& e.from.wf()
    &&& match e.until {
        Some(u) => u.wf(),
        None => true,
    }
}

pub open spec fn epochs_dates_wf(es: Seq<Epoch>) -> bool {
    forall|i: int| 0 <= i < es.len() ==> epoch_dates_wf(#[trigger] es[i])
}

/// `d` falls inside the epoch's half-open interval.
pub open spec fn epoch_contains(e: Epoch, d: Date) -> bool {
    &&& e.from.index_spec() <= d.index_spec()
    &&& match e.until {
        Some(u) => d.index_spec() < u.index_spec(),
        None => true,
    }
}

/// Some epoch of the identity owns tag `t` on date `d`.
pub open spec fn identity_held(id: Identity, t: Tag, d: Date) -> bool {
    exists|j: int|
        0 <= j < id.epochs@.len() && (#[trigger] id.epochs@[j]).tag == t && epoch_contains(
            id.epochs@[j],
            d,
        )
}

/// Resolution over an identity list: the first identity one of whose epochs
/// owns `t` on `d`, if any.
pub open spec fn resolve_spec(ids: Seq<Identity>, t: Tag, d: Date) -> Option<Resolved>
    decreases ids.len(),
{
    if ids.len() == 0 {
        None::<Resolved>
    } else if identity_held(ids[0], t, d) {
        Some(Resolved { stored: ids[0].stored, current: ids[0].latest })
    } else {
        resolve_spec(ids.drop_first(), t, d)
    }
}

/// The index of the first identity stored under `t`, if any.
pub open spec fn find_stored_spec(ids: Seq<Identity>, t: Tag) -> Option<int>
    decreases ids.len(),
{
    if ids.len() == 0 {
        None::<int>
    } else if ids[0].stored == t {
        Some(0int)
    } else {
        match find_stored_spec(ids.drop_first(), t) {
            Some(i) => Some(i + 1),
            None => None,
        }
    }
}

/// A found index names an identity stored under the sought tag.
pub proof fn lemma_find_stored_in_range(ids: Seq<Identity>, t: Tag)
    ensures
        match find_stored_spec(ids, t) {
            Some(i) => 0 <= i < ids.len() && ids[i].stored == t,
            None => true,
        },
    decreases ids.len(),
{
    if ids.len() > 0 && ids[0].stored != t {
        lemma_find_stored_in_range(ids.drop_first(), t);
    }
}

/// The tag an identity holds on `d`: the tag of its first epoch containing
/// `d`, if any.
pub open spec fn held_at_spec(es: Seq<Epoch>, d: Date) -> Option<Tag>
    decreases es.len(),
{
    if es.len() == 0 {
        None::<Tag>
    } else if epoch_contains(es[0], d) {
        Some(es[0].tag)
    } else {
        held_at_spec(es.drop_first(), d)
    }
}

/// Builds the identity one country record induces.
pub fn build_identity(c: &CountryRecord, start: Date) -> (id: Identity)
    requires
        c.wf(),
        start.wf(),
    ensures
        is_identity_of(id, *c, start),
        events_dates_wf(id.events@),
        epochs_dates_wf(id.epochs@),
{
    let ghost first = NationEvent { date: start, kind: NationEventKind::Initial(c.stored_tag) };
    let mut events: Vec<NationEvent> = Vec::new();
    events.push(NationEvent { date: start, kind: NationEventKind::Initial(c.stored_tag) });
    let mut i: usize = 0;
    while i < c.history.len()
        invariant
            c.wf(),
            start.wf(),
            i <= c.history@.len(),
            events@ == seq![first] + nation_history(c.history@.take(i as int)),
            events_dates_wf(events@),
        decreases c.history@.len() - i,
    {
        proof {
            assert(c.history@.take(i + 1).drop_last() == c.history@.take(i as int));
            assert(c.history@.take(i + 1).last() == c.history@[i as int]);
        }
        match &c.history[i].kind {
            CountryEventKind::TagSwitch(t) => {
                events.push(NationEvent { date: c.history[i].date, kind: NationEventKind::TagSwitch(*t) });
            },
            CountryEventKind::Annexed => {
                events.push(NationEvent { date: c.history[i].date, kind: NationEventKind::Annexed });
            },
            _ => {},
        }
        i = i + 1;
    }
    proof {
        assert(c.history@.take(c.history@.len() as int) == c.history@);
    }

    let mut latest: Tag = c.stored_tag;
    let mut j: usize = 0;
    while j < events.len()
        invariant
            j <= events@.len(),
            latest == latest_tag(c.stored_tag, events@.take(j as int)),
        decreases events@.len() - j,
    {
        proof {
            assert(events@.take(j + 1).drop_last() == events@.take(j as int));
            assert(events@.take(j + 1).last() == events@[j as int]);
        }
        match &events[j].kind {
            NationEventKind::Initial(t) => {
                latest = *t;
            },
            NationEventKind::TagSwitch(t) => {
                latest = *t;
            },
            NationEventKind::Annexed => {},
        }
        j = j + 1;
    }
    proof {
        assert(events@.take(events@.len() as int) == events@);
    }

    let mut epochs: Vec<Epoch> = Vec::new();
    let mut open: Option<(Tag, Date)> = None;
    let mut k: usize = 0;
    while k < events.len()
        invariant
            k <= events@.len(),
            (epochs@, open) == epoch_fold(events@.take(k as int)),
            events_dates_wf(events@),
            epochs_dates_wf(epochs@),
            match open {
                Some(o) => o.1.wf(),
                None => true,
            },
        decreases events@.len() - k,
    {
        proof {
            assert(events@.take(k + 1).drop_last() == events@.take(k as int));
            assert(events@.take(k + 1).last() == events@[k as int]);
        }
        let e = events[k];
        match e.kind {
            NationEventKind::Initial(t) => {
                if let Some(o) = open {
                    epochs.push(Epoch { tag: o.0, from: o.1, until: Some(e.date) });
                }
                open = Some((t, e.date));
            },
            NationEventKind::TagSwitch(t) => {
                if let Some(o) = open {
                    epochs.push(Epoch { tag: o.0, from: o.1, until: Some(e.date) });
                }
                open = Some((t, e.date));
            },
            NationEventKind::Annexed => {
                if let Some(o) = open {
                    epochs.push(Epoch { tag: o.0, from: o.1, until: Some(e.date) });
                }
                open = None;
            },
        }
        k = k + 1;
    }
    proof {
        assert(events@.take(events@.len() as int) == events@);
    }
    if let Some(o) = open {
        epochs.push(Epoch { tag: o.0, from: o.1, until: None });
    }

    Identity { stored: c.stored_tag, initial: c.stored_tag, latest, events, epochs }
}

/// The identity index: one [`Identity`] per stored country, in save order.
pub struct IdentityIndex {
    pub identities: Vec<Identity>,
}

impl IdentityIndex {
    pub open spec fn wf(self) -> bool {
        forall|i: int| 0 <= i < self.identities@.len() ==> epochs_dates_wf(
            (#[trigger] self.identities@[i]).epochs@,
        )
    }

    /// Builds the index once per loaded save; it is immutable afterwards.
    pub fn build(save: &SaveModel) -> (r: IdentityIndex)
        requires
            save.wf(),
        ensures
            r.wf(),
            r.corresponds(*save),
    {
        let mut identities: Vec<Identity> = Vec::new();
        let mut i: usize = 0;
        while i < save.countries.len()
            invariant
                save.wf(),
                i <= save.countries@.len(),
                identities@.len() == i,
                forall|j: int| 0 <= j < i ==> is_identity_of(
                    #[trigger] identities@[j],
                    save.countries@[j],
                    save.start_date,
                ),
                forall|j: int| 0 <= j < i ==> epochs_dates_wf(
                    (#[trigger] identities@[j]).epochs@,
                ),
            decreases save.countries@.len() - i,
        {
            identities.push(build_identity(&save.countries[i], save.start_date));
            i = i + 1;
        }
        IdentityIndex { identities }
    }

    /// The index was built from this save: one identity per stored country,
    /// in save order.
    pub open spec fn corresponds(self, save: SaveModel) -> bool {
        &&& self.identities@.len() == save.countries@.len()
        &&& forall|i: int| 0 <= i < save.countries@.len() ==> is_identity_of(
            #[trigger] self.identities@[i],
            save.countries@[i],
            save.start_date,
        )
    }

    /// Finds the first identity stored under `t`, if any.
    pub fn find_stored(&self, t: Tag) -> (r: Option<usize>)
        ensures
            match r {
                Some(i) => find_stored_spec(self.identities@, t) == Some(i as int),
                None => find_stored_spec(self.identities@, t) is None,
            },
    {
        let ghost ids = self.identities@;
        proof {
            assert(ids.skip(0) == ids);
        }
        let mut i: usize = 0;
        while i < self.identities.len()
            invariant
                ids == self.identities@,
                i <= ids.len(),
                find_stored_spec(ids, t) == match find_stored_spec(ids.skip(i as int), t) {
                    Some(k) => Some(k + i),
                    None => None::<int>,
                },
            decreases ids.len() - i,
        {
            proof {
                assert(ids.skip(i as int)[0] == ids[i as int]);
                assert(ids.skip(i as int).drop_first() == ids.skip(i + 1));
            }
            if self.identities[i].stored.code == t.code {
                return Some(i);
            }
            i = i + 1;
        }
        proof {
            assert(ids.skip(ids.len() as int).len() == 0);
        }
        None
    }

    /// Resolves which identity held `t` on `d`, by epoch containment across
    /// all identities. `None` means no identity ever held `t` on `d`.
    pub fn resolve_detail(&self, t: Tag, d: Date) -> (r: Option<Resolved>)
        requires
            self.wf(),
            d.wf(),
        ensures
            r == resolve_spec(self.identities@, t, d),
    {
        let ghost ids = self.identities@;
        proof {
            assert(ids.skip(0) == ids);
        }
        let mut i: usize = 0;
        while i < self.identities.len()
            invariant
                self.wf(),
                d.wf(),
                ids == self.identities@,
                i <= ids.len(),
                resolve_spec(ids, t, d) == resolve_spec(ids.skip(i as int), t, d),
            decreases ids.len() - i,
        {
            let id = &self.identities[i];
            let mut j: usize = 0;
            let mut held: bool = false;
            while j < id.epochs.len()
                invariant
                    self.wf(),
                    d.wf(),
                    ids == self.identities@,
                    0 <= i < ids.len(),
                    id == ids[i as int],
                    j <= id.epochs@.len(),
                    held == exists|q: int|
                        0 <= q < j && (#[trigger] id.epochs@[q]).tag == t && epoch_contains(
                            id.epochs@[q],
                            d,
                        ),
                decreases id.epochs@.len() - j,
            {
                let e = &id.epochs[j];
                if e.tag.code == t.code && e.from.le(&d) {
                    let inside: bool = match &e.until {
                        Some(u) => d.lt(u),
                        None => true,
                    };
                    if inside {
                        held = true;
                    }
                }
                j = j + 1;
            }
            proof {
                assert(ids.skip(i as int)[0] == ids[i as int]);
                assert(held == identity_held(ids[i as int], t, d));
                assert(ids.skip(i as int).drop_first() == ids.skip(i + 1));
            }
            if held {
                return Some(Resolved { stored: id.stored, current: id.latest });
            }
            i = i + 1;
        }
        proof {
            assert(ids.skip(ids.len() as int).len() == 0);
        }
        None
    }

    /// Fail-soft resolution: the owning identity's latest tag, or `t` itself
    /// when no identity's epoch contains `d` owning `t`. Never errors.
    pub fn resolve(&self, t: Tag, d: Date) -> (r: Tag)
        requires
            self.wf(),
            d.wf(),
        ensures
            r == match resolve_spec(self.identities@, t, d) {
                Some(res) => res.current,
                None => t,
            },
    {
        match self.resolve_detail(t, d) {
            Some(res) => res.current,
            None => t,
        }
    }
}

/// The tag `id` held on `d`, if its timeline covers `d`.
pub fn tag_held_at(id: &Identity, d: Date) -> (r: Option<Tag>)
    requires
        epochs_dates_wf(id.epochs@),
        d.wf(),
    ensures
        r == held_at_spec(id.epochs@, d),
{
    let ghost es = id.epochs@;
    proof {
        assert(es.skip(0) == es);
    }
    let mut j: usize = 0;
    while j < id.epochs.len()
        invariant
            epochs_dates_wf(es),
            d.wf(),
            es == id.epochs@,
            j <= es.len(),
            held_at_spec(es, d) == held_at_spec(es.skip(j as int), d),
        decreases es.len() - j,
    {
        let e = &id.epochs[j];
        proof {
            assert(es.skip(j as int)[0] == es[j as int]);
            assert(es.skip(j as int).drop_first() == es.skip(j + 1));
        }
        if e.from.le(&d) {
            let inside: bool = match &e.until {
                Some(u) => d.lt(u),
                None => true,
            };
            if inside {
                return Some(e.tag);
            }
        }
        j = j + 1;
    }
    proof {
        assert(es.skip(es.len() as int).len() == 0);
    }
    None
}

} // verus!
