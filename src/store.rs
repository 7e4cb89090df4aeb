use vstd::prelude::*;
use crate::event::{DecisionType, TimelineEvent};

verus! {

/// The events of `evs` that carry `tag`, in their order.
pub open spec fn events_with_tag(evs: Seq<TimelineEvent>, tag: Seq<char>) -> Seq<TimelineEvent> {
    evs.filter(|e: TimelineEvent| e.has_tag(tag))
}

/// The events of `evs` whose decision is `d`, in their order.
pub open spec fn events_with_decision(evs: Seq<TimelineEvent>, d: DecisionType) -> Seq<
    TimelineEvent,
> {
    evs.filter(|e: TimelineEvent| e.decision_type == d)
}

/// The references of a query result, seen as the events they point to.
pub open spec fn deref_all(r: Seq<&TimelineEvent>) -> Seq<TimelineEvent> {
    r.map_values(|e: &TimelineEvent| *e)
}

/// Whether some event of `evs` carries `tag`.
pub open spec fn tag_in_timeline(evs: Seq<TimelineEvent>, tag: Seq<char>) -> bool {
    exists|i: int| 0 <= i < evs.len() && (#[trigger] evs[i]).has_tag(tag)
}

/// Each tag occurrence of one event, paired with whether the event was accepted.
pub open spec fn event_occurrences(e: TimelineEvent) -> Seq<(Seq<char>, bool)> {
    e.tags@.map_values(|s: String| (s@, e.decision_type == DecisionType::Accept))
}

/// Every (event, tag occurrence) pair of a timeline, in timeline order: the
/// tag, and whether that event was accepted.
pub open spec fn tag_occurrences(evs: Seq<TimelineEvent>) -> Seq<(Seq<char>, bool)>
    decreases evs.len(),
{
    if evs.len() == 0 {
        Seq::empty()
    } else {
        tag_occurrences(evs.drop_last()) + event_occurrences(evs.last())
    }
}

/// How many of the occurrences are of tag `t`.
pub open spec fn count_tag(occ: Seq<(Seq<char>, bool)>, t: Seq<char>) -> nat
    decreases occ.len(),
{
    if occ.len() == 0 {
        0
    } else {
        count_tag(occ.drop_last(), t) + if occ.last().0 == t {
            1nat
        } else {
            0nat
        }
    }
}

/// How many of the occurrences are of tag `t` on an accepted event.
pub open spec fn count_accepted(occ: Seq<(Seq<char>, bool)>, t: Seq<char>) -> nat
    decreases occ.len(),
{
    if occ.len() == 0 {
        0
    } else {
        count_accepted(occ.drop_last(), t) + if occ.last().0 == t && occ.last().1 {
            1nat
        } else {
            0nat
        }
    }
}

/// The acceptance figures of one tag: `accepted` of its `total` occurrences
/// were on accepted events, so its acceptance rate is `accepted / total`.
#[derive(Debug)]
pub struct TagRate {
    pub tag: String,
    pub accepted: usize,
    pub total: usize,
}

/// `r` holds exactly one entry for each tag that occurs in `occ`, with that
/// tag's counts.
pub open spec fn tallies(r: Seq<TagRate>, occ: Seq<(Seq<char>, bool)>) -> bool {
    &&& forall|k: int|
        0 <= k < r.len() ==> {
            &&& (#[trigger] r[k]).total == count_tag(occ, r[k].tag@)
            &&& r[k].accepted == count_accepted(occ, r[k].tag@)
            &&& r[k].total > 0
        }
    &&& forall|k: int, l: int| 0 <= k < l < r.len() ==> r[k].tag@ != r[l].tag@
    &&& forall|t: Seq<char>|
        count_tag(occ, t) > 0 ==> exists|k: int| 0 <= k < r.len() && (#[trigger] r[k]).tag@ == t
}

/// A filter that no element passes leaves nothing.
proof fn lemma_filter_none<A>(s: Seq<A>, pred: spec_fn(A) -> bool)
    requires
        forall|i: int| 0 <= i < s.len() ==> !pred(#[trigger] s[i]),
    ensures
        s.filter(pred).len() == 0,
    decreases s.len(),
{
    reveal(Seq::filter);
    if s.len() > 0 {
        assert forall|i: int| 0 <= i < s.drop_last().len() implies !pred(
            #[trigger] s.drop_last()[i],
        ) by {
            assert(s.drop_last()[i] == s[i]);
        }
        lemma_filter_none(s.drop_last(), pred);
    }
}

/// Filtering one element more of a prefix adds that element exactly when it passes.
proof fn lemma_filter_take<A>(s: Seq<A>, pred: spec_fn(A) -> bool, i: int)
    requires
        0 <= i < s.len(),
    ensures
        s.take(i + 1).filter(pred) == if pred(s[i]) {
            s.take(i).filter(pred).push(s[i])
        } else {
            s.take(i).filter(pred)
        },
{
    reveal(Seq::filter);
    assert(s.take(i + 1).drop_last() =~= s.take(i));
}

/// No tag occurs more often than there are occurrences, nor on accepted
/// events more often than at all.
proof fn lemma_count_bounds(occ: Seq<(Seq<char>, bool)>, t: Seq<char>)
    ensures
        count_accepted(occ, t) <= count_tag(occ, t) <= occ.len(),
    decreases occ.len(),
{
    if occ.len() > 0 {
        lemma_count_bounds(occ.drop_last(), t);
    }
}

/// The occurrences of a prefix of a timeline are no more than those of the whole.
proof fn lemma_occurrences_prefix(evs: Seq<TimelineEvent>, a: int)
    requires
        0 <= a <= evs.len(),
    ensures
        tag_occurrences(evs.take(a)).len() <= tag_occurrences(evs).len(),
    decreases evs.len(),
{
    if a < evs.len() {
        assert(evs.drop_last().take(a) =~= evs.take(a));
        lemma_occurrences_prefix(evs.drop_last(), a);
    } else {
        assert(evs.take(a) =~= evs);
    }
}

/// Counting the occurrences of two runs is adding their counts.
proof fn lemma_count_concat(a: Seq<(Seq<char>, bool)>, b: Seq<(Seq<char>, bool)>, t: Seq<char>)
    ensures
        count_tag(a + b, t) == count_tag(a, t) + count_tag(b, t),
    decreases b.len(),
{
    if b.len() > 0 {
        assert((a + b).drop_last() =~= a + b.drop_last());
        lemma_count_concat(a, b.drop_last(), t);
    } else {
        assert(a + b =~= a);
    }
}

/// A tag is counted exactly when it occurs.
proof fn lemma_count_positive(occ: Seq<(Seq<char>, bool)>, t: Seq<char>)
    ensures
        count_tag(occ, t) > 0 <==> exists|i: int| 0 <= i < occ.len() && (#[trigger] occ[i]).0 == t,
    decreases occ.len(),
{
    if occ.len() > 0 {
        let init = occ.drop_last();
        lemma_count_positive(init, t);
        if exists|i: int| 0 <= i < init.len() && (#[trigger] init[i]).0 == t {
            let i = choose|i: int| 0 <= i < init.len() && (#[trigger] init[i]).0 == t;
            assert(occ[i] == init[i]);
        }
        if exists|i: int| 0 <= i < occ.len() && (#[trigger] occ[i]).0 == t {
            let i = choose|i: int| 0 <= i < occ.len() && (#[trigger] occ[i]).0 == t;
            if i < occ.len() - 1 {
                assert(init[i] == occ[i]);
            }
        }
    }
}

/// A tag has occurrences in a timeline exactly when some event of it carries the tag.
pub proof fn lemma_tag_appears(evs: Seq<TimelineEvent>, t: Seq<char>)
    ensures
        count_tag(tag_occurrences(evs), t) > 0 <==> tag_in_timeline(evs, t),
    decreases evs.len(),
{
    if evs.len() > 0 {
        let init = evs.drop_last();
        let last = evs.last();
        let here = event_occurrences(last);
        lemma_tag_appears(init, t);
        lemma_count_concat(tag_occurrences(init), here, t);
        lemma_count_positive(here, t);
        if last.has_tag(t) {
            let j = choose|j: int| 0 <= j < last.tags@.len() && (#[trigger] last.tags@[j])@ == t;
            assert(here[j].0 == t);
        }
        if exists|j: int| 0 <= j < here.len() && (#[trigger] here[j]).0 == t {
            let j = choose|j: int| 0 <= j < here.len() && (#[trigger] here[j]).0 == t;
            assert(last.tags@[j]@ == t);
        }
        if exists|i: int| 0 <= i < init.len() && (#[trigger] init[i]).has_tag(t) {
            let i = choose|i: int| 0 <= i < init.len() && (#[trigger] init[i]).has_tag(t);
            assert(evs[i] == init[i]);
        }
        if exists|i: int| 0 <= i < evs.len() && (#[trigger] evs[i]).has_tag(t) {
            let i = choose|i: int| 0 <= i < evs.len() && (#[trigger] evs[i]).has_tag(t);
            if i < evs.len() - 1 {
                assert(init[i] == evs[i]);
            }
        }
    }
}

/// Counts one more occurrence of `tag`, on an accepted event or not.
fn record(
    stats: &mut Vec<TagRate>,
    tag: &String,
    accepted: bool,
    Ghost(occ): Ghost<Seq<(Seq<char>, bool)>>,
)
    requires
        tallies(old(stats)@, occ),
        occ.len() < usize::MAX,
    ensures
        tallies(final(stats)@, occ.push((tag@, accepted))),
{
    let ghost next = occ.push((tag@, accepted));
    proof {
        assert(next.drop_last() =~= occ);
        lemma_count_bounds(occ, tag@);
    }
    let mut k: usize = 0;
    while k < stats.len()
        invariant
            k <= stats@.len(),
            tallies(stats@, occ),
            occ.len() < usize::MAX,
            next == occ.push((tag@, accepted)),
            next.drop_last() == occ,
            count_accepted(occ, tag@) <= count_tag(occ, tag@) <= occ.len(),
            forall|m: int| 0 <= m < k ==> (#[trigger] stats@[m]).tag@ != tag@,
        decreases stats@.len() - k,
    {
        if stats[k].tag == *tag {
            let ghost before = stats@;
            let total = stats[k].total + 1;
            let hits = if accepted {
                stats[k].accepted + 1
            } else {
                stats[k].accepted
            };
            let name = stats[k].tag.clone();
            stats.set(k, TagRate { tag: name, accepted: hits, total });
            proof {
                assert forall|m: int| 0 <= m < stats@.len() implies {
                    &&& (#[trigger] stats@[m]).total == count_tag(next, stats@[m].tag@)
                    &&& stats@[m].accepted == count_accepted(next, stats@[m].tag@)
                    &&& stats@[m].total > 0
                } by {
                    if m != k {
                        assert(before[m] == stats@[m]);
                    }
                }
                assert forall|t: Seq<char>| count_tag(next, t) > 0 implies exists|m: int|
                    0 <= m < stats@.len() && (#[trigger] stats@[m]).tag@ == t by {
                    if t == tag@ {
                        assert(stats@[k as int].tag@ == t);
                    } else {
                        assert(count_tag(occ, t) == count_tag(next, t));
                assert(tallies(before, occ));
                let m = choose|m: int| 0 <= m < before.len() && (#[trigger] before[m]).tag@ == t;
                        assert(stats@[m].tag@ == t);
                    }
                }
                assert forall|m: int, l: int| 0 <= m < l < stats@.len() implies stats@[m].tag@ != stats@[l].tag@ by {
                    assert(before[m].tag@ != before[l].tag@);
                }
            }
            return;
        }
        k = k + 1;
    }
    let ghost before = stats@;
    stats.push(TagRate { tag: tag.clone(), accepted: if accepted { 1 } else { 0 }, total: 1 });
    proof {
        assert(count_tag(occ, tag@) == 0);
        assert forall|m: int| 0 <= m < stats@.len() implies {
            &&& (#[trigger] stats@[m]).total == count_tag(next, stats@[m].tag@)
            &&& stats@[m].accepted == count_accepted(next, stats@[m].tag@)
            &&& stats@[m].total > 0
        } by {
            if m < before.len() {
                assert(before[m] == stats@[m]);
            } else {
                lemma_count_bounds(occ, tag@);
            }
        }
        assert forall|t: Seq<char>| count_tag(next, t) > 0 implies exists|m: int|
            0 <= m < stats@.len() && (#[trigger] stats@[m]).tag@ == t by {
            if t == tag@ {
                assert(stats@[before.len() as int].tag@ == t);
            } else {
                assert(count_tag(occ, t) == count_tag(next, t));
                assert(tallies(before, occ));
                let m = choose|m: int| 0 <= m < before.len() && (#[trigger] before[m]).tag@ == t;
                assert(stats@[m].tag@ == t);
            }
        }
        assert forall|m: int, l: int| 0 <= m < l < stats@.len() implies stats@[m].tag@ != stats@[l].tag@ by {
            if l < before.len() {
                assert(before[m].tag@ != before[l].tag@);
            } else {
                assert(before[m] == stats@[m]);
            }
        }
    }
}

/// The timeline after appending each of `evs`, in order, to `start`.
pub open spec fn appended(start: Seq<TimelineEvent>, evs: Seq<TimelineEvent>) -> Seq<TimelineEvent>
    decreases evs.len(),
{
    if evs.len() == 0 {
        start
    } else {
        appended(start, evs.drop_last()).push(evs.last())
    }
}

/// Appending events one at a time to a fresh timeline leaves exactly those
/// events, in order: that sequence is what `events` hands out to be persisted,
/// and what `new` holds again when given it back.
pub proof fn lemma_round_trip(evs: Seq<TimelineEvent>)
    ensures
        appended(Seq::empty(), evs) == evs,
    decreases evs.len(),
{
    if evs.len() > 0 {
        lemma_round_trip(evs.drop_last());
        assert(evs.drop_last().push(evs.last()) =~= evs);
    }
}

/// An empty timeline has no events for any tag or decision, and no tag figures.
pub proof fn lemma_empty_timeline(tag: Seq<char>, d: DecisionType, r: Seq<TagRate>)
    ensures
        events_with_tag(Seq::empty(), tag).len() == 0,
        events_with_decision(Seq::empty(), d).len() == 0,
        tallies(r, tag_occurrences(Seq::empty())) ==> r.len() == 0,
{
    reveal(Seq::filter);
    if tallies(r, tag_occurrences(Seq::empty())) && r.len() > 0 {
        assert(r[0].total == count_tag(Seq::empty(), r[0].tag@));
    }
}

/// The timeline of one workspace: its events in the order they were appended.
#[derive(Debug)]
pub struct Orchestrator {
    events: Vec<TimelineEvent>,
}

impl View for Orchestrator {
    type V = Seq<TimelineEvent>;

    closed spec fn view(&self) -> Seq<TimelineEvent> {
        self.events@
    }
}

impl Orchestrator {
    /// A timeline holding what was loaded from the workspace, or nothing where
    /// nothing was stored there yet.
    pub fn new(loaded: Option<Vec<TimelineEvent>>) -> (r: Orchestrator)
        ensures
            r@ == match loaded {
                Some(v) => v@,
                None => Seq::<TimelineEvent>::empty(),
            },
    {
        match loaded {
            Some(events) => Orchestrator { events },
            None => Orchestrator { events: Vec::new() },
        }
    }

    /// Appends `event` at the end of the timeline; earlier events stay as they were.
    pub fn add_event(&mut self, event: TimelineEvent)
        ensures
            final(self)@ == old(self)@.push(event),
    {
        self.events.push(event);
    }

    /// The whole timeline, in order: what is to be persisted.
    pub fn events(&self) -> (r: &Vec<TimelineEvent>)
        ensures
            r@ == self@,
    {
        &self.events
    }
    /// The events that carry `tag` (exact, case-sensitive match), in timeline order.
    pub fn get_events_by_tag(&self, tag: &str) -> (r: Vec<&TimelineEvent>)
        ensures
            deref_all(r@) == events_with_tag(self@, tag@),
            (forall|i: int| 0 <= i < self@.len() ==> !(#[trigger] self@[i]).has_tag(tag@)) ==> r@.len()
                == 0,
    {
        let needle = tag.to_owned();
        let ghost pred = |e: TimelineEvent| e.has_tag(tag@);
        let mut r: Vec<&TimelineEvent> = Vec::new();
        let mut i: usize = 0;
        while i < self.events.len()
            invariant
                i <= self.events@.len(),
                needle@ == tag@,
                pred == (|e: TimelineEvent| e.has_tag(tag@)),
                deref_all(r@) == self.events@.take(i as int).filter(pred),
            decreases self.events@.len() - i,
        {
            let e = &self.events[i];
            let hit = e.carries_tag(&needle);
            proof {
                lemma_filter_take(self.events@, pred, i as int);
            }
            if hit {
                r.push(e);
                assert(deref_all(r@) =~= self.events@.take(i as int).filter(pred).push(*e));
            }
            i = i + 1;
        }
        proof {
            assert(self.events@.take(i as int) =~= self.events@);
            if forall|k: int| 0 <= k < self@.len() ==> !(#[trigger] self@[k]).has_tag(tag@) {
                assert forall|k: int| 0 <= k < self.events@.len() implies !pred(
                    #[trigger] self.events@[k],
                ) by {
                    assert(self@[k] == self.events@[k]);
                }
                lemma_filter_none(self.events@, pred);
            }
        }
        r
    }

    /// The events whose decision is `decision`, in timeline order.
    pub fn get_events_by_decision(&self, decision: DecisionType) -> (r: Vec<&TimelineEvent>)
        ensures
            deref_all(r@) == events_with_decision(self@, decision),
            (forall|i: int| 0 <= i < self@.len() ==> (#[trigger] self@[i]).decision_type != decision)
                ==> r@.len() == 0,
    {
        let ghost pred = |e: TimelineEvent| e.decision_type == decision;
        let mut r: Vec<&TimelineEvent> = Vec::new();
        let mut i: usize = 0;
        while i < self.events.len()
            invariant
                i <= self.events@.len(),
                pred == (|e: TimelineEvent| e.decision_type == decision),
                deref_all(r@) == self.events@.take(i as int).filter(pred),
            decreases self.events@.len() - i,
        {
            let e = &self.events[i];
            proof {
                lemma_filter_take(self.events@, pred, i as int);
            }
            if e.decision_type == decision {
                r.push(e);
                assert(deref_all(r@) =~= self.events@.take(i as int).filter(pred).push(*e));
            }
            i = i + 1;
        }
        proof {
            assert(self.events@.take(i as int) =~= self.events@);
            if forall|k: int| 0 <= k < self@.len() ==> (#[trigger] self@[k]).decision_type != decision {
                assert forall|k: int| 0 <= k < self.events@.len() implies !pred(
                    #[trigger] self.events@[k],
                ) by {
                    assert(self@[k] == self.events@[k]);
                }
                lemma_filter_none(self.events@, pred);
            }
        }
        r
    }
    /// How many (event, tag occurrence) pairs the timeline holds, or `None`
    /// where that number does not fit in a `usize`.
    pub fn tag_occurrence_count(&self) -> (r: Option<usize>)
        ensures
            r is Some <==> tag_occurrences(self@).len() <= usize::MAX,
            r matches Some(n) ==> n == tag_occurrences(self@).len(),
    {
        let mut n: usize = 0;
        let mut i: usize = 0;
        while i < self.events.len()
            invariant
                i <= self.events@.len(),
                n == tag_occurrences(self.events@.take(i as int)).len(),
            decreases self.events@.len() - i,
        {
            proof {
                assert(self.events@.take(i + 1).drop_last() =~= self.events@.take(i as int));
                lemma_occurrences_prefix(self.events@, i + 1);
            }
            match n.checked_add(self.events[i].tags.len()) {
                Some(m) => n = m,
                None => return None,
            }
            i = i + 1;
        }
        assert(self.events@.take(i as int) =~= self.events@);
        Some(n)
    }

    /// For every tag of the timeline, how many of its occurrences there are and
    /// how many of them are on accepted events: one entry per distinct tag. A
    /// tag that occurs twice on one event counts twice; a partial acceptance
    /// counts as no acceptance.
    pub fn analyze_patterns(&self) -> (r: Vec<TagRate>)
        requires
            tag_occurrences(self@).len() <= usize::MAX,
        ensures
            tallies(r@, tag_occurrences(self@)),
            forall|t: Seq<char>|
                #[trigger] tag_in_timeline(self@, t) <==> exists|k: int|
                    0 <= k < r@.len() && (#[trigger] r@[k]).tag@ == t,
    {
        let mut stats: Vec<TagRate> = Vec::new();
        let mut i: usize = 0;
        while i < self.events.len()
            invariant
                i <= self.events@.len(),
                tag_occurrences(self.events@).len() <= usize::MAX,
                tallies(stats@, tag_occurrences(self.events@.take(i as int))),
            decreases self.events@.len() - i,
        {
            let e = &self.events[i];
            let accepted = e.decision_type == DecisionType::Accept;
            let ghost done = tag_occurrences(self.events@.take(i as int));
            let ghost here = event_occurrences(*e);
            proof {
                assert(self.events@.take(i + 1).drop_last() =~= self.events@.take(i as int));
                assert(tag_occurrences(self.events@.take(i + 1)) == done + here);
                lemma_occurrences_prefix(self.events@, i + 1);
            }
            let mut j: usize = 0;
            while j < e.tags.len()
                invariant
                    j <= e.tags@.len(),
                    here == event_occurrences(*e),
                    accepted == (e.decision_type == DecisionType::Accept),
                    (done + here).len() <= usize::MAX,
                    tallies(stats@, done + here.take(j as int)),
                decreases e.tags@.len() - j,
            {
                record(&mut stats, &e.tags[j], accepted, Ghost(done + here.take(j as int)));
                assert((done + here.take(j as int)).push((e.tags@[j as int]@, accepted)) =~= done
                    + here.take(j + 1));
                j = j + 1;
            }
            assert(here.take(j as int) =~= here);
            i = i + 1;
        }
        assert(self.events@.take(i as int) =~= self.events@);
        proof {
            assert forall|t: Seq<char>|
                #[trigger] tag_in_timeline(self@, t) <==> exists|k: int|
                    0 <= k < stats@.len() && (#[trigger] stats@[k]).tag@ == t by {
                lemma_tag_appears(self@, t);
                if exists|k: int| 0 <= k < stats@.len() && (#[trigger] stats@[k]).tag@ == t {
                    let k = choose|k: int| 0 <= k < stats@.len() && (#[trigger] stats@[k]).tag@ == t;
                    assert(stats@[k].total > 0);
                }
            }
        }
        stats
    }
}

} // verus!
