//! What scans cost: the last ones, and the patterns that are slow often enough
//! that a ghost would pay off.

use crate::ast;
use crate::ast::{Filter, FilterV};
use crate::float;
use crate::sort;
use crate::sorted_map::SortedMap;
use crate::text;
use std::collections::VecDeque;
use vstd::prelude::*;

verus! {

/// How many hits within the window make a pattern hot.
pub const DEFAULT_MIN_HITS: u64 = 5;

/// The average latency in milliseconds from which a ghost pays off, 20, as the
/// bits of a double.
pub const DEFAULT_MIN_LATENCY_MS: u64 = 0x4034_0000_0000_0000;

/// The window in which hits count, in microseconds.
pub const PATTERN_WINDOW: u64 = 600_000_000;

/// How many hits of a pattern are remembered.
pub const RECENT_HITS_CAP: usize = 100;

/// How many scans are remembered.
pub const RECENT_SCANS_CAP: usize = 1000;

/// The average latency in milliseconds above which a pattern is reported as slow,
/// 100, as the bits of a double.
pub const SLOW_LATENCY_MS: u64 = 0x4059_0000_0000_0000;

/// How often a pattern was hit before it is reported as slow.
pub const SLOW_HITS: u64 = 3;

/// One scan.
#[derive(Debug)]
pub struct ScanTelemetry {
    pub lobe: String,
    pub filter_desc: String,
    pub source: String,
    pub records_scanned: u64,
    pub records_returned: u64,
    /// How long it took in milliseconds, as the bits of a double.
    pub duration_ms: u64,
}

/// What a [`ScanTelemetry`] says.
pub struct TelemetryV {
    pub lobe: Seq<char>,
    pub filter_desc: Seq<char>,
    pub source: Seq<char>,
    pub records_scanned: u64,
    pub records_returned: u64,
    pub duration_ms: u64,
}

impl View for ScanTelemetry {
    type V = TelemetryV;

    open spec fn view(&self) -> TelemetryV {
        TelemetryV {
            lobe: self.lobe@,
            filter_desc: self.filter_desc@,
            source: self.source@,
            records_scanned: self.records_scanned,
            records_returned: self.records_returned,
            duration_ms: self.duration_ms,
        }
    }
}

/// What scans say.
pub open spec fn scans_view(s: Seq<ScanTelemetry>) -> Seq<TelemetryV> {
    s.map_values(|t: ScanTelemetry| t@)
}

/// A scan pattern that might benefit from a ghost.
struct ScanPattern {
    lobe: String,
    filter_desc: String,
    filters: Vec<Filter>,
    aggregate_fields: Vec<String>,
    hit_count: u64,
    /// The bits of a double.
    avg_latency_ms: u64,
    ghost_created: bool,
    recent_hits: VecDeque<u64>,
}

/// What is known of a scan pattern: where it scans and by what, the fields that
/// were aggregated over it, how often and how slowly it ran, whether it has a
/// ghost, and when it was last hit.
pub struct PatternV {
    pub lobe: Seq<char>,
    pub filter_desc: Seq<char>,
    pub filters: Seq<FilterV>,
    pub aggregate_fields: Seq<Seq<char>>,
    pub hit_count: u64,
    pub avg_latency_ms: u64,
    pub ghost_created: bool,
    pub recent_hits: Seq<u64>,
}

impl View for ScanPattern {
    type V = PatternV;

    closed spec fn view(&self) -> PatternV {
        PatternV {
            lobe: self.lobe@,
            filter_desc: self.filter_desc@,
            filters: ast::filters_view(self.filters@),
            aggregate_fields: text::names(self.aggregate_fields@),
            hit_count: self.hit_count,
            avg_latency_ms: self.avg_latency_ms,
            ghost_created: self.ghost_created,
            recent_hits: self.recent_hits@,
        }
    }
}

/// A pattern that is worth a ghost.
#[derive(Debug)]
pub struct AutoGhostCandidate {
    pub lobe: String,
    pub filters: Vec<Filter>,
    pub filter_desc: String,
    /// The fields that were aggregated over the pattern.
    pub aggregate_fields: Vec<String>,
}

/// What an [`AutoGhostCandidate`] says.
pub struct CandidateV {
    pub lobe: Seq<char>,
    pub filters: Seq<FilterV>,
    pub filter_desc: Seq<char>,
    pub aggregate_fields: Seq<Seq<char>>,
}

impl View for AutoGhostCandidate {
    type V = CandidateV;

    open spec fn view(&self) -> CandidateV {
        CandidateV {
            lobe: self.lobe@,
            filters: ast::filters_view(self.filters@),
            filter_desc: self.filter_desc@,
            aggregate_fields: text::names(self.aggregate_fields@),
        }
    }
}

/// The last `n` items.
pub open spec fn last_of<T>(s: Seq<T>, n: nat) -> Seq<T> {
    if s.len() > n {
        s.skip(s.len() - n)
    } else {
        s
    }
}

/// The fields with those of `more` that are not among them.
pub open spec fn merged_fields(fields: Seq<Seq<char>>, more: Seq<Seq<char>>) -> Seq<Seq<char>>
    decreases more.len(),
{
    if more.len() == 0 {
        fields
    } else {
        let sofar = merged_fields(fields, more.drop_last());
        if sofar.contains(more.last()) {
            sofar
        } else {
            sofar.push(more.last())
        }
    }
}

/// How many of the hits lie in the window before `now`.
pub open spec fn hits_in_window(hits: Seq<u64>, now: u64) -> nat
    decreases hits.len(),
{
    if hits.len() == 0 {
        0
    } else {
        hits_in_window(hits.drop_last(), now) + if now - hits.last() < PATTERN_WINDOW {
            1nat
        } else {
            0nat
        }
    }
}

/// One hit more.
pub open spec fn hit_again(n: u64) -> u64 {
    if n < u64::MAX {
        (n + 1) as u64
    } else {
        n
    }
}

/// A pattern that was not hit yet.
pub open spec fn fresh(t: TelemetryV, filters: Seq<FilterV>) -> PatternV {
    PatternV {
        lobe: t.lobe,
        filter_desc: t.filter_desc,
        filters,
        aggregate_fields: Seq::empty(),
        hit_count: 0,
        avg_latency_ms: 0,
        ghost_created: false,
        recent_hits: Seq::empty(),
    }
}

/// What a registry knows.
pub struct RegistryV {
    pub recent: Seq<TelemetryV>,
    pub patterns: Map<Seq<char>, PatternV>,
    pub min_hits: u64,
    pub min_latency_ms: u64,
}

/// The pattern of a scan before it is counted.
pub open spec fn pattern_before(r: RegistryV, t: TelemetryV, filters: Seq<FilterV>) -> PatternV {
    if r.patterns.contains_key(t.filter_desc) {
        r.patterns[t.filter_desc]
    } else {
        fresh(t, filters)
    }
}

/// The pattern is hit once more: `average` is its new average latency.
pub open spec fn hit_pattern(p: PatternV, average: u64) -> PatternV {
    PatternV { hit_count: hit_again(p.hit_count), avg_latency_ms: average, ..p }
}

/// The pattern after a scan with aggregated fields at `now`.
pub open spec fn scanned_pattern(
    p: PatternV,
    average: u64,
    fields: Seq<Seq<char>>,
    now: u64,
) -> PatternV {
    PatternV {
        aggregate_fields: merged_fields(p.aggregate_fields, fields),
        recent_hits: last_of(p.recent_hits.push(now), RECENT_HITS_CAP as nat),
        ..hit_pattern(p, average)
    }
}

/// The pattern is worth a ghost: it has none, it filters, it was hit often enough
/// within the window, and its average latency is high enough.
pub open spec fn worth_a_ghost(
    p: PatternV,
    filters: Seq<FilterV>,
    now: u64,
    min_hits: u64,
    min_latency_ms: u64,
) -> bool {
    &&& !p.ghost_created
    &&& filters.len() > 0
    &&& hits_in_window(p.recent_hits, now) >= min_hits
    &&& !float::is_nan(p.avg_latency_ms)
    &&& !float::is_nan(min_latency_ms)
    &&& !float::float_lt(p.avg_latency_ms, min_latency_ms)
}

/// The candidate that a pattern makes.
pub open spec fn candidate_of(p: PatternV) -> CandidateV {
    CandidateV {
        lobe: p.lobe,
        filters: p.filters,
        filter_desc: p.filter_desc,
        aggregate_fields: p.aggregate_fields,
    }
}

/// The registry with a scan remembered.
pub open spec fn remembered(r: RegistryV, t: TelemetryV) -> RegistryV {
    RegistryV { recent: last_of(r.recent.push(t), RECENT_SCANS_CAP as nat), ..r }
}

/// The registry with a pattern.
pub open spec fn with_pattern(r: RegistryV, desc: Seq<char>, p: PatternV) -> RegistryV {
    RegistryV { patterns: r.patterns.insert(desc, p), ..r }
}

/// `average` gives a mean: it accepts everything.
pub open spec fn averages<M: Fn(u64, u64, u64) -> u64>(average: M) -> bool {
    forall|a: u64, n: u64, x: u64| #[trigger] average.requires((a, n, x))
}

/// Adds the fields that are not there yet.
fn merge_fields(fields: &mut Vec<String>, more: &[String])
    ensures
        text::names(final(fields)@) == merged_fields(text::names(old(fields)@), text::names(more@)),
{
    let ghost base = text::names(fields@);
    let ghost mv = text::names(more@);
    let mut i: usize = 0;
    assert(mv.take(0) =~= Seq::empty());
    while i < more.len()
        invariant
            i <= more@.len(),
            mv == text::names(more@),
            text::names(fields@) == merged_fields(base, mv.take(i as int)),
        decreases more@.len() - i,
    {
        assert(mv.take(i + 1).drop_last() =~= mv.take(i as int));
        assert(mv.take(i + 1).last() == more@[i as int]@);
        if !text::names_contain(fields.as_slice(), more[i].as_str()) {
            let ghost f0 = fields@;
            let s = more[i].clone();
            fields.push(s);
            assert(text::names(fields@) =~= text::names(f0).push(more@[i as int]@));
        }
        i = i + 1;
    }
    assert(mv.take(i as int) =~= mv);
}

/// Keeps the last `cap` items.
fn keep_last<T>(v: &mut VecDeque<T>, cap: usize)
    ensures
        final(v)@ == last_of(old(v)@, cap as nat),
{
    let ghost all = v@;
    while v.len() > cap
        invariant
            v@.len() <= all.len(),
            v@ == all.skip(all.len() - v@.len()),
            v@.len() >= cap || v@ == all,
        decreases v@.len(),
    {
        let ghost now = v@;
        let _gone = v.pop_front();
        assert(v@ =~= all.skip(all.len() - v@.len()));
        assert(now.len() - 1 == v@.len());
    }
    assert(all.skip(0) =~= all);
}

/// How many of the hits lie in the window before `now`.
fn count_hits(hits: &VecDeque<u64>, now: u64) -> (n: u64)
    requires
        hits@.len() <= u64::MAX,
    ensures
        n == hits_in_window(hits@, now),
{
    let mut n: u64 = 0;
    let mut i: usize = 0;
    assert(hits@.take(0) =~= Seq::empty());
    while i < hits.len()
        invariant
            i <= hits@.len(),
            hits@.len() <= u64::MAX,
            n <= i,
            n == hits_in_window(hits@.take(i as int), now),
        decreases hits@.len() - i,
    {
        assert(hits@.take(i + 1).drop_last() =~= hits@.take(i as int));
        if now.saturating_sub(hits[i]) < PATTERN_WINDOW {
            n = n + 1;
        }
        i = i + 1;
    }
    assert(hits@.take(i as int) =~= hits@);
    n
}

/// Remembers the last scans and finds the patterns that are worth a ghost.
pub struct ScanTelemetryRegistry {
    recent: VecDeque<ScanTelemetry>,
    patterns: SortedMap<ScanPattern>,
    min_hits: u64,
    min_latency_ms: u64,
}

impl View for ScanTelemetryRegistry {
    type V = RegistryV;

    closed spec fn view(&self) -> RegistryV {
        RegistryV {
            recent: scans_view(self.recent@),
            patterns: self.patterns@.map_values(|p: ScanPattern| p@),
            min_hits: self.min_hits,
            min_latency_ms: self.min_latency_ms,
        }
    }
}

impl ScanTelemetryRegistry {
    /// A registry without scans.
    pub fn new() -> (r: Self)
        ensures
            r@ == (RegistryV {
                recent: Seq::empty(),
                patterns: Map::empty(),
                min_hits: DEFAULT_MIN_HITS,
                min_latency_ms: DEFAULT_MIN_LATENCY_MS,
            }),
            r@.min_hits == 5,
            r@.min_latency_ms == 0x4034_0000_0000_0000,
    {
        let r = ScanTelemetryRegistry {
            recent: VecDeque::new(),
            patterns: SortedMap::new(),
            min_hits: DEFAULT_MIN_HITS,
            min_latency_ms: DEFAULT_MIN_LATENCY_MS,
        };
        assert(r@.recent =~= Seq::empty());
        assert(r@.patterns =~= Map::empty());
        r
    }

    /// Remembers a scan.
    fn remember(&mut self, t: ScanTelemetry)
        ensures
            final(self)@ == remembered(old(self)@, t@),
            final(self).patterns == old(self).patterns,
    {
        let ghost before = self.recent@;
        self.recent.push_back(t);
        keep_last(&mut self.recent, RECENT_SCANS_CAP);
        assert(scans_view(self.recent@) =~= last_of(
            scans_view(before).push(t@),
            RECENT_SCANS_CAP as nat,
        ));
    }

    /// Takes the pattern of a scan out, or makes one.
    fn take_pattern(&mut self, t: &ScanTelemetry, filters: &Vec<Filter>) -> (p: ScanPattern)
        ensures
            p@ == pattern_before(old(self)@, t@, ast::filters_view(filters@)),
            final(self)@ == (RegistryV {
                patterns: old(self)@.patterns.remove(t@.filter_desc),
                ..old(self)@
            }),
    {
        let ghost before = self.patterns@;
        let taken = self.patterns.remove(t.filter_desc.as_str());
        assert(self@.patterns =~= old(self)@.patterns.remove(t@.filter_desc));
        match taken {
            Some(p) => p,
            None => {
                let p = ScanPattern {
                    lobe: t.lobe.clone(),
                    filter_desc: t.filter_desc.clone(),
                    filters: ast::clone_filters(filters),
                    aggregate_fields: Vec::new(),
                    hit_count: 0,
                    avg_latency_ms: 0,
                    ghost_created: false,
                    recent_hits: VecDeque::new(),
                };
                assert(p@.aggregate_fields =~= Seq::empty());
                p
            },
        }
    }

    /// Puts the pattern of a description in.
    fn put_pattern(&mut self, desc: &String, p: ScanPattern)
        ensures
            final(self)@ == with_pattern(old(self)@, desc@, p@),
    {
        let _before = self.patterns.insert(desc.clone(), p);
        assert(self@.patterns =~= old(self)@.patterns.insert(desc@, p@));
    }

    /// Counts a scan at `now` towards its pattern. When the pattern has become
    /// worth a ghost, it is handed out as a candidate and marked as having one.
    /// `average` gives the mean of a number of latencies, of which all but the
    /// last have a known mean.
    pub fn record_with_filters<M: Fn(u64, u64, u64) -> u64>(
        &mut self,
        t: ScanTelemetry,
        filters: &Vec<Filter>,
        aggregate_fields: &[String],
        now: u64,
        average: &M,
    ) -> (r: Option<AutoGhostCandidate>)
        requires
            averages(*average),
        ensures
            is_recorded(
                old(self)@,
                final(self)@,
                t@,
                ast::filters_view(filters@),
                text::names(aggregate_fields@),
                now,
                *average,
                r,
            ),
    {
        let ghost tv = t@;
        let ghost fv = ast::filters_view(filters@);
        let ghost before = pattern_before(self@, tv, fv);
        let mut p = self.take_pattern(&t, filters);
        merge_fields(&mut p.aggregate_fields, aggregate_fields);
        let hits_before: u64 = p.hit_count;
        p.hit_count = p.hit_count.saturating_add(1);
        p.avg_latency_ms = average(p.avg_latency_ms, hits_before, t.duration_ms);
        let ghost a = p.avg_latency_ms;
        p.recent_hits.push_back(now);
        keep_last(&mut p.recent_hits, RECENT_HITS_CAP);
        let desc = t.filter_desc.clone();
        self.remember(t);
        let hits: u64 = count_hits(&p.recent_hits, now);
        let ghost scanned = p@;
        assert(scanned == scanned_pattern(before, a, text::names(aggregate_fields@), now));
        let slow = !float::nan(p.avg_latency_ms) && !float::nan(self.min_latency_ms) && !float::less(
            p.avg_latency_ms,
            self.min_latency_ms,
        );
        let due = !p.ghost_created && filters.len() > 0 && hits >= self.min_hits && slow;
        let r = if due {
            p.ghost_created = true;
            Some(
                AutoGhostCandidate {
                    lobe: p.lobe.clone(),
                    filters: ast::clone_filters(&p.filters),
                    filter_desc: p.filter_desc.clone(),
                    aggregate_fields: text::clone_names(p.aggregate_fields.as_slice()),
                },
            )
        } else {
            None
        };
        self.put_pattern(&desc, p);
        proof {
            let patterns = old(self)@.patterns;
            assert(patterns.remove(tv.filter_desc).insert(tv.filter_desc, p@) =~= patterns.insert(
                tv.filter_desc,
                p@,
            ));
            assert(is_recorded_with(
                old(self)@,
                self@,
                tv,
                fv,
                text::names(aggregate_fields@),
                now,
                a,
                r,
            ));
            assert(average.ensures((before.avg_latency_ms, before.hit_count, tv.duration_ms), a));
        }
        r
    }

    /// Sets both thresholds.
    pub fn set_thresholds(&mut self, min_hits: u64, min_latency_ms: u64)
        ensures
            final(self)@ == (RegistryV { min_hits, min_latency_ms, ..old(self)@ }),
    {
        self.min_hits = min_hits;
        self.min_latency_ms = min_latency_ms;
    }

    /// Sets how many hits make a pattern hot.
    pub fn set_min_hits(&mut self, min_hits: u64)
        ensures
            final(self)@ == (RegistryV { min_hits, ..old(self)@ }),
    {
        self.min_hits = min_hits;
    }

    /// Sets the latency from which a ghost pays off.
    pub fn set_min_latency_ms(&mut self, min_latency_ms: u64)
        ensures
            final(self)@ == (RegistryV { min_latency_ms, ..old(self)@ }),
    {
        self.min_latency_ms = min_latency_ms;
    }

    /// How many patterns are known.
    pub fn pattern_count(&self) -> (n: usize)
        ensures
            n == self@.patterns.dom().len(),
    {
        assert(self@.patterns.dom() =~= self.patterns@.dom());
        self.patterns.len()
    }

    /// How many scans are remembered.
    pub fn recent_count(&self) -> (n: usize)
        ensures
            n == self@.recent.len(),
    {
        self.recent.len()
    }

    /// How often a pattern was hit, and its average latency.
    pub fn pattern_load(&self, filter_desc: &str) -> (r: Option<(u64, u64)>)
        ensures
            r == if self@.patterns.contains_key(filter_desc@) {
                let p = self@.patterns[filter_desc@];
                Some((p.hit_count, p.avg_latency_ms))
            } else {
                None
            },
    {
        match self.patterns.get(filter_desc) {
            Some(p) => Some((p.hit_count, p.avg_latency_ms)),
            None => None,
        }
    }

    /// Remembers a scan that a ghost served. Its pattern is not counted: that would
    /// pull the average down for scans that no ghost serves.
    pub fn record_routed(&mut self, t: ScanTelemetry)
        ensures
            final(self)@ == remembered(old(self)@, t@),
    {
        self.remember(t);
    }

    /// Remembers a scan and counts it towards its pattern, without looking for a
    /// candidate.
    pub fn record<M: Fn(u64, u64, u64) -> u64>(&mut self, t: ScanTelemetry, average: &M)
        requires
            averages(*average),
        ensures
            is_counted(old(self)@, final(self)@, t@, *average),
    {
        let ghost tv = t@;
        let none: Vec<Filter> = Vec::new();
        assert(ast::filters_view(none@) =~= Seq::empty());
        let ghost before = pattern_before(self@, tv, Seq::empty());
        let mut p = self.take_pattern(&t, &none);
        let hits_before: u64 = p.hit_count;
        p.hit_count = p.hit_count.saturating_add(1);
        p.avg_latency_ms = average(p.avg_latency_ms, hits_before, t.duration_ms);
        let ghost a = p.avg_latency_ms;
        let desc = t.filter_desc.clone();
        self.remember(t);
        self.put_pattern(&desc, p);
        proof {
            let patterns = old(self)@.patterns;
            assert(patterns.remove(tv.filter_desc).insert(tv.filter_desc, p@) =~= patterns.insert(
                tv.filter_desc,
                p@,
            ));
            assert(average.ensures((before.avg_latency_ms, before.hit_count, tv.duration_ms), a));
        }
    }

    /// Says whether a pattern has a ghost. Without such a pattern nothing happens.
    pub fn set_ghost_flag(&mut self, filter_desc: &str, exists_now: bool)
        ensures
            final(self)@ == if old(self)@.patterns.contains_key(filter_desc@) {
                with_pattern(
                    old(self)@,
                    filter_desc@,
                    PatternV {
                        ghost_created: exists_now,
                        ..old(self)@.patterns[filter_desc@]
                    },
                )
            } else {
                old(self)@
            },
    {
        let taken = self.patterns.remove(filter_desc);
        match taken {
            Some(p) => {
                let mut p = p;
                p.ghost_created = exists_now;
                let desc = filter_desc.to_owned();
                self.put_pattern(&desc, p);
                assert(self@.patterns =~= old(self)@.patterns.insert(filter_desc@, p@));
            },
            None => {
                assert(self@.patterns =~= old(self)@.patterns);
            },
        }
    }

    /// Whether a pattern has a ghost; nothing if there is no such pattern.
    pub fn has_ghost_flag(&self, filter_desc: &str) -> (r: Option<bool>)
        ensures
            r == if self@.patterns.contains_key(filter_desc@) {
                Some(self@.patterns[filter_desc@].ghost_created)
            } else {
                None
            },
    {
        match self.patterns.get(filter_desc) {
            Some(p) => Some(p.ghost_created),
            None => None,
        }
    }
}

/// The registry after a scan that is counted and no more.
pub open spec fn is_counted<M: Fn(u64, u64, u64) -> u64>(
    before: RegistryV,
    after: RegistryV,
    t: TelemetryV,
    average: M,
) -> bool {
    let p = pattern_before(before, t, Seq::empty());
    exists|a: u64| #[trigger]
        average.ensures((p.avg_latency_ms, p.hit_count, t.duration_ms), a) && after == with_pattern(
            remembered(before, t),
            t.filter_desc,
            hit_pattern(p, a),
        )
}

/// The registry after a scan whose pattern's new average is `a`.
pub open spec fn is_recorded_with(
    before: RegistryV,
    after: RegistryV,
    t: TelemetryV,
    filters: Seq<FilterV>,
    fields: Seq<Seq<char>>,
    now: u64,
    a: u64,
    r: Option<AutoGhostCandidate>,
) -> bool {
    let p = scanned_pattern(pattern_before(before, t, filters), a, fields, now);
    let due = worth_a_ghost(p, filters, now, before.min_hits, before.min_latency_ms);
    &&& after == with_pattern(
        remembered(before, t),
        t.filter_desc,
        PatternV { ghost_created: p.ghost_created || due, ..p },
    )
    &&& r is Some <==> due
    &&& r is Some ==> r->Some_0@ == candidate_of(p)
}

/// The registry after a scan.
pub open spec fn is_recorded<M: Fn(u64, u64, u64) -> u64>(
    before: RegistryV,
    after: RegistryV,
    t: TelemetryV,
    filters: Seq<FilterV>,
    fields: Seq<Seq<char>>,
    now: u64,
    average: M,
    r: Option<AutoGhostCandidate>,
) -> bool {
    let p = pattern_before(before, t, filters);
    exists|a: u64| #[trigger]
        average.ensures((p.avg_latency_ms, p.hit_count, t.duration_ms), a) && is_recorded_with(
            before,
            after,
            t,
            filters,
            fields,
            now,
            a,
            r,
        )
}

impl Default for ScanTelemetryRegistry {
    fn default() -> (r: Self)
        ensures
            r@ == (RegistryV {
                recent: Seq::empty(),
                patterns: Map::empty(),
                min_hits: DEFAULT_MIN_HITS,
                min_latency_ms: DEFAULT_MIN_LATENCY_MS,
            }),
    {
        ScanTelemetryRegistry::new()
    }
}

/// `show` writes a latency with one decimal: it accepts everything and depends on
/// the latency alone.
pub open spec fn shows<W: Fn(u64) -> String>(show: W) -> bool {
    &&& forall|x: u64| #[trigger] show.requires((x,))
    &&& forall|x: u64, a: String, b: String|
        #![trigger show.ensures((x,), a), show.ensures((x,), b)]
        show.ensures((x,), a) && show.ensures((x,), b) ==> a@ == b@
}

/// `s` is how the latency is written.
pub open spec fn is_shown<W: Fn(u64) -> String>(show: W, x: u64, s: Seq<char>) -> bool {
    exists|r: String| r@ == s && #[trigger] show.ensures((x,), r)
}

/// How a latency is written.
pub open spec fn shown<W: Fn(u64) -> String>(show: W, x: u64) -> Seq<char> {
    choose|s: Seq<char>| is_shown(show, x, s)
}

/// Writes a latency.
fn write_latency<W: Fn(u64) -> String>(show: &W, x: u64) -> (r: String)
    requires
        shows(*show),
    ensures
        r@ == shown(*show, x),
{
    let r = show(x);
    assert(is_shown(*show, x, r@));
    r
}

/// The pattern is reported as slow.
pub open spec fn is_slow(p: PatternV) -> bool {
    p.hit_count >= SLOW_HITS && float::float_lt(SLOW_LATENCY_MS, p.avg_latency_ms)
}

/// The slow patterns, each once, the slowest first.
pub open spec fn is_slow_list(r: RegistryV, keys: Seq<Seq<char>>) -> bool {
    &&& keys.no_duplicates()
    &&& forall|k: Seq<char>|
        keys.contains(k) <==> #[trigger] r.patterns.contains_key(k) && is_slow(r.patterns[k])
    &&& forall|i: int, j: int|
        #![trigger keys[i], keys[j]]
        0 <= i < j < keys.len() ==> !float::float_lt(
            r.patterns[keys[i]].avg_latency_ms,
            r.patterns[keys[j]].avg_latency_ms,
        )
}

/// The line for a slow pattern.
pub open spec fn pattern_line<W: Fn(u64) -> String>(show: W, p: PatternV) -> Seq<char> {
    "    "@ + p.filter_desc + " — "@ + text::decimal(p.hit_count as int) + " times, avg "@ + shown(
        show,
        p.avg_latency_ms,
    ) + "ms"@ + if p.ghost_created {
        " [auto-ghost]"@
    } else {
        ""@
    }
}

/// The line for a scan.
pub open spec fn scan_line<W: Fn(u64) -> String>(show: W, t: TelemetryV) -> Seq<char> {
    "    "@ + t.lobe + " | "@ + t.source + " | "@ + text::decimal(t.records_returned as int) + "/"@
        + text::decimal(t.records_scanned as int) + " records | "@ + shown(show, t.duration_ms)
        + "ms"@
}

/// The lines about slow patterns: no more than ten of them.
pub open spec fn slow_lines<W: Fn(u64) -> String>(
    show: W,
    r: RegistryV,
    keys: Seq<Seq<char>>,
) -> Seq<Seq<char>> {
    if keys.len() == 0 {
        seq!["  No slow scan patterns detected."@]
    } else {
        let n = if keys.len() < 10 {
            keys.len()
        } else {
            10
        };
        seq!["  Slow scan patterns (avg > 100ms):"@] + Seq::new(
            n,
            |i: int| pattern_line(show, r.patterns[keys[i]]),
        )
    }
}

/// The lines about the last scans: no more than five of them, the last first.
pub open spec fn recent_lines<W: Fn(u64) -> String>(
    show: W,
    recent: Seq<TelemetryV>,
) -> Seq<Seq<char>> {
    let n = if recent.len() < 5 {
        recent.len()
    } else {
        5
    };
    Seq::new(n, |i: int| scan_line(show, recent[recent.len() - 1 - i]))
}

/// The report on scans.
pub open spec fn stats_lines<W: Fn(u64) -> String>(
    show: W,
    r: RegistryV,
    keys: Seq<Seq<char>>,
) -> Seq<Seq<char>> {
    if r.recent.len() == 0 {
        seq!["Scan Statistics:"@, "  No scans recorded yet."@]
    } else {
        seq![
            "Scan Statistics:"@,
            "  Total scans recorded: "@ + text::decimal(r.recent.len() as int),
            ""@,
        ] + slow_lines(show, r, keys) + seq![""@, "  Recent scans:"@] + recent_lines(
            show,
            r.recent,
        )
    }
}

/// Adds a line.
fn push_line(lines: &mut Vec<String>, line: &str)
    ensures
        text::names(final(lines)@) == text::names(old(lines)@).push(line@),
{
    let ghost before = lines@;
    lines.push(line.to_owned());
    assert(text::names(lines@) =~= text::names(before).push(line@));
}

impl ScanPattern {
    /// The line for a slow pattern.
    fn line<W: Fn(u64) -> String>(&self, show: &W) -> (r: String)
        requires
            shows(*show),
        ensures
            r@ == pattern_line(*show, self@),
    {
        let hits = text::decimal_text(self.hit_count as i128);
        let avg = write_latency(show, self.avg_latency_ms);
        let a = text::join3("    ", self.filter_desc.as_str(), " — ");
        let b = text::join3(a.as_str(), hits.as_str(), " times, avg ");
        let tag = if self.ghost_created {
            " [auto-ghost]"
        } else {
            ""
        };
        let c = text::join3(b.as_str(), avg.as_str(), "ms");
        text::join2(c.as_str(), tag)
    }
}

impl ScanTelemetry {
    /// The line for a scan.
    fn line<W: Fn(u64) -> String>(&self, show: &W) -> (r: String)
        requires
            shows(*show),
        ensures
            r@ == scan_line(*show, self@),
    {
        let returned = text::decimal_text(self.records_returned as i128);
        let scanned = text::decimal_text(self.records_scanned as i128);
        let took = write_latency(show, self.duration_ms);
        let a = text::join3("    ", self.lobe.as_str(), " | ");
        let b = text::join3(a.as_str(), self.source.as_str(), " | ");
        let c = text::join3(b.as_str(), returned.as_str(), "/");
        let d = text::join3(c.as_str(), scanned.as_str(), " records | ");
        text::join3(d.as_str(), took.as_str(), "ms")
    }
}

/// The places of the slow patterns are listed with their latencies: the keys at
/// these places are the slow patterns.
proof fn lemma_slow_list(
    r: RegistryV,
    listed: Seq<(String, ScanPattern)>,
    found: Seq<(usize, u64)>,
    slow: Seq<(usize, u64)>,
)
    requires
        crate::sorted_map::names_increase(listed),
        r.patterns == crate::sorted_map::entries_map(listed).map_values(|p: ScanPattern| p@),
        forall|j: int|
            0 <= j < found.len() ==> (#[trigger] found[j]).0 < listed.len() && is_slow(
                listed[found[j].0 as int].1@,
            ) && found[j].1 == listed[found[j].0 as int].1@.avg_latency_ms,
        forall|i: int|
            0 <= i < listed.len() && is_slow((#[trigger] listed[i]).1@) ==> exists|j: int|
                0 <= j < found.len() && found[j].0 == i,
        forall|i: int, j: int|
            #![trigger found[i], found[j]]
            0 <= i < j < found.len() ==> found[i].0 < found[j].0,
        slow.to_multiset() == found.to_multiset(),
        sort::sorted(slow, |a: (usize, u64), b: (usize, u64)| float::total_lt(b.1, a.1)),
    ensures
        is_slow_list(r, slow.map_values(|e: (usize, u64)| listed[e.0 as int].0@)),
        forall|j: int| 0 <= j < slow.len() ==> (#[trigger] slow[j]).0 < listed.len(),
        forall|i: int|
            0 <= i < listed.len() ==> r.patterns.contains_key((#[trigger] listed[i]).0@)
                && r.patterns[listed[i].0@] == listed[i].1@,
{
    let keys = slow.map_values(|e: (usize, u64)| listed[e.0 as int].0@);
    assert forall|i: int| 0 <= i < listed.len() implies r.patterns.contains_key(
        (#[trigger] listed[i]).0@,
    ) && r.patterns[listed[i].0@] == listed[i].1@ by {
        crate::sorted_map::lemma_entry_in_map(listed, i);
    }
    slow.to_multiset_ensures();
    found.to_multiset_ensures();
    found.lemma_multiset_has_no_duplicates();
    slow.lemma_multiset_has_no_duplicates_conv();
    assert forall|j: int| 0 <= j < slow.len() implies found.contains(#[trigger] slow[j]) by {
        assert(slow.contains(slow[j]));
        assert(slow.to_multiset().count(slow[j]) > 0);
        assert(found.to_multiset().count(slow[j]) > 0);
    }
    assert forall|i: int, j: int| 0 <= i < keys.len() && 0 <= j < keys.len() && i != j implies keys[i]
        != keys[j] by {
        let a = slow[i];
        let b = slow[j];
        assert(found.contains(a) && found.contains(b));
        if keys[i] == keys[j] {
            crate::sorted_map::lemma_one_place(listed, keys[i], a.0 as int, b.0 as int);
            assert(a.0 == b.0);
            assert(a == b);
        }
    }
    assert forall|k: Seq<char>|
        keys.contains(k) <==> #[trigger] r.patterns.contains_key(k) && is_slow(r.patterns[k]) by {
        if keys.contains(k) {
            let j = choose|j: int| 0 <= j < keys.len() && keys[j] == k;
            assert(found.contains(slow[j]));
        }
        if r.patterns.contains_key(k) && is_slow(r.patterns[k]) {
            let m = crate::sorted_map::entries_map(listed);
            assert(m.contains_key(k));
            let i = choose|i: int| crate::sorted_map::holds_at(listed, k, i);
            assert(listed[i].0@ == k);
            let j = choose|j: int| 0 <= j < found.len() && found[j].0 == i;
            assert(found.contains(found[j]));
            assert(found.to_multiset().count(found[j]) > 0);
            assert(slow.contains(found[j]));
            let n = choose|n: int| 0 <= n < slow.len() && slow[n] == found[j];
            assert(keys[n] == k);
        }
    }
    assert forall|i: int, j: int|
        #![trigger keys[i], keys[j]]
        0 <= i < j < keys.len() implies !float::float_lt(
        r.patterns[keys[i]].avg_latency_ms,
        r.patterns[keys[j]].avg_latency_ms,
    ) by {
        let a = slow[i];
        let b = slow[j];
        assert(found.contains(a) && found.contains(b));
        assert(listed[a.0 as int].1@.avg_latency_ms == a.1);
        assert(listed[b.0 as int].1@.avg_latency_ms == b.1);
    }
}

impl ScanTelemetryRegistry {
    /// The report on scans: how many are remembered, the slow patterns and the last
    /// scans. `show` writes a latency with one decimal.
    pub fn format_stats<W: Fn(u64) -> String>(&self, show: &W) -> (r: Vec<String>)
        requires
            shows(*show),
        ensures
            exists|keys: Seq<Seq<char>>| #[trigger]
                is_slow_list(self@, keys) && text::names(r@) == stats_lines(*show, self@, keys),
    {
        let ghost listed = self.patterns.listed();
        proof {
            use_type_invariant(&self.patterns);
            self.patterns.lemma_listed();
        }
        let mut found: Vec<(usize, u64)> = Vec::new();
        let mut i: usize = 0;
        while i < self.patterns.len()
            invariant
                i <= listed.len(),
                listed == self.patterns.listed(),
                forall|j: int|
                    0 <= j < found@.len() ==> (#[trigger] found@[j]).0 < i && is_slow(
                        listed[found@[j].0 as int].1@,
                    ) && found@[j].1 == listed[found@[j].0 as int].1@.avg_latency_ms,
                forall|n: int|
                    0 <= n < i && is_slow((#[trigger] listed[n]).1@) ==> exists|j: int|
                        0 <= j < found@.len() && found@[j].0 == n,
                forall|n: int, j: int|
                    #![trigger found@[n], found@[j]]
                    0 <= n < j < found@.len() ==> found@[n].0 < found@[j].0,
            decreases listed.len() - i,
        {
            let p = self.patterns.value_at(i);
            let ghost f0 = found@;
            if p.hit_count >= SLOW_HITS && float::less(SLOW_LATENCY_MS, p.avg_latency_ms) {
                found.push((i, p.avg_latency_ms));
                assert(found@[f0.len() as int].0 == i);
            }
            proof {
                assert forall|n: int|
                    0 <= n < i + 1 && is_slow((#[trigger] listed[n]).1@) implies exists|j: int|
                    0 <= j < found@.len() && found@[j].0 == n by {
                    if n < i {
                        let j = choose|j: int| 0 <= j < f0.len() && f0[j].0 == n;
                        assert(found@[j].0 == n);
                    }
                }
            }
            i = i + 1;
        }
        let ghost found_places = found@;
        let f = |a: &(usize, u64), b: &(usize, u64)| -> (r: bool)
            ensures
                r == float::total_lt(b.1, a.1),
            { float::total_less(b.1, a.1) };
        let ghost lt = |a: (usize, u64), b: (usize, u64)| float::total_lt(b.1, a.1);
        let slow = sort::merge_sort(found, &f, Ghost(lt));
        let ghost keys = slow@.map_values(|e: (usize, u64)| listed[e.0 as int].0@);
        proof {
            lemma_slow_list(self@, listed, found_places, slow@);
        }
        let mut lines: Vec<String> = Vec::new();
        push_line(&mut lines, "Scan Statistics:");
        if self.recent.len() == 0 {
            push_line(&mut lines, "  No scans recorded yet.");
            assert(text::names(lines@) =~= stats_lines(*show, self@, keys));
            return lines;
        }
        let count = text::decimal_text(self.recent.len() as i128);
        let total = text::join2("  Total scans recorded: ", count.as_str());
        push_line(&mut lines, total.as_str());
        push_line(&mut lines, "");
        let ghost head = text::names(lines@);
        if slow.len() == 0 {
            push_line(&mut lines, "  No slow scan patterns detected.");
        } else {
            push_line(&mut lines, "  Slow scan patterns (avg > 100ms):");
            let ghost start = text::names(lines@);
            let mut n: usize = 0;
            while n < slow.len() && n < 10
                invariant
                    n <= slow@.len(),
                    n <= 10,
                    shows(*show),
                    listed == self.patterns.listed(),
                    keys == slow@.map_values(|e: (usize, u64)| listed[e.0 as int].0@),
                    forall|j: int| 0 <= j < slow@.len() ==> (#[trigger] slow@[j]).0 < listed.len(),
                    forall|i: int|
                        0 <= i < listed.len() ==> self@.patterns[(#[trigger] listed[i]).0@]
                            == listed[i].1@,
                    text::names(lines@) == start + Seq::new(
                        n as nat,
                        |i: int| pattern_line(*show, self@.patterns[keys[i]]),
                    ),
                decreases slow@.len() - n,
            {
                let p = self.patterns.value_at(slow[n].0);
                let ghost before = text::names(lines@);
                let line = p.line(show);
                push_line(&mut lines, line.as_str());
                assert(self@.patterns[keys[n as int]] == p@);
                n = n + 1;
                assert(text::names(lines@) =~= start + Seq::new(
                    n as nat,
                    |i: int| pattern_line(*show, self@.patterns[keys[i]]),
                ));
            }
        }
        assert(text::names(lines@) =~= head + slow_lines(*show, self@, keys));
        push_line(&mut lines, "");
        push_line(&mut lines, "  Recent scans:");
        let ghost start = text::names(lines@);
        let mut n: usize = 0;
        while n < self.recent.len() && n < 5
            invariant
                n <= self.recent@.len(),
                n <= 5,
                shows(*show),
                text::names(lines@) == start + Seq::new(
                    n as nat,
                    |i: int| scan_line(*show, self@.recent[self@.recent.len() - 1 - i]),
                ),
            decreases self.recent@.len() - n,
        {
            let line = self.recent[self.recent.len() - 1 - n].line(show);
            push_line(&mut lines, line.as_str());
            n = n + 1;
            assert(text::names(lines@) =~= start + Seq::new(
                n as nat,
                |i: int| scan_line(*show, self@.recent[self@.recent.len() - 1 - i]),
            ));
        }
        assert(text::names(lines@) =~= stats_lines(*show, self@, keys));
        lines
    }
}

/// A scan is remembered as the last, and of the scans before it no more than make a
/// thousand together.
pub proof fn law_recent_is_bounded(r: RegistryV, t: TelemetryV)
    ensures
        remembered(r, t).recent.len() == if r.recent.len() < 1000 {
            r.recent.len() + 1
        } else {
            1000
        },
        remembered(r, t).recent.last() == t,
        remembered(r, t).patterns == r.patterns,
{
}

/// A pattern that was handed out as a candidate is not handed out again before its
/// ghost is gone.
pub proof fn law_candidate_is_found_once<M: Fn(u64, u64, u64) -> u64>(
    before: RegistryV,
    after: RegistryV,
    t: TelemetryV,
    filters: Seq<FilterV>,
    fields: Seq<Seq<char>>,
    now: u64,
    average: M,
    r: Option<AutoGhostCandidate>,
)
    requires
        before.patterns.contains_key(t.filter_desc),
        before.patterns[t.filter_desc].ghost_created,
        is_recorded(before, after, t, filters, fields, now, average, r),
    ensures
        r is None,
        after.patterns[t.filter_desc].ghost_created,
{
}

/// Hits outside the window do not count: a pattern becomes a candidate only when
/// its hits within the window are enough.
pub proof fn law_candidate_is_hot<M: Fn(u64, u64, u64) -> u64>(
    before: RegistryV,
    after: RegistryV,
    t: TelemetryV,
    filters: Seq<FilterV>,
    fields: Seq<Seq<char>>,
    now: u64,
    average: M,
    r: Option<AutoGhostCandidate>,
)
    requires
        is_recorded(before, after, t, filters, fields, now, average, r),
        r is Some,
    ensures
        hits_in_window(after.patterns[t.filter_desc].recent_hits, now) >= before.min_hits,
        !float::float_lt(after.patterns[t.filter_desc].avg_latency_ms, before.min_latency_ms),
        filters.len() > 0,
{
}

/// One scan of a pattern: what it was, the fields that were aggregated, when, and the
/// candidate that it gave.
pub struct HitV {
    pub t: TelemetryV,
    pub fields: Seq<Seq<char>>,
    pub now: u64,
    pub found: Option<AutoGhostCandidate>,
}

/// The registry goes from state to state as the scans come in.
pub open spec fn is_run<M: Fn(u64, u64, u64) -> u64>(
    states: Seq<RegistryV>,
    hits: Seq<HitV>,
    filters: Seq<FilterV>,
    average: M,
) -> bool {
    &&& states.len() == hits.len() + 1
    &&& forall|i: int|
        0 <= i < hits.len() ==> recorded_hit(
            states[i],
            states[i + 1],
            #[trigger] hits[i],
            filters,
            average,
        )
}

/// The registry after one of the scans.
pub open spec fn recorded_hit<M: Fn(u64, u64, u64) -> u64>(
    before: RegistryV,
    after: RegistryV,
    hit: HitV,
    filters: Seq<FilterV>,
    average: M,
) -> bool {
    is_recorded(before, after, hit.t, filters, hit.fields, hit.now, average, hit.found)
}

/// The scans are of one pattern, take equally long, and lie within the window.
pub open spec fn is_steady(hits: Seq<HitV>, lobe: Seq<char>, desc: Seq<char>, x: u64) -> bool {
    &&& forall|i: int|
        0 <= i < hits.len() ==> (#[trigger] hits[i]).t.lobe == lobe && hits[i].t.filter_desc == desc
            && hits[i].t.duration_ms == x
    &&& forall|i: int, j: int|
        0 <= i <= j < hits.len() ==> (#[trigger] hits[j]).now - (#[trigger] hits[i]).now
            < PATTERN_WINDOW
}

/// The mean of equal latencies is that latency.
pub open spec fn keeps_mean<M: Fn(u64, u64, u64) -> u64>(average: M, x: u64) -> bool {
    &&& forall|r: u64| #[trigger] average.ensures((0, 0, x), r) ==> r == x
    &&& forall|n: u64, r: u64| #[trigger] average.ensures((x, n, x), r) && n > 0 ==> r == x
}

/// The latency reaches the threshold.
pub open spec fn is_high(x: u64, min_latency_ms: u64) -> bool {
    !float::is_nan(x) && !float::is_nan(min_latency_ms) && !float::float_lt(x, min_latency_ms)
}

/// The fields that were aggregated in the scans, each once.
pub open spec fn fields_of(hits: Seq<HitV>) -> Seq<Seq<char>>
    decreases hits.len(),
{
    if hits.len() == 0 {
        Seq::empty()
    } else {
        merged_fields(fields_of(hits.drop_last()), hits.last().fields)
    }
}

/// When the scans were.
pub open spec fn times_of(hits: Seq<HitV>) -> Seq<u64> {
    hits.map_values(|h: HitV| h.now)
}

proof fn lemma_merged_once(fields: Seq<Seq<char>>, more: Seq<Seq<char>>)
    requires
        fields.no_duplicates(),
    ensures
        merged_fields(fields, more).no_duplicates(),
    decreases more.len(),
{
    if more.len() > 0 {
        lemma_merged_once(fields, more.drop_last());
    }
}

proof fn lemma_all_in_window(hits: Seq<u64>, now: u64)
    requires
        forall|i: int| 0 <= i < hits.len() ==> now - #[trigger] hits[i] < PATTERN_WINDOW,
    ensures
        hits_in_window(hits, now) == hits.len(),
    decreases hits.len(),
{
    if hits.len() > 0 {
        let d = hits.drop_last();
        assert forall|i: int| 0 <= i < d.len() implies now - #[trigger] d[i] < PATTERN_WINDOW by {
            assert(d[i] == hits[i]);
        }
        lemma_all_in_window(d, now);
        assert(now - hits[hits.len() - 1] < PATTERN_WINDOW);
    }
}

/// What is known of the pattern after scans like these.
proof fn lemma_after_run<M: Fn(u64, u64, u64) -> u64>(
    states: Seq<RegistryV>,
    hits: Seq<HitV>,
    filters: Seq<FilterV>,
    average: M,
    lobe: Seq<char>,
    desc: Seq<char>,
    x: u64,
)
    requires
        is_run(states, hits, filters, average),
        is_steady(hits, lobe, desc, x),
        keeps_mean(average, x),
        !states[0].patterns.contains_key(desc),
        1 <= states[0].min_hits <= RECENT_HITS_CAP,
        is_high(x, states[0].min_latency_ms),
    ensures
        ({
            let r = states.last();
            let h = states[0].min_hits;
            &&& r.min_hits == h
            &&& r.min_latency_ms == states[0].min_latency_ms
            &&& fields_of(hits).no_duplicates()
            &&& hits.len() == 0 ==> !r.patterns.contains_key(desc)
            &&& hits.len() > 0 ==> {
                let p = r.patterns[desc];
                &&& r.patterns.contains_key(desc)
                &&& p.lobe == lobe
                &&& p.filter_desc == desc
                &&& p.filters == filters
                &&& p.aggregate_fields == fields_of(hits)
                &&& p.hit_count > 0
                &&& p.avg_latency_ms == x
                &&& p.recent_hits == last_of(times_of(hits), RECENT_HITS_CAP as nat)
                &&& p.ghost_created == (filters.len() > 0 && hits.len() >= h)
                &&& hits.last().found is Some <==> filters.len() > 0 && hits.len() == h
                &&& hits.last().found matches Some(c) ==> c@ == candidate_of(p)
            }
        }),
    decreases hits.len(),
{
    if hits.len() > 0 {
        let n = hits.len() as int;
        let d = hits.drop_last();
        let ds = states.drop_last();
        assert forall|i: int| 0 <= i < d.len() implies recorded_hit(
            ds[i],
            ds[i + 1],
            #[trigger] d[i],
            filters,
            average,
        ) by {
            assert(d[i] == hits[i]);
        }
        assert(is_steady(d, lobe, desc, x)) by {
            assert forall|i: int| 0 <= i < d.len() implies (#[trigger] d[i]).t.lobe == lobe
                && d[i].t.filter_desc == desc && d[i].t.duration_ms == x by {
                assert(d[i] == hits[i]);
            }
            assert forall|i: int, j: int| 0 <= i <= j < d.len() implies (#[trigger] d[j]).now - (
            #[trigger] d[i]).now < PATTERN_WINDOW by {
                assert(d[i] == hits[i] && d[j] == hits[j]);
            }
        }
        lemma_after_run(ds, d, filters, average, lobe, desc, x);
        let before = ds.last();
        let hit = hits[n - 1];
        assert(before == states[n - 1]);
        assert(recorded_hit(states[n - 1], states[n], hit, filters, average));
        let p = pattern_before(before, hit.t, filters);
        let a = choose|a: u64| #[trigger]
            average.ensures((p.avg_latency_ms, p.hit_count, hit.t.duration_ms), a)
                && is_recorded_with(
                before,
                states[n],
                hit.t,
                filters,
                hit.fields,
                hit.now,
                a,
                hit.found,
            );
        assert(a == x);
        let q = scanned_pattern(p, a, hit.fields, hit.now);
        lemma_merged_once(fields_of(d), hit.fields);
        if d.len() == 0 {
            assert(times_of(d) =~= Seq::<u64>::empty());
        }
        assert(p.recent_hits =~= last_of(times_of(d), RECENT_HITS_CAP as nat));
        assert(times_of(hits) =~= times_of(d).push(hit.now));
        assert(q.recent_hits =~= last_of(times_of(hits), RECENT_HITS_CAP as nat));
        assert forall|i: int| 0 <= i < q.recent_hits.len() implies hit.now
            - #[trigger] q.recent_hits[i] < PATTERN_WINDOW by {
            let k = n - q.recent_hits.len() + i;
            assert(q.recent_hits[i] == hits[k].now);
            assert(hits[n - 1].now - hits[k].now < PATTERN_WINDOW);
        }
        lemma_all_in_window(q.recent_hits, hit.now);
    }
}

/// A pattern that is scanned again and again, each time as slowly as makes a ghost
/// pay off, is handed out exactly once, at the scan with which its hits are enough:
/// with what the scans said, and with each field that was aggregated once. Without
/// conditions it is never handed out.
pub proof fn law_pattern_is_found_when_hot<M: Fn(u64, u64, u64) -> u64>(
    states: Seq<RegistryV>,
    hits: Seq<HitV>,
    filters: Seq<FilterV>,
    average: M,
    lobe: Seq<char>,
    desc: Seq<char>,
    x: u64,
)
    requires
        is_run(states, hits, filters, average),
        is_steady(hits, lobe, desc, x),
        keeps_mean(average, x),
        !states[0].patterns.contains_key(desc),
        1 <= states[0].min_hits <= RECENT_HITS_CAP,
        is_high(x, states[0].min_latency_ms),
    ensures
        forall|i: int|
            0 <= i < hits.len() ==> ((#[trigger] hits[i]).found is Some <==> filters.len() > 0 && i
                + 1 == states[0].min_hits),
        forall|i: int|
            0 <= i < hits.len() ==> ((#[trigger] hits[i]).found matches Some(c) ==> c@ == (
            CandidateV {
                lobe,
                filters,
                filter_desc: desc,
                aggregate_fields: fields_of(hits.take(i + 1)),
            })),
        fields_of(hits).no_duplicates(),
    decreases hits.len(),
{
    lemma_after_run(states, hits, filters, average, lobe, desc, x);
    if hits.len() > 0 {
        let n = hits.len() as int;
        let d = hits.drop_last();
        let ds = states.drop_last();
        assert forall|i: int| 0 <= i < d.len() implies recorded_hit(
            ds[i],
            ds[i + 1],
            #[trigger] d[i],
            filters,
            average,
        ) by {
            assert(d[i] == hits[i]);
        }
        assert(is_steady(d, lobe, desc, x)) by {
            assert forall|i: int| 0 <= i < d.len() implies (#[trigger] d[i]).t.lobe == lobe
                && d[i].t.filter_desc == desc && d[i].t.duration_ms == x by {
                assert(d[i] == hits[i]);
            }
            assert forall|i: int, j: int| 0 <= i <= j < d.len() implies (#[trigger] d[j]).now - (
            #[trigger] d[i]).now < PATTERN_WINDOW by {
                assert(d[i] == hits[i] && d[j] == hits[j]);
            }
        }
        law_pattern_is_found_when_hot(ds, d, filters, average, lobe, desc, x);
        assert forall|i: int| 0 <= i < hits.len() implies ((#[trigger] hits[i]).found is Some
            <==> filters.len() > 0 && i + 1 == states[0].min_hits) by {
            if i < n - 1 {
                assert(d[i] == hits[i]);
            }
        }
        assert forall|i: int| 0 <= i < hits.len() implies ((#[trigger] hits[i]).found matches Some(
            c,
        ) ==> c@ == (CandidateV {
            lobe,
            filters,
            filter_desc: desc,
            aggregate_fields: fields_of(hits.take(i + 1)),
        })) by {
            if i < n - 1 {
                assert(d[i] == hits[i]);
                assert(d.take(i + 1) =~= hits.take(i + 1));
            } else {
                assert(hits.take(i + 1) =~= hits);
            }
        }
    }
}

/// Once the ghost of a hot pattern is gone, the next scan of it hands it out again.
pub proof fn law_pattern_is_found_again<M: Fn(u64, u64, u64) -> u64>(
    states: Seq<RegistryV>,
    hits: Seq<HitV>,
    filters: Seq<FilterV>,
    average: M,
    lobe: Seq<char>,
    desc: Seq<char>,
    x: u64,
    hit: HitV,
    after: RegistryV,
)
    requires
        is_run(states, hits, filters, average),
        is_steady(hits.push(hit), lobe, desc, x),
        keeps_mean(average, x),
        !states[0].patterns.contains_key(desc),
        1 <= states[0].min_hits <= RECENT_HITS_CAP,
        is_high(x, states[0].min_latency_ms),
        filters.len() > 0,
        hits.len() >= states[0].min_hits,
        recorded_hit(
            with_pattern(
                states.last(),
                desc,
                PatternV { ghost_created: false, ..states.last().patterns[desc] },
            ),
            after,
            hit,
            filters,
            average,
        ),
    ensures
        hit.found is Some,
{
    let n = hits.len() as int;
    let all = hits.push(hit);
    assert(is_steady(hits, lobe, desc, x)) by {
        assert forall|i: int| 0 <= i < hits.len() implies (#[trigger] hits[i]).t.lobe == lobe
            && hits[i].t.filter_desc == desc && hits[i].t.duration_ms == x by {
            assert(all[i] == hits[i]);
        }
        assert forall|i: int, j: int| 0 <= i <= j < hits.len() implies (#[trigger] hits[j]).now - (
        #[trigger] hits[i]).now < PATTERN_WINDOW by {
            assert(all[i] == hits[i] && all[j] == hits[j]);
        }
    }
    lemma_after_run(states, hits, filters, average, lobe, desc, x);
    assert(all[n] == hit);
    let cleared = with_pattern(
        states.last(),
        desc,
        PatternV { ghost_created: false, ..states.last().patterns[desc] },
    );
    let p = pattern_before(cleared, hit.t, filters);
    let a = choose|a: u64| #[trigger]
        average.ensures((p.avg_latency_ms, p.hit_count, hit.t.duration_ms), a) && is_recorded_with(
            cleared,
            after,
            hit.t,
            filters,
            hit.fields,
            hit.now,
            a,
            hit.found,
        );
    assert(a == x);
    let q = scanned_pattern(p, a, hit.fields, hit.now);
    assert(times_of(all) =~= times_of(hits).push(hit.now));
    assert(q.recent_hits =~= last_of(times_of(all), RECENT_HITS_CAP as nat));
    assert forall|i: int| 0 <= i < q.recent_hits.len() implies hit.now
        - #[trigger] q.recent_hits[i] < PATTERN_WINDOW by {
        let k = n + 1 - q.recent_hits.len() + i;
        assert(q.recent_hits[i] == all[k].now);
        assert(all[n].now - all[k].now < PATTERN_WINDOW);
    }
    lemma_all_in_window(q.recent_hits, hit.now);
}

/// The hits that count are those within ten minutes before.
pub proof fn law_recent_hits_count(hits: Seq<u64>, now: u64)
    ensures
        hits_in_window(hits, now) == hits.filter(|h: u64| now - h < 600_000_000).len(),
    decreases hits.len(),
{
    reveal(Seq::filter);
    if hits.len() > 0 {
        law_recent_hits_count(hits.drop_last(), now);
    }
}

/// A pattern has every field that one of its scans aggregated, and no other; one that it
/// has is not added again, and those it has keep their places.
pub proof fn law_pattern_gathers_fields(
    fields: Seq<Seq<char>>,
    more: Seq<Seq<char>>,
    f: Seq<char>,
)
    ensures
        merged_fields(fields, more).contains(f) <==> fields.contains(f) || more.contains(f),
        fields.is_prefix_of(merged_fields(fields, more)),
        fields.no_duplicates() ==> merged_fields(fields, more).no_duplicates(),
    decreases more.len(),
{
    if fields.no_duplicates() {
        lemma_merged_once(fields, more);
    }
    if more.len() > 0 {
        let d = more.drop_last();
        law_pattern_gathers_fields(fields, d, f);
        let before = merged_fields(fields, d);
        let after = merged_fields(fields, more);
        if more.contains(f) {
            let i = choose|i: int| 0 <= i < more.len() && more[i] == f;
            if i < d.len() {
                assert(d[i] == f);
                assert(d.contains(f));
            }
        }
        if d.contains(f) {
            let i = choose|i: int| 0 <= i < d.len() && d[i] == f;
            assert(more[i] == f);
        }
        if before.contains(f) {
            let j = choose|j: int| 0 <= j < before.len() && before[j] == f;
            assert(after[j] == f);
        }
        if !before.contains(more.last()) {
            assert(after[before.len() as int] == more.last());
        }
        assert(more[more.len() - 1] == more.last());
        assert(after.take(fields.len() as int) =~= before.take(fields.len() as int));
    } else {
        assert(fields.take(fields.len() as int) =~= fields);
    }
}

/// Of what is remembered the last is kept, in order, and no more than there is room for.
pub proof fn law_last_are_remembered<T>(s: Seq<T>, n: nat, i: int)
    ensures
        last_of(s, n).len() == if s.len() < n {
            s.len()
        } else {
            n
        },
        0 <= i < last_of(s, n).len() ==> last_of(s, n)[last_of(s, n).len() - 1 - i] == s[s.len() - 1
            - i],
{
}

/// A scan is one hit more of its pattern, unless so many cannot be counted, and does not
/// change what the pattern is. The times of the last hundred hits are known.
pub proof fn law_scan_is_one_hit(p: PatternV, average: u64, fields: Seq<Seq<char>>, now: u64)
    ensures
        ({
            let q = scanned_pattern(p, average, fields, now);
            &&& p.hit_count < u64::MAX ==> q.hit_count == p.hit_count + 1
            &&& q.avg_latency_ms == average
            &&& q.recent_hits.len() == if p.recent_hits.len() < 100 {
                p.recent_hits.len() + 1
            } else {
                100
            }
            &&& q.recent_hits.last() == now
            &&& q.lobe == p.lobe && q.filter_desc == p.filter_desc && q.filters == p.filters
                && q.ghost_created == p.ghost_created
        }),
{
}

/// The slow patterns are those that were hit three times or more and took longer than the
/// threshold on average, each once, the slowest first.
pub proof fn law_slowest_come_first(r: RegistryV, keys: Seq<Seq<char>>, i: int, j: int)
    requires
        is_slow_list(r, keys),
        0 <= i < j < keys.len(),
    ensures
        keys[i] != keys[j],
        r.patterns.contains_key(keys[i]),
        r.patterns[keys[i]].hit_count >= 3,
        float::float_lt(0x4059_0000_0000_0000, r.patterns[keys[i]].avg_latency_ms),
        !float::float_lt(
            r.patterns[keys[i]].avg_latency_ms,
            r.patterns[keys[j]].avg_latency_ms,
        ),
        forall|k: Seq<char>| #[trigger]
            r.patterns.contains_key(k) && r.patterns[k].hit_count >= 3 && float::float_lt(
                0x4059_0000_0000_0000,
                r.patterns[k].avg_latency_ms,
            ) ==> keys.contains(k),
{
    assert(keys.contains(keys[i]));
    assert(r.patterns.contains_key(keys[i]));
    assert(is_slow(r.patterns[keys[i]]));
}

/// A scan that is only counted is one hit more of its pattern, with the latency averaged
/// in, and no ghost comes of it.
pub proof fn law_counted_scan_is_one_hit<M: Fn(u64, u64, u64) -> u64>(
    before: RegistryV,
    after: RegistryV,
    t: TelemetryV,
    average: M,
    other: Seq<char>,
)
    requires
        is_counted(before, after, t, average),
        other != t.filter_desc,
    ensures
        after.patterns.contains_key(t.filter_desc),
        before.patterns.contains_key(t.filter_desc) ==> {
            let p = before.patterns[t.filter_desc];
            let q = after.patterns[t.filter_desc];
            &&& p.hit_count < u64::MAX ==> q.hit_count == p.hit_count + 1
            &&& q.ghost_created == p.ghost_created && q.filters == p.filters && q.recent_hits
                == p.recent_hits
            &&& average.ensures((p.avg_latency_ms, p.hit_count, t.duration_ms), q.avg_latency_ms)
        },
        !before.patterns.contains_key(t.filter_desc) ==> {
            let q = after.patterns[t.filter_desc];
            &&& q.hit_count == 1 && !q.ghost_created && q.lobe == t.lobe && q.filter_desc
                == t.filter_desc
            &&& average.ensures((0, 0, t.duration_ms), q.avg_latency_ms)
        },
        after.patterns.contains_key(other) <==> before.patterns.contains_key(other),
        before.patterns.contains_key(other) ==> after.patterns[other] == before.patterns[other],
        after.recent.len() > 0,
        after.recent.last() == t,
{
}

} // verus!
