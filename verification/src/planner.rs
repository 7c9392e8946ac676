//! Pipelines: chains of steps of which each feeds the next.

use crate::aggregate;
use crate::aggregate::AggregateFunc;
use crate::aggregate_state::{AggregateState, AggregateStateV};
use crate::bytes;
use crate::error;
use crate::error::XyzError;
use crate::float;
use crate::ghost_keys;
use crate::ghost_meta::MetricOrderV;
use crate::metric_order;
use crate::metric_order::RowOps;
use crate::nearest::BudgetStop;
use crate::record;
use crate::record::{Fields, Record, RecordV};
use crate::sort;
use crate::text;
use crate::value::{Value, ValueV};
use vstd::prelude::*;

verus! {

/// What a statement answers.
#[derive(Debug)]
pub enum QueryResult {
    Done { lid: Option<u128>, message: String },
    Records(Vec<Record>),
    PaginatedRecords {
        records: Vec<Record>,
        cursor: Option<String>,
        has_more: bool,
        budget_stop: Option<BudgetStop>,
    },
    BatchOk { count: usize, first_lid: u128, last_lid: u128 },
    Aggregation(Fields),
    GroupedAggregation(Vec<Fields>),
    Info(String),
}

/// The records of an answer, or why it has none.
pub open spec fn is_extracted(result: QueryResult, r: Result<Vec<Record>, XyzError>) -> bool {
    match result {
        QueryResult::Records(v) => r == Ok::<Vec<Record>, XyzError>(v),
        QueryResult::PaginatedRecords { records, .. } => r == Ok::<Vec<Record>, XyzError>(
            records,
        ),
        QueryResult::Done { message, .. } => error::is_invalid(
            r,
            "Expected records in pipeline, got: "@ + message@,
        ),
        QueryResult::BatchOk { .. } => error::is_invalid(
            r,
            "Expected records in pipeline, got batch result"@,
        ),
        QueryResult::Aggregation(_) => error::is_invalid(
            r,
            "Expected records in pipeline, got aggregation"@,
        ),
        QueryResult::GroupedAggregation(_) => error::is_invalid(
            r,
            "Expected records in pipeline, got grouped aggregation"@,
        ),
        QueryResult::Info(_) => error::is_invalid(r, "Expected records in pipeline, got info"@),
    }
}

/// The records of an answer. A page is taken as it is: a pipeline cannot be
/// resumed in its middle.
pub fn extract_records(result: QueryResult) -> (r: Result<Vec<Record>, XyzError>)
    ensures
        is_extracted(result, r),
{
    match result {
        QueryResult::Records(v) => Ok(v),
        QueryResult::PaginatedRecords { records, .. } => Ok(records),
        QueryResult::Done { message, .. } => error::invalid(
            text::join2("Expected records in pipeline, got: ", message.as_str()).as_str(),
        ),
        QueryResult::BatchOk { .. } => error::invalid(
            "Expected records in pipeline, got batch result",
        ),
        QueryResult::Aggregation(_) => error::invalid(
            "Expected records in pipeline, got aggregation",
        ),
        QueryResult::GroupedAggregation(_) => error::invalid(
            "Expected records in pipeline, got grouped aggregation",
        ),
        QueryResult::Info(_) => error::invalid("Expected records in pipeline, got info"),
    }
}

/// What a step of a pipeline does.
#[derive(Clone, Copy, Debug, PartialEq, Eq, Structural)]
pub enum StepKind {
    Find,
    Scan,
    ScanGhost,
    Pull,
    Assign,
    Delete,
    Aggregate,
    GroupBy,
    Nearest,
    Follow,
    /// The first records or groups; by a metric where it says so.
    Top { by_metric: bool },
    Shape,
}

/// How a pipeline is run.
#[derive(Clone, Copy, Debug, PartialEq, Eq, Structural)]
pub enum PipelinePlan {
    /// A scan whose records are aggregated one by one.
    ScanAggregate,
    /// A scan that feeds a similarity search, before the other steps.
    ScanNearest,
    /// A scan whose records are aggregated for each group.
    ScanGroupAggregate,
    /// The same, of which the best groups are kept.
    ScanGroupAggregateTop,
    /// Step by step.
    Steps,
}

/// How a pipeline is run: aggregations right after a scan without holding its
/// records, a similarity search right after a scan together with it whatever
/// follows, and everything else step by step.
pub open spec fn plan_of(s: Seq<StepKind>) -> PipelinePlan {
    if s.len() == 2 && s[0] == StepKind::Scan && s[1] == StepKind::Aggregate {
        PipelinePlan::ScanAggregate
    } else if s.len() >= 2 && s[0] == StepKind::Scan && s[1] == StepKind::Nearest {
        PipelinePlan::ScanNearest
    } else if s.len() == 3 && s[0] == StepKind::Scan && s[1] == StepKind::GroupBy && s[2]
        == StepKind::Aggregate {
        PipelinePlan::ScanGroupAggregate
    } else if s.len() == 4 && s[0] == StepKind::Scan && s[1] == StepKind::GroupBy && s[2]
        == StepKind::Aggregate && s[3] is Top {
        PipelinePlan::ScanGroupAggregateTop
    } else {
        PipelinePlan::Steps
    }
}

/// How a pipeline is run.
pub fn execute_pipeline(steps: &Vec<StepKind>) -> (r: PipelinePlan)
    ensures
        r == plan_of(steps@),
{
    let n: usize = steps.len();
    if n < 2 || steps[0] != StepKind::Scan {
        return PipelinePlan::Steps;
    }
    if n == 2 && steps[1] == StepKind::Aggregate {
        return PipelinePlan::ScanAggregate;
    }
    if steps[1] == StepKind::Nearest {
        return PipelinePlan::ScanNearest;
    }
    if n == 3 && steps[1] == StepKind::GroupBy && steps[2] == StepKind::Aggregate {
        return PipelinePlan::ScanGroupAggregate;
    }
    if n == 4 && steps[1] == StepKind::GroupBy && steps[2] == StepKind::Aggregate {
        if let StepKind::Top { .. } = steps[3] {
            return PipelinePlan::ScanGroupAggregateTop;
        }
    }
    PipelinePlan::Steps
}

/// What follows a similarity search never changes how it is run: steps after it
/// see what it gives alone.
pub proof fn law_tail_keeps_search(s: Seq<StepKind>, tail: Seq<StepKind>)
    requires
        plan_of(s) == PipelinePlan::ScanNearest,
    ensures
        plan_of(s + tail) == PipelinePlan::ScanNearest,
{
    assert((s + tail)[0] == s[0] && (s + tail)[1] == s[1]);
}

/// What a similarity search that a pipeline begins with answers where no step
/// follows it.
pub fn search_answer(records: Vec<Record>, budget_stop: Option<BudgetStop>) -> (r: QueryResult)
    ensures
        r == match budget_stop {
            Some(_) => QueryResult::PaginatedRecords {
                records,
                cursor: None,
                has_more: true,
                budget_stop,
            },
            None => QueryResult::Records(records),
        },
{
    if budget_stop.is_some() {
        QueryResult::PaginatedRecords { records, cursor: None, has_more: true, budget_stop }
    } else {
        QueryResult::Records(records)
    }
}

/// What to do for a step.
#[derive(Debug)]
pub enum StepAction {
    /// Get records from the statement of the step.
    Source,
    /// Run the step on these records and go on with its records.
    On(Vec<Record>),
    /// Run the step on these records; its answer is that of the pipeline.
    Last(Vec<Record>),
}

/// A pipeline that is run step by step.
pub struct Runner {
    current: Option<Vec<Record>>,
    budget_stop: Option<BudgetStop>,
}

/// Why a step without records fails.
pub open spec fn missing_text(k: StepKind) -> Seq<char> {
    match k {
        StepKind::Pull => "PULL in pipeline requires preceding records"@,
        StepKind::Assign => "SET in pipeline requires preceding records"@,
        StepKind::Delete => "DELETE in pipeline requires preceding records"@,
        StepKind::Aggregate => "AGGREGATE requires preceding records"@,
        StepKind::Nearest => "NEAREST requires preceding records"@,
        StepKind::Follow => "FOLLOW requires preceding records"@,
        StepKind::Top { .. } => "TAKE requires preceding records"@,
        _ => "SHAPE requires preceding records"@,
    }
}

/// The step consumes the records and answers itself.
pub open spec fn consumes(k: StepKind) -> bool {
    k == StepKind::Assign || k == StepKind::Delete || k == StepKind::Aggregate
}

/// Why a step is refused on the part of the records that a search managed to
/// score.
pub open spec fn partial_text() -> Seq<char> {
    "NEAREST hit --nearest-budget-ms and returned a partial candidate set; refusing to run a mutating or aggregating step over it. Narrow the scope or raise the budget."@
}

impl Runner {
    /// The records so far.
    pub closed spec fn records(&self) -> Option<Vec<Record>> {
        self.current
    }

    /// How far a search came whose time was up.
    pub closed spec fn stop(&self) -> Option<BudgetStop> {
        self.budget_stop
    }

    /// Begins with the records of the steps that were run together, if any.
    pub fn new(seed: Option<Vec<Record>>, budget_stop: Option<BudgetStop>) -> (r: Self)
        ensures
            r.records() == seed,
            r.stop() == budget_stop,
    {
        Runner { current: seed, budget_stop }
    }

    /// What to do for a step, or why it cannot be run.
    pub open spec fn is_begun(&self, k: StepKind, r: Result<StepAction, XyzError>) -> bool {
        if self.stop() is Some && consumes(k) {
            error::is_invalid(r, partial_text())
        } else {
            match k {
                StepKind::Find | StepKind::Scan | StepKind::ScanGhost => r matches Ok(
                    StepAction::Source,
                ),
                StepKind::GroupBy => error::is_invalid(
                    r,
                    "GROUP BY is only supported as SCAN | GROUP BY field | AGGREGATE funcs()"@,
                ),
                StepKind::Top { by_metric: true } => error::is_invalid(
                    r,
                    "TAKE n BY metric needs SCAN | GROUP BY … | AGGREGATE … | TAKE n BY metric"@,
                ),
                _ => match self.records() {
                    None => error::is_invalid(r, missing_text(k)),
                    Some(v) => if consumes(k) {
                        r matches Ok(StepAction::Last(w)) && w == v
                    } else {
                        r matches Ok(StepAction::On(w)) && w == v
                    },
                },
            }
        }
    }

    /// Begins a step: says what to do for it and hands out the records that it
    /// needs.
    pub fn begin_step(&mut self, k: StepKind) -> (r: Result<StepAction, XyzError>)
        ensures
            old(self).is_begun(k, r),
            final(self).stop() == old(self).stop(),
            final(self).records() == if r is Ok && !(r->Ok_0 is Source) {
                None
            } else {
                old(self).records()
            },
    {
        if self.budget_stop.is_some() && (k == StepKind::Assign || k == StepKind::Delete || k
            == StepKind::Aggregate) {
            return error::invalid(
                "NEAREST hit --nearest-budget-ms and returned a partial candidate set; refusing to run a mutating or aggregating step over it. Narrow the scope or raise the budget.",
            );
        }
        let problem = match k {
            StepKind::Find | StepKind::Scan | StepKind::ScanGhost => {
                return Ok(StepAction::Source);
            },
            StepKind::GroupBy => {
                return error::invalid(
                    "GROUP BY is only supported as SCAN | GROUP BY field | AGGREGATE funcs()",
                );
            },
            StepKind::Top { by_metric } => {
                if by_metric {
                    return error::invalid(
                        "TAKE n BY metric needs SCAN | GROUP BY … | AGGREGATE … | TAKE n BY metric",
                    );
                }
                "TAKE requires preceding records"
            },
            StepKind::Pull => "PULL in pipeline requires preceding records",
            StepKind::Assign => "SET in pipeline requires preceding records",
            StepKind::Delete => "DELETE in pipeline requires preceding records",
            StepKind::Aggregate => "AGGREGATE requires preceding records",
            StepKind::Nearest => "NEAREST requires preceding records",
            StepKind::Follow => "FOLLOW requires preceding records",
            StepKind::Shape => "SHAPE requires preceding records",
        };
        let last = k == StepKind::Assign || k == StepKind::Delete || k == StepKind::Aggregate;
        let mut taken: Option<Vec<Record>> = None;
        std::mem::swap(&mut taken, &mut self.current);
        match taken {
            None => error::invalid(problem),
            Some(v) => if last {
                Ok(StepAction::Last(v))
            } else {
                Ok(StepAction::On(v))
            },
        }
    }

    /// Goes on with the records of a step.
    pub fn give(&mut self, records: Vec<Record>)
        ensures
            final(self).records() == Some(records),
            final(self).stop() == old(self).stop(),
    {
        self.current = Some(records);
    }

    /// What the pipeline answers when all steps are run. Where a search did not
    /// score all its candidates, the answer says so.
    pub fn finish(self) -> (r: QueryResult)
        ensures
            match self.records() {
                Some(v) => r == (match self.stop() {
                    Some(_) => QueryResult::PaginatedRecords {
                        records: v,
                        cursor: None,
                        has_more: true,
                        budget_stop: self.stop(),
                    },
                    None => QueryResult::Records(v),
                }),
                None => r matches QueryResult::Records(v) && v@.len() == 0,
            },
    {
        match self.current {
            Some(records) => search_answer(records, self.budget_stop),
            None => QueryResult::Records(Vec::new()),
        }
    }
}

/// The first `n` records.
pub fn take_records(records: Vec<Record>, n: usize) -> (r: Vec<Record>)
    ensures
        r@ == if n < records@.len() {
            records@.take(n as int)
        } else {
            records@
        },
{
    let mut r = records;
    if n < r.len() {
        let ghost all = r@;
        r.truncate(n);
        assert(r@ =~= all.take(n as int));
    }
    r
}

/// The record with the named fields alone.
pub open spec fn shaped(r: RecordV, names: Seq<Seq<char>>) -> RecordV {
    RecordV {
        fields: r.fields.restrict(Set::new(|k: Seq<char>| names.contains(k))),
        ..r
    }
}

/// Keeps the named fields of each record. Its identity, lobe and times stay.
pub fn shape_records(records: Vec<Record>, names: &Vec<String>) -> (r: Vec<Record>)
    ensures
        r@.len() == records@.len(),
        forall|i: int|
            0 <= i < r@.len() ==> (#[trigger] r@[i])@ == shaped(
                records@[i]@,
                text::names(names@),
            ),
{
    let ghost all = records@;
    let ghost nv = text::names(names@);
    let mut todo = sort::reversed(records);
    let mut r: Vec<Record> = Vec::new();
    while todo.len() > 0
        invariant
            nv == text::names(names@),
            r@.len() + todo@.len() == all.len(),
            forall|j: int|
                0 <= j < todo@.len() ==> #[trigger] todo@[j] == all[all.len() - 1 - j],
            forall|j: int| 0 <= j < r@.len() ==> (#[trigger] r@[j])@ == shaped(all[j]@, nv),
        decreases todo@.len(),
    {
        if let Some(rec) = todo.pop() {
            let ghost rv = rec@;
            let ghost whole = rec.fields@;
            let keep = |k: &str, _v: &Value| -> (b: bool)
                ensures
                    b == text::names(names@).contains(k@),
                { text::names_contain(names.as_slice(), k) };
            let fields = rec.fields.filter_with(&keep);
            proof {
                let got = record::fields_view(fields@);
                let want = shaped(rv, nv).fields;
                assert forall|k: Seq<char>|
                    #![trigger got.dom().contains(k)]
                    #![trigger want.dom().contains(k)]
                    got.dom().contains(k) == want.dom().contains(k) && (got.dom().contains(k)
                        ==> got[k] == want[k]) by {
                    assert(whole.contains_key(k) == rv.fields.contains_key(k));
                    if got.dom().contains(k) {
                        assert(fields@.contains_key(k));
                    } else if whole.contains_key(k) {
                        assert(!fields@.contains_key(k));
                    }
                }
                assert(got.dom() =~= want.dom());
                assert(got =~= want);
            }
            r.push(
                Record {
                    lid: rec.lid,
                    lobe_name: rec.lobe_name,
                    fields,
                    created_at: rec.created_at,
                    updated_at: rec.updated_at,
                },
            );
        }
    }
    r
}

/// What the best groups are ranked by.
pub enum TopBy {
    Metric(AggregateFunc),
    Alias(String),
}

/// The first or the best groups.
pub struct TopStmt {
    pub n: usize,
    pub by: Option<TopBy>,
    pub descending: bool,
}

/// The name of the metric that groups are ranked by.
pub open spec fn top_label(by: TopBy) -> Seq<char> {
    match by {
        TopBy::Metric(f) => aggregate::plain_label(f@),
        TopBy::Alias(a) => a@,
    }
}

/// The name of the metric that groups are ranked by.
pub fn by_label(by: &TopBy) -> (r: String)
    ensures
        r@ == top_label(*by),
{
    match by {
        TopBy::Metric(f) => aggregate::canonical_label(f),
        TopBy::Alias(a) => a.clone(),
    }
}

/// The first `n`, or all where there are fewer.
pub open spec fn first_rows<T>(s: Seq<T>, n: nat) -> Seq<T> {
    if n < s.len() {
        s.take(n as int)
    } else {
        s
    }
}

impl<
    FT: Fn(&Value) -> String,
    EK: Fn(&Vec<String>) -> String,
    PT: Fn(&str) -> Vec<String>,
    FV: Fn(&str) -> Value,
    RS: Fn(&AggregateState) -> Vec<(String, Value)>,
    SH: Fn(&Value) -> String,
    EN: Fn(&AggregateState) -> Vec<u8>,
    DE: Fn(&[u8]) -> Option<AggregateState>,
> RowOps<FT, EK, PT, FV, RS, SH, EN, DE> {
    /// The order of rows by a metric.
    pub open spec fn row_order(&self, group_fields: Seq<Seq<char>>, order: MetricOrderV) -> spec_fn(
        Map<Seq<char>, ValueV>,
        Map<Seq<char>, ValueV>,
    ) -> bool {
        |a: Map<Seq<char>, ValueV>, b: Map<Seq<char>, ValueV>|
            self.row_ahead(group_fields, order, a, b)
    }

    /// `r` is the first `n` of the rows in the order of a metric.
    pub open spec fn is_ranked(
        &self,
        rows: Seq<Map<Seq<char>, ValueV>>,
        group_fields: Seq<Seq<char>>,
        order: MetricOrderV,
        n: nat,
        r: Seq<Map<Seq<char>, ValueV>>,
    ) -> bool {
        exists|s: Seq<Map<Seq<char>, ValueV>>|
            s.to_multiset() == rows.to_multiset() && #[trigger] sort::sorted(
                s,
                self.row_order(group_fields, order),
            ) && r == first_rows(s, n)
    }

    /// Whether the row comes ahead.
    pub fn is_row_ahead(
        &self,
        group_fields: &[String],
        label: &str,
        descending: bool,
        a: &Fields,
        b: &Fields,
    ) -> (r: bool)
        requires
            self.sound(),
        ensures
            r == self.row_ahead(
                text::names(group_fields@),
                MetricOrderV { label: label@, descending },
                record::fields_view(a@),
                record::fields_view(b@),
            ),
    {
        let ma: u64 = metric_order::top_metric(a, label);
        let mb: u64 = metric_order::top_metric(b, label);
        let ka = self.top_tiebreak_key(group_fields, a);
        let kb = self.top_tiebreak_key(group_fields, b);
        ghost_keys::is_group_ahead(ma, ka.as_str(), mb, kb.as_str(), descending)
    }

    /// What the best groups of a grouping are, or why they cannot be ranked: the
    /// metric must be one of the grouping's.
    pub open spec fn is_top(
        &self,
        rows: Seq<Map<Seq<char>, ValueV>>,
        top: TopStmt,
        group_fields: Seq<Seq<char>>,
        r: Result<Vec<Fields>, XyzError>,
    ) -> bool {
        match top.by {
            None => r matches Ok(v) && metric_order::rows_view(v@) == first_rows(
                rows,
                top.n as nat,
            ),
            Some(by) => if rows.len() > 0 && !rows[0].contains_key(top_label(by)) {
                error::is_invalid(
                    r,
                    "TOP BY '"@ + top_label(by) + "': not a metric in the AGGREGATE clause"@,
                )
            } else {
                r matches Ok(v) && self.is_ranked(
                    rows,
                    group_fields,
                    MetricOrderV { label: top_label(by), descending: top.descending },
                    top.n as nat,
                    metric_order::rows_view(v@),
                )
            },
        }
    }

    /// Keeps the first groups, or the best ones by a metric in order: by the
    /// metric, and among equal ones by the text of the group.
    pub fn apply_top(&self, rows: Vec<Fields>, top: &TopStmt, group_fields: &[String]) -> (r:
        Result<Vec<Fields>, XyzError>)
        requires
            self.sound(),
        ensures
            self.is_top(
                metric_order::rows_view(rows@),
                *top,
                text::names(group_fields@),
                r,
            ),
    {
        let ghost all = rows@;
        match &top.by {
            None => {
                let mut v = rows;
                if top.n < v.len() {
                    v.truncate(top.n);
                    assert(metric_order::rows_view(v@) =~= metric_order::rows_view(all).take(
                        top.n as int,
                    ));
                }
                Ok(v)
            },
            Some(by) => {
                let label = by_label(by);
                assert(all.len() > 0 ==> metric_order::rows_view(all)[0] == record::fields_view(
                    all[0]@,
                ));
                if rows.len() > 0 && !rows[0].contains_key(label.as_str()) {
                    return error::invalid(
                        text::join3(
                            "TOP BY '",
                            label.as_str(),
                            "': not a metric in the AGGREGATE clause",
                        ).as_str(),
                    );
                }
                let ghost names = text::names(group_fields@);
                let ghost order = MetricOrderV { label: label@, descending: top.descending };
                let ghost order_of = self.row_order(names, order);
                let ghost lt = |a: Fields, b: Fields|
                    order_of(record::fields_view(a@), record::fields_view(b@));
                let f = |a: &Fields, b: &Fields| -> (r: bool)
                    ensures
                        r == self.row_ahead(
                            text::names(group_fields@),
                            MetricOrderV { label: label@, descending: top.descending },
                            record::fields_view(a@),
                            record::fields_view(b@),
                        ),
                    { self.is_row_ahead(group_fields, label.as_str(), top.descending, a, b) };
                proof {
                    self.lemma_row_order(names, order);
                    assert(sort::strict_order(lt)) by {
                        assert forall|a: Fields, b: Fields, c: Fields| #[trigger]
                            lt(a, b) && #[trigger] lt(b, c) implies lt(a, c) by {
                            let x = record::fields_view(a@);
                            let y = record::fields_view(b@);
                            let z = record::fields_view(c@);
                            assert(order_of(x, y) && order_of(y, z));
                        }
                        assert forall|a: Fields, b: Fields, c: Fields|
                            !#[trigger] lt(a, b) && !#[trigger] lt(b, c) implies !lt(a, c) by {
                            let x = record::fields_view(a@);
                            let y = record::fields_view(b@);
                            let z = record::fields_view(c@);
                            assert(!order_of(x, y) && !order_of(y, z));
                        }
                    }
                }
                let mut v = sort::merge_sort(rows, &f, Ghost(lt));
                let ghost s = v@;
                let ghost sv = metric_order::rows_view(s);
                proof {
                    sort::lemma_map_keeps_items(
                        s,
                        all,
                        |f: Fields| record::fields_view(f@),
                    );
                    assert(sort::sorted(sv, order_of)) by {
                        assert forall|i: int, j: int| 0 <= i < j < sv.len() implies !order_of(
                            #[trigger] sv[j],
                            #[trigger] sv[i],
                        ) by {
                            assert(!lt(s[j], s[i]));
                        }
                    }
                }
                if top.n < v.len() {
                    v.truncate(top.n);
                    assert(metric_order::rows_view(v@) =~= sv.take(top.n as int));
                }
                assert(metric_order::rows_view(v@) == first_rows(sv, top.n as nat));
                Ok(v)
            },
        }
    }

    proof fn lemma_row_order(&self, group_fields: Seq<Seq<char>>, order: MetricOrderV)
        ensures
            sort::strict_order(self.row_order(group_fields, order)),
    {
        let lt = self.row_order(group_fields, order);
        assert forall|a: Map<Seq<char>, ValueV>, b: Map<Seq<char>, ValueV>, c: Map<Seq<char>, ValueV>|
            #[trigger] lt(a, b) && #[trigger] lt(b, c) implies lt(a, c) by {
            lemma_str_transitive(
                self.tiebreak_of(group_fields, a),
                self.tiebreak_of(group_fields, b),
                self.tiebreak_of(group_fields, c),
            );
        }
        assert forall|a: Map<Seq<char>, ValueV>| !#[trigger] lt(a, a) by {
            bytes::lemma_lex_irreflexive(
                vstd::utf8::encode_utf8(self.tiebreak_of(group_fields, a)),
            );
        }
        assert forall|a: Map<Seq<char>, ValueV>, b: Map<Seq<char>, ValueV>, c: Map<Seq<char>, ValueV>|
            !#[trigger] lt(a, b) && !#[trigger] lt(b, c) implies !lt(a, c) by {
            let ta = self.tiebreak_of(group_fields, a);
            let tb = self.tiebreak_of(group_fields, b);
            let tc = self.tiebreak_of(group_fields, c);
            bytes::lemma_str_total(ta, tb);
            bytes::lemma_str_total(tb, tc);
            bytes::lemma_str_total(ta, tc);
            lemma_str_transitive(ta, tc, tb);
            lemma_str_transitive(tb, ta, tc);
            lemma_str_transitive(tc, tb, ta);
        }
    }

    /// Keeping the best groups twice is keeping them once: rows that were read
    /// in the order of their metric come through as they are.
    pub proof fn law_ranked_rows_stay(
        &self,
        rows: Seq<Map<Seq<char>, ValueV>>,
        group_fields: Seq<Seq<char>>,
        order: MetricOrderV,
        n: nat,
    )
        requires
            sort::sorted(rows, self.row_order(group_fields, order)),
            rows.len() <= n,
        ensures
            self.is_ranked(rows, group_fields, order, n, rows),
    {
        assert(first_rows(rows, n) == rows);
    }

    /// The row of a group.
    pub open spec fn rows_of(
        &self,
        group_fields: Seq<Seq<char>>,
        groups: Seq<(Seq<char>, AggregateStateV)>,
    ) -> Seq<Map<Seq<char>, ValueV>> {
        groups.map_values(
            |g: (Seq<char>, AggregateStateV)| self.row_of(group_fields, g.0, g.1),
        )
    }

    /// The values of groups in the order of a metric.
    pub open spec fn ordered_values(
        &self,
        groups: Seq<(Seq<char>, AggregateStateV)>,
    ) -> Seq<Seq<u8>> {
        groups.map_values(
            |g: (Seq<char>, AggregateStateV)| ghost_keys::entry_value(g.0, self.encoded(g.1)),
        )
    }

    proof fn lemma_read_back(
        &self,
        group_fields: Seq<Seq<char>>,
        groups: Seq<(Seq<char>, AggregateStateV)>,
    )
        requires
            forall|i: int|
                0 <= i < groups.len() ==> vstd::utf8::encode_utf8((#[trigger] groups[i]).0).len()
                    <= ghost_keys::MAX_GROUP_KEY && self.decoded(self.encoded(groups[i].1))
                    == Some(groups[i].1),
        ensures
            self.ordered_rows(group_fields, self.ordered_values(groups)) == self.rows_of(
                group_fields,
                groups,
            ),
        decreases groups.len(),
    {
        if groups.len() == 0 {
            assert(self.rows_of(group_fields, groups) =~= Seq::<Map<Seq<char>, ValueV>>::empty());
        } else {
            let less = groups.drop_last();
            assert forall|i: int| 0 <= i < less.len() implies vstd::utf8::encode_utf8(
                (#[trigger] less[i]).0,
            ).len() <= ghost_keys::MAX_GROUP_KEY && self.decoded(self.encoded(less[i].1)) == Some(
                less[i].1,
            ) by {
                assert(less[i] == groups[i]);
            }
            self.lemma_read_back(group_fields, less);
            let g = groups[groups.len() - 1];
            assert(self.ordered_values(groups).drop_last() =~= self.ordered_values(less));
            ghost_keys::law_entry_value_round_trip(g.0, self.encoded(g.1));
            assert(self.rows_of(group_fields, groups) =~= self.rows_of(group_fields, less).push(
                self.row_of(group_fields, g.0, g.1),
            ));
        }
    }

    /// Reading the first entries of a ghost in the order of its metric gives what
    /// ranking all its groups gives. `listed` are the groups in the order of
    /// their entries' keys.
    pub proof fn law_ordered_read_is_ranking(
        &self,
        ghost_id: u16,
        group_fields: Seq<Seq<char>>,
        order: MetricOrderV,
        groups: Seq<(Seq<char>, AggregateStateV)>,
        listed: Seq<(Seq<char>, AggregateStateV)>,
        n: nat,
        r: Seq<Map<Seq<char>, ValueV>>,
    )
        requires
            listed.to_multiset() == groups.to_multiset(),
            forall|i: int, j: int|
                0 <= i < j < listed.len() ==> bytes::lex_lt(
                    self.ordered_entry(
                        ghost_id,
                        group_fields,
                        order,
                        (#[trigger] listed[i]).0,
                        listed[i].1,
                    ).0,
                    self.ordered_entry(
                        ghost_id,
                        group_fields,
                        order,
                        (#[trigger] listed[j]).0,
                        listed[j].1,
                    ).0,
                ),
            forall|i: int|
                0 <= i < listed.len() ==> vstd::utf8::encode_utf8((#[trigger] listed[i]).0).len()
                    <= ghost_keys::MAX_GROUP_KEY && self.decoded(self.encoded(listed[i].1))
                    == Some(listed[i].1),
            self.is_ranked(self.rows_of(group_fields, groups), group_fields, order, n, r),
        ensures
            r == self.ordered_rows(group_fields, first_rows(self.ordered_values(listed), n)),
    {
        let lt = self.row_order(group_fields, order);
        let rows = self.rows_of(group_fields, listed);
        let all = self.rows_of(group_fields, groups);
        let row = |g: (Seq<char>, AggregateStateV)| self.row_of(group_fields, g.0, g.1);
        sort::lemma_map_keeps_items(listed, groups, row);
        assert(rows =~= listed.map_values(row));
        assert(all =~= groups.map_values(row));
        self.lemma_row_order(group_fields, order);
        assert forall|i: int, j: int| 0 <= i < j < rows.len() implies lt(
            #[trigger] rows[i],
            #[trigger] rows[j],
        ) by {
            assert(listed[i] == listed[i] && listed[j] == listed[j]);
            self.law_entries_lie_as_rows_rank(
                ghost_id,
                group_fields,
                order,
                listed[i],
                listed[j],
            );
        }
        assert(sort::sorted(rows, lt)) by {
            assert forall|i: int, j: int| 0 <= i < j < rows.len() implies !lt(
                #[trigger] rows[j],
                #[trigger] rows[i],
            ) by {
                assert(lt(rows[i], rows[j]));
                if lt(rows[j], rows[i]) {
                    assert(lt(rows[i], rows[i]));
                }
            }
        }
        assert(sort::told_apart(rows, lt)) by {
            assert forall|x: Map<Seq<char>, ValueV>, y: Map<Seq<char>, ValueV>|
                #![trigger rows.contains(x), rows.contains(y)]
                rows.contains(x) && rows.contains(y) && x != y implies lt(x, y) || lt(y, x) by {
                let i = choose|i: int| 0 <= i < rows.len() && rows[i] == x;
                let j = choose|j: int| 0 <= j < rows.len() && rows[j] == y;
                if i < j {
                    assert(lt(rows[i], rows[j]));
                } else {
                    assert(lt(rows[j], rows[i]));
                }
            }
        }
        let s = choose|s: Seq<Map<Seq<char>, ValueV>>|
            s.to_multiset() == all.to_multiset() && #[trigger] sort::sorted(s, lt) && r
                == first_rows(s, n);
        sort::lemma_sorted_is_unique(rows, s, lt);
        let part = first_rows(listed, n);
        assert(first_rows(self.ordered_values(listed), n) =~= self.ordered_values(part));
        assert(r =~= self.rows_of(group_fields, part));
        self.lemma_read_back(group_fields, part);
    }

    /// What is written for groups in the order of a metric, and read back as far as
    /// the first entries in the order of their keys, is what ranking the rows of all
    /// groups with members gives: each row by its metric in the requested direction,
    /// among equal metrics by the text of its group, the first `n`. `scan` are the
    /// entries in the order of their keys. No two groups share a key, and the aggregate
    /// layer reads back the states that it wrote.
    pub proof fn law_emitted_order_is_ranking(
        &self,
        ghost_id: u16,
        group_fields: Seq<Seq<char>>,
        order: MetricOrderV,
        groups: Seq<(Seq<char>, AggregateStateV)>,
        scan: Seq<(Seq<u8>, Seq<u8>)>,
        n: nat,
        r: Seq<Map<Seq<char>, ValueV>>,
    )
        requires
            metric_order::keys_distinct(
                self.ordered_entries(ghost_id, group_fields, order, groups),
            ),
            scan.to_multiset() == self.ordered_entries(
                ghost_id,
                group_fields,
                order,
                groups,
            ).to_multiset(),
            forall|i: int, j: int|
                0 <= i < j < scan.len() ==> bytes::lex_lt(
                    (#[trigger] scan[i]).0,
                    (#[trigger] scan[j]).0,
                ),
            forall|i: int|
                0 <= i < groups.len() && (#[trigger] groups[i]).1.count > 0
                    ==> vstd::utf8::encode_utf8(groups[i].0).len() <= ghost_keys::MAX_GROUP_KEY
                    && self.decoded(self.encoded(groups[i].1)) == Some(groups[i].1),
            self.is_ranked(
                self.rows_of(group_fields, with_members(groups)),
                group_fields,
                order,
                n,
                r,
            ),
        ensures
            r == self.ordered_rows(
                group_fields,
                first_rows(scan.map_values(|e: (Seq<u8>, Seq<u8>)| e.1), n),
            ),
    {
        let live = with_members(groups);
        let entries = self.ordered_entries(ghost_id, group_fields, order, groups);
        let entry = |g: (Seq<char>, AggregateStateV)|
            self.ordered_entry(ghost_id, group_fields, order, g.0, g.1);
        self.lemma_entries_of_members(ghost_id, group_fields, order, groups);
        assert(entries =~= live.map_values(entry));
        scan.to_multiset_ensures();
        entries.to_multiset_ensures();
        let place = |i: int| choose|j: int| 0 <= j < live.len() && entries[j] == scan[i];
        let listed = Seq::new(scan.len(), |i: int| live[place(i)]);
        assert forall|i: int| 0 <= i < scan.len() implies 0 <= #[trigger] place(i) < live.len()
            && entries[place(i)] == scan[i] by {
            assert(scan.contains(scan[i]));
            assert(scan.to_multiset().count(scan[i]) > 0);
            assert(entries.to_multiset().count(scan[i]) > 0);
            assert(entries.contains(scan[i]));
            let j = choose|j: int| 0 <= j < entries.len() && entries[j] == scan[i];
            assert(0 <= j < live.len() && entries[j] == scan[i]);
        }
        assert forall|i: int| 0 <= i < scan.len() implies entry(#[trigger] listed[i]) == scan[i] by {
            assert(0 <= place(i) < live.len());
            assert(entries[place(i)] == entry(live[place(i)]));
        }
        assert(listed.to_multiset() == live.to_multiset()) by {
            assert forall|i: int, j: int|
                0 <= i < listed.len() && 0 <= j < listed.len() && i != j implies listed[i]
                != listed[j] by {
                assert(entry(listed[i]) == scan[i] && entry(listed[j]) == scan[j]);
                if i < j {
                    bytes::lemma_lex_irreflexive(scan[i].0);
                } else {
                    bytes::lemma_lex_irreflexive(scan[j].0);
                }
            }
            assert forall|i: int, j: int|
                0 <= i < live.len() && 0 <= j < live.len() && i != j implies live[i] != live[j] by {
                assert(entries[i] == entry(live[i]) && entries[j] == entry(live[j]));
                assert(entries[i].0 != entries[j].0);
            }
            assert forall|g: (Seq<char>, AggregateStateV)|
                listed.contains(g) <==> live.contains(g) by {
                if listed.contains(g) {
                    let i = choose|i: int| 0 <= i < listed.len() && listed[i] == g;
                    assert(0 <= place(i) < live.len());
                    assert(live[place(i)] == g);
                }
                if live.contains(g) {
                    let j = choose|j: int| 0 <= j < live.len() && live[j] == g;
                    assert(entries[j] == entry(g));
                    assert(entries.contains(entries[j]));
                    assert(entries.to_multiset().count(entries[j]) > 0);
                    assert(scan.contains(entries[j]));
                    let i = choose|i: int| 0 <= i < scan.len() && scan[i] == entries[j];
                    let k = place(i);
                    assert(0 <= k < live.len() && entries[k] == scan[i]);
                    if k != j {
                        assert(entries[k].0 != entries[j].0);
                    }
                    assert(listed[i] == g);
                }
            }
            lemma_same_items(listed, live);
        }
        assert forall|i: int, j: int| 0 <= i < j < listed.len() implies bytes::lex_lt(
            self.ordered_entry(
                ghost_id,
                group_fields,
                order,
                (#[trigger] listed[i]).0,
                listed[i].1,
            ).0,
            self.ordered_entry(
                ghost_id,
                group_fields,
                order,
                (#[trigger] listed[j]).0,
                listed[j].1,
            ).0,
        ) by {
            assert(entry(listed[i]) == scan[i] && entry(listed[j]) == scan[j]);
        }
        lemma_members(groups);
        assert forall|i: int| 0 <= i < listed.len() implies vstd::utf8::encode_utf8(
            (#[trigger] listed[i]).0,
        ).len() <= ghost_keys::MAX_GROUP_KEY && self.decoded(self.encoded(listed[i].1)) == Some(
            listed[i].1,
        ) by {
            assert(0 <= place(i) < live.len());
            assert(groups.contains(live[place(i)]));
            let k = choose|k: int| 0 <= k < groups.len() && groups[k] == live[place(i)];
            assert(groups[k].1.count > 0);
        }
        self.law_ordered_read_is_ranking(
            ghost_id,
            group_fields,
            order,
            live,
            listed,
            n,
            r,
        );
        let vals = scan.map_values(|e: (Seq<u8>, Seq<u8>)| e.1);
        assert(self.ordered_values(listed) =~= vals) by {
            assert forall|i: int| 0 <= i < listed.len() implies #[trigger] self.ordered_values(
                listed,
            )[i] == vals[i] by {
                assert(entry(listed[i]) == scan[i]);
            }
        }
    }

    proof fn lemma_entries_of_members(
        &self,
        ghost_id: u16,
        group_fields: Seq<Seq<char>>,
        order: MetricOrderV,
        groups: Seq<(Seq<char>, AggregateStateV)>,
    )
        ensures
            self.ordered_entries(ghost_id, group_fields, order, groups) == with_members(
                groups,
            ).map_values(
                |g: (Seq<char>, AggregateStateV)|
                    self.ordered_entry(ghost_id, group_fields, order, g.0, g.1),
            ),
        decreases groups.len(),
    {
        let entry = |g: (Seq<char>, AggregateStateV)|
            self.ordered_entry(ghost_id, group_fields, order, g.0, g.1);
        if groups.len() > 0 {
            let d = groups.drop_last();
            self.lemma_entries_of_members(ghost_id, group_fields, order, d);
            if groups.last().1.count > 0 {
                assert(with_members(groups).map_values(entry) =~= with_members(d).map_values(
                    entry,
                ).push(entry(groups.last())));
            }
        }
        assert(self.ordered_entries(ghost_id, group_fields, order, groups) =~= with_members(
            groups,
        ).map_values(entry));
    }
}

/// The groups that have members.
pub open spec fn with_members(groups: Seq<(Seq<char>, AggregateStateV)>) -> Seq<
    (Seq<char>, AggregateStateV),
>
    decreases groups.len(),
{
    if groups.len() == 0 {
        Seq::empty()
    } else if groups.last().1.count > 0 {
        with_members(groups.drop_last()).push(groups.last())
    } else {
        with_members(groups.drop_last())
    }
}

proof fn lemma_members(groups: Seq<(Seq<char>, AggregateStateV)>)
    ensures
        forall|i: int|
            0 <= i < with_members(groups).len() ==> (#[trigger] with_members(groups)[i]).1.count > 0
                && groups.contains(with_members(groups)[i]),
    decreases groups.len(),
{
    if groups.len() > 0 {
        let d = groups.drop_last();
        let w = with_members(groups);
        let v = with_members(d);
        lemma_members(d);
        assert forall|i: int| 0 <= i < w.len() implies (#[trigger] w[i]).1.count > 0
            && groups.contains(w[i]) by {
            if i < v.len() {
                assert(w[i] == v[i]);
                let k = choose|k: int| 0 <= k < d.len() && d[k] == v[i];
                assert(groups[k] == w[i]);
            } else {
                assert(groups[groups.len() - 1] == w[i]);
            }
        }
    }
}

proof fn lemma_same_items<T>(a: Seq<T>, b: Seq<T>)
    requires
        a.no_duplicates(),
        b.no_duplicates(),
        forall|x: T| a.contains(x) <==> b.contains(x),
    ensures
        a.to_multiset() == b.to_multiset(),
{
    a.to_multiset_ensures();
    b.to_multiset_ensures();
    a.lemma_multiset_has_no_duplicates();
    b.lemma_multiset_has_no_duplicates();
    assert forall|x: T| #[trigger] a.to_multiset().count(x) == b.to_multiset().count(x) by {
        if a.contains(x) {
            assert(a.to_multiset().contains(x));
            assert(b.to_multiset().contains(x));
        } else {
            assert(a.to_multiset().count(x) == 0);
            assert(b.to_multiset().count(x) == 0);
        }
    }
    assert(a.to_multiset() =~= b.to_multiset());
}

proof fn lemma_str_transitive(a: Seq<char>, b: Seq<char>, c: Seq<char>)
    ensures
        bytes::str_lt(a, b) && bytes::str_lt(b, c) ==> bytes::str_lt(a, c),
{
    if bytes::str_lt(a, b) && bytes::str_lt(b, c) {
        bytes::lemma_lex_transitive(
            vstd::utf8::encode_utf8(a),
            vstd::utf8::encode_utf8(b),
            vstd::utf8::encode_utf8(c),
        );
    }
}

/// Where two rows have a number under the name, the earlier one's is not less, and one
/// without a number comes before none with a finite one.
pub open spec fn metric_falls(s: Seq<Map<Seq<char>, ValueV>>, label: Seq<char>) -> bool {
    &&& forall|i: int, j: int, y: u64|
        #![trigger s[i], aggregate::is_number(aggregate::field_in(s[j], label), y)]
        0 <= i < j < s.len() && !aggregate::is_numeric(aggregate::field_in(s[i], label))
            && aggregate::is_number(aggregate::field_in(s[j], label), y) ==> !float::is_finite(y)
    &&& forall|i: int, j: int, x: u64, y: u64|
        0 <= i < j < s.len() && #[trigger] aggregate::is_number(
            aggregate::field_in(s[i], label),
            x,
        ) && #[trigger] aggregate::is_number(aggregate::field_in(s[j], label), y)
            ==> !float::float_lt(x, y)
}

/// Where two rows have a number under the name, the earlier one's is not greater, and one
/// without a number comes after none with a finite one.
pub open spec fn metric_rises(s: Seq<Map<Seq<char>, ValueV>>, label: Seq<char>) -> bool {
    &&& forall|i: int, j: int, x: u64|
        #![trigger aggregate::is_number(aggregate::field_in(s[i], label), x), s[j]]
        0 <= i < j < s.len() && !aggregate::is_numeric(aggregate::field_in(s[j], label))
            && aggregate::is_number(aggregate::field_in(s[i], label), x) ==> !float::is_finite(x)
    &&& forall|i: int, j: int, x: u64, y: u64|
        0 <= i < j < s.len() && #[trigger] aggregate::is_number(
            aggregate::field_in(s[i], label),
            x,
        ) && #[trigger] aggregate::is_number(aggregate::field_in(s[j], label), y)
            ==> !float::float_lt(y, x)
}

/// `s` is the rows in some order, and `r` is its first `n`.
pub open spec fn begins_arrangement(
    s: Seq<Map<Seq<char>, ValueV>>,
    rows: Seq<Map<Seq<char>, ValueV>>,
    n: nat,
    r: Seq<Map<Seq<char>, ValueV>>,
) -> bool {
    &&& s.to_multiset() == rows.to_multiset()
    &&& r.is_prefix_of(s)
    &&& r.len() == if n < s.len() {
        n
    } else {
        s.len()
    }
}

impl<
    FT: Fn(&Value) -> String,
    EK: Fn(&Vec<String>) -> String,
    PT: Fn(&str) -> Vec<String>,
    FV: Fn(&str) -> Value,
    RS: Fn(&AggregateState) -> Vec<(String, Value)>,
    SH: Fn(&Value) -> String,
    EN: Fn(&AggregateState) -> Vec<u8>,
    DE: Fn(&[u8]) -> Option<AggregateState>,
> RowOps<FT, EK, PT, FV, RS, SH, EN, DE> {
    /// The best groups by a metric are the first ones of all groups in falling order of
    /// the metric, or in rising order where that is asked for. So no group that is left
    /// out has a better metric than one that is answered.
    pub proof fn law_best_groups_have_best_metric(
        &self,
        rows: Seq<Map<Seq<char>, ValueV>>,
        top: TopStmt,
        by: TopBy,
        group_fields: Seq<Seq<char>>,
        v: Vec<Fields>,
    )
        requires
            top.by == Some(by),
            self.is_top(rows, top, group_fields, Ok::<Vec<Fields>, XyzError>(v)),
        ensures
            exists|s: Seq<Map<Seq<char>, ValueV>>| #[trigger]
                begins_arrangement(s, rows, top.n as nat, metric_order::rows_view(v@)) && if top.descending {
                    metric_falls(s, top_label(by))
                } else {
                    metric_rises(s, top_label(by))
                },
    {
        let label = top_label(by);
        let order = MetricOrderV { label, descending: top.descending };
        let r = metric_order::rows_view(v@);
        let lt = self.row_order(group_fields, order);
        let s = choose|s: Seq<Map<Seq<char>, ValueV>>|
            s.to_multiset() == rows.to_multiset() && #[trigger] sort::sorted(s, lt) && r
                == first_rows(s, top.n as nat);
        assert forall|i: int, j: int, x: u64, y: u64|
            0 <= i < j < s.len() && #[trigger] aggregate::is_number(
                aggregate::field_in(s[i], label),
                x,
            ) && #[trigger] aggregate::is_number(
                aggregate::field_in(s[j], label),
                y,
            ) implies if top.descending {
            !float::float_lt(x, y)
        } else {
            !float::float_lt(y, x)
        } by {
            assert(!lt(s[j], s[i]));
            assert(metric_order::metric_of(s[i], label) == x);
            assert(metric_order::metric_of(s[j], label) == y);
            float::law_total_order_keeps_numbers(x, y);
            float::law_total_order_keeps_numbers(y, x);
        }
        assert forall|i: int, j: int, y: u64|
            #![trigger s[i], aggregate::is_number(aggregate::field_in(s[j], label), y)]
            0 <= i < j < s.len() && !aggregate::is_numeric(aggregate::field_in(s[i], label))
                && aggregate::is_number(
                aggregate::field_in(s[j], label),
                y,
            ) && top.descending implies !float::is_finite(y) by {
            assert(!lt(s[j], s[i]));
            assert(metric_order::metric_of(s[i], label) == float::NEG_INFINITY_BITS);
            assert(metric_order::metric_of(s[j], label) == y);
        }
        assert forall|i: int, j: int, x: u64|
            #![trigger aggregate::is_number(aggregate::field_in(s[i], label), x), s[j]]
            0 <= i < j < s.len() && !aggregate::is_numeric(aggregate::field_in(s[j], label))
                && aggregate::is_number(
                aggregate::field_in(s[i], label),
                x,
            ) && !top.descending implies !float::is_finite(x) by {
            assert(!lt(s[j], s[i]));
            assert(metric_order::metric_of(s[j], label) == float::NEG_INFINITY_BITS);
            assert(metric_order::metric_of(s[i], label) == x);
        }
        assert(begins_arrangement(s, rows, top.n as nat, r));
    }

    /// Without a metric the first groups are answered as they come.
    pub proof fn law_first_groups_are_answered(
        &self,
        rows: Seq<Map<Seq<char>, ValueV>>,
        top: TopStmt,
        group_fields: Seq<Seq<char>>,
        v: Vec<Fields>,
    )
        requires
            top.by is None,
            self.is_top(rows, top, group_fields, Ok::<Vec<Fields>, XyzError>(v)),
        ensures
            begins_arrangement(rows, rows, top.n as nat, metric_order::rows_view(v@)),
    {
    }
}

/// A shaped record has the fields that were named and that it had, with their values, and
/// no other; what it is does not change.
pub proof fn law_shape_keeps_named_fields(r: RecordV, names: Seq<Seq<char>>, f: Seq<char>)
    ensures
        shaped(r, names).fields.contains_key(f) <==> r.fields.contains_key(f) && names.contains(f),
        shaped(r, names).fields.contains_key(f) ==> shaped(r, names).fields[f] == r.fields[f],
        shaped(r, names).lid == r.lid,
        shaped(r, names).lobe_name == r.lobe_name,
        shaped(r, names).created_at == r.created_at,
        shaped(r, names).updated_at == r.updated_at,
{
}

impl Runner {
    /// Records of which a search scored only a part are neither changed, deleted nor
    /// aggregated; every other step that works on records gets those there are.
    pub proof fn law_partial_records_are_not_consumed(
        &self,
        k: StepKind,
        r: Result<StepAction, XyzError>,
    )
        requires
            self.is_begun(k, r),
        ensures
            self.stop() is Some && (k is Assign || k is Delete || k is Aggregate) ==> r is Err,
            self.stop() is None && self.records() is Some && (k is Assign || k is Delete
                || k is Aggregate) ==> (r matches Ok(StepAction::Last(w)) && Some(w)
                == self.records()),
            self.records() is Some && (k is Pull || k is Nearest || k is Follow || k is Shape
                || k matches StepKind::Top { by_metric: false }) ==> (r matches Ok(
                StepAction::On(w),
            ) && Some(w) == self.records()),
            self.records() is None && !(k is Find || k is Scan || k is ScanGhost) ==> r is Err,
            k is Find || k is Scan || k is ScanGhost ==> (r matches Ok(StepAction::Source)),
    {
    }
}

/// The groups that have members are those that count some, in their order.
pub proof fn law_groups_with_members_are_counted(groups: Seq<(Seq<char>, AggregateStateV)>)
    ensures
        with_members(groups) == groups.filter(|g: (Seq<char>, AggregateStateV)| g.1.count > 0),
    decreases groups.len(),
{
    reveal(Seq::filter);
    if groups.len() > 0 {
        law_groups_with_members_are_counted(groups.drop_last());
    }
}

/// The next step works on the records that a step answered with, of a page too. An answer
/// that is none of records ends the pipeline.
pub proof fn law_records_go_on(result: QueryResult, r: Result<Vec<Record>, XyzError>)
    requires
        is_extracted(result, r),
    ensures
        result matches QueryResult::Records(v) ==> r == Ok::<Vec<Record>, XyzError>(v),
        result is PaginatedRecords ==> r == Ok::<Vec<Record>, XyzError>(
            result->PaginatedRecords_records,
        ),
        !(result is Records || result is PaginatedRecords) ==> r is Err,
{
}

} // verus!
