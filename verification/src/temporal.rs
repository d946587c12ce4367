use vstd::prelude::*;

use chrono::Datelike;

use crate::context::take_upto;
use crate::hierarchy::node_views;
use crate::lru::kept;
use crate::model::{date_key, CalendarDate, Node, NodeView};
use crate::text::{contains_seq, spec_lowercase, str_contains, str_starts_with, string_of, to_lowercase};

verus! {

/// How a temporal reference of a query pins down time.
#[derive(Debug, Clone, Copy, PartialEq, Eq, Structural)]
pub enum TemporalType {
    /// A calendar date.
    Exact,
    /// A day relative to today.
    Relative,
    /// An occasion.
    Event,
    /// A vague time.
    Fuzzy,
}

/// A temporal reference found in a query.
#[derive(Debug)]
pub struct TemporalReference {
    pub raw_text: String,
    pub parsed_date: Option<CalendarDate>,
    pub date_range: Option<(CalendarDate, CalendarDate)>,
    pub temporal_type: TemporalType,
}

/// The value of a temporal reference.
pub struct TemporalView {
    pub raw_text: Seq<char>,
    pub parsed_date: Option<CalendarDate>,
    pub date_range: Option<(CalendarDate, CalendarDate)>,
    pub temporal_type: TemporalType,
}

impl View for TemporalReference {
    type V = TemporalView;

    open spec fn view(&self) -> TemporalView {
        TemporalView {
            raw_text: self.raw_text@,
            parsed_date: self.parsed_date,
            date_range: self.date_range,
            temporal_type: self.temporal_type,
        }
    }
}

/// The values of a list of temporal references.
pub open spec fn temporal_views(v: Seq<TemporalReference>) -> Seq<TemporalView> {
    v.map_values(|r: TemporalReference| r@)
}

/// Today's date in UTC.
///
/// Trusted: calls `chrono::Utc::now` and takes the `date_naive` of it; the date is one
/// chrono represents, so it is valid. Nothing else is stated of it.
#[verifier::external_body]
pub(crate) fn utc_today() -> (r: CalendarDate)
    ensures
        r.wf(),
{
    let d = chrono::Utc::now().date_naive();
    CalendarDate { year: d.year(), month: d.month(), day: d.day() }
}

/// The day `days` days before `date` (`NaiveDate::checked_sub_days`), when chrono can
/// represent it.
pub uninterp spec fn spec_days_before(date: CalendarDate, days: u64) -> Option<CalendarDate>;

/// The day `days` days before `date`.
///
/// Trusted: builds the `NaiveDate` of `date` and calls `NaiveDate::checked_sub_days`;
/// the result is named `spec_days_before`, and a day it gives is a valid date.
#[verifier::external_body]
fn days_before(date: CalendarDate, days: u64) -> (r: Option<CalendarDate>)
    requires
        date.wf(),
    ensures
        r == spec_days_before(date, days),
        r matches Some(d) ==> d.wf(),
{
    chrono::NaiveDate::from_ymd_opt(date.year, date.month, date.day)
        .and_then(|d| d.checked_sub_days(chrono::Days::new(days)))
        .map(|d| CalendarDate { year: d.year(), month: d.month(), day: d.day() })
}

/// The temporal references the fallback finds in a (lower-cased) query: "yesterday"
/// as the day before today, "birthday" as an occasion, and "last week" as the range
/// from a week ago to today, in that order.
pub open spec fn temporal_refs_spec(
    lowered: Seq<char>,
    today: CalendarDate,
    yesterday: Option<CalendarDate>,
    week_start: Option<CalendarDate>,
) -> Seq<TemporalView> {
    let y = if contains_seq(lowered, "yesterday"@) {
        seq![TemporalView {
            raw_text: "yesterday"@,
            parsed_date: yesterday,
            date_range: None,
            temporal_type: TemporalType::Relative,
        }]
    } else {
        Seq::empty()
    };
    let b = if contains_seq(lowered, "birthday"@) {
        seq![TemporalView {
            raw_text: "birthday"@,
            parsed_date: None,
            date_range: None,
            temporal_type: TemporalType::Event,
        }]
    } else {
        Seq::empty()
    };
    let w = if contains_seq(lowered, "last week"@) {
        seq![TemporalView {
            raw_text: "last week"@,
            parsed_date: None,
            date_range: match week_start {
                Some(s) => Some((s, today)),
                None => None,
            },
            temporal_type: TemporalType::Relative,
        }]
    } else {
        Seq::empty()
    };
    y + b + w
}

/// The temporal references of a query relative to a given today, with the day before
/// it and the day a week before it (`None` where the calendar has no such day).
pub fn temporal_refs_on(
    query: &str,
    today: CalendarDate,
    yesterday: Option<CalendarDate>,
    week_start: Option<CalendarDate>,
) -> (r: Vec<TemporalReference>)
    ensures
        temporal_views(r@) == temporal_refs_spec(spec_lowercase(query@), today, yesterday, week_start),
{
    let lowered = to_lowercase(query);
    let ghost q = lowered@;
    let mut refs: Vec<TemporalReference> = Vec::new();
    if str_contains(lowered.as_str(), "yesterday") {
        refs.push(
            TemporalReference {
                raw_text: string_of("yesterday"),
                parsed_date: yesterday,
                date_range: None,
                temporal_type: TemporalType::Relative,
            },
        );
    }
    if str_contains(lowered.as_str(), "birthday") {
        refs.push(
            TemporalReference {
                raw_text: string_of("birthday"),
                parsed_date: None,
                date_range: None,
                temporal_type: TemporalType::Event,
            },
        );
    }
    if str_contains(lowered.as_str(), "last week") {
        let range = match week_start {
            Some(s) => Some((s, today)),
            None => None,
        };
        refs.push(
            TemporalReference {
                raw_text: string_of("last week"),
                parsed_date: None,
                date_range: range,
                temporal_type: TemporalType::Relative,
            },
        );
    }
    proof {
        assert(temporal_views(refs@) =~= temporal_refs_spec(q, today, yesterday, week_start));
    }
    refs
}

/// The temporal references of a query relative to today's UTC date: its kinds and texts
/// as `temporal_refs_spec` lists them, for whatever day today is.
pub fn extract_temporal_refs_fallback(query: &str) -> (r: Vec<TemporalReference>)
    ensures
        exists|today: CalendarDate|
            temporal_views(r@) == #[trigger] temporal_refs_spec(
                spec_lowercase(query@),
                today,
                spec_days_before(today, 1),
                spec_days_before(today, 7),
            ),
{
    let today = utc_today();
    let yesterday = days_before(today, 1);
    let week_start = days_before(today, 7);
    temporal_refs_on(query, today, yesterday, week_start)
}

/// Whether a node was created on a day: its creation stamp starts with the day's
/// `%Y-%m-%d` key.
pub open spec fn created_on(n: NodeView, day: CalendarDate) -> bool {
    date_key(day).is_prefix_of(n.created_at)
}

/// The nodes, in order, created on a day.
pub open spec fn nodes_on_day(nodes: Seq<NodeView>, day: CalendarDate) -> Seq<NodeView> {
    kept(nodes, |n: NodeView| created_on(n, day))
}

/// The first `limit` nodes, in order, created on a day.
pub fn nodes_created_on(nodes: &Vec<Node>, day: &CalendarDate, limit: usize) -> (r: Vec<Node>)
    ensures
        node_views(r@) == take_upto(nodes_on_day(node_views(nodes@), *day), limit as nat),
{
    let key = day.key();
    let ghost nv = node_views(nodes@);
    let ghost keep = |n: NodeView| created_on(n, *day);
    let mut out: Vec<Node> = Vec::new();
    let mut i: usize = 0;
    while i < nodes.len() && out.len() < limit
        invariant
            i <= nodes@.len(),
            key@ == date_key(*day),
            nv == node_views(nodes@),
            keep == (|n: NodeView| created_on(n, *day)),
            node_views(out@) == kept(nv.take(i as int), keep),
            out@.len() <= limit,
        decreases nodes@.len() - i,
    {
        proof {
            crate::lru::lemma_kept_take(nv, keep, i as int);
        }
        let ghost before = node_views(out@);
        if str_starts_with(nodes[i].created_at.as_str(), key.as_str()) {
            out.push(nodes[i].dup());
            proof {
                assert(node_views(out@) =~= before.push(nv[i as int]));
            }
        }
        i = i + 1;
    }
    proof {
        let all = kept(nv, keep);
        crate::lru::lemma_kept_prefix(nv, keep, i as int);
        if i == nodes@.len() {
            assert(nv.take(i as int) =~= nv);
        } else if (limit as nat) < all.len() {
            assert(all.take(limit as int) =~= node_views(out@));
        } else {
            assert(all =~= node_views(out@));
        }
    }
    out
}

} // verus!
