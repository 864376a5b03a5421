//! The status snapshot served on `GET /v1/chat`: one entry per configured
//! endpoint, saying whether it has been scraped, whether it answered, its
//! load, and whether it is the endpoint marked as best.
use vstd::prelude::*;
use crate::opt_view;
use crate::ranking::{is_best, UNREACHABLE};

verus! {

/// What the last scrape of an endpoint found.
#[derive(Debug, Clone, Copy, PartialEq, Eq, Structural)]
pub enum EndpointStatus {
    /// Not scraped yet.
    Pending,
    /// The last scrape failed.
    Unreachable,
    /// The last scrape succeeded.
    Healthy,
}

impl EndpointStatus {
    /// The name of the status in the snapshot.
    pub fn label(&self) -> (s: &'static str)
        ensures
            s@ == (match *self {
                EndpointStatus::Pending => "pending"@,
                EndpointStatus::Unreachable => "unreachable"@,
                EndpointStatus::Healthy => "ok"@,
            }),
    {
        match self {
            EndpointStatus::Pending => "pending",
            EndpointStatus::Unreachable => "unreachable",
            EndpointStatus::Healthy => "ok",
        }
    }
}

/// The entry of the status snapshot for one endpoint.
#[derive(Debug, Clone)]
pub struct EndpointReport {
    pub endpoint: String,
    /// The load key, given only for an endpoint that answered.
    pub score: Option<u64>,
    pub status: EndpointStatus,
    /// The endpoint is the one marked as best.
    pub top: bool,
}

/// The status that a score stands for.
pub open spec fn status_of(score: Option<u64>) -> EndpointStatus {
    match score {
        None => EndpointStatus::Pending,
        Some(k) => if k >= UNREACHABLE {
            EndpointStatus::Unreachable
        } else {
            EndpointStatus::Healthy
        },
    }
}

/// The score that the snapshot shows: only that of an endpoint that answered.
pub open spec fn shown_score(score: Option<u64>) -> Option<u64> {
    match score {
        Some(k) => if k < UNREACHABLE {
            Some(k)
        } else {
            None
        },
        None => None,
    }
}

/// The marked endpoint's URL, the empty string when none is marked.
pub open spec fn marked_url(top: Option<Seq<char>>) -> Seq<char> {
    match top {
        Some(t) => t,
        None => Seq::empty(),
    }
}

/// `r` is the snapshot entry of `url` with score `score` when `top` is marked.
pub open spec fn reports(r: EndpointReport, url: Seq<char>, score: Option<u64>, top: Option<Seq<char>>) -> bool {
    &&& r.endpoint@ == url
    &&& r.score == shown_score(score)
    &&& r.status == status_of(score)
    &&& r.top == (url == marked_url(top))
}

/// The status snapshot of the fleet, in the order of the configuration.
///
/// `scores[i]` is what the scraper last recorded for `endpoints[i]`, and
/// `top` the endpoint marked as best, if any.
pub fn status_report(endpoints: &Vec<String>, scores: &Vec<Option<u64>>, top: &Option<String>) -> (report: Vec<EndpointReport>)
    requires
        scores@.len() == endpoints@.len(),
    ensures
        report@.len() == endpoints@.len(),
        forall|i: int|
            0 <= i < endpoints@.len() ==> reports(#[trigger] report@[i], endpoints@[i]@, scores@[i], opt_view(*top)),
{
    let marked: String = match top {
        Some(t) => t.clone(),
        None => String::new(),
    };
    let mut report: Vec<EndpointReport> = Vec::new();
    for i in 0..endpoints.len()
        invariant
            scores@.len() == endpoints@.len(),
            marked@ == marked_url(opt_view(*top)),
            report@.len() == i,
            forall|j: int|
                0 <= j < i ==> reports(#[trigger] report@[j], endpoints@[j]@, scores@[j], opt_view(*top)),
    {
        let score = scores[i];
        let status = match score {
            None => EndpointStatus::Pending,
            Some(k) => if k >= UNREACHABLE {
                EndpointStatus::Unreachable
            } else {
                EndpointStatus::Healthy
            },
        };
        let shown = match score {
            Some(k) => if k < UNREACHABLE {
                Some(k)
            } else {
                None
            },
            None => None,
        };
        let is_marked = endpoints[i] == marked;
        report.push(EndpointReport { endpoint: endpoints[i].clone(), score: shown, status, top: is_marked });
    }
    report
}


/// The endpoint a scrape marks as best shows in the snapshot taken on the
/// same scores as healthy, with its load, and as the marked one.
pub proof fn law_marked_best_shows_healthy(
    endpoints: Seq<Seq<char>>,
    scores: Seq<Option<u64>>,
    i: int,
    r: EndpointReport,
)
    requires
        scores.len() == endpoints.len(),
        is_best(scores, i),
        reports(r, endpoints[i], scores[i], Some(endpoints[i])),
    ensures
        r.status == EndpointStatus::Healthy,
        r.score == scores[i],
        r.top,
{
}

/// Every entry of the snapshot, in plain terms: it names its endpoint; an
/// endpoint never scraped is pending and shows no load; one whose last scrape
/// failed is unreachable and shows no load; any other is healthy and shows
/// its load, whether or not it is the marked one; and it is flagged as the
/// marked one exactly when its URL is the mark (with no mark, only the empty
/// URL is flagged).
pub proof fn law_report_entry(
    endpoints: Seq<Seq<char>>,
    scores: Seq<Option<u64>>,
    top: Option<Seq<char>>,
    report: Seq<EndpointReport>,
    i: int,
)
    requires
        scores.len() == endpoints.len(),
        report.len() == endpoints.len(),
        forall|j: int| 0 <= j < endpoints.len() ==> reports(#[trigger] report[j], endpoints[j], scores[j], top),
        0 <= i < endpoints.len(),
    ensures
        report[i].endpoint@ == endpoints[i],
        scores[i] is None ==> report[i].status == EndpointStatus::Pending && report[i].score is None,
        scores[i] == Some(UNREACHABLE) ==> report[i].status == EndpointStatus::Unreachable
            && report[i].score is None,
        forall|k: u64| scores[i] == Some(k) && k < UNREACHABLE ==> report[i].status == EndpointStatus::Healthy
            && report[i].score == Some(k),
        top == Some(endpoints[i]) ==> report[i].top,
        forall|t: Seq<char>| top == Some(t) && t != endpoints[i] ==> !report[i].top,
        top is None ==> (report[i].top <==> endpoints[i].len() == 0),
{
    assert(reports(report[i], endpoints[i], scores[i], top));
    if top is None {
        if endpoints[i].len() == 0 {
            assert(endpoints[i] =~= Seq::<char>::empty());
        }
    }
}

/// The snapshot has one entry per endpoint, in the order of the
/// configuration, and marks at most the endpoints whose URL is the mark:
/// two endpoints with different URLs are never both flagged.
pub proof fn law_at_most_one_url_flagged(
    endpoints: Seq<Seq<char>>,
    scores: Seq<Option<u64>>,
    top: Option<Seq<char>>,
    report: Seq<EndpointReport>,
    i: int,
    j: int,
)
    requires
        scores.len() == endpoints.len(),
        report.len() == endpoints.len(),
        forall|k: int| 0 <= k < endpoints.len() ==> reports(#[trigger] report[k], endpoints[k], scores[k], top),
        0 <= i < endpoints.len(),
        0 <= j < endpoints.len(),
        report[i].top,
        report[j].top,
    ensures
        endpoints[i] == endpoints[j],
{
    assert(reports(report[i], endpoints[i], scores[i], top));
    assert(reports(report[j], endpoints[j], scores[j], top));
}

} // verus!
