//! Catalog listing: page arithmetic and the filter a listing query asks for.
use vstd::prelude::*;

verus! {

/// The parameters of a catalog listing: page, page size, and optional filters.
#[derive(Clone, Debug)]
pub struct CompetitionQuery {
    pub page: Option<u32>,
    pub limit: Option<u32>,
    pub status: Option<String>,
    pub host: Option<String>,
    pub date_from: Option<String>,
    pub date_to: Option<String>,
}

/// One page of a listing, with the total number of matching records.
#[derive(Clone, Debug)]
pub struct PaginatedResponse<T> {
    pub data: Vec<T>,
    pub page: u32,
    pub limit: u32,
    pub total: u64,
}

/// The largest page size a listing serves.
pub const MAX_PAGE_SIZE: u32 = 100;

/// The page size when the query gives none.
pub const DEFAULT_PAGE_SIZE: u32 = 10;

/// What a listing keeps: records of this status, of this host, dated at or after
/// `date_from` and at or before `date_to` (milliseconds since the Unix epoch).
#[derive(Clone, Debug)]
pub struct CompetitionFilter {
    pub status: Option<String>,
    pub host: Option<String>,
    pub date_from: Option<i64>,
    pub date_to: Option<i64>,
}

/// The instant, in milliseconds since the Unix epoch, that chrono's `FromStr` for
/// `DateTime<Utc>` reads from a text, or `None` where it rejects it.
pub uninterp spec fn utc_millis(s: Seq<char>) -> Option<i64>;

/// Relies on `str::parse::<chrono::DateTime<chrono::Utc>>` and `timestamp_millis`.
#[verifier::external_body]
pub fn parse_utc_millis(s: &str) -> (r: Option<i64>)
    ensures
        r == utc_millis(s@),
{
    s.parse::<chrono::DateTime<chrono::Utc>>().ok().map(|d| d.timestamp_millis())
}

pub open spec fn text_view(o: Option<String>) -> Option<Seq<char>> {
    match o {
        Some(s) => Some(s@),
        None => None,
    }
}

/// A date bound: the parsed text, absent if the text is absent or does not parse.
pub open spec fn date_bound(o: Option<String>) -> Option<i64> {
    match o {
        Some(s) => utc_millis(s@),
        None => None,
    }
}

pub open spec fn spec_page(q: CompetitionQuery) -> u32 {
    match q.page {
        Some(p) => if p >= 1 {
            p
        } else {
            1
        },
        None => 1,
    }
}

pub open spec fn spec_limit(q: CompetitionQuery) -> u32 {
    match q.limit {
        Some(l) => if l <= MAX_PAGE_SIZE {
            l
        } else {
            MAX_PAGE_SIZE
        },
        None => DEFAULT_PAGE_SIZE,
    }
}

fn copy_text(o: &Option<String>) -> (r: Option<String>)
    ensures
        text_view(r) == text_view(*o),
{
    match o {
        Some(s) => Some(s.clone()),
        None => None,
    }
}

impl CompetitionQuery {
    /// The page asked for, counting from one; the first page when absent or zero.
    pub fn page_number(&self) -> (r: u32)
        ensures
            r == spec_page(*self),
            r >= 1,
    {
        match self.page {
            Some(p) => if p >= 1 {
                p
            } else {
                1
            },
            None => 1,
        }
    }

    /// The page size asked for, at most the largest page size; the default when absent.
    pub fn page_size(&self) -> (r: u32)
        ensures
            r == spec_limit(*self),
            r <= MAX_PAGE_SIZE,
    {
        match self.limit {
            Some(l) => if l <= MAX_PAGE_SIZE {
                l
            } else {
                MAX_PAGE_SIZE
            },
            None => DEFAULT_PAGE_SIZE,
        }
    }
}

/// How many records come before the page: `(page - 1) * limit`, the first page skipping
/// none.
pub fn pagination_skip(page: u32, limit: u32) -> (r: u64)
    ensures
        r == (if page >= 1 {
            (page - 1) as nat
        } else {
            0nat
        }) * limit,
{
    let before: u32 = if page >= 1 {
        page - 1
    } else {
        0
    };
    proof {
        assert((before as nat) * (limit as nat) <= 0xffff_ffff * 0xffff_ffff) by (nonlinear_arith)
            requires
                before <= 0xffff_ffff,
                limit <= 0xffff_ffff,
        ;
    }
    (before as u64) * (limit as u64)
}

/// The filter a listing query asks for: its status and host as given, and each date bound
/// that parses as a UTC timestamp; a date that does not parse sets no bound.
pub fn build_competition_filter(query: &CompetitionQuery) -> (r: CompetitionFilter)
    ensures
        text_view(r.status) == text_view(query.status),
        text_view(r.host) == text_view(query.host),
        r.date_from == date_bound(query.date_from),
        r.date_to == date_bound(query.date_to),
{
    let date_from = match &query.date_from {
        Some(s) => parse_utc_millis(s.as_str()),
        None => None,
    };
    let date_to = match &query.date_to {
        Some(s) => parse_utc_millis(s.as_str()),
        None => None,
    };
    CompetitionFilter {
        status: copy_text(&query.status),
        host: copy_text(&query.host),
        date_from,
        date_to,
    }
}

} // verus!
