//! Source adapters: each turns what its site serves into candidate records.
use vstd::prelude::*;

use crate::models::Competition;
use crate::text::{
    chars_of, contains_seq, is_sub, join, join_words, lower_chars, lower_of, string_of,
    trim_chars, trimmed,
};

verus! {

/// What the `scraper` crate selects from an HTML document: for each element that matches
/// the outer selector, in the order in which the parser inserted the nodes into its tree,
/// the elements inside it that match the inner selector in the same order, each given as
/// its text pieces in order. Empty when a selector does not parse.
pub uninterp spec fn selected_texts(html: Seq<char>, outer: Seq<char>, inner: Seq<char>) -> Seq<
    Seq<Seq<Seq<char>>>,
>;

/// Relies on scraper's `Html::parse_document`, `Selector::parse`, `Html::select`,
/// `ElementRef::select` and `ElementRef::text`: the text pieces of the inner elements of
/// each outer element; the result depends on the arguments alone.
#[verifier::external_body]
fn select_texts(html: &str, outer: &str, inner: &str) -> (r: Vec<Vec<Vec<String>>>)
    ensures
        r.deep_view() == selected_texts(html@, outer@, inner@),
{
    let (Ok(outer), Ok(inner)) = (scraper::Selector::parse(outer), scraper::Selector::parse(inner)) else {
        return Vec::new();
    };
    let doc = scraper::Html::parse_document(html);
    doc.select(&outer).map(|o| o.select(&inner).map(|e| e.text().map(String::from).collect()).collect()).collect()
}

/// One event of the JSON API, as plain values: the fields the adapter reads.
#[derive(Clone, Debug)]
pub struct RawEvent {
    pub title: Option<String>,
    pub start: Option<String>,
    pub finish: Option<String>,
    pub url: Option<String>,
    pub description: Option<String>,
    pub max_team_size: Option<i64>,
}

/// What `serde_json` reads from a JSON array of event objects: each object's string fields
/// `title`, `start`, `finish`, `url`, `description` and integer field `max_team_size`.
pub uninterp spec fn parsed_events(body: Seq<char>) -> Option<Seq<RawEvent>>;

/// Relies on `serde_json::from_str` into a `Vec<Value>`, and on `Value::get`, `as_str` and
/// `as_i64` to read the fields; `None` when the body is not a JSON array.
#[verifier::external_body]
fn parse_events(body: &str) -> (r: Option<Vec<RawEvent>>)
    ensures
        r matches Some(v) ==> parsed_events(body@) == Some(v@),
        r is None ==> parsed_events(body@) is None,
{
    let events: Vec<serde_json::Value> = serde_json::from_str(body).ok()?;
    let text = |e: &serde_json::Value, k: &str| e.get(k).and_then(|v| v.as_str()).map(String::from);
    Some(events.iter().map(|e| RawEvent {
        title: text(e, "title"), start: text(e, "start"), finish: text(e, "finish"),
        url: text(e, "url"), description: text(e, "description"),
        max_team_size: e.get("max_team_size").and_then(|v| v.as_i64()),
    }).collect())
}

/// The instant, in milliseconds since the Unix epoch, that chrono reads from an RFC 3339
/// timestamp, or `None` where it rejects the text.
pub uninterp spec fn rfc3339_millis(s: Seq<char>) -> Option<i64>;

/// Relies on chrono's `DateTime::parse_from_rfc3339` and `timestamp_millis`.
#[verifier::external_body]
pub fn parse_rfc3339_millis(s: &str) -> (r: Option<i64>)
    ensures
        r == rfc3339_millis(s@),
{
    chrono::DateTime::parse_from_rfc3339(s).ok().map(|d| d.timestamp_millis())
}

/// The title of an element: its text pieces joined by spaces, then trimmed.
pub open spec fn element_title(pieces: Seq<Seq<char>>) -> Seq<char> {
    trimmed(join(pieces))
}

/// The title of each card: that of the first title element inside it; a card without one
/// gives none.
pub open spec fn card_titles(cards: Seq<Seq<Seq<Seq<char>>>>) -> Seq<Seq<char>>
    decreases cards.len(),
{
    if cards.len() == 0 {
        Seq::empty()
    } else if cards.last().len() > 0 {
        card_titles(cards.drop_last()).push(element_title(cards.last()[0]))
    } else {
        card_titles(cards.drop_last())
    }
}

/// A lower-case title names a competition-like event.
pub open spec fn has_keyword(l: Seq<char>) -> bool {
    is_sub("case"@, l) || is_sub("challenge"@, l) || is_sub("competition"@, l) || is_sub(
        "hackathon"@,
        l,
    ) || is_sub("datathon"@, l)
}

/// The titles of the elements, in order, that carry a keyword.
pub open spec fn keyword_titles(elems: Seq<Seq<Seq<char>>>) -> Seq<Seq<char>>
    decreases elems.len(),
{
    if elems.len() == 0 {
        Seq::empty()
    } else if has_keyword(lower_of(element_title(elems.last()))) {
        keyword_titles(elems.drop_last()).push(element_title(elems.last()))
    } else {
        keyword_titles(elems.drop_last())
    }
}

/// The keyword titles of every row, row after row.
pub open spec fn row_titles(rows: Seq<Seq<Seq<Seq<char>>>>) -> Seq<Seq<char>>
    decreases rows.len(),
{
    if rows.len() == 0 {
        Seq::empty()
    } else {
        row_titles(rows.drop_last()) + keyword_titles(rows.last())
    }
}

pub open spec fn is_upcoming(status: Option<String>) -> bool {
    status matches Some(s) && s@ == "upcoming"@
}

/// A candidate from an HTML listing: the title with its source tag, the fetch time, the
/// organizer as host and only source, status upcoming, nothing else.
pub open spec fn is_listing(c: Competition, title: Seq<char>, tag: Seq<char>, org: Seq<char>, at: i64) -> bool {
    &&& c.id is None
    &&& c.name@ == title + tag
    &&& c.date == at
    &&& c.host@ == org
    &&& c.source.deep_view() == seq![org]
    &&& c.description is None
    &&& c.signup_deadline is None
    &&& c.location is None
    &&& c.registration_link is None
    &&& c.max_participants is None
    &&& is_upcoming(c.status)
}

/// An event of the JSON API has the three fields a candidate needs.
pub open spec fn is_complete(e: RawEvent) -> bool {
    e.title is Some && e.start is Some && e.finish is Some
}

/// The complete events, in order.
pub open spec fn complete_events(es: Seq<RawEvent>) -> Seq<RawEvent>
    decreases es.len(),
{
    if es.len() == 0 {
        Seq::empty()
    } else if is_complete(es.last()) {
        complete_events(es.drop_last()).push(es.last())
    } else {
        complete_events(es.drop_last())
    }
}

/// An optional text field copied over, an empty text counting as absent.
pub open spec fn copied_text(out: Option<String>, inp: Option<String>) -> bool {
    if inp is Some && inp->0@.len() > 0 {
        out is Some && out->0@ == inp->0@
    } else {
        out is None
    }
}

/// The start time of an event: its parsed `start`, or the fetch time where that fails.
pub open spec fn event_date(e: RawEvent, at: i64) -> i64 {
    match rfc3339_millis(e.start->0@) {
        Some(t) => t,
        None => at,
    }
}

/// A candidate from a complete event of the JSON API.
pub open spec fn is_event_listing(c: Competition, e: RawEvent, at: i64) -> bool {
    &&& c.id is None
    &&& c.name@ == e.title->0@ + " [CTF]"@
    &&& c.date == event_date(e, at)
    &&& c.host@ == "CTFTime"@
    &&& c.source.deep_view() == seq!["CTFTime"@]
    &&& copied_text(c.description, e.description)
    &&& c.signup_deadline is None
    &&& c.location matches Some(l) && l@ == "Online"@
    &&& copied_text(c.registration_link, e.url)
    &&& c.max_participants == e.max_team_size
    &&& is_upcoming(c.status)
}

/// The card adapter's candidates for a page: one listing per card title, tagged `[HKU]`.
pub open spec fn hku_candidates(r: Seq<Competition>, body: Seq<char>, at: i64) -> bool {
    let t = card_titles(selected_texts(body, "a.card-blk__item"@, "p.card-blk__title"@));
    r.len() == t.len() && forall|i: int|
        0 <= i < r.len() ==> is_listing(#[trigger] r[i], t[i], " [HKU]"@, "HKU"@, at)
}

/// The table adapter's candidates for a page: one listing per keyword heading, tagged `[UST]`.
pub open spec fn hkust_candidates(r: Seq<Competition>, body: Seq<char>, at: i64) -> bool {
    let t = row_titles(selected_texts(body, "tr"@, "h3"@));
    r.len() == t.len() && forall|i: int|
        0 <= i < r.len() ==> is_listing(#[trigger] r[i], t[i], " [UST]"@, "HKUST"@, at)
}

/// The JSON-API adapter's candidates for a response: one per complete event, none if the
/// body is not a JSON array.
pub open spec fn ctftime_candidates(r: Seq<Competition>, body: Seq<char>, at: i64) -> bool {
    match parsed_events(body) {
        Some(es) => r.len() == complete_events(es).len() && forall|i: int|
            0 <= i < r.len() ==> is_event_listing(#[trigger] r[i], complete_events(es)[i], at),
        None => r.len() == 0,
    }
}

/// `a` followed by the characters of `b`.
fn concat_str(a: &Vec<char>, b: &str) -> (r: String)
    ensures
        r@ == a@ + b@,
{
    let mut v: Vec<char> = Vec::new();
    let mut k: usize = 0;
    while k < a.len()
        invariant
            k <= a.len(),
            v@ == a@.take(k as int),
        decreases a.len() - k,
    {
        v.push(a[k]);
        k = k + 1;
        assert(v@ =~= a@.take(k as int));
    }
    let bc = chars_of(b);
    let mut j: usize = 0;
    while j < bc.len()
        invariant
            j <= bc.len(),
            v@ == a@ + bc@.take(j as int),
        decreases bc.len() - j,
    {
        v.push(bc[j]);
        j = j + 1;
        assert(v@ =~= a@ + bc@.take(j as int));
    }
    assert(a@.take(a.len() as int) =~= a@);
    assert(bc@.take(bc.len() as int) =~= bc@);
    string_of(&v)
}

/// A provenance of the one source `org`.
fn single_source(org: &str) -> (r: Vec<String>)
    ensures
        r.deep_view() == seq![org@],
{
    let mut v: Vec<String> = Vec::new();
    v.push(org.to_owned());
    assert(v.deep_view() =~= seq![org@]);
    v
}

/// The candidate for an HTML listing's title.
fn listing(title: &Vec<char>, tag: &str, org: &str, at: i64) -> (r: Competition)
    ensures
        is_listing(r, title@, tag@, org@, at),
{
    Competition {
        id: None,
        name: concat_str(title, tag),
        date: at,
        host: org.to_owned(),
        source: single_source(org),
        description: None,
        signup_deadline: None,
        location: None,
        registration_link: None,
        max_participants: None,
        status: Some("upcoming".to_owned()),
    }
}

/// The title of an element from its text pieces.
pub fn element_title_of(pieces: &Vec<String>) -> (r: Vec<char>)
    ensures
        r@ == element_title(pieces.deep_view()),
{
    let mut parts: Vec<Vec<char>> = Vec::new();
    let mut k: usize = 0;
    while k < pieces.len()
        invariant
            k <= pieces.len(),
            parts.deep_view() == pieces.deep_view().take(k as int),
        decreases pieces.len() - k,
    {
        let ghost before = parts.deep_view();
        let p = chars_of(pieces[k].as_str());
        parts.push(p);
        assert(parts.deep_view() =~= before.push(pieces@[k as int]@)) by {
            assert(parts@.last().deep_view() =~= p@);
        }
        assert(pieces.deep_view().take(k as int + 1) =~= before.push(pieces@[k as int]@));
        k = k + 1;
    }
    assert(pieces.deep_view().take(pieces.len() as int) =~= pieces.deep_view());
    let joined = join_words(&parts);
    trim_chars(&joined)
}

/// The candidates of the card adapter, from the cards it selected: one per card that holds
/// a title element, tagged `[HKU]`.
pub fn candidates_from_cards(cards: &Vec<Vec<Vec<String>>>, fetched_at: i64) -> (r: Vec<Competition>)
    ensures
        r@.len() == card_titles(cards.deep_view()).len(),
        forall|i: int|
            0 <= i < r@.len() ==> is_listing(
                #[trigger] r@[i],
                card_titles(cards.deep_view())[i],
                " [HKU]"@,
                "HKU"@,
                fetched_at,
            ),
{
    let ghost cd = cards.deep_view();
    let mut out: Vec<Competition> = Vec::new();
    let mut k: usize = 0;
    while k < cards.len()
        invariant
            k <= cards.len(),
            cd == cards.deep_view(),
            out@.len() == card_titles(cd.take(k as int)).len(),
            forall|i: int|
                0 <= i < out@.len() ==> is_listing(
                    #[trigger] out@[i],
                    card_titles(cd.take(k as int))[i],
                    " [HKU]"@,
                    "HKU"@,
                    fetched_at,
                ),
        decreases cards.len() - k,
    {
        let ghost pre = cd.take(k as int + 1);
        assert(pre.drop_last() =~= cd.take(k as int));
        assert(pre.last() == cd[k as int]);
        assert(cd[k as int] == cards@[k as int].deep_view());
        if cards[k].len() > 0 {
            let t = element_title_of(&cards[k][0]);
            assert(cards@[k as int].deep_view()[0] == cards@[k as int]@[0].deep_view());
            let c = listing(&t, " [HKU]", "HKU", fetched_at);
            out.push(c);
        }
        k = k + 1;
    }
    assert(cd.take(cards.len() as int) =~= cd);
    out
}

/// The candidates of the table adapter, from the title elements it selected in each row:
/// one per title that carries a keyword, in order, tagged `[UST]`.
pub fn candidates_from_rows(rows: &Vec<Vec<Vec<String>>>, fetched_at: i64) -> (r: Vec<Competition>)
    ensures
        r@.len() == row_titles(rows.deep_view()).len(),
        forall|i: int|
            0 <= i < r@.len() ==> is_listing(
                #[trigger] r@[i],
                row_titles(rows.deep_view())[i],
                " [UST]"@,
                "HKUST"@,
                fetched_at,
            ),
{
    let ghost rd = rows.deep_view();
    let mut out: Vec<Competition> = Vec::new();
    let mut k: usize = 0;
    while k < rows.len()
        invariant
            k <= rows.len(),
            rd == rows.deep_view(),
            out@.len() == row_titles(rd.take(k as int)).len(),
            forall|i: int|
                0 <= i < out@.len() ==> is_listing(
                    #[trigger] out@[i],
                    row_titles(rd.take(k as int))[i],
                    " [UST]"@,
                    "HKUST"@,
                    fetched_at,
                ),
        decreases rows.len() - k,
    {
        let ghost pre = rd.take(k as int + 1);
        assert(pre.drop_last() =~= rd.take(k as int));
        assert(pre.last() == rd[k as int]);
        let row = &rows[k];
        let ghost ed = row.deep_view();
        assert(rd[k as int] == ed);
        let ghost base = row_titles(rd.take(k as int));
        let ghost base_out = out@;
        let mut m: usize = 0;
        while m < row.len()
            invariant
                m <= row.len(),
                ed == row.deep_view(),
                base_out.len() == base.len(),
                out@.len() == base.len() + keyword_titles(ed.take(m as int)).len(),
                out@.take(base_out.len() as int) == base_out,
                forall|i: int|
                    0 <= i < out@.len() ==> is_listing(
                        #[trigger] out@[i],
                        (base + keyword_titles(ed.take(m as int)))[i],
                        " [UST]"@,
                        "HKUST"@,
                        fetched_at,
                    ),
            decreases row.len() - m,
        {
            let ghost epre = ed.take(m as int + 1);
            assert(epre.drop_last() =~= ed.take(m as int));
            assert(epre.last() == ed[m as int]);
            assert(ed[m as int] == row@[m as int].deep_view());
            let t = element_title_of(&row[m]);
            let l = lower_chars(&t);
            if has_keyword_chars(&l) {
                let c = listing(&t, " [UST]", "HKUST", fetched_at);
                let ghost o = out@;
                out.push(c);
                assert(base + keyword_titles(epre) =~= (base + keyword_titles(ed.take(m as int))).push(
                    t@,
                ));
                assert(out@.take(base_out.len() as int) =~= o.take(base_out.len() as int));
            } else {
                assert(keyword_titles(epre) == keyword_titles(ed.take(m as int)));
            }
            m = m + 1;
        }
        assert(ed.take(row.len() as int) =~= ed);
        k = k + 1;
    }
    assert(rd.take(rows.len() as int) =~= rd);
    out
}

/// Whether a lower-case title carries one of the keywords.
fn has_keyword_chars(l: &Vec<char>) -> (r: bool)
    ensures
        r == has_keyword(l@),
{
    contains_seq(l, &chars_of("case")) || contains_seq(l, &chars_of("challenge")) || contains_seq(
        l,
        &chars_of("competition"),
    ) || contains_seq(l, &chars_of("hackathon")) || contains_seq(l, &chars_of("datathon"))
}

/// An optional text, an empty one counting as absent.
fn non_empty(s: &Option<String>) -> (r: Option<String>)
    ensures
        copied_text(r, *s),
{
    match s {
        Some(t) => {
            let v = chars_of(t.as_str());
            if v.len() > 0 {
                Some(string_of(&v))
            } else {
                None
            }
        },
        None => None,
    }
}

/// The candidate for a complete event.
fn event_listing(e: &RawEvent, fetched_at: i64) -> (r: Competition)
    requires
        is_complete(*e),
    ensures
        is_event_listing(r, *e, fetched_at),
{
    let title = chars_of(e.title.as_ref().unwrap().as_str());
    let date = match parse_rfc3339_millis(e.start.as_ref().unwrap().as_str()) {
        Some(t) => t,
        None => fetched_at,
    };
    Competition {
        id: None,
        name: concat_str(&title, " [CTF]"),
        date,
        host: "CTFTime".to_owned(),
        source: single_source("CTFTime"),
        description: non_empty(&e.description),
        signup_deadline: None,
        location: Some("Online".to_owned()),
        registration_link: non_empty(&e.url),
        max_participants: e.max_team_size,
        status: Some("upcoming".to_owned()),
    }
}

/// The candidates of the JSON-API adapter, from the events it read: one per event with a
/// title, a start and a finish, in order; the others are skipped.
pub fn candidates_from_events(events: &Vec<RawEvent>, fetched_at: i64) -> (r: Vec<Competition>)
    ensures
        r@.len() == complete_events(events@).len(),
        forall|i: int|
            0 <= i < r@.len() ==> is_event_listing(
                #[trigger] r@[i],
                complete_events(events@)[i],
                fetched_at,
            ),
{
    let mut out: Vec<Competition> = Vec::new();
    let mut k: usize = 0;
    while k < events.len()
        invariant
            k <= events.len(),
            out@.len() == complete_events(events@.take(k as int)).len(),
            forall|i: int|
                0 <= i < out@.len() ==> is_event_listing(
                    #[trigger] out@[i],
                    complete_events(events@.take(k as int))[i],
                    fetched_at,
                ),
        decreases events.len() - k,
    {
        let ghost pre = events@.take(k as int + 1);
        assert(pre.drop_last() =~= events@.take(k as int));
        assert(pre.last() == events@[k as int]);
        let e = &events[k];
        if e.title.is_some() && e.start.is_some() && e.finish.is_some() {
            let c = event_listing(e, fetched_at);
            out.push(c);
        }
        k = k + 1;
    }
    assert(events@.take(events.len() as int) =~= events@);
    out
}

/// An event without a title, a start or a finish adds no candidate: the candidates of a
/// list with it are those of the list without it.
pub proof fn lemma_incomplete_event_skipped(before: Seq<RawEvent>, e: RawEvent, after: Seq<RawEvent>)
    requires
        !is_complete(e),
    ensures
        complete_events(before.push(e) + after) == complete_events(before + after),
    decreases after.len(),
{
    if after.len() == 0 {
        assert(before.push(e) + after =~= before.push(e));
        assert(before + after =~= before);
        assert(before.push(e).drop_last() =~= before);
    } else {
        lemma_incomplete_event_skipped(before, e, after.drop_last());
        assert((before.push(e) + after).drop_last() =~= before.push(e) + after.drop_last());
        assert((before + after).drop_last() =~= before + after.drop_last());
        assert((before.push(e) + after).last() == after.last());
        assert((before + after).last() == after.last());
    }
}

/// The adapter for the HKU business school's competition page: one card per event.
#[derive(Clone, Copy, Debug)]
pub struct HkuScraper;

impl HkuScraper {
    pub fn name(&self) -> (r: &'static str)
        ensures
            r@ == "HKU"@,
    {
        "HKU"
    }

    pub fn url(&self) -> (r: &'static str)
        ensures
            r@ == "https://ug.hkubs.hku.hk/competition"@,
    {
        "https://ug.hkubs.hku.hk/competition"
    }

    /// The candidates on the page: the title of each competition card.
    pub fn extract(&self, body: &str, fetched_at: i64) -> (r: Vec<Competition>)
        ensures
            hku_candidates(r@, body@, fetched_at),
    {
        let cards = select_texts(body, "a.card-blk__item", "p.card-blk__title");
        candidates_from_cards(&cards, fetched_at)
    }
}

/// The adapter for the HKUST announcement table: the row headings that name a competition.
#[derive(Clone, Copy, Debug)]
pub struct HkustScraper;

impl HkustScraper {
    pub fn name(&self) -> (r: &'static str)
        ensures
            r@ == "HKUST"@,
    {
        "HKUST"
    }

    pub fn url(&self) -> (r: &'static str)
        ensures
            r@ == "https://bmundergrad.hkust.edu.hk/announcement"@,
    {
        "https://bmundergrad.hkust.edu.hk/announcement"
    }

    /// The candidates in the table: each row heading that carries a keyword.
    pub fn extract(&self, body: &str, fetched_at: i64) -> (r: Vec<Competition>)
        ensures
            hkust_candidates(r@, body@, fetched_at),
    {
        let rows = select_texts(body, "tr", "h3");
        candidates_from_rows(&rows, fetched_at)
    }
}

/// The adapter for the CTFtime events API.
#[derive(Clone, Copy, Debug)]
pub struct CtfTimeScraper;

impl CtfTimeScraper {
    pub fn name(&self) -> (r: &'static str)
        ensures
            r@ == "CTFTime"@,
    {
        "CTFTime"
    }

    pub fn url(&self) -> (r: &'static str)
        ensures
            r@ == "https://ctftime.org/api/v1/events/?limit=20"@,
    {
        "https://ctftime.org/api/v1/events/?limit=20"
    }

    /// The candidates in the response: one per complete event; none if the body is not a
    /// JSON array.
    pub fn extract(&self, body: &str, fetched_at: i64) -> (r: Vec<Competition>)
        ensures
            ctftime_candidates(r@, body@, fetched_at),
    {
        match parse_events(body) {
            Some(events) => candidates_from_events(&events, fetched_at),
            None => Vec::new(),
        }
    }
}

} // verus!
