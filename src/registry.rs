//! The registry of source adapters, keyed by lower-case source name.
use vstd::prelude::*;

use crate::models::Competition;
use crate::scrapers::{
    ctftime_candidates, hku_candidates, hkust_candidates, CtfTimeScraper, HkuScraper,
    HkustScraper,
};
use crate::text::{lower_of, lowercase};

verus! {

/// One of the source adapters.
#[derive(Clone, Copy, Debug, PartialEq, Eq, Structural)]
pub enum ScraperKind {
    Hku,
    Hkust,
    CtfTime,
}

/// The source identifier of an adapter.
pub open spec fn kind_name(k: ScraperKind) -> Seq<char> {
    match k {
        ScraperKind::Hku => "HKU"@,
        ScraperKind::Hkust => "HKUST"@,
        ScraperKind::CtfTime => "CTFTime"@,
    }
}

/// The address an adapter fetches.
pub open spec fn kind_url(k: ScraperKind) -> Seq<char> {
    match k {
        ScraperKind::Hku => "https://ug.hkubs.hku.hk/competition"@,
        ScraperKind::Hkust => "https://bmundergrad.hkust.edu.hk/announcement"@,
        ScraperKind::CtfTime => "https://ctftime.org/api/v1/events/?limit=20"@,
    }
}

/// The key an adapter is registered under.
pub open spec fn kind_key(k: ScraperKind) -> Seq<char> {
    lower_of(kind_name(k))
}

impl ScraperKind {
    /// The source identifier.
    pub fn name(&self) -> (r: &'static str)
        ensures
            r@ == kind_name(*self),
    {
        match self {
            ScraperKind::Hku => HkuScraper.name(),
            ScraperKind::Hkust => HkustScraper.name(),
            ScraperKind::CtfTime => CtfTimeScraper.name(),
        }
    }

    /// The address the adapter fetches.
    pub fn url(&self) -> (r: &'static str)
        ensures
            r@ == kind_url(*self),
    {
        match self {
            ScraperKind::Hku => HkuScraper.url(),
            ScraperKind::Hkust => HkustScraper.url(),
            ScraperKind::CtfTime => CtfTimeScraper.url(),
        }
    }

    /// The candidates in a fetched body, by the adapter's own extraction.
    pub fn extract(&self, body: &str, fetched_at: i64) -> (r: Vec<Competition>)
        ensures
            match self {
                ScraperKind::Hku => hku_candidates(r@, body@, fetched_at),
                ScraperKind::Hkust => hkust_candidates(r@, body@, fetched_at),
                ScraperKind::CtfTime => ctftime_candidates(r@, body@, fetched_at),
            },
    {
        match self {
            ScraperKind::Hku => HkuScraper.extract(body, fetched_at),
            ScraperKind::Hkust => HkustScraper.extract(body, fetched_at),
            ScraperKind::CtfTime => CtfTimeScraper.extract(body, fetched_at),
        }
    }
}

/// A source name that no registered adapter answers to.
#[derive(Clone, Debug)]
pub struct AdapterNotFound {
    pub name: String,
}

/// The adapters after `k` is registered: it replaces the one under the same key, or is
/// appended.
pub open spec fn registered(ks: Seq<ScraperKind>, k: ScraperKind) -> Seq<ScraperKind> {
    if exists|i: int| 0 <= i < ks.len() && #[trigger] kind_key(ks[i]) == kind_key(k) {
        ks.update(choose|i: int| 0 <= i < ks.len() && #[trigger] kind_key(ks[i]) == kind_key(k), k)
    } else {
        ks.push(k)
    }
}

/// The registered adapters, at most one per key, in registration order.
pub struct ScraperManager {
    scrapers: Vec<ScraperKind>,
}

impl ScraperManager {
    pub closed spec fn view(&self) -> Seq<ScraperKind> {
        self.scrapers@
    }

    /// No two adapters share a key.
    pub open spec fn wf(&self) -> bool {
        forall|i: int, j: int|
            0 <= i < j < self.view().len() ==> kind_key(#[trigger] self.view()[i]) != kind_key(
                #[trigger] self.view()[j],
            )
    }

    /// A registry of the three adapters of this library.
    pub fn new() -> (r: ScraperManager)
        ensures
            r.wf(),
            r.view() == registered(
                registered(registered(Seq::empty(), ScraperKind::Hku), ScraperKind::Hkust),
                ScraperKind::CtfTime,
            ),
    {
        let mut m = ScraperManager { scrapers: Vec::new() };
        m.register_scraper(ScraperKind::Hku);
        m.register_scraper(ScraperKind::Hkust);
        m.register_scraper(ScraperKind::CtfTime);
        m
    }

    /// The position of the adapter registered under the key of `name`, if any.
    fn position(&self, name: &str) -> (r: Option<usize>)
        requires
            self.wf(),
        ensures
            match r {
                Some(i) => i < self.view().len() && kind_key(self.view()[i as int]) == lower_of(
                    name@,
                ),
                None => forall|i: int|
                    0 <= i < self.view().len() ==> #[trigger] kind_key(self.view()[i]) != lower_of(
                        name@,
                    ),
            },
    {
        let key = lowercase(name);
        let mut i: usize = 0;
        while i < self.scrapers.len()
            invariant
                i <= self.scrapers.len(),
                key@ == lower_of(name@),
                forall|j: int|
                    0 <= j < i ==> #[trigger] kind_key(self.scrapers@[j]) != lower_of(name@),
            decreases self.scrapers.len() - i,
        {
            let k = lowercase(self.scrapers[i].name());
            if k == key {
                return Some(i);
            }
            i = i + 1;
        }
        None
    }

    /// Registers an adapter under the lower-case form of its name, replacing any adapter
    /// already registered under that key.
    pub fn register_scraper(&mut self, scraper: ScraperKind)
        requires
            old(self).wf(),
        ensures
            final(self).wf(),
            final(self).view() == registered(old(self).view(), scraper),
    {
        match self.position(scraper.name()) {
            Some(i) => {
                proof {
                    let c = choose|c: int|
                        0 <= c < self.view().len() && #[trigger] kind_key(self.view()[c])
                            == kind_key(scraper);
                    if c != i {
                        if c < i {
                            assert(kind_key(self.view()[c]) != kind_key(self.view()[i as int]));
                        } else {
                            assert(kind_key(self.view()[i as int]) != kind_key(self.view()[c]));
                        }
                    }
                }
                self.scrapers.set(i, scraper);
            },
            None => {
                self.scrapers.push(scraper);
                proof {
                    assert forall|a: int, b: int|
                        0 <= a < b < self.view().len() implies kind_key(#[trigger] self.view()[a])
                        != kind_key(#[trigger] self.view()[b]) by {
                        if b == self.view().len() - 1 {
                            assert(self.view()[b] == scraper);
                        }
                    }
                }
            },
        }
    }

    /// The keys of the registered adapters, in registration order.
    pub fn get_scraper_names(&self) -> (r: Vec<String>)
        ensures
            r.deep_view() == self.view().map_values(|k: ScraperKind| kind_key(k)),
    {
        let mut out: Vec<String> = Vec::new();
        let mut i: usize = 0;
        while i < self.scrapers.len()
            invariant
                i <= self.scrapers.len(),
                out.deep_view() == self.view().take(i as int).map_values(
                    |k: ScraperKind| kind_key(k),
                ),
            decreases self.scrapers.len() - i,
        {
            let ghost before = out.deep_view();
            out.push(lowercase(self.scrapers[i].name()));
            assert(out.deep_view() =~= self.view().take(i as int + 1).map_values(
                |k: ScraperKind| kind_key(k),
            )) by {
                assert(self.view().take(i as int + 1).map_values(|k: ScraperKind| kind_key(k))
                    =~= before.push(kind_key(self.view()[i as int])));
            }
            i = i + 1;
        }
        assert(self.view().take(self.scrapers.len() as int) =~= self.view());
        out
    }

    /// The adapter registered under the lower-case form of `name`.
    pub fn find_scraper(&self, name: &str) -> (r: Result<ScraperKind, AdapterNotFound>)
        requires
            self.wf(),
        ensures
            match r {
                Ok(k) => exists|i: int|
                    0 <= i < self.view().len() && self.view()[i] == k && #[trigger] kind_key(
                        self.view()[i],
                    ) == lower_of(name@),
                Err(e) => e.name@ == name@ && forall|i: int|
                    0 <= i < self.view().len() ==> #[trigger] kind_key(self.view()[i]) != lower_of(
                        name@,
                    ),
            },
    {
        match self.position(name) {
            Some(i) => Ok(self.scrapers[i]),
            None => Err(AdapterNotFound { name: name.to_owned() }),
        }
    }
}

} // verus!
