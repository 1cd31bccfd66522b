use competition_catalog::ingest::{
    ingest_batch, is_duplicate_competition, resolve, run_all, AdapterOutcome, FetchError,
    MatchDecision,
};
use competition_catalog::matching::{fuzzy_match, match_keys};
use competition_catalog::models::Competition;
use competition_catalog::normalize::clean_competition_name;
use competition_catalog::queries::{
    build_competition_filter, pagination_skip, parse_utc_millis, CompetitionQuery,
};
use competition_catalog::registry::{ScraperKind, ScraperManager};
use competition_catalog::scrapers::{
    candidates_from_events, parse_rfc3339_millis, CtfTimeScraper, HkuScraper, HkustScraper,
    RawEvent,
};
use competition_catalog::similarity::{calculate_similarity, Ratio};
use competition_catalog::text::{lowercase, trim_str};

fn record(name: &str, source: &str) -> Competition {
    Competition {
        id: None,
        name: name.to_string(),
        date: 0,
        host: source.to_string(),
        source: vec![source.to_string()],
        description: None,
        signup_deadline: None,
        location: None,
        registration_link: None,
        max_participants: None,
        status: Some("upcoming".to_string()),
    }
}

fn ok(source: &str, cands: Vec<Competition>) -> AdapterOutcome {
    AdapterOutcome { source: source.to_string(), result: Ok(cands) }
}

fn failed(source: &str) -> AdapterOutcome {
    AdapterOutcome {
        source: source.to_string(),
        result: Err(FetchError { message: "connection refused".to_string() }),
    }
}

#[test]
fn normalize_strips_tag_and_stop_words() {
    assert_eq!(clean_competition_name("The Big Hackathon [HKU]"), "Big");
    assert_eq!(clean_competition_name("  Global   Finance  Case Competition 2024 [UST] "), "Global Finance 2024");
    assert_eq!(clean_competition_name("HKU Datathon 2024 [HKU]"), "2024");
}

#[test]
fn normalize_removes_whole_tokens_only() {
    assert_eq!(clean_competition_name("Canada Upstream Athens"), "Canada Upstream Athens");
    assert_eq!(clean_competition_name("JOIN the Regatta NOW"), "Regatta");
}

#[test]
fn normalize_empty_result() {
    assert_eq!(clean_competition_name("The Hackathon [HKU]"), "");
    assert_eq!(clean_competition_name(""), "");
}

#[test]
fn normalize_strips_from_first_bracket() {
    assert_eq!(clean_competition_name("Alpha [x] Beta [y]"), "Alpha");
    assert_eq!(clean_competition_name("Alpha [x\ny]"), "Alpha [x y]");
}

#[test]
fn normalize_is_idempotent_on_examples() {
    for t in ["HKU Datathon 2024 [HKU]", "Global Case Competition 2024 [UST]", "Robotics Challenge", "", "  a  b  c "] {
        let once = clean_competition_name(t);
        assert_eq!(clean_competition_name(&once), once);
    }
}

#[test]
fn normalize_not_idempotent_when_key_ends_in_tag() {
    let once = clean_competition_name("foo [bar] the");
    assert_eq!(once, "foo [bar]");
    assert_eq!(clean_competition_name(&once), "foo");
}

#[test]
fn match_shared_core_after_stripping() {
    assert!(fuzzy_match("HKU Datathon 2024 [HKU]", "Datathon 2024 [UST]"));
}

#[test]
fn no_match_for_unrelated_titles() {
    assert!(!fuzzy_match("Robotics Challenge", "Underwater Photography Contest"));
}

#[test]
fn match_is_case_insensitive() {
    assert!(fuzzy_match("GLOBAL FINANCE [HKU]", "global finance [CTF]"));
}

#[test]
fn match_by_containment() {
    assert!(match_keys("finance", "global finance cup"));
    assert!(match_keys("global finance cup", "finance"));
}

#[test]
fn empty_key_matches_everything_by_containment() {
    assert!(match_keys("", "anything"));
    assert!(fuzzy_match("The Hackathon [HKU]", "Quantum Trading Cup"));
}

#[test]
fn match_by_word_overlap() {
    // Character similarity is 9/19; two of three words are common.
    assert!(match_keys("alpha bravo charlie", "alpha bravo zulu"));
}

#[test]
fn no_match_for_short_words() {
    assert!(!match_keys("ab cd", "ef gh"));
}

#[test]
fn similarity_values() {
    assert_eq!(calculate_similarity("abc", "abd"), Ratio { num: 2, den: 3 });
    assert_eq!(calculate_similarity("", ""), Ratio { num: 1, den: 1 });
    assert_eq!(calculate_similarity("x", ""), Ratio { num: 0, den: 1 });
    assert_eq!(calculate_similarity("", "x"), Ratio { num: 0, den: 1 });
    assert_eq!(calculate_similarity("aa", "aa"), Ratio { num: 1, den: 1 });
    assert_eq!(calculate_similarity("aab", "abx"), Ratio { num: 2, den: 3 });
    assert_eq!(calculate_similarity("ab", "abcd"), Ratio { num: 2, den: 4 });
    assert_eq!(calculate_similarity("héllo", "hé"), Ratio { num: 2, den: 5 });
}

#[test]
fn merge_adds_source_and_keeps_enrichment() {
    let mut existing = record("Cyber Defense [HKU]", "HKU");
    existing.id = Some("abc".to_string());
    existing.description = Some("Annual event".to_string());
    existing.location = Some("Main Hall".to_string());
    let mut catalog = vec![existing];
    let cand = record("Cyber Defense [CTF]", "CTFTime");
    let summary = ingest_batch(&mut catalog, vec![cand]);
    assert_eq!(summary.inserted, 0);
    assert_eq!(summary.merged, 1);
    assert_eq!(catalog.len(), 1);
    assert_eq!(catalog[0].source, vec!["HKU".to_string(), "CTFTime".to_string()]);
    assert_eq!(catalog[0].description, Some("Annual event".to_string()));
    assert_eq!(catalog[0].location, Some("Main Hall".to_string()));
    assert_eq!(catalog[0].id, Some("abc".to_string()));
    assert_eq!(catalog[0].name, "Cyber Defense [HKU]");
}

#[test]
fn merge_ignores_source_already_listed_in_other_case() {
    let mut catalog = vec![record("Cyber Defense [HKU]", "HKU")];
    let summary = ingest_batch(&mut catalog, vec![record("Cyber Defense [HKU]", "hku")]);
    assert_eq!(summary.merged, 1);
    assert_eq!(catalog[0].source, vec!["HKU".to_string()]);
}

#[test]
fn add_source_directly() {
    let mut c = record("X", "HKU");
    c.add_source("CTFTime");
    c.add_source("ctftime");
    assert_eq!(c.source, vec!["HKU".to_string(), "CTFTime".to_string()]);
    assert!(c.has_source("Hku"));
    assert!(!c.has_source("HKUST"));
}

#[test]
fn batch_inserts_unmatched_candidates_in_order() {
    let mut catalog = vec![record("Quantum Trading Cup [HKU]", "HKU")];
    let cands = vec![
        record("Marine Biology Expo [UST]", "HKUST"),
        record("Quantum Trading Cup [UST]", "HKUST"),
        record("Sculpture Garden Walk [UST]", "HKUST"),
    ];
    let summary = ingest_batch(&mut catalog, cands);
    assert_eq!(summary.inserted, 2);
    assert_eq!(summary.merged, 1);
    assert_eq!(catalog.len(), 3);
    assert_eq!(catalog[1].name, "Marine Biology Expo [UST]");
    assert_eq!(catalog[2].name, "Sculpture Garden Walk [UST]");
    assert_eq!(catalog[0].source, vec!["HKU".to_string(), "HKUST".to_string()]);
}

#[test]
fn batch_resolves_against_snapshot_at_start() {
    let mut catalog: Vec<Competition> = Vec::new();
    let cands = vec![record("Marine Biology Expo [UST]", "HKUST"), record("Marine Biology Expo [UST]", "HKUST")];
    let summary = ingest_batch(&mut catalog, cands);
    assert_eq!(summary.inserted, 2);
    assert_eq!(catalog.len(), 2);
}

#[test]
fn resolve_returns_first_match() {
    let catalog = vec![
        record("Sculpture Garden Walk", "HKU"),
        record("Marine Biology Expo", "HKU"),
        record("Marine Biology Expo 2", "HKU"),
    ];
    assert_eq!(resolve("Marine Biology Expo [CTF]", &catalog, 3), MatchDecision::MatchFound(1));
    assert_eq!(resolve("Marine Biology Expo [CTF]", &catalog, 1), MatchDecision::NoMatch);
    assert!(is_duplicate_competition(&catalog, &record("Marine Biology Expo [UST]", "HKUST")));
    assert!(!is_duplicate_competition(&catalog, &record("Volcano Tour", "HKUST")));
}

fn outcomes() -> Vec<AdapterOutcome> {
    vec![
        ok("HKU", vec![record("Quantum Trading Cup [HKU]", "HKU"), record("Marine Biology Expo [HKU]", "HKU")]),
        ok("CTFTime", vec![record("Quantum Trading Cup [CTF]", "CTFTime"), record("Zero Day Hunt [CTF]", "CTFTime")]),
    ]
}

#[test]
fn rerun_inserts_nothing() {
    let mut catalog: Vec<Competition> = Vec::new();
    let first = run_all(&mut catalog, outcomes());
    assert_eq!(first.inserted, 3);
    assert_eq!(first.merged, 1);
    let second = run_all(&mut catalog, outcomes());
    assert_eq!(second.inserted, 0);
    assert_eq!(second.merged, 4);
    assert_eq!(catalog.len(), 3);
    assert_eq!(catalog[0].source, vec!["HKU".to_string(), "CTFTime".to_string()]);
}

#[test]
fn fetch_error_does_not_block_other_sources() {
    let mut catalog: Vec<Competition> = Vec::new();
    let outs = vec![
        failed("HKU"),
        ok("CTFTime", vec![record("Zero Day Hunt [CTF]", "CTFTime")]),
        failed("HKUST"),
    ];
    let summary = run_all(&mut catalog, outs);
    assert_eq!(summary.inserted, 1);
    assert_eq!(summary.merged, 0);
    assert_eq!(summary.failures, vec!["HKU".to_string(), "HKUST".to_string()]);
    assert_eq!(catalog.len(), 1);
    assert_eq!(catalog[0].name, "Zero Day Hunt [CTF]");
}

const EVENTS: &str = r#"[
  {"title": "CTF A", "start": "2024-05-01T10:00:00+00:00", "finish": "2024-05-02T10:00:00+00:00",
   "url": "https://ctf.example/a", "description": "", "max_team_size": 5},
  {"title": "No Finish", "start": "2024-05-01T10:00:00+00:00"},
  {"title": "Bad Start", "start": "soon", "finish": "later", "description": "Jeopardy"}
]"#;

#[test]
fn json_items_missing_finish_are_skipped() {
    let cands = CtfTimeScraper.extract(EVENTS, 42);
    assert_eq!(cands.len(), 2);
    assert_eq!(cands[0].name, "CTF A [CTF]");
    assert_eq!(cands[1].name, "Bad Start [CTF]");
    let mut catalog: Vec<Competition> = Vec::new();
    let summary = run_all(&mut catalog, vec![ok("CTFTime", cands)]);
    assert_eq!(summary.inserted, 2);
    assert_eq!(summary.merged, 0);
    assert!(summary.failures.is_empty());
    assert!(catalog.iter().all(|c| c.name != "No Finish [CTF]"));
}

#[test]
fn json_adapter_fields() {
    let cands = CtfTimeScraper.extract(EVENTS, 42);
    let a = &cands[0];
    assert_eq!(a.date, 1714557600000);
    assert_eq!(a.host, "CTFTime");
    assert_eq!(a.source, vec!["CTFTime".to_string()]);
    assert_eq!(a.description, None);
    assert_eq!(a.registration_link, Some("https://ctf.example/a".to_string()));
    assert_eq!(a.location, Some("Online".to_string()));
    assert_eq!(a.max_participants, Some(5));
    assert_eq!(a.status, Some("upcoming".to_string()));
    let b = &cands[1];
    assert_eq!(b.date, 42);
    assert_eq!(b.description, Some("Jeopardy".to_string()));
    assert_eq!(b.registration_link, None);
    assert_eq!(b.max_participants, None);
}

#[test]
fn json_adapter_non_array_body() {
    assert!(CtfTimeScraper.extract("not json", 0).is_empty());
    assert!(CtfTimeScraper.extract("{\"title\": \"x\"}", 0).is_empty());
}

#[test]
fn events_from_plain_values() {
    let e = RawEvent {
        title: Some("Plain".to_string()),
        start: Some("2024-01-01T00:00:00Z".to_string()),
        finish: Some("2024-01-02T00:00:00Z".to_string()),
        url: None,
        description: Some("d".to_string()),
        max_team_size: Some(3),
    };
    let mut missing = e.clone();
    missing.finish = None;
    let cands = candidates_from_events(&vec![missing, e], 7);
    assert_eq!(cands.len(), 1);
    assert_eq!(cands[0].name, "Plain [CTF]");
    assert_eq!(cands[0].date, 1704067200000);
}

#[test]
fn card_adapter_extracts_titles() {
    let html = r#"<html><body>
      <a class="card-blk__item" href="/1"><p class="card-blk__title"> Big  Case </p></a>
      <a class="card-blk__item" href="/2"><span>no title here</span></a>
      <a class="card-blk__item" href="/3"><p class="card-blk__title">Fin<b>Tech</b> Cup</p></a>
    </body></html>"#;
    let cands = HkuScraper.extract(html, 99);
    assert_eq!(cands.len(), 2);
    assert_eq!(cands[0].name, "Big  Case [HKU]");
    assert_eq!(cands[1].name, "Fin Tech  Cup [HKU]");
    assert_eq!(cands[0].date, 99);
    assert_eq!(cands[0].host, "HKU");
    assert_eq!(cands[0].source, vec!["HKU".to_string()]);
    assert_eq!(cands[0].status, Some("upcoming".to_string()));
    assert_eq!(cands[0].location, None);
}

#[test]
fn table_adapter_keeps_keyword_rows() {
    let html = r#"<table>
      <tr><td><h3>Data HACKATHON 2024</h3><h3>Open Day</h3></td></tr>
      <tr><td><h3>Business Case Challenge</h3></td></tr>
      <tr><td><p>Datathon without heading</p></td></tr>
    </table>"#;
    let cands = HkustScraper.extract(html, 5);
    assert_eq!(cands.len(), 2);
    assert_eq!(cands[0].name, "Data HACKATHON 2024 [UST]");
    assert_eq!(cands[1].name, "Business Case Challenge [UST]");
    assert_eq!(cands[0].host, "HKUST");
    assert_eq!(cands[0].source, vec!["HKUST".to_string()]);
}

#[test]
fn registry_names_and_lookup() {
    let m = ScraperManager::new();
    assert_eq!(m.get_scraper_names(), vec!["hku".to_string(), "hkust".to_string(), "ctftime".to_string()]);
    assert_eq!(m.find_scraper("CTFTime").unwrap(), ScraperKind::CtfTime);
    assert_eq!(m.find_scraper("hkust").unwrap(), ScraperKind::Hkust);
}

#[test]
fn registry_unknown_source() {
    let m = ScraperManager::new();
    let err = m.find_scraper("devpost").unwrap_err();
    assert_eq!(err.name, "devpost");
}

#[test]
fn registry_reregistering_replaces() {
    let mut m = ScraperManager::new();
    m.register_scraper(ScraperKind::Hku);
    assert_eq!(m.get_scraper_names().len(), 3);
}

#[test]
fn query_page_defaults_and_caps() {
    let mut q = CompetitionQuery { page: None, limit: None, status: None, host: None, date_from: None, date_to: None };
    assert_eq!(q.page_number(), 1);
    assert_eq!(q.page_size(), 10);
    q.page = Some(0);
    q.limit = Some(500);
    assert_eq!(q.page_number(), 1);
    assert_eq!(q.page_size(), 100);
    q.page = Some(3);
    q.limit = Some(25);
    assert_eq!(q.page_number(), 3);
    assert_eq!(q.page_size(), 25);
}

#[test]
fn pagination_skip_values() {
    assert_eq!(pagination_skip(3, 10), 20);
    assert_eq!(pagination_skip(1, 10), 0);
    assert_eq!(pagination_skip(0, 10), 0);
    assert_eq!(pagination_skip(u32::MAX, u32::MAX), (u32::MAX as u64 - 1) * u32::MAX as u64);
}

#[test]
fn filter_from_query() {
    let q = CompetitionQuery {
        page: None,
        limit: None,
        status: Some("upcoming".to_string()),
        host: None,
        date_from: Some("2024-01-01T00:00:00Z".to_string()),
        date_to: Some("not a date".to_string()),
    };
    let f = build_competition_filter(&q);
    assert_eq!(f.status, Some("upcoming".to_string()));
    assert_eq!(f.host, None);
    assert_eq!(f.date_from, Some(1704067200000));
    assert_eq!(f.date_to, None);
}

#[test]
fn wrappers_compute() {
    assert_eq!(lowercase("ÀBC Déf"), "àbc déf");
    assert_eq!(trim_str("\u{3000} x y \t"), "x y");
    assert_eq!(parse_rfc3339_millis("1970-01-01T00:00:01+00:00"), Some(1000));
    assert_eq!(parse_rfc3339_millis("yesterday"), None);
    assert_eq!(parse_utc_millis("1970-01-01T00:00:02Z"), Some(2000));
}

fn names_and_sources(cat: &[Competition]) -> Vec<(String, Vec<String>)> {
    cat.iter().map(|c| (c.name.clone(), c.source.clone())).collect()
}

#[test]
fn lone_fetch_error_leaves_catalog_unchanged() {
    let mut catalog = vec![record("Cyber Defense [HKU]", "HKU"), record("Zero Day Hunt [CTF]", "CTFTime")];
    let before = names_and_sources(&catalog);
    let summary = run_all(&mut catalog, vec![failed("HKUST")]);
    assert_eq!(summary.inserted, 0);
    assert_eq!(summary.merged, 0);
    assert_eq!(summary.failures, vec!["HKUST".to_string()]);
    assert_eq!(names_and_sources(&catalog), before);
}

#[test]
fn empty_batch_leaves_catalog_unchanged() {
    let mut catalog = vec![record("Cyber Defense [HKU]", "HKU")];
    let before = names_and_sources(&catalog);
    let summary = ingest_batch(&mut catalog, Vec::new());
    assert_eq!(summary.inserted + summary.merged, 0);
    assert_eq!(names_and_sources(&catalog), before);
}

#[test]
fn only_first_match_changes() {
    let mut catalog = vec![
        record("Sculpture Garden Walk [HKU]", "HKU"),
        record("Marine Biology Expo [HKU]", "HKU"),
        record("Marine Biology Expo [UST]", "HKUST"),
    ];
    let summary = ingest_batch(&mut catalog, vec![record("Marine Biology Expo [CTF]", "CTFTime")]);
    assert_eq!(summary.merged, 1);
    assert_eq!(catalog.len(), 3);
    assert_eq!(catalog[0].source, vec!["HKU".to_string()]);
    assert_eq!(catalog[1].source, vec!["HKU".to_string(), "CTFTime".to_string()]);
    assert_eq!(catalog[2].source, vec!["HKUST".to_string()]);
}

#[test]
fn adapter_urls() {
    assert_eq!(HkuScraper.url(), "https://ug.hkubs.hku.hk/competition");
    assert_eq!(HkustScraper.url(), "https://bmundergrad.hkust.edu.hk/announcement");
    assert_eq!(CtfTimeScraper.url(), "https://ctftime.org/api/v1/events/?limit=20");
    assert_eq!(ScraperKind::CtfTime.url(), CtfTimeScraper.url());
}

#[test]
fn empty_key_matches_any_title() {
    assert!(fuzzy_match("Quantum Trading Cup", "The Workshop [UST]"));
    assert_eq!(lowercase(""), "");
}
