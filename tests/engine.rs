use webcrawler::engine::{Action, ConfigError, CrawlEngine, DEFAULT_MAX_IN_FLIGHT};
use webcrawler::frontier::{Frontier, VisitedSet};
use webcrawler::store::{upsert_kind, PageRecord, UpsertKind};

fn fetch(e: &mut CrawlEngine) -> String {
    match e.next_action() {
        Action::Fetch(u) => u,
        other => panic!("expected a fetch, got {:?}", other),
    }
}

fn strings(v: &[&str]) -> Vec<String> {
    v.iter().map(|s| s.to_string()).collect()
}

#[test]
fn try_admit_answers_true_once() {
    let mut v = VisitedSet::new();
    assert!(v.try_admit("https://a.org/".to_string()));
    assert!(!v.try_admit("https://a.org/".to_string()));
    assert!(!v.try_admit("https://a.org/".to_string()));
    assert!(v.try_admit("https://b.org/".to_string()));
    assert_eq!(v.len(), 2);
    assert!(v.contains(&"https://a.org/".to_string()));
    assert!(!v.contains(&"https://c.org/".to_string()));
}

#[test]
fn frontier_is_fifo() {
    let mut f = Frontier::new();
    assert!(f.is_empty());
    assert_eq!(f.pop_front(), None);
    f.push_back("1".to_string());
    f.push_back("2".to_string());
    assert_eq!(f.len(), 2);
    assert_eq!(f.pop_front(), Some("1".to_string()));
    assert_eq!(f.pop_front(), Some("2".to_string()));
    assert!(f.is_empty());
}

#[test]
fn seed_errors() {
    assert_eq!(CrawlEngine::new("mailto:a@b.com", 10).err(), Some(ConfigError::InvalidSeed));
    assert_eq!(CrawlEngine::new("not a url", 10).err(), Some(ConfigError::InvalidSeed));
    assert_eq!(CrawlEngine::new("https://example.com", 0).err(), Some(ConfigError::NoSlots));
}

#[test]
fn scenario_seed_page_additions() {
    let mut e = CrawlEngine::new("https://example.com", DEFAULT_MAX_IN_FLIGHT).unwrap();
    assert_eq!(e.queued_count(), 1);
    assert_eq!(e.visited_count(), 1);
    let seed = fetch(&mut e);
    assert_eq!(seed, "https://example.com/");
    let hrefs = strings(&["https://www.google.com", "/about", "javascript:void(0)", "mailto:test@example.com"]);
    let added = e.finish_page(&seed, &hrefs);
    assert_eq!(added, strings(&["https://www.google.com/", "https://example.com/about"]));
    assert_eq!(e.queued_count(), 2);
    assert_eq!(e.in_flight_count(), 0);
    assert_eq!(fetch(&mut e), "https://www.google.com/");
    assert_eq!(fetch(&mut e), "https://example.com/about");
}

#[test]
fn scenario_self_link_not_requeued() {
    let mut e = CrawlEngine::new("https://example.com", 4).unwrap();
    let seed = fetch(&mut e);
    let hrefs = strings(&["https://example.com", "/", "#top", "https://example.com/#x"]);
    let added = e.finish_page(&seed, &hrefs);
    assert!(added.is_empty());
    assert_eq!(e.queued_count(), 0);
    assert!(matches!(e.next_action(), Action::Finish));
    assert!(e.is_done());
}

#[test]
fn duplicate_links_admitted_once() {
    let mut e = CrawlEngine::new("https://example.com", 4).unwrap();
    let seed = fetch(&mut e);
    let added = e.finish_page(&seed, &strings(&["/a", "/a#1", "/b", "/a"]));
    assert_eq!(added, strings(&["https://example.com/a", "https://example.com/b"]));
    let a = fetch(&mut e);
    let b = fetch(&mut e);
    assert!(e.finish_page(&a, &strings(&["/b", "/"])).is_empty());
    assert!(e.finish_page(&b, &strings(&["/a"])).is_empty());
    assert!(matches!(e.next_action(), Action::Finish));
}

#[test]
fn scenario_concurrency_bound_two() {
    let mut e = CrawlEngine::new("https://example.com", 2).unwrap();
    let seed = fetch(&mut e);
    let hrefs: Vec<String> = (0..10).map(|i| format!("/p{}", i)).collect();
    assert_eq!(e.finish_page(&seed, &hrefs).len(), 10);
    let mut running: Vec<String> = Vec::new();
    let mut fetched = 0;
    loop {
        match e.next_action() {
            Action::Fetch(u) => {
                running.push(u);
                fetched += 1;
            }
            Action::Wait => {
                let u = running.remove(0);
                assert!(e.finish_page(&u, &Vec::new()).is_empty());
            }
            Action::Finish => break,
        }
        assert!(e.in_flight_count() <= 2);
        assert!(running.len() <= 2);
    }
    assert_eq!(fetched, 10);
    assert!(e.is_done());
}

#[test]
fn no_finish_while_in_flight() {
    let mut e = CrawlEngine::new("https://example.com", 3).unwrap();
    let seed = fetch(&mut e);
    assert_eq!(e.queued_count(), 0);
    assert_eq!(e.in_flight_count(), 1);
    assert!(matches!(e.next_action(), Action::Wait));
    assert!(!e.is_done());
    e.finish_page(&seed, &Vec::new());
    assert!(matches!(e.next_action(), Action::Finish));
    assert!(matches!(e.next_action(), Action::Finish));
}

#[test]
fn unknown_url_report_is_ignored() {
    let mut e = CrawlEngine::new("https://example.com", 3).unwrap();
    let added = e.finish_page(&"https://other.org/".to_string(), &strings(&["/x"]));
    assert!(added.is_empty());
    assert_eq!(e.queued_count(), 1);
    assert!(!e.is_visited(&"https://other.org/x".to_string()));
}

#[test]
fn fetch_failure_keeps_url_visited() {
    let mut e = CrawlEngine::new("https://example.com", 3).unwrap();
    let seed = fetch(&mut e);
    e.finish_page(&seed, &Vec::new());
    assert!(e.is_visited(&seed));
    assert!(matches!(e.next_action(), Action::Finish));
}

#[test]
fn cancel_drains_running_pipelines() {
    let mut e = CrawlEngine::new("https://example.com", 1).unwrap();
    let seed = fetch(&mut e);
    e.finish_page(&seed, &strings(&["/a", "/b"]));
    let a = fetch(&mut e);
    e.cancel();
    assert!(matches!(e.next_action(), Action::Wait));
    e.finish_page(&a, &strings(&["/c"]));
    assert!(matches!(e.next_action(), Action::Finish));
    assert!(e.is_done());
    assert_eq!(e.max_in_flight(), 1);
}

#[test]
fn page_record_stored_fields() {
    let r = PageRecord::new("https://a.org/".to_string(), Some("T".to_string()), None);
    assert_eq!(r.stored_title(), "T");
    assert_eq!(r.stored_description(), "");
    assert_eq!(upsert_kind(true), UpsertKind::Update);
    assert_eq!(upsert_kind(false), UpsertKind::Insert);
}
