use crawler::export::export_dot;
use crawler::frontier::{Claim, Frontier, Outcome};
use crawler::http::{FetchResult, Page};
use crawler::parser::StaticParser;
use crawler::worker::{next_action, outcome_of, page_outcome, sites_of_links, Action};

fn s(x: &str) -> String {
    String::from(x)
}

fn success(site: &str, links: &[&str]) -> Outcome {
    Outcome::Success { site: s(site), discovered: links.iter().map(|l| s(l)).collect() }
}

fn assigned(c: Claim) -> String {
    match c {
        Claim::Assigned(site) => site,
        _ => panic!("expected a site"),
    }
}

fn seen(f: &Frontier) -> Vec<String> {
    (0..f.seen_len()).map(|i| f.seen_at(i).clone()).collect()
}

#[test]
fn new_frontier_holds_normalized_seed() {
    let f = Frontier::new("https://www.example.com/start");
    assert_eq!(seen(&f), vec![s("example.com")]);
    assert_eq!(f.pending_len(), 1);
    assert_eq!(f.in_flight(), 0);
    assert_eq!(f.graph_len(), 0);
}

#[test]
fn claim_then_wait_then_done() {
    let mut f = Frontier::new("a.com");
    assert_eq!(assigned(f.claim()), "a.com");
    assert_eq!(f.in_flight(), 1);
    assert!(matches!(f.claim(), Claim::Wait));
    f.submit(Outcome::Failure);
    assert_eq!(f.in_flight(), 0);
    assert!(matches!(f.claim(), Claim::Done));
    assert_eq!(f.graph_len(), 0);
}

#[test]
fn dedup_of_discovered_sites() {
    let mut f = Frontier::new("a.com");
    f.claim();
    f.claim_at(0);
    f.submit(success("a.com", &["b.com", "c.com", "b.com"]));
    assert_eq!(seen(&f), vec![s("a.com"), s("b.com"), s("c.com")]);
    assert_eq!(f.pending_len(), 2);
    let first = assigned(f.claim_at(0));
    f.submit(success(&first, &["a.com", "b.com", "c.com", "d.com"]));
    assert_eq!(seen(&f), vec![s("a.com"), s("b.com"), s("c.com"), s("d.com")]);
    assert_eq!(f.pending_len(), 2);
}

#[test]
fn graph_written_once() {
    let mut f = Frontier::new("a.com");
    let a = assigned(f.claim());
    f.submit(success(&a, &["b.com"]));
    let b = assigned(f.claim());
    assert_eq!(b, "b.com");
    f.submit(success("a.com", &["c.com"]));
    assert_eq!(f.graph_len(), 1);
    assert_eq!(f.graph_site(0), "a.com");
    assert_eq!(f.graph_targets(0), &vec![s("b.com")]);
    assert_eq!(seen(&f), vec![s("a.com"), s("b.com")]);
    assert_eq!(f.pending_len(), 0);
    assert_eq!(f.in_flight(), 0);
}

#[test]
fn repeated_links_recorded_once() {
    let mut f = Frontier::new("a.com");
    let a = assigned(f.claim());
    f.submit(success(&a, &["b.com", "a.com", "b.com", "c.com"]));
    assert_eq!(f.graph_targets(0), &vec![s("b.com"), s("c.com")]);
    assert_eq!(export_dot(&f), "digraph G {\n\t\"a.com\" -> \"b.com\"\n\t\"a.com\" -> \"c.com\"\n}\n");
}

#[test]
fn self_links_dropped_and_new_site_found() {
    let mut f = Frontier::new("a.com");
    assigned(f.claim());
    f.submit(success("z.com", &["z.com", "b.com"]));
    assert_eq!(seen(&f), vec![s("a.com"), s("z.com"), s("b.com")]);
    assert_eq!(f.graph_site(0), "z.com");
    assert_eq!(f.graph_targets(0), &vec![s("b.com")]);
    assert_eq!(f.pending_len(), 2);
}

fn fake_links(site: &str) -> Vec<&'static str> {
    match site {
        "a.com" => vec!["b.com", "c.com"],
        "b.com" => vec!["d.com"],
        "c.com" => vec!["d.com", "e.com"],
        "d.com" => vec!["e.com"],
        _ => vec![],
    }
}

/// Runs `workers` workers in turn, each claiming or submitting one step at a
/// time, and returns the graph as sorted (site, targets) pairs.
fn crawl(workers: usize, rotate: usize) -> Vec<(String, Vec<String>)> {
    let mut f = Frontier::new("a.com");
    let mut held: Vec<Option<String>> = vec![None; workers];
    let mut stopped = vec![false; workers];
    let mut turn = 0usize;
    while stopped.iter().any(|x| !x) {
        turn += 1;
        assert!(turn < 10_000);
        let round = turn / workers;
        let w = (turn + round * rotate) % workers;
        if stopped[w] {
            continue;
        }
        match held[w].take() {
            Some(site) => {
                let mut links: Vec<String> = fake_links(&site).iter().map(|l| s(l)).collect();
                links.sort();
                f.submit(Outcome::Success { site, discovered: links });
            }
            None => {
                let c = if f.pending_len() > 0 { f.claim_at((turn * 7) % f.pending_len()) } else { f.claim() };
                match c {
                    Claim::Assigned(site) => held[w] = Some(site),
                    Claim::Wait => {}
                    Claim::Done => {
                        assert_eq!(f.in_flight(), 0);
                        assert!(held.iter().all(|h| h.is_none()));
                        stopped[w] = true;
                    }
                }
            }
        }
    }
    let mut g: Vec<(String, Vec<String>)> =
        (0..f.graph_len()).map(|i| (f.graph_site(i).clone(), f.graph_targets(i).clone())).collect();
    g.sort();
    g
}

#[test]
fn same_graph_for_any_worker_count() {
    let expected = vec![
        (s("a.com"), vec![s("b.com"), s("c.com")]),
        (s("b.com"), vec![s("d.com")]),
        (s("c.com"), vec![s("d.com"), s("e.com")]),
        (s("d.com"), vec![s("e.com")]),
        (s("e.com"), vec![]),
    ];
    for workers in 1..6 {
        for rotate in 0..3 {
            assert_eq!(crawl(workers, rotate), expected);
        }
    }
}

#[test]
fn cancel_forces_done() {
    let mut f = Frontier::new("a.com");
    let a = assigned(f.claim());
    f.submit(success(&a, &["b.com", "c.com"]));
    let _b = assigned(f.claim());
    f.cancel();
    assert!(f.is_cancelled());
    assert_eq!(f.in_flight(), 1);
    assert!(matches!(f.claim(), Claim::Done));
    assert_eq!(f.pending_len(), 1);
    f.submit(success("b.com", &["d.com"]));
    assert!(matches!(f.claim(), Claim::Done));
    assert_eq!(f.in_flight(), 0);
}

#[test]
fn export_round_trip() {
    let mut f = Frontier::new("a.com");
    let a = assigned(f.claim());
    f.submit(success(&a, &["b.com"]));
    let b = assigned(f.claim());
    f.submit(success(&b, &[]));
    assert_eq!(export_dot(&f), "digraph G {\n\t\"a.com\" -> \"b.com\"\n}\n");
}

#[test]
fn export_empty_graph() {
    let f = Frontier::new("a.com");
    assert_eq!(export_dot(&f), "digraph G {\n}\n");
}

#[test]
fn sites_of_page_links() {
    let links = vec![s("https://www.bbbb.com/x"), s("https://aaaa.com/y"), s("http://bbbb.com"), s("https://shop.c.co.uk/")];
    assert_eq!(sites_of_links(&s("aaaa.com"), &links), vec![s("bbbb.com"), s("c.co.uk")]);
}

#[test]
fn outcome_of_fetches() {
    let parser = StaticParser::new().unwrap();
    assert!(matches!(outcome_of(&parser, FetchResult::Fail), Outcome::Failure));
    let page = Page {
        url: s("https://www.site.com/"),
        domain: s("site.com"),
        body: s("<a href=\"https://x.bbbb.com/p\"></a><a href=\"/self\"></a>"),
    };
    match outcome_of(&parser, FetchResult::Success(page)) {
        Outcome::Success { site, discovered } => {
            assert_eq!(site, "site.com");
            assert_eq!(discovered, vec![s("bbbb.com")]);
        }
        Outcome::Failure => panic!("expected a success"),
    }
    let page = Page { url: s("https://a.com/"), domain: s("a.com"), body: s("") };
    match page_outcome(page, &vec![s("https://c.com/"), s("https://c.com/z")]) {
        Outcome::Success { site, discovered } => {
            assert_eq!(site, "a.com");
            assert_eq!(discovered, vec![s("c.com")]);
        }
        Outcome::Failure => panic!("expected a success"),
    }
}

#[test]
fn actions_after_claims() {
    assert!(matches!(next_action(Claim::Assigned(s("a.com"))), Action::Fetch(u) if u == "https://a.com"));
    assert!(matches!(next_action(Claim::Wait), Action::Sleep));
    assert!(matches!(next_action(Claim::Done), Action::Stop));
}

#[test]
fn random_claim_picks_a_pending_site() {
    let mut f = Frontier::new("a.com");
    let a = assigned(f.claim());
    f.submit(success(&a, &["b.com", "c.com", "d.com"]));
    let mut got: Vec<String> = (0..3).map(|_| assigned(f.claim())).collect();
    got.sort();
    assert_eq!(got, vec![s("b.com"), s("c.com"), s("d.com")]);
    assert!(matches!(f.claim(), Claim::Wait));
}
