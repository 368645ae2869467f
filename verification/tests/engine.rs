use catalog_search::analyzer::AnalyzerConfig;
use catalog_search::document::{Aliasable, InputScene};
use catalog_search::params::EngineError;
use catalog_search::pipeline::{SearchFilters, SortKey};
use catalog_search::service::Collection;

fn scene(id: &str, name: &str) -> InputScene {
    InputScene {
        id: id.to_string(),
        name: name.to_string(),
        added_on: 0,
        release_date: None,
        bookmark: false,
        favorite: false,
        rating: None,
        actors: Vec::new(),
        labels: Vec::new(),
        num_watches: 0,
        duration: None,
        size: None,
        studio: None,
        studio_name: None,
        resolution: None,
    }
}

fn label(id: &str, name: &str) -> Aliasable {
    Aliasable { id: id.to_string(), name: name.to_string(), aliases: None }
}

fn cfg() -> AnalyzerConfig {
    AnalyzerConfig { min_len: 3, stem: false }
}

fn no_filters() -> SearchFilters {
    SearchFilters::none()
}

fn search_ids(c: &Collection, q: &str) -> Vec<String> {
    c.search(q, &no_filters(), None, false, 0, usize::MAX).items
}

#[test]
fn scenario_two_janes() {
    let mut c = Collection::new(cfg());
    c.ingest(vec![scene("a", "Jane Doe"), scene("b", "Jane Smith")]);

    let r = c.search("jane", &no_filters(), None, false, 0, usize::MAX);
    assert_eq!(r.num_hits, 2);
    assert!(r.items.contains(&"a".to_string()));
    assert!(r.items.contains(&"b".to_string()));

    let r2 = c.search("jane doe", &no_filters(), None, false, 0, usize::MAX);
    assert_eq!(r2.items[0], "a");
    assert_eq!(r2.num_hits, 2);

    let r3 = c.search("", &no_filters(), None, false, 0, usize::MAX);
    assert_eq!(r3.num_hits, 2);
    assert_eq!(r3.items, vec!["a".to_string(), "b".to_string()]);
}

#[test]
fn round_trip_single_document() {
    let mut c = Collection::new(cfg());
    let stats = c.ingest(vec![scene("x1", "Midnight Express")]);
    assert_eq!(stats.size, 1);
    let items = search_ids(&c, "Midnight Express");
    assert_eq!(items, vec!["x1".to_string()]);
}

#[test]
fn ingest_stats_count_tokens_and_postings() {
    let mut c = Collection::new(cfg());
    let stats = c.ingest(vec![scene("s", "Jane Doe")]);
    assert_eq!(stats.size, 1);
    assert_eq!(stats.num_tokens, 2);
    assert_eq!(stats.num_references, 2);
    assert_eq!(stats.num_references_per_token, 1);
}

#[test]
fn reingest_same_external_id_replaces() {
    let mut c = Collection::new(cfg());
    c.ingest(vec![scene("dup", "Old Title")]);
    c.ingest(vec![scene("dup", "New Title")]);
    assert_eq!(c.size(), 1);
    assert_eq!(search_ids(&c, "old"), Vec::<String>::new());
    assert_eq!(search_ids(&c, "new title"), vec!["dup".to_string()]);
    let tok: Vec<char> = "title".chars().collect();
    assert_eq!(c.postings(&tok).len(), 1);
}

#[test]
fn update_retracts_old_name() {
    let mut c = Collection::new(cfg());
    c.ingest(vec![scene("d", "Alpha Wolf")]);
    let r = c.update("d", scene("d", "Omega Bear"));
    assert!(r.is_ok());
    assert_eq!(search_ids(&c, "Alpha Wolf"), Vec::<String>::new());
    assert_eq!(search_ids(&c, "omega"), vec!["d".to_string()]);
}

#[test]
fn repeated_update_does_not_accumulate_postings() {
    let mut c = Collection::new(cfg());
    c.ingest(vec![scene("d", "Same Name")]);
    c.update("d", scene("d", "Same Name")).unwrap();
    c.update("d", scene("d", "Same Name")).unwrap();
    let toks: Vec<char> = "same".chars().collect();
    assert_eq!(c.postings(&toks).len(), 1);
}

#[test]
fn update_unknown_id_is_not_found() {
    let mut c = Collection::new(cfg());
    let r = c.update("ghost", scene("ghost", "Anything"));
    assert_eq!(r, Err(EngineError::NotFound));
}

#[test]
fn delete_removes_all_postings() {
    let mut c = Collection::new(cfg());
    c.ingest(vec![scene("d", "Jane Doe")]);
    let iid = c.resolve("d").unwrap();
    c.delete("d").unwrap();
    for t in ["jane", "doe"] {
        let tok: Vec<char> = t.chars().collect();
        assert!(!c.postings(&tok).contains(&iid));
    }
    assert_eq!(c.size(), 0);
    assert_eq!(search_ids(&c, "jane"), Vec::<String>::new());
}

#[test]
fn delete_unknown_id_is_not_found() {
    let mut c = Collection::new(cfg());
    assert_eq!(c.delete("nobody"), Err(EngineError::NotFound));
}

#[test]
fn clear_empties_everything() {
    let mut c = Collection::new(cfg());
    c.ingest(vec![scene("a", "One Thing"), scene("b", "Another Thing")]);
    c.clear();
    assert_eq!(c.size(), 0);
    let r = c.search("", &no_filters(), None, false, 0, usize::MAX);
    assert_eq!(r.num_hits, 0);
    assert_eq!(r.items, Vec::<String>::new());
}

#[test]
fn include_requires_every_label() {
    let mut c = Collection::new(cfg());
    let mut d1 = scene("one", "First Item");
    d1.labels = vec![label("l1", "Red"), label("l2", "Blue")];
    let mut d2 = scene("two", "Second Item");
    d2.labels = vec![label("l1", "Red")];
    let mut d3 = scene("three", "Third Item");
    d3.labels = vec![label("l3", "Green")];
    c.ingest(vec![d1, d2, d3]);

    let mut f = SearchFilters::none();
    f.include_labels = vec!["l1".to_string(), "l2".to_string()];
    let r = c.search("", &f, None, false, 0, usize::MAX);
    assert_eq!(r.items, vec!["one".to_string()]);
}

#[test]
fn exclude_removes_any_match_independent_of_include() {
    let mut c = Collection::new(cfg());
    let mut d1 = scene("one", "First Item");
    d1.labels = vec![label("l1", "Red"), label("l3", "Green")];
    let mut d2 = scene("two", "Second Item");
    d2.labels = vec![label("l1", "Red")];
    c.ingest(vec![d1, d2]);

    let mut f = SearchFilters::none();
    f.include_labels = vec!["l1".to_string()];
    f.exclude_labels = vec!["l3".to_string()];
    let r = c.search("", &f, None, false, 0, usize::MAX);
    assert_eq!(r.items, vec!["two".to_string()]);
}

#[test]
fn include_actors_requires_every_performer() {
    let mut c = Collection::new(cfg());
    let mut d1 = scene("both", "Duet");
    d1.actors = vec![label("a1", "Ann Lee"), label("a2", "Bo Chen")];
    let mut d2 = scene("solo", "Solo");
    d2.actors = vec![label("a1", "Ann Lee")];
    c.ingest(vec![d1, d2]);

    let mut f = SearchFilters::none();
    f.include_actors = vec!["a1".to_string(), "a2".to_string()];
    let r = c.search("", &f, None, false, 0, usize::MAX);
    assert_eq!(r.items, vec!["both".to_string()]);
}

#[test]
fn duration_bounds_treat_missing_as_zero() {
    let mut c = Collection::new(cfg());
    let mut d1 = scene("short", "Clip One");
    d1.duration = Some(10);
    let mut d2 = scene("long", "Clip Two");
    d2.duration = Some(100);
    let d3 = scene("unknown", "Clip Three");
    c.ingest(vec![d1, d2, d3]);

    let mut f = SearchFilters::none();
    f.duration_min = Some(5);
    let r = c.search("", &f, None, false, 0, usize::MAX);
    assert_eq!(r.items, vec!["short".to_string(), "long".to_string()]);

    let mut f2 = SearchFilters::none();
    f2.duration_max = Some(50);
    let r2 = c.search("", &f2, None, false, 0, usize::MAX);
    assert_eq!(r2.items, vec!["short".to_string(), "unknown".to_string()]);
}

#[test]
fn boolean_and_rating_filters() {
    let mut c = Collection::new(cfg());
    let mut d1 = scene("fav", "Some Film");
    d1.favorite = true;
    d1.rating = Some(5);
    let mut d2 = scene("plain", "Other Film");
    d2.rating = Some(2);
    c.ingest(vec![d1, d2]);

    let mut f = SearchFilters::none();
    f.favorite = true;
    let r = c.search("", &f, None, false, 0, usize::MAX);
    assert_eq!(r.items, vec!["fav".to_string()]);

    let mut f2 = SearchFilters::none();
    f2.rating_min = Some(3);
    let r2 = c.search("", &f2, None, false, 0, usize::MAX);
    assert_eq!(r2.items, vec!["fav".to_string()]);
}

#[test]
fn pagination_partitions_results() {
    let mut c = Collection::new(cfg());
    c.ingest(vec![
        scene("a", "Paging Test"),
        scene("b", "Paging Test"),
        scene("c", "Paging Test"),
        scene("d", "Paging Test"),
    ]);
    let full = c.search("paging", &no_filters(), None, false, 0, usize::MAX);
    assert_eq!(full.num_hits, 4);
    let page_a = c.search("paging", &no_filters(), None, false, 0, 2);
    let page_b = c.search("paging", &no_filters(), None, false, 2, 2);
    assert_eq!(page_a.num_hits, 4);
    assert_eq!(page_a.items.len(), 2);
    assert_eq!(page_b.items.len(), 2);
    let mut joined = page_a.items.clone();
    joined.extend(page_b.items.clone());
    assert_eq!(joined, full.items);
    for x in page_a.items.iter() {
        assert!(!page_b.items.contains(x));
    }
}

#[test]
fn rating_sort_descending_by_default_and_ascending_on_request() {
    let mut c = Collection::new(cfg());
    let mut d1 = scene("low", "Sortable One");
    d1.rating = Some(1);
    let mut d2 = scene("high", "Sortable Two");
    d2.rating = Some(5);
    let mut d3 = scene("mid", "Sortable Three");
    d3.rating = Some(3);
    c.ingest(vec![d1, d2, d3]);

    let desc = c.search("", &no_filters(), Some(SortKey::Rating), false, 0, usize::MAX);
    assert_eq!(
        desc.items,
        vec!["high".to_string(), "mid".to_string(), "low".to_string()]
    );
    let asc = c.search("", &no_filters(), Some(SortKey::Rating), true, 0, usize::MAX);
    assert_eq!(
        asc.items,
        vec!["low".to_string(), "mid".to_string(), "high".to_string()]
    );
}

#[test]
fn name_sort_ignores_case() {
    let mut c = Collection::new(cfg());
    c.ingest(vec![scene("big", "Bravo"), scene("small", "alpha")]);
    let asc = c.search("", &no_filters(), Some(SortKey::Name), true, 0, usize::MAX);
    assert_eq!(asc.items, vec!["small".to_string(), "big".to_string()]);
}

#[test]
fn relevance_breaks_ties_by_insertion_order() {
    let mut c = Collection::new(cfg());
    c.ingest(vec![
        scene("first", "Echo Echo"),
        scene("second", "Echo Echo"),
        scene("third", "Echo"),
    ]);
    let r = c.search("echo", &no_filters(), None, false, 0, usize::MAX);
    assert_eq!(
        r.items,
        vec!["first".to_string(), "second".to_string(), "third".to_string()]
    );
}

#[test]
fn actor_names_and_aliases_are_searchable() {
    let mut c = Collection::new(cfg());
    let mut d = scene("s1", "Untitled Work");
    d.actors = vec![Aliasable {
        id: "perf1".to_string(),
        name: "Grace Kelly".to_string(),
        aliases: Some(vec!["Princess".to_string()]),
    }];
    c.ingest(vec![d]);
    assert_eq!(search_ids(&c, "grace"), vec!["s1".to_string()]);
    assert_eq!(search_ids(&c, "princess"), vec!["s1".to_string()]);
}

#[test]
fn alias_duplication_raises_score() {
    let mut c = Collection::new(cfg());
    let mut d1 = scene("twice", "Nova");
    d1.actors = vec![Aliasable {
        id: "perf1".to_string(),
        name: "Nova".to_string(),
        aliases: None,
    }];
    let d2 = scene("once", "Nova");
    c.ingest(vec![d2, d1]);
    let r = c.search("nova", &no_filters(), None, false, 0, usize::MAX);
    assert_eq!(r.items[0], "twice");
    assert_eq!(r.num_hits, 2);
}

#[test]
fn studio_equality_filter() {
    let mut c = Collection::new(cfg());
    let mut d1 = scene("in", "Studio Work");
    d1.studio = Some("st1".to_string());
    let d2 = scene("out", "Studio Work");
    c.ingest(vec![d1, d2]);
    let mut f = SearchFilters::none();
    f.studio = Some("st1".to_string());
    let r = c.search("", &f, None, false, 0, usize::MAX);
    assert_eq!(r.items, vec!["in".to_string()]);
}

#[test]
fn studio_name_is_searchable() {
    let mut c = Collection::new(cfg());
    let mut d = scene("s", "Main Feature");
    d.studio_name = Some("Golden Gate".to_string());
    c.ingest(vec![d]);
    assert_eq!(search_ids(&c, "golden"), vec!["s".to_string()]);
}

#[test]
fn stemming_matches_inflected_query() {
    let mut c = Collection::new(AnalyzerConfig { min_len: 3, stem: true });
    c.ingest(vec![scene("r", "Running Free")]);
    assert_eq!(search_ids(&c, "runs"), vec!["r".to_string()]);
}

#[test]
fn resolve_and_get_round_trip() {
    let mut c = Collection::new(cfg());
    c.ingest(vec![scene("e1", "Lookup Target")]);
    let iid = c.resolve("e1").unwrap();
    assert_eq!(iid, 0);
    let doc = c.get(iid).unwrap();
    assert_eq!(doc.id, "e1");
    assert_eq!(doc.name, "Lookup Target");
    assert!(c.resolve("e2").is_none());
    assert!(c.get(7).is_none());
}

#[test]
fn internal_ids_are_not_reused_after_delete() {
    let mut c = Collection::new(cfg());
    c.ingest(vec![scene("a", "First Doc")]);
    c.delete("a").unwrap();
    c.ingest(vec![scene("b", "Second Doc")]);
    assert_eq!(c.resolve("b"), Some(1));
}
