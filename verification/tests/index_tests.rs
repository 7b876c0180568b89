use fuzzydir::bk_tree::{basename, BKTree};
use fuzzydir::index::Index;
use fuzzydir::inv_index::InvertedIndex;
use fuzzydir::paths::{LRUCache, Paths};

fn strings(xs: &[&str]) -> Vec<String> {
    xs.iter().map(|x| x.to_string()).collect()
}

#[test]
fn empty_store_reads_empty() {
    let store = Paths::new();
    assert_eq!(store.get_all(), Vec::<String>::new());
}

#[test]
fn access_on_empty_store_is_noop() {
    let mut store = Paths::new();
    store.access("a/b");
    assert_eq!(store.get_all(), Vec::<String>::new());
}

#[test]
fn add_keeps_insertion_order() {
    let mut store = Paths::new();
    store.add("a");
    store.add("b");
    store.add("c");
    assert_eq!(store.get_all(), strings(&["a", "b", "c"]));
}

#[test]
fn add_never_duplicates() {
    let mut store = Paths::new();
    store.add("a");
    store.add("b");
    store.add("a");
    store.add("b");
    store.add("a");
    let all = store.get_all();
    assert_eq!(all.iter().filter(|p| p.as_str() == "a").count(), 1);
    assert_eq!(all.iter().filter(|p| p.as_str() == "b").count(), 1);
    assert_eq!(all.len(), 2);
}

#[test]
fn add_of_tracked_path_acts_as_access() {
    let mut store = Paths::new();
    store.add("a");
    store.add("b");
    store.add("c");
    store.add("b");
    assert_eq!(store.get_all(), strings(&["b", "a", "c"]));
}

#[test]
fn access_moves_to_front() {
    let mut store = Paths::new();
    store.add("a");
    store.add("b");
    store.add("c");
    store.access("b");
    assert_eq!(store.get_all(), strings(&["b", "a", "c"]));
}

#[test]
fn repeated_access_is_idempotent() {
    let mut store = Paths::new();
    store.add("a");
    store.add("b");
    store.add("c");
    store.access("c");
    let once = store.get_all();
    store.access("c");
    assert_eq!(store.get_all(), once);
}

#[test]
fn access_of_unknown_path_is_noop() {
    let mut store = Paths::new();
    store.add("a");
    store.add("b");
    store.access("never-added");
    assert_eq!(store.get_all(), strings(&["a", "b"]));
}

#[test]
fn single_element_access_keeps_it() {
    let mut store = Paths::new();
    store.add("only");
    store.access("only");
    assert_eq!(store.get_all(), strings(&["only"]));
}

#[test]
fn lru_cache_orders_by_access() {
    let mut cache = LRUCache::new();
    cache.add("x");
    cache.add("y");
    cache.add("z");
    cache.access("y");
    cache.access("z");
    assert_eq!(cache.read_order(), strings(&["z", "y", "x"]));
}

#[test]
fn basename_takes_last_segment() {
    assert_eq!(basename("proj/src"), "src".to_string());
    assert_eq!(basename("a/b/c"), "c".to_string());
}

#[test]
fn basename_of_separator_free_path_is_whole_string() {
    assert_eq!(basename("plain"), "plain".to_string());
}

#[test]
fn basename_of_empty_path_is_empty() {
    assert_eq!(basename(""), "".to_string());
}

#[test]
fn basename_after_trailing_separator_is_empty() {
    assert_eq!(basename("a/b/"), "".to_string());
}

#[test]
fn tree_search_at_distance_zero_is_exact() {
    let mut tree = BKTree::new();
    tree.insert("a/logs");
    tree.insert("b/logs");
    tree.insert("a/src");
    assert_eq!(tree.search("logs", 0), strings(&["a/logs", "b/logs"]));
}

#[test]
fn tree_search_with_no_match_is_empty() {
    let mut tree = BKTree::new();
    tree.insert("a/logs");
    assert_eq!(tree.search("nothing-close", 0), Vec::<String>::new());
}

#[test]
fn tree_search_within_distance_one() {
    let mut tree = BKTree::new();
    tree.insert("a/logs");
    tree.insert("a/docs");
    assert_eq!(tree.search("log", 1), strings(&["a/logs"]));
    assert_eq!(tree.search("dogs", 1), strings(&["a/logs", "a/docs"]));
}

#[test]
fn tree_results_grow_with_distance() {
    let mut tree = BKTree::new();
    tree.insert("a/logs");
    tree.insert("a/docs");
    tree.insert("a/src");
    for d1 in 0..4usize {
        let smaller = tree.search("locs", d1);
        let larger = tree.search("locs", d1 + 1);
        for p in &smaller {
            assert!(larger.contains(p));
        }
    }
}

#[test]
fn tree_access_reorders_within_group() {
    let mut tree = BKTree::new();
    tree.insert("a/logs");
    tree.insert("b/logs");
    tree.access("b/logs");
    assert_eq!(tree.search("logs", 0), strings(&["b/logs", "a/logs"]));
}

#[test]
fn tree_access_of_unknown_basename_is_noop() {
    let mut tree = BKTree::new();
    tree.insert("a/logs");
    tree.access("b/unknown");
    assert_eq!(tree.search("logs", 0), strings(&["a/logs"]));
}

#[test]
fn inverted_index_finds_every_segment() {
    let idx = InvertedIndex::build(&strings(&["proj/src", "proj/tests"]));
    assert_eq!(idx.search("proj"), Some(strings(&["proj/src", "proj/tests"])));
    assert_eq!(idx.search("src"), Some(strings(&["proj/src"])));
    assert_eq!(idx.search("tests"), Some(strings(&["proj/tests"])));
}

#[test]
fn inverted_index_misses_unknown_token() {
    let idx = InvertedIndex::build(&strings(&["proj/src"]));
    assert_eq!(idx.search("missing"), None);
}

#[test]
fn inverted_index_is_case_insensitive() {
    let idx = InvertedIndex::build(&strings(&["a/logs", "b/logs"]));
    assert_eq!(idx.search("LOGS"), idx.search("logs"));
    assert_eq!(idx.search("Logs"), Some(strings(&["a/logs", "b/logs"])));
}

#[test]
fn inverted_index_lowercases_stored_tokens_not_paths() {
    let idx = InvertedIndex::build(&strings(&["a/LOGS"]));
    assert_eq!(idx.search("logs"), Some(strings(&["a/LOGS"])));
    assert_eq!(idx.search("A"), Some(strings(&["a/LOGS"])));
}

#[test]
fn inverted_index_keeps_repeated_tokens_undeduplicated() {
    let idx = InvertedIndex::build(&strings(&["x/y/x"]));
    assert_eq!(idx.search("x"), Some(strings(&["x/y/x", "x/y/x"])));
    assert_eq!(idx.search("y"), Some(strings(&["x/y/x"])));
}

#[test]
fn tree_search_uses_plain_levenshtein_distance() {
    let mut tree = BKTree::new();
    tree.insert("pets/kitten");
    // "kitten" -> "sitting" needs three edits.
    assert_eq!(tree.search("sitting", 2), Vec::<String>::new());
    assert_eq!(tree.search("sitting", 3), strings(&["pets/kitten"]));
    // A transposition counts as two edits under plain Levenshtein.
    tree.insert("pets/ktiten");
    assert_eq!(tree.search("kitten", 1), strings(&["pets/kitten"]));
    assert_eq!(
        tree.search("kitten", 2),
        strings(&["pets/kitten", "pets/ktiten"])
    );
}

#[test]
fn exact_basename_match_is_found_at_distance_zero() {
    let paths = strings(&["deep/nested/name", "plain"]);
    let idx = Index::build_index(&paths);
    for p in &paths {
        let key = basename(p.as_str());
        assert!(idx.fuzzy_search(key.as_str(), 0).contains(p));
    }
}

#[test]
fn token_search_of_unknown_token_is_empty() {
    let idx = Index::build_index(&strings(&["proj/src"]));
    assert_eq!(idx.token_search("nowhere"), Vec::<String>::new());
}

#[test]
fn end_to_end_scenario() {
    let paths = strings(&["proj/src", "proj/tests", "other/srd"]);
    let mut idx = Index::build_index(&paths);

    assert_eq!(idx.fuzzy_search("src", 0), strings(&["proj/src"]));

    let within_one = idx.fuzzy_search("src", 1);
    assert!(within_one.contains(&"proj/src".to_string()));
    assert!(within_one.contains(&"other/srd".to_string()));
    assert_eq!(within_one, strings(&["proj/src", "other/srd"]));

    idx.mark_accessed("other/srd");
    // The two hits have different basenames, so the cross-group order (the
    // key-iteration order) is unchanged; only within-group order may move.
    assert_eq!(idx.fuzzy_search("src", 1), strings(&["proj/src", "other/srd"]));

    assert_eq!(idx.token_search("proj"), strings(&["proj/src", "proj/tests"]));
}

#[test]
fn marking_unknown_path_changes_nothing() {
    let mut idx = Index::build_index(&strings(&["proj/src"]));
    idx.mark_accessed("never/seen");
    assert_eq!(idx.fuzzy_search("src", 0), strings(&["proj/src"]));
}

#[test]
fn mark_accessed_moves_path_to_front_of_its_group() {
    let mut idx = Index::build_index(&strings(&["a/logs", "b/logs", "c/logs"]));
    idx.mark_accessed("c/logs");
    assert_eq!(idx.fuzzy_search("logs", 0), strings(&["c/logs", "a/logs", "b/logs"]));
    idx.mark_accessed("c/logs");
    assert_eq!(idx.fuzzy_search("logs", 0), strings(&["c/logs", "a/logs", "b/logs"]));
}
