use blog_search::index::{Document, Global};
use blog_search::scan::{scan_all_documents, ScanEntry};
use blog_search::score::{idf, score};
use blog_search::search::search;

fn entry(name: &str, content: &str) -> ScanEntry {
    ScanEntry { name: name.to_string(), content: Some(content.to_string()) }
}

fn empty_index() -> Global {
    Global::new(Vec::new(), 0)
}

fn two_doc_entries() -> Vec<ScanEntry> {
    vec![entry("doc_a.md", "rust rust go"), entry("doc_b.md", "go go go")]
}

fn ranked(mut pq: priority_queue::PriorityQueue<String, i32>) -> Vec<(String, i32)> {
    let mut out = Vec::new();
    while let Some(pair) = pq.pop() {
        out.push(pair);
    }
    out
}

#[test]
fn tokenizer_counts_stemmed_terms() {
    let d = blog_search::index::words_time_by_documents("Running runs RUN");
    assert_eq!(d.lenght, 3);
    assert_eq!(d.word_count.len(), 1);
    assert_eq!(d.word_count[0].0, "run");
    assert_eq!(d.word_count[0].1, 3);
}

#[test]
fn tokenizer_keeps_first_occurrence_order() {
    let d = blog_search::index::words_time_by_documents("go rust go rust go");
    assert_eq!(d.lenght, 5);
    let keys: Vec<&str> = d.word_count.iter().map(|p| p.0.as_str()).collect();
    assert_eq!(keys, vec!["go", "rust"]);
    assert_eq!(d.word_count[0].1, 3);
    assert_eq!(d.word_count[1].1, 2);
}

#[test]
fn scan_indexes_new_files_and_counts_entries() {
    let mut g = empty_index();
    scan_all_documents(&two_doc_entries(), &mut g);
    assert_eq!(g.lenght, 2);
    assert_eq!(g.word_count.len(), 2);
    assert_eq!(g.word_count[0].0, "doc_a.md");
    assert_eq!(g.word_count[1].0, "doc_b.md");
}

#[test]
fn scan_counts_unreadable_entries_without_indexing_them() {
    let mut g = empty_index();
    let entries = vec![
        entry("doc_a.md", "rust rust go"),
        ScanEntry { name: "subdir".to_string(), content: None },
    ];
    scan_all_documents(&entries, &mut g);
    assert_eq!(g.lenght, 2);
    assert_eq!(g.word_count.len(), 1);
}

#[test]
fn idempotent_rescan() {
    let entries = two_doc_entries();
    let mut g = empty_index();
    scan_all_documents(&entries, &mut g);
    let after_first = g.clone();
    scan_all_documents(&entries, &mut g);
    assert_eq!(g, after_first);
}

#[test]
fn monotonic_growth_never_touches_existing_entries() {
    let mut g = empty_index();
    scan_all_documents(&two_doc_entries(), &mut g);
    let old_a = g.word_count[0].clone();
    let old_b = g.word_count[1].clone();
    // The rescan lists one new file, and doc_a's content has changed on disk.
    let entries2 = vec![
        entry("doc_a.md", "completely different words now"),
        entry("doc_b.md", "go go go"),
        entry("doc_c.md", "fresh article"),
    ];
    scan_all_documents(&entries2, &mut g);
    assert_eq!(g.word_count.len(), 3);
    assert_eq!(g.word_count[0], old_a);
    assert_eq!(g.word_count[1], old_b);
    assert_eq!(g.word_count[2].0, "doc_c.md");
    assert_eq!(g.lenght, 3);
}

#[test]
fn stale_cache_corruption_recovery() {
    // The boundary layer deserializes the persisted index; any failure falls
    // back to the empty index, and the search proceeds.
    let corrupt = "{ word_count: not even json";
    let parsed: Result<serde_json::Value, _> = serde_json::from_str(corrupt);
    assert!(parsed.is_err());
    let mut g = match parsed {
        Ok(_) => unreachable!(),
        Err(_) => empty_index(),
    };
    let pq = search(vec!["rust".to_string()], &two_doc_entries(), &mut g);
    let r = ranked(pq);
    assert_eq!(r.len(), 2);
    assert_eq!(r[0].0, "doc_a.md");
}

#[test]
fn empty_query_scores_zero_everywhere() {
    let mut g = empty_index();
    let pq = search(Vec::new(), &two_doc_entries(), &mut g);
    let r = ranked(pq);
    assert_eq!(r.len(), 2);
    assert_eq!(r[0].1, 0);
    assert_eq!(r[1].1, 0);
}

#[test]
fn end_to_end_rust_query() {
    let mut g = empty_index();
    let pq = search(vec!["rust".to_string()], &two_doc_entries(), &mut g);
    let r = ranked(pq);
    assert_eq!(r.len(), 2);
    assert_eq!(r[0].0, "doc_a.md");
    assert!(r[0].1 > 0);
    assert_eq!(r[1].0, "doc_b.md");
    assert_eq!(r[1].1, 0);
}

#[test]
fn end_to_end_go_query() {
    let mut g = empty_index();
    let pq = search(vec!["go".to_string()], &two_doc_entries(), &mut g);
    let r = ranked(pq);
    assert_eq!(r.len(), 2);
    assert!(r[0].1 > 0);
    assert!(r[1].1 > 0);
    assert_eq!(r[0].0, "doc_b.md");
    assert!(r[0].1 >= r[1].1);
}

#[test]
fn exact_scores_of_the_two_doc_corpus() {
    // idf(rust) = 1000*log10(6/3) = 301; weight of doc_a = 22*2*6/192.
    let mut g = empty_index();
    scan_all_documents(&two_doc_entries(), &mut g);
    assert_eq!(idf(&"rust".to_string(), &g), 301);
    assert_eq!(idf(&"go".to_string(), &g), 79);
    let q_rust = vec!["rust".to_string()];
    let q_go = vec!["go".to_string()];
    let a = &g.word_count[0].1;
    let b = &g.word_count[1].1;
    assert_eq!(score(a, &q_rust, &g), 414);
    assert_eq!(score(b, &q_rust, &g), 0);
    assert_eq!(score(a, &q_go, &g), 79);
    assert_eq!(score(b, &q_go, &g), 124);
}

#[test]
fn unseen_term_has_positive_baseline_idf() {
    let mut g = empty_index();
    scan_all_documents(&two_doc_entries(), &mut g);
    // n_t = 0: idf = 1000*log10(6/1) = 778.
    assert!(idf(&"zebra".to_string(), &g) > 0);
}

#[test]
fn repeat_query_accumulates_per_term() {
    let mut g = empty_index();
    scan_all_documents(&two_doc_entries(), &mut g);
    let once = score(&g.word_count[0].1, &vec!["rust".to_string()], &g);
    let twice = score(
        &g.word_count[0].1,
        &vec!["rust".to_string(), "rust".to_string()],
        &g,
    );
    assert_eq!(twice, 2 * once);
}

#[test]
fn constructors_keep_their_fields() {
    let d = Document::new(vec![("run".to_string(), 2)], 5);
    assert_eq!(d.lenght, 5);
    assert_eq!(d.word_count[0].1, 2);
    let g = Global::new(vec![("a".to_string(), d)], 7);
    assert_eq!(g.lenght, 7);
    assert_eq!(g.word_count.len(), 1);
}

#[test]
fn article_names_drop_extension_and_underscores() {
    assert_eq!(
        blog_search::article::get_name_from_article_path("my_first_article.md"),
        "my first article"
    );
    assert_eq!(blog_search::article::get_name_from_article_path("notes.tar.gz"), "notes.tar");
    assert_eq!(blog_search::article::get_name_from_article_path(".hidden"), ".hidden");
    assert_eq!(blog_search::article::get_name_from_article_path("dir/some_post.md"), "dir/some post");
    assert_eq!(blog_search::article::get_name_from_article_path("plain"), "plain");
}

#[test]
fn bm25_monotonicity_scenario() {
    // doc_a: higher "rust" frequency, length below the corpus mean of 4;
    // doc_b: lower frequency, length above it. a must score at least b.
    let entries = vec![
        entry("doc_a.md", "rust rust rust"),
        entry("doc_b.md", "rust pad pad pad pad"),
    ];
    let mut g = empty_index();
    scan_all_documents(&entries, &mut g);
    let q = vec!["rust".to_string()];
    let a = score(&g.word_count[0].1, &q, &g);
    let b = score(&g.word_count[1].1, &q, &g);
    assert!(a >= b);
    assert!(b > 0);
}
