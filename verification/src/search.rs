use vstd::prelude::*;

use priority_queue::PriorityQueue;

use crate::index::Global;
use crate::index::glob_view;
use crate::queue::pq_contents;
use crate::queue::pq_new;
use crate::queue::pq_push;
use crate::scan::entries_view;
use crate::scan::lemma_scan_preserves;
use crate::scan::scan_all_documents;
use crate::scan::scan_docs;
use crate::scan::sum_content_len;
use crate::scan::total_len;
use crate::scan::lemma_total_len_ge_each;
use crate::scan::ScanEntry;
use crate::score::score;
use crate::score::score_v;
use crate::score::lemma_total_len_take;
use crate::index::DocV;
use crate::tokenize::norm_of;
use crate::tokenize::normalize_term;

verus! {

// The ranking assembler: normalize the query the same way the index was
// built, fold the listed directory into the loaded index, score every
// indexed document, and hand back all (id, score) pairs in a max-priority
// queue. The boundary layer loads the index before the call and persists the
// updated one after it.

/// The query as the scorer sees it: each raw term lowercased and stemmed.
pub open spec fn norm_query(q: Seq<String>) -> Seq<Seq<char>> {
    q.map_values(|s: String| norm_of(s@))
}

/// Every indexed document's score against the query: the first `k` documents
/// of the index, each mapped to its score over the whole index's statistics.
pub open spec fn scores_map(
    gd: Seq<(Seq<char>, DocV)>,
    k: int,
    q: Seq<Seq<char>>,
    n: int,
) -> Map<Seq<char>, int>
    decreases k,
{
    if k <= 0 {
        Map::empty()
    } else {
        scores_map(gd, k - 1, q, n).insert(gd[k - 1].0, score_v(gd[k - 1].1, q, gd, n))
    }
}

/// Searches the corpus: stems the query, folds the listed directory entries
/// into the loaded index (which the caller persists afterwards), scores
/// every indexed document against the stemmed query, and returns all
/// (document id, score) pairs, ranked by the queue.
pub fn search(
    search_query: Vec<String>,
    entries: &Vec<ScanEntry>,
    scanned_documents: &mut Global,
) -> (pq: PriorityQueue<String, i32>)
    requires
        old(scanned_documents).wf(),
        old(scanned_documents).word_count@.len() + entries@.len() <= 0x100_0000_0000,
        total_len(glob_view(*old(scanned_documents))) + sum_content_len(
            entries_view(entries@),
        ) <= 0x100_0000_0000,
        search_query@.len() <= 10000,
    ensures
        final(scanned_documents).wf(),
        glob_view(*final(scanned_documents)) == scan_docs(
            glob_view(*old(scanned_documents)),
            entries_view(entries@),
        ),
        final(scanned_documents).lenght == entries@.len(),
        pq_contents(pq) == scores_map(
            glob_view(*final(scanned_documents)),
            glob_view(*final(scanned_documents)).len() as int,
            norm_query(search_query@),
            final(scanned_documents).lenght as int,
        ),
{
    let mut stemmed: Vec<String> = Vec::new();
    let mut j: usize = 0;
    while j < search_query.len()
        invariant
            j <= search_query@.len(),
            stemmed@.len() == j,
            forall|i: int| 0 <= i < j ==> (#[trigger] stemmed@[i])@ == norm_of(search_query@[i]@),
        decreases search_query@.len() - j,
    {
        let t = normalize_term(search_query[j].as_str());
        stemmed.push(t);
        j += 1;
    }
    let ghost nq = norm_query(search_query@);
    proof {
        assert(stemmed@.map_values(|s: String| s@) =~= nq);
    }

    let ghost gd0 = glob_view(*old(scanned_documents));
    let ghost ev = entries_view(entries@);
    proof {
        crate::scan::lemma_total_len_nonneg(gd0);
    }
    scan_all_documents(entries, scanned_documents);
    let ghost gd = glob_view(*scanned_documents);
    proof {
        lemma_scan_preserves(gd0, ev);
    }

    let mut priority_queue = pq_new();
    let mut i: usize = 0;
    while i < scanned_documents.word_count.len()
        invariant
            i <= scanned_documents.word_count@.len(),
            gd == glob_view(*scanned_documents),
            scanned_documents.wf(),
            scanned_documents.lenght == entries@.len(),
            scanned_documents.word_count@.len() <= 0x100_0000_0000,
            entries@.len() <= 0x100_0000_0000,
            total_len(gd) <= 0x100_0000_0000,
            stemmed@.map_values(|s: String| s@) == nq,
            stemmed@.len() <= 10000,
            pq_contents(priority_queue) == scores_map(
                gd,
                i as int,
                nq,
                scanned_documents.lenght as int,
            ),
        decreases scanned_documents.word_count@.len() - i,
    {
        proof {
            assert(gd[i as int] == (scanned_documents.word_count@[i as int].0@,
            scanned_documents.word_count@[i as int].1.view_v()));
            lemma_total_len_ge_each(gd, i as int);
        }
        let document_name = scanned_documents.word_count[i].0.clone();
        let doc_score = score(&scanned_documents.word_count[i].1, &stemmed, scanned_documents);
        pq_push(&mut priority_queue, document_name, doc_score);
        i += 1;
    }
    priority_queue
}

/// What the ranked result holds, read entry by entry: every indexed document
/// is scored, under its id, with its BM25 score against the query; nothing
/// else is in the result.
pub proof fn lemma_scores_map_at(
    gd: Seq<(Seq<char>, DocV)>,
    k: int,
    q: Seq<Seq<char>>,
    n: int,
    i: int,
)
    requires
        crate::index::keys_unique(gd),
        0 <= i < k <= gd.len(),
    ensures
        scores_map(gd, k, q, n).contains_key(gd[i].0),
        scores_map(gd, k, q, n)[gd[i].0] == score_v(gd[i].1, q, gd, n),
    decreases k,
{
    if i < k - 1 {
        lemma_scores_map_at(gd, k - 1, q, n, i);
        assert(gd[k - 1].0 != gd[i].0);
    }
}

} // verus!
