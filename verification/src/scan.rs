use vstd::prelude::*;

use crate::index::has_key;
use crate::index::keys_unique;
use crate::index::counts_of_tokens;
use crate::index::words_time_by_documents;
use crate::index::DocV;
use crate::index::Global;
use crate::index::glob_view;
use crate::tokenize::tokens_of;

verus! {

// The corpus scanner. The boundary layer lists the article directory and
// reads each regular file; the scanner itself is pure: it merges those
// entries into the loaded index. An entry already present as a key is left
// untouched, whatever its content now reads; an unreadable entry contributes
// to the visit count only.

/// One directory entry as the boundary layer hands it in: its path, and its
/// full text when it is a readable regular file (`None` otherwise).
#[derive(Clone, Debug, PartialEq)]
pub struct ScanEntry {
    pub name: String,
    pub content: Option<String>,
}

impl ScanEntry {
    /// The spec-level value of this entry.
    pub open spec fn view_v(self) -> (Seq<char>, Option<Seq<char>>) {
        (
            self.name@,
            match self.content {
                Some(c) => Some(c@),
                None => None,
            },
        )
    }
}

/// The spec-level reading of a listed directory.
pub open spec fn entries_view(entries: Seq<ScanEntry>) -> Seq<(Seq<char>, Option<Seq<char>>)> {
    entries.map_values(|e: ScanEntry| e.view_v())
}

/// The document built from one file's text.
pub open spec fn doc_of_text(text: Seq<char>) -> DocV {
    (counts_of_tokens(tokens_of(text)), tokens_of(text).len() as u64)
}

/// What one directory entry does to the index: a readable entry whose name is
/// not yet a key is appended; everything else leaves the index as it was.
pub open spec fn scan_step(
    acc: Seq<(Seq<char>, DocV)>,
    e: (Seq<char>, Option<Seq<char>>),
) -> Seq<(Seq<char>, DocV)> {
    match e.1 {
        Some(text) => if has_key(acc, e.0) {
            acc
        } else {
            acc.push((e.0, doc_of_text(text)))
        },
        None => acc,
    }
}

/// The index after scanning the listed entries in order.
pub open spec fn scan_docs(
    gd: Seq<(Seq<char>, DocV)>,
    ev: Seq<(Seq<char>, Option<Seq<char>>)>,
) -> Seq<(Seq<char>, DocV)>
    decreases ev.len(),
{
    if ev.len() == 0 {
        gd
    } else {
        scan_step(scan_docs(gd, ev.drop_last()), ev.last())
    }
}

/// Scanning never touches what is already indexed: the old index is a prefix
/// of the new one, entry for entry, and no key is ever lost.
pub proof fn lemma_scan_preserves(
    gd: Seq<(Seq<char>, DocV)>,
    ev: Seq<(Seq<char>, Option<Seq<char>>)>,
)
    ensures
        gd.len() <= scan_docs(gd, ev).len() <= gd.len() + ev.len(),
        forall|i: int| 0 <= i < gd.len() ==> #[trigger] scan_docs(gd, ev)[i] == gd[i],
        forall|k: Seq<char>| has_key(gd, k) ==> #[trigger] has_key(scan_docs(gd, ev), k),
    decreases ev.len(),
{
    if ev.len() == 0 {
    } else {
        lemma_scan_preserves(gd, ev.drop_last());
        let mid = scan_docs(gd, ev.drop_last());
        let out = scan_docs(gd, ev);
        assert forall|k: Seq<char>| has_key(mid, k) implies #[trigger] has_key(out, k) by {
            let i = choose|i: int| 0 <= i < mid.len() && mid[i].0 == k;
            assert(out[i].0 == k);
        }
    }
}

/// After a scan, every readable entry's name is a key of the index.
pub proof fn lemma_scan_covers(
    gd: Seq<(Seq<char>, DocV)>,
    ev: Seq<(Seq<char>, Option<Seq<char>>)>,
)
    ensures
        forall|i: int|
            0 <= i < ev.len() && (#[trigger] ev[i]).1 is Some ==> has_key(
                scan_docs(gd, ev),
                ev[i].0,
            ),
    decreases ev.len(),
{
    if ev.len() == 0 {
    } else {
        lemma_scan_covers(gd, ev.drop_last());
        let mid = scan_docs(gd, ev.drop_last());
        let out = scan_docs(gd, ev);
        assert forall|i: int| 0 <= i < ev.len() && (#[trigger] ev[i]).1 is Some implies has_key(
            out,
            ev[i].0,
        ) by {
            if i < ev.len() - 1 {
                assert(ev.drop_last()[i] == ev[i]);
                assert(has_key(mid, ev[i].0));
                let w = choose|w: int| 0 <= w < mid.len() && mid[w].0 == ev[i].0;
                assert(out[w].0 == ev[i].0);
            } else {
                if !has_key(mid, ev[i].0) {
                    assert(out[mid.len() as int].0 == ev[i].0);
                }
            }
        }
    }
}

/// An index that already holds every readable entry's name is left exactly as
/// it is by a scan of those entries.
proof fn lemma_scan_fixed(gd: Seq<(Seq<char>, DocV)>, ev: Seq<(Seq<char>, Option<Seq<char>>)>)
    requires
        forall|i: int| 0 <= i < ev.len() && (#[trigger] ev[i]).1 is Some ==> has_key(gd, ev[i].0),
    ensures
        scan_docs(gd, ev) == gd,
    decreases ev.len(),
{
    if ev.len() == 0 {
    } else {
        assert forall|i: int|
            0 <= i < ev.drop_last().len() && (#[trigger] ev.drop_last()[i]).1
                is Some implies has_key(gd, ev.drop_last()[i].0) by {
            assert(ev.drop_last()[i] == ev[i]);
        }
        lemma_scan_fixed(gd, ev.drop_last());
        assert(ev.last() == ev[ev.len() - 1]);
    }
}

/// Scanning an unchanged directory twice yields the very same index that the
/// first scan yielded: rescanning is idempotent.
pub proof fn lemma_scan_idempotent(
    gd: Seq<(Seq<char>, DocV)>,
    ev: Seq<(Seq<char>, Option<Seq<char>>)>,
)
    ensures
        scan_docs(scan_docs(gd, ev), ev) == scan_docs(gd, ev),
{
    lemma_scan_covers(gd, ev);
    lemma_scan_fixed(scan_docs(gd, ev), ev);
}

/// Listing one more readable, new-named file adds exactly one document, at
/// the end, built from that file's text; every document that was indexed
/// before is carried over unchanged, at its old place.
pub proof fn lemma_scan_grows_by_one(
    gd: Seq<(Seq<char>, DocV)>,
    ev: Seq<(Seq<char>, Option<Seq<char>>)>,
    name: Seq<char>,
    text: Seq<char>,
)
    requires
        !has_key(scan_docs(gd, ev), name),
    ensures
        scan_docs(gd, ev.push((name, Some(text)))) == scan_docs(gd, ev).push(
            (name, doc_of_text(text)),
        ),
        forall|i: int|
            0 <= i < scan_docs(gd, ev).len() ==> #[trigger] scan_docs(
                gd,
                ev.push((name, Some(text))),
            )[i] == scan_docs(gd, ev)[i],
{
    let ev2 = ev.push((name, Some(text)));
    assert(ev2.drop_last() =~= ev);
    assert(ev2.last() == (name, Some(text)));
}

/// The total token count over all indexed documents.
pub open spec fn total_len(gd: Seq<(Seq<char>, DocV)>) -> int
    decreases gd.len(),
{
    if gd.len() == 0 {
        0
    } else {
        total_len(gd.drop_last()) + gd.last().1.1
    }
}

/// Every document's length is at most the corpus total.
pub proof fn lemma_total_len_ge_each(gd: Seq<(Seq<char>, DocV)>, i: int)
    requires
        0 <= i < gd.len(),
    ensures
        gd[i].1.1 <= total_len(gd),
        0 <= total_len(gd),
    decreases gd.len(),
{
    lemma_total_len_nonneg(gd);
    if i == gd.len() - 1 {
        lemma_total_len_nonneg(gd.drop_last());
    } else {
        lemma_total_len_ge_each(gd.drop_last(), i);
    }
}

/// Token counts are never negative, so neither is their total.
pub proof fn lemma_total_len_nonneg(gd: Seq<(Seq<char>, DocV)>)
    ensures
        0 <= total_len(gd),
    decreases gd.len(),
{
    if gd.len() > 0 {
        lemma_total_len_nonneg(gd.drop_last());
    }
}

/// The sum of the listed entries' text lengths (unreadable entries count 0).
pub open spec fn sum_content_len(ev: Seq<(Seq<char>, Option<Seq<char>>)>) -> int
    decreases ev.len(),
{
    if ev.len() == 0 {
        0
    } else {
        sum_content_len(ev.drop_last()) + match ev.last().1 {
            Some(text) => text.len() as int,
            None => 0,
        }
    }
}

proof fn lemma_sum_content_len_nonneg(ev: Seq<(Seq<char>, Option<Seq<char>>)>)
    ensures
        0 <= sum_content_len(ev),
    decreases ev.len(),
{
    if ev.len() > 0 {
        lemma_sum_content_len_nonneg(ev.drop_last());
    }
}

/// Scans the listed directory entries into the index: every readable entry
/// whose name is not yet a key is tokenized and appended; entries already
/// present are skipped entirely; and the corpus count `N` is reassigned to
/// the number of entries visited, directories and unreadable files included.
pub fn scan_all_documents(entries: &Vec<ScanEntry>, scanned_documents: &mut Global)
    requires
        old(scanned_documents).wf(),
    ensures
        final(scanned_documents).wf(),
        glob_view(*final(scanned_documents)) == scan_docs(
            glob_view(*old(scanned_documents)),
            entries_view(entries@),
        ),
        final(scanned_documents).lenght == entries@.len(),
        total_len(glob_view(*final(scanned_documents))) <= total_len(
            glob_view(*old(scanned_documents)),
        ) + sum_content_len(entries_view(entries@)),
{
    let ghost gd0 = glob_view(*old(scanned_documents));
    let ghost ev = entries_view(entries@);
    let mut i: usize = 0;
    while i < entries.len()
        invariant
            i <= entries@.len(),
            ev == entries_view(entries@),
            scanned_documents.wf(),
            glob_view(*scanned_documents) == scan_docs(gd0, ev.take(i as int)),
            scanned_documents.lenght == old(scanned_documents).lenght,
            total_len(glob_view(*scanned_documents)) <= total_len(gd0) + sum_content_len(
                ev.take(i as int),
            ),
        decreases entries@.len() - i,
    {
        let ghost pre = glob_view(*scanned_documents);
        proof {
            assert(ev.take(i + 1).drop_last() =~= ev.take(i as int));
            assert(ev.take(i + 1).last() == ev[i as int]);
            assert(ev[i as int] == entries@[i as int].view_v());
        }
        let e = &entries[i];
        match &e.content {
            Some(text) => {
                let present = match crate::index::find_in_global(scanned_documents, &e.name) {
                    Some(_) => true,
                    None => false,
                };
                proof {
                    if present {
                        assert(has_key(pre, e.name@));
                    }
                }
                if !present {
                    let doc = words_time_by_documents(text.as_str());
                    let nm = e.name.clone();
                    scanned_documents.word_count.push((nm, doc));
                    proof {
                        assert(glob_view(*scanned_documents) =~= pre.push(
                            (e.name@, doc_of_text(text@)),
                        ));
                        assert(pre.push((e.name@, doc_of_text(text@))).drop_last() =~= pre);
                        assert(total_len(glob_view(*scanned_documents)) == total_len(pre)
                            + doc.lenght);
                        assert forall|a: int, b: int|
                            0 <= a < b < glob_view(*scanned_documents).len() implies glob_view(
                            *scanned_documents,
                        )[a].0 != glob_view(*scanned_documents)[b].0 by {
                            if b < pre.len() {
                                assert(pre[a].0 != pre[b].0);
                            } else {
                                assert(glob_view(*scanned_documents)[b].0 == e.name@);
                                assert(glob_view(*scanned_documents)[a].0 == pre[a].0);
                                assert(has_key(pre, pre[a].0));
                            }
                        }
                        assert forall|j: int|
                            0 <= j < scanned_documents.word_count@.len() implies (
                        #[trigger] scanned_documents.word_count@[j]).1.wf() by {
                        }
                    }
                } else {
                    proof {
                        lemma_sum_content_len_nonneg(ev.take(i + 1));
                        assert(sum_content_len(ev.take(i + 1)) == sum_content_len(ev.take(i as int))
                            + text@.len());
                    }
                }
            },
            None => {
                proof {
                    assert(scan_step(pre, ev[i as int]) == pre);
                }
            },
        }
        i += 1;
    }
    proof {
        assert(ev.take(entries@.len() as int) =~= ev);
    }
    let n = entries.len() as u64;
    scanned_documents.lenght = n;
}

} // verus!
