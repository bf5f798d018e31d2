use vstd::prelude::*;

verus! {

// Turning an article's file name into a display name: the final component's
// extension is dropped and underscores become spaces.

/// The length of `s` without its extension: everything up to the last dot of
/// the final path component, unless that dot begins the component (a hidden
/// file has no extension). Without such a dot, all of `s`.
pub open spec fn cut_of(s: Seq<char>) -> int
    decreases s.len(),
{
    if s.len() == 0 {
        0
    } else if s.last() == '/' {
        s.len() as int
    } else if s.last() == '.' {
        if s.len() >= 2 && s[s.len() - 2] != '/' {
            s.len() - 1
        } else {
            s.len() as int
        }
    } else {
        let c = cut_of(s.drop_last());
        if c == s.len() - 1 {
            s.len() as int
        } else {
            c
        }
    }
}

/// The cut never leaves the string.
pub proof fn lemma_cut_of_range(s: Seq<char>)
    ensures
        0 <= cut_of(s) <= s.len(),
    decreases s.len(),
{
    if s.len() > 0 && s.last() != '/' && s.last() != '.' {
        lemma_cut_of_range(s.drop_last());
    }
}

/// The display name of an article path: the extension dropped, then every
/// underscore read as a space.
pub open spec fn article_name_of(s: Seq<char>) -> Seq<char> {
    s.take(cut_of(s)).map_values(|c: char| if c == '_' { ' ' } else { c })
}

/// Relies on `str::replace` with a one-character pattern and replacement:
/// every underscore becomes a space, every other character is kept.
#[verifier::external_body]
fn replace_underscores(s: &str) -> (r: String)
    ensures
        r@ == s@.map_values(|c: char| if c == '_' { ' ' } else { c }),
{
    s.replace("_", " ")
}

/// Where to cut the first `i` characters of `path`: `cut_of` of that prefix.
fn cut_exec(path: &str, i: usize) -> (r: usize)
    requires
        i <= path@.len(),
    ensures
        r as int == cut_of(path@.take(i as int)),
        r <= i,
    decreases i,
{
    proof {
        lemma_cut_of_range(path@.take(i as int));
    }
    if i == 0 {
        0
    } else {
        proof {
            assert(path@.take(i as int).last() == path@[i - 1]);
            assert(path@.take(i as int).drop_last() =~= path@.take(i - 1));
        }
        let c = path.get_char(i - 1);
        if c == '/' {
            i
        } else if c == '.' {
            if i >= 2 && path.get_char(i - 2) != '/' {
                proof {
                    assert(path@.take(i as int)[i - 2] == path@[i - 2]);
                }
                i - 1
            } else {
                i
            }
        } else {
            let cc = cut_exec(path, i - 1);
            if cc == i - 1 {
                i
            } else {
                cc
            }
        }
    }
}

/// The display name of an article: its path without the extension, with
/// underscores read as spaces.
pub fn get_name_from_article_path(path: &str) -> (r: String)
    ensures
        r@ == article_name_of(path@),
{
    let n = path.unicode_len();
    let cut = cut_exec(path, n);
    proof {
        assert(path@.take(n as int) =~= path@);
        lemma_cut_of_range(path@);
    }
    let stem = path.substring_char(0, cut);
    proof {
        assert(stem@ =~= path@.take(cut_of(path@)));
    }
    replace_underscores(stem)
}

} // verus!
