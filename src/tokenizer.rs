use vstd::prelude::*;

use crate::strings::{distinct, lemma_prefix_grows, lemma_push_contains, views};

verus! {

/// The pieces that `regex::Regex::split` cuts `text` into with the regular
/// expression `pattern`, empty pieces included.
pub uninterp spec fn regex_split(pattern: Seq<char>, text: Seq<char>) -> Seq<Seq<char>>;

/// The delimiter between words: a maximal run of non-word characters.
pub open spec fn nonword_pattern() -> Seq<char> {
    seq!['\\', 'W', '+']
}

/// The distinct non-empty words of `text`.
pub open spec fn words(text: Seq<char>) -> Set<Seq<char>> {
    regex_split(nonword_pattern(), text).to_set().filter(|w: Seq<char>| w.len() > 0)
}

/// Relies on `regex::Regex::new` and `regex::Regex::split`: the pieces of
/// `text` between the matches of `pattern`. Only the delimiter pattern of
/// this library is admitted, which compiles, so `unwrap` does not panic.
#[verifier::external_body]
fn split_by_pattern(pattern: &str, text: &str) -> (r: Vec<String>)
    requires
        pattern@ == nonword_pattern(),
    ensures
        views(r@) == regex_split(pattern@, text@),
{
    let re = regex::Regex::new(pattern).unwrap();
    re.split(text).map(|piece| piece.to_string()).collect()
}

/// The distinct non-empty strings of `pieces`, in order of first occurrence.
pub fn distinct_words(pieces: &Vec<String>) -> (r: Vec<String>)
    ensures
        views(r@).no_duplicates(),
        views(r@).to_set() == views(pieces@).to_set().filter(|w: Seq<char>| w.len() > 0),
        forall|i: int| 0 <= i < r@.len() ==> r@[i]@.len() > 0,
{
    let ghost all = views(pieces@);
    let mut nonempty: Vec<String> = Vec::new();
    let mut i: usize = 0;
    while i < pieces.len()
        invariant
            i <= pieces.len(),
            all == views(pieces@),
            forall|w: Seq<char>|
                #[trigger] views(nonempty@).contains(w) <==> (all.subrange(0, i as int).contains(w)
                    && w.len() > 0),
        decreases pieces.len() - i,
    {
        let ghost before = views(nonempty@);
        if pieces[i].as_str().unicode_len() > 0 {
            nonempty.push(pieces[i].clone());
            proof {
                assert(views(nonempty@) =~= before.push(all[i as int]));
            }
        }
        proof {
            assert forall|w: Seq<char>|
                #[trigger] views(nonempty@).contains(w) <==> (all.subrange(0, i + 1).contains(w)
                    && w.len() > 0) by {
                lemma_prefix_grows(all, i as int, w);
                lemma_push_contains(before, all[i as int], w);
            }
        }
        i = i + 1;
    }
    let out = distinct(&nonempty);
    proof {
        assert(all.subrange(0, pieces.len() as int) =~= all);
        assert forall|w: Seq<char>|
            views(out@).to_set().contains(w) <==> all.to_set().filter(
                |w: Seq<char>| w.len() > 0,
            ).contains(w) by {
            assert(views(out@).to_set().contains(w) == views(nonempty@).to_set().contains(w));
            assert(views(nonempty@).contains(w) <==> (all.contains(w) && w.len() > 0));
        }
        assert(views(out@).to_set() =~= all.to_set().filter(|w: Seq<char>| w.len() > 0));
        assert forall|j: int| 0 <= j < out@.len() implies out@[j]@.len() > 0 by {
            assert(views(out@)[j] == out@[j]@);
            assert(views(out@).to_set().contains(views(out@)[j]));
        }
    }
    out
}

/// The distinct non-empty words of `text`, where words are separated by runs
/// of characters other than letters, digits and underscores. Case is kept.
pub fn tokenize(text: &str) -> (r: Vec<String>)
    ensures
        views(r@).no_duplicates(),
        views(r@).to_set() == words(text@),
        forall|i: int| 0 <= i < r@.len() ==> r@[i]@.len() > 0,
{
    let pattern = "\\W+";
    proof {
        reveal_strlit("\\W+");
        assert(pattern@ =~= nonword_pattern());
    }
    let pieces = split_by_pattern(pattern, text);
    distinct_words(&pieces)
}

} // verus!
