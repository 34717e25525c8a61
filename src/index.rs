use vstd::prelude::*;

use crate::store::{add_outcome, Append, PersistentMultiMap, PostingError};
use crate::strings::views;
use crate::tokenizer::{tokenize, words};

verus! {

/// A word of a document, with what adding the document's path under it gave.
pub type WordPosting = (String, Result<Append, PostingError>);

/// A document as a (path, content) pair.
pub type Document = (String, String);

/// The words of a sequence of word postings.
pub open spec fn posted_words(r: Seq<WordPosting>) -> Seq<Seq<char>> {
    r.map_values(|e: WordPosting| e.0@)
}

/// What indexing the document at `path` with content `text` in a store in
/// `dir` gives: each distinct word of `text` once, with the outcome of adding
/// `path` under that word.
pub open spec fn visit_outcome(
    dir: Seq<char>,
    path: Seq<char>,
    text: Seq<char>,
    r: Seq<WordPosting>,
) -> bool {
    &&& posted_words(r).no_duplicates()
    &&& posted_words(r).to_set() == words(text)
    &&& forall|i: int| 0 <= i < r.len() ==> add_outcome(dir, (#[trigger] r[i]).0@, path, r[i].1)
}

impl PersistentMultiMap {
    /// Indexes the document at `path` whose content is `text`: adds `path`
    /// under each distinct word, once per word, and gives each word with the
    /// line to append or the reason it was refused.
    pub fn visit(&self, path: &str, text: &str) -> (r: Vec<WordPosting>)
        ensures
            visit_outcome(self.directory@, path@, text@, r@),
    {
        let tokens = tokenize(text);
        let mut out: Vec<WordPosting> = Vec::new();
        let mut i: usize = 0;
        while i < tokens.len()
            invariant
                i <= tokens.len(),
                out@.len() == i,
                forall|j: int|
                    0 <= j < i ==> (#[trigger] out@[j]).0@ == tokens@[j]@ && add_outcome(
                        self.directory@,
                        tokens@[j]@,
                        path@,
                        out@[j].1,
                    ),
            decreases tokens.len() - i,
        {
            let added = self.add(tokens[i].as_str(), path);
            out.push((tokens[i].clone(), added));
            i = i + 1;
        }
        proof {
            assert(posted_words(out@) =~= views(tokens@));
        }
        out
    }

    /// Indexes every document of `documents`, each a (path, content) pair:
    /// what `visit` gives for each, in order.
    pub fn create_index(&self, documents: &Vec<Document>) -> (r: Vec<Vec<WordPosting>>)
        ensures
            r@.len() == documents@.len(),
            forall|i: int|
                0 <= i < r@.len() ==> visit_outcome(
                    self.directory@,
                    documents@[i].0@,
                    documents@[i].1@,
                    (#[trigger] r@[i])@,
                ),
    {
        let mut out: Vec<Vec<WordPosting>> = Vec::new();
        let mut i: usize = 0;
        while i < documents.len()
            invariant
                i <= documents.len(),
                out@.len() == i,
                forall|j: int|
                    0 <= j < i ==> visit_outcome(
                        self.directory@,
                        documents@[j].0@,
                        documents@[j].1@,
                        (#[trigger] out@[j])@,
                    ),
            decreases documents.len() - i,
        {
            out.push(self.visit(documents[i].0.as_str(), documents[i].1.as_str()));
            i = i + 1;
        }
        out
    }
}

} // verus!
