use vstd::prelude::*;

use crate::strings::{
    contains_string, distinct, lemma_prefix_grows, lemma_push_contains, lemma_push_no_duplicates,
    views,
};

verus! {

/// What `str::to_lowercase` makes of a string.
pub uninterp spec fn lower_of(s: Seq<char>) -> Seq<char>;

/// Relies on `str::to_lowercase`: the lower-case form of `s`, which depends on
/// the characters of `s` alone.
#[verifier::external_body]
fn lowercase(s: &str) -> (r: String)
    ensures
        r@ == lower_of(s@),
{
    s.to_lowercase()
}

/// A record name is one plain component of a path: not empty, no separator,
/// no NUL, and neither `.` nor `..`.
pub open spec fn valid_name(n: Seq<char>) -> bool {
    &&& n.len() > 0
    &&& !n.contains('/')
    &&& !n.contains('\0')
    &&& n != seq!['.']
    &&& n != seq!['.', '.']
}

/// A key can be stored when its lower-case form is a valid record name.
pub open spec fn valid_key(key: Seq<char>) -> bool {
    valid_name(lower_of(key))
}

/// `name` placed inside the directory `dir`.
pub open spec fn join(dir: Seq<char>, name: Seq<char>) -> Seq<char> {
    if dir.len() == 0 || dir.last() == '/' {
        dir + name
    } else {
        dir + seq!['/'] + name
    }
}

/// The path of the record of `key` in the store directory `dir`.
pub open spec fn key_path(dir: Seq<char>, key: Seq<char>) -> Seq<char> {
    join(dir, lower_of(key))
}

/// The lines of a record, or `None` where the record does not exist.
pub open spec fn record_view(record: Option<Vec<String>>) -> Option<Seq<Seq<char>>> {
    match record {
        Some(lines) => Some(views(lines@)),
        None => None,
    }
}

/// The postings of `key` given what its record holds: the distinct lines of
/// the record; none where the record is missing or the key cannot name one.
pub open spec fn posting_set(key: Seq<char>, record: Option<Seq<Seq<char>>>) -> Set<Seq<char>> {
    match record {
        Some(lines) => if valid_key(key) {
            lines.to_set()
        } else {
            Set::empty()
        },
        None => Set::empty(),
    }
}

/// A query term with the record read at its path.
pub type TermRecord = (String, Option<Vec<String>>);

pub open spec fn query_view(q: Seq<TermRecord>) -> Seq<(Seq<char>, Option<Seq<Seq<char>>>)> {
    q.map_values(|t: TermRecord| (t.0@, record_view(t.1)))
}

/// The documents that hold every term of `q`; none for no terms.
pub open spec fn all_match(q: Seq<(Seq<char>, Option<Seq<Seq<char>>>)>) -> Set<Seq<char>>
    decreases q.len(),
{
    if q.len() == 0 {
        Set::empty()
    } else if q.len() == 1 {
        posting_set(q[0].0, q[0].1)
    } else {
        all_match(q.drop_last()).intersect(posting_set(q.last().0, q.last().1))
    }
}

/// What `add(key, value)` gives on a store in `dir`: `InvalidKey` where the
/// key cannot name a record, else the value to append to the key's record.
pub open spec fn add_outcome(
    dir: Seq<char>,
    key: Seq<char>,
    value: Seq<char>,
    r: Result<Append, PostingError>,
) -> bool {
    if !valid_key(key) {
        r == Err::<Append, PostingError>(PostingError::InvalidKey)
    } else {
        r is Ok && r->Ok_0@ == (key_path(dir, key), value)
    }
}

/// A value to append to the record at `path`, followed by a line feed.
pub struct Append {
    pub path: String,
    pub value: String,
}

impl View for Append {
    type V = (Seq<char>, Seq<char>);

    open spec fn view(&self) -> (Seq<char>, Seq<char>) {
        (self.path@, self.value@)
    }
}

/// Why a posting cannot be stored.
#[derive(Clone, Copy, Debug, PartialEq, Eq, Structural)]
pub enum PostingError {
    /// The lower-case key is not a plain path component.
    InvalidKey,
}

/// A store of postings in a directory: one record per lower-case key, to
/// which each value added under that key is appended with a line feed.
pub struct PersistentMultiMap {
    pub directory: String,
}

/// Whether `n` is a valid record name.
pub fn is_valid_name(n: &str) -> (r: bool)
    ensures
        r == valid_name(n@),
{
    let len = n.unicode_len();
    if len == 0 {
        return false;
    }
    let mut i: usize = 0;
    while i < len
        invariant
            len == n@.len(),
            i <= len,
            forall|j: int| 0 <= j < i ==> n@[j] != '/' && n@[j] != '\0',
        decreases len - i,
    {
        let c = n.get_char(i);
        if c == '/' || c == '\0' {
            assert(n@.contains(c));
            return false;
        }
        i = i + 1;
    }
    let only_dots = (len == 1 && n.get_char(0) == '.') || (len == 2 && n.get_char(0) == '.'
        && n.get_char(1) == '.');
    if only_dots {
        assert(n@ =~= seq!['.'] || n@ =~= seq!['.', '.']);
        return false;
    }
    assert(n@ != seq!['.']) by {
        if n@ == seq!['.'] {
            assert(n@[0] == '.');
        }
    }
    assert(n@ != seq!['.', '.']) by {
        if n@ == seq!['.', '.'] {
            assert(n@[0] == '.' && n@[1] == '.');
        }
    }
    true
}

/// The strings of `a` that also stand in `b`, in the order of `a`.
fn retain_common(a: &Vec<String>, b: &Vec<String>) -> (r: Vec<String>)
    requires
        views(a@).no_duplicates(),
    ensures
        views(r@).no_duplicates(),
        views(r@).to_set() == views(a@).to_set().intersect(views(b@).to_set()),
{
    let ghost va = views(a@);
    let mut out: Vec<String> = Vec::new();
    let mut i: usize = 0;
    while i < a.len()
        invariant
            i <= a.len(),
            va == views(a@),
            va.no_duplicates(),
            views(out@).no_duplicates(),
            forall|w: Seq<char>|
                #[trigger] views(out@).contains(w) <==> (va.subrange(0, i as int).contains(w)
                    && views(b@).contains(w)),
        decreases a.len() - i,
    {
        let ghost before = views(out@);
        let item = &a[i];
        if contains_string(b, item) {
            out.push(item.clone());
            proof {
                assert(views(out@) =~= before.push(va[i as int]));
                assert(!before.contains(va[i as int])) by {
                    if before.contains(va[i as int]) {
                        let k = choose|k: int|
                            0 <= k < i && #[trigger] va.subrange(0, i as int)[k] == va[i as int];
                        assert(va[k] == va[i as int]);
                    }
                }
                lemma_push_no_duplicates(before, va[i as int]);
            }
        }
        proof {
            assert forall|w: Seq<char>|
                #[trigger] views(out@).contains(w) <==> (va.subrange(0, i + 1).contains(w)
                    && views(b@).contains(w)) by {
                lemma_prefix_grows(va, i as int, w);
                lemma_push_contains(before, va[i as int], w);
            }
        }
        i = i + 1;
    }
    proof {
        assert(va.subrange(0, a.len() as int) =~= va);
        assert(views(out@).to_set() =~= va.to_set().intersect(views(b@).to_set()));
    }
    out
}

impl PersistentMultiMap {
    /// A store kept in `directory`, which the caller has created.
    pub fn new(directory: String) -> (r: PersistentMultiMap)
        ensures
            r.directory@ == directory@,
    {
        PersistentMultiMap { directory }
    }

    /// The path of the record of `key`: the store directory joined with the
    /// lower-case key.
    pub fn get_path(&self, key: &str) -> (r: String)
        ensures
            r@ == key_path(self.directory@, key@),
    {
        let name = lowercase(key);
        self.path_of_name(name.as_str())
    }

    /// The path to read for the postings of `key`; `None` where the key
    /// cannot name a record, so that nothing is to be read.
    pub fn record_path(&self, key: &str) -> (r: Option<String>)
        ensures
            r is Some <==> valid_key(key@),
            r is Some ==> r->Some_0@ == key_path(self.directory@, key@),
    {
        let name = lowercase(key);
        if is_valid_name(name.as_str()) {
            Some(self.path_of_name(name.as_str()))
        } else {
            None
        }
    }

    /// The path of the record named `name`: the store directory joined with
    /// `name`.
    pub fn path_of_name(&self, name: &str) -> (r: String)
        ensures
            r@ == join(self.directory@, name@),
    {
        let mut path = self.directory.clone();
        let len = path.as_str().unicode_len();
        if len > 0 && path.as_str().get_char(len - 1) != '/' {
            path.append("/");
            proof {
                reveal_strlit("/");
            }
        }
        path.append(name);
        proof {
            assert(path@ =~= join(self.directory@, name@));
        }
        path
    }

    /// What to append so that `value` is stored under `key`, or why it
    /// cannot be stored.
    pub fn add(&self, key: &str, value: &str) -> (r: Result<Append, PostingError>)
        ensures
            add_outcome(self.directory@, key@, value@, r),
    {
        let name = lowercase(key);
        if !is_valid_name(name.as_str()) {
            return Err(PostingError::InvalidKey);
        }
        let path = self.path_of_name(name.as_str());
        Ok(Append { path, value: String::from_str(value) })
    }

    /// The distinct values stored under `key`, given `record`, the lines read
    /// at `get_path(key)`, split at line feeds (`None` where no record is
    /// there).
    pub fn get(&self, key: &str, record: &Option<Vec<String>>) -> (r: Vec<String>)
        ensures
            views(r@).no_duplicates(),
            views(r@).to_set() == posting_set(key@, record_view(*record)),
    {
        let name = lowercase(key);
        match record {
            Some(lines) => {
                if is_valid_name(name.as_str()) {
                    distinct(lines)
                } else {
                    Vec::new()
                }
            },
            None => {
                let r: Vec<String> = Vec::new();
                assert(views(r@).to_set() =~= Set::empty());
                r
            },
        }
    }

    /// The documents that hold every term of `queries`, each term given with
    /// the record read at its path; none where no term is given.
    pub fn search(&self, queries: &Vec<TermRecord>) -> (r: Vec<String>)
        ensures
            views(r@).no_duplicates(),
            views(r@).to_set() == all_match(query_view(queries@)),
    {
        let ghost q = query_view(queries@);
        if queries.len() == 0 {
            let r: Vec<String> = Vec::new();
            assert(views(r@).to_set() =~= Set::empty());
            return r;
        }
        let mut result = self.get(queries[0].0.as_str(), &queries[0].1);
        proof {
            assert(q.subrange(0, 1).len() == 1);
            assert(q.subrange(0, 1)[0] == q[0]);
        }
        let mut i: usize = 1;
        while i < queries.len()
            invariant
                1 <= i <= queries.len(),
                q == query_view(queries@),
                views(result@).no_duplicates(),
                views(result@).to_set() == all_match(q.subrange(0, i as int)),
            decreases queries.len() - i,
        {
            let postings = self.get(queries[i].0.as_str(), &queries[i].1);
            result = retain_common(&result, &postings);
            proof {
                let next = q.subrange(0, i + 1);
                assert(next.drop_last() =~= q.subrange(0, i as int));
                assert(next.last() == q[i as int]);
            }
            i = i + 1;
        }
        assert(q.subrange(0, queries.len() as int) =~= q);
        result
    }
}

} // verus!
