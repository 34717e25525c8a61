use vstd::prelude::*;

verus! {

/// The view of each string of a sequence.
pub open spec fn views(v: Seq<String>) -> Seq<Seq<char>> {
    v.map_values(|s: String| s@)
}

/// Whether one of the strings of `v` equals `s`.
pub fn contains_string(v: &Vec<String>, s: &String) -> (r: bool)
    ensures
        r == views(v@).contains(s@),
{
    let mut i: usize = 0;
    while i < v.len()
        invariant
            i <= v.len(),
            forall|j: int| 0 <= j < i ==> v@[j]@ != s@,
        decreases v.len() - i,
    {
        if v[i] == *s {
            proof {
                assert(views(v@)[i as int] == s@);
            }
            return true;
        }
        i = i + 1;
    }
    proof {
        if views(v@).contains(s@) {
            let k = choose|k: int| 0 <= k < views(v@).len() && views(v@)[k] == s@;
            assert(v@[k]@ == s@);
        }
    }
    false
}

/// The first `i + 1` elements of `s` hold `w` when the first `i` do, or
/// when `w` is the element at `i`.
pub proof fn lemma_prefix_grows<A>(s: Seq<A>, i: int, w: A)
    requires
        0 <= i < s.len(),
    ensures
        s.subrange(0, i + 1).contains(w) <==> (s.subrange(0, i).contains(w) || w == s[i]),
{
    lemma_push_contains(s.subrange(0, i), s[i], w);
    assert(s.subrange(0, i + 1) =~= s.subrange(0, i).push(s[i]));
}

/// `s.push(x)` holds `w` when `s` does, or when `w` is `x`.
pub proof fn lemma_push_contains<A>(s: Seq<A>, x: A, w: A)
    ensures
        s.push(x).contains(w) <==> (s.contains(w) || w == x),
{
    let t = s.push(x);
    if s.contains(w) {
        let k = choose|k: int| 0 <= k < s.len() && s[k] == w;
        assert(t[k] == w);
    }
    if w == x {
        assert(t[s.len() as int] == w);
    }
    if t.contains(w) {
        let k = choose|k: int| 0 <= k < t.len() && t[k] == w;
        if k < s.len() {
            assert(s[k] == w);
        }
    }
}

/// Pushing an element that a sequence without repetitions lacks keeps it
/// without repetitions.
pub proof fn lemma_push_no_duplicates<A>(s: Seq<A>, x: A)
    requires
        s.no_duplicates(),
        !s.contains(x),
    ensures
        s.push(x).no_duplicates(),
{
    let t = s.push(x);
    assert forall|a: int, b: int| 0 <= a < t.len() && 0 <= b < t.len() && a != b implies t[a]
        != t[b] by {
        if a < s.len() && b < s.len() {
            assert(s[a] != s[b]);
        } else if a < s.len() {
            assert(s.contains(s[a]));
        } else {
            assert(s.contains(s[b]));
        }
    }
}

/// The strings of `v` with every repetition left out, in order of first
/// occurrence.
pub fn distinct(v: &Vec<String>) -> (r: Vec<String>)
    ensures
        views(r@).no_duplicates(),
        views(r@).to_set() == views(v@).to_set(),
{
    let ghost all = views(v@);
    let mut out: Vec<String> = Vec::new();
    let mut i: usize = 0;
    while i < v.len()
        invariant
            i <= v.len(),
            all == views(v@),
            views(out@).no_duplicates(),
            forall|w: Seq<char>|
                #[trigger] views(out@).contains(w) <==> all.subrange(0, i as int).contains(w),
        decreases v.len() - i,
    {
        let ghost before = views(out@);
        let item = &v[i];
        if !contains_string(&out, item) {
            out.push(item.clone());
            proof {
                assert(views(out@) =~= before.push(item@));
                lemma_push_no_duplicates(before, item@);
            }
        }
        proof {
            assert forall|w: Seq<char>|
                #[trigger] views(out@).contains(w) <==> all.subrange(0, i + 1).contains(w) by {
                lemma_prefix_grows(all, i as int, w);
                lemma_push_contains(before, item@, w);
            }
        }
        i = i + 1;
    }
    proof {
        assert(all.subrange(0, v.len() as int) =~= all);
        assert(views(out@).to_set() =~= all.to_set());
    }
    out
}

} // verus!
