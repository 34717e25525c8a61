//! What holds of the store across calls, stated over a model of its
//! directory: each record path mapped to the lines it holds, in order. A
//! record only ever grows by a value followed by a line feed, and is read back
//! split at line feeds.
use vstd::prelude::*;

use crate::store::{join, key_path, lower_of, posting_set, valid_key};

verus! {

/// The lines of the record at `path`; none where it does not exist.
pub open spec fn lines_at(disk: Map<Seq<char>, Seq<Seq<char>>>, path: Seq<char>) -> Seq<Seq<char>> {
    if disk.contains_key(path) {
        disk[path]
    } else {
        seq![]
    }
}

/// What reading the record at `path` yields.
pub open spec fn record_at(disk: Map<Seq<char>, Seq<Seq<char>>>, path: Seq<char>) -> Option<
    Seq<Seq<char>>,
> {
    if disk.contains_key(path) {
        Some(disk[path])
    } else {
        None
    }
}

/// The lines that appending `v` and a line feed adds to a record that is
/// empty or ends in a line feed: `v` cut at each line feed.
pub open spec fn split_lines(v: Seq<char>) -> Seq<Seq<char>>
    decreases v.len(),
{
    if v.len() == 0 {
        seq![seq![]]
    } else {
        let rest = split_lines(v.drop_last());
        if v.last() == '\n' {
            rest.push(seq![])
        } else {
            rest.drop_last().push(rest.last().push(v.last()))
        }
    }
}

/// A value without a line feed is appended as one line.
pub proof fn lemma_one_line(v: Seq<char>)
    requires
        !v.contains('\n'),
    ensures
        split_lines(v) == seq![v],
    decreases v.len(),
{
    if v.len() > 0 {
        let init = v.drop_last();
        assert(!init.contains('\n')) by {
            if init.contains('\n') {
                let k = choose|k: int| 0 <= k < init.len() && init[k] == '\n';
                assert(v[k] == '\n');
            }
        }
        lemma_one_line(init);
        assert(v.contains(v.last())) by {
            assert(v[v.len() - 1] == v.last());
        }
        assert(init.push(v.last()) =~= v);
        assert(split_lines(v) =~= seq![v]);
    } else {
        assert(v =~= seq![]);
    }
}

/// The directory after `add(key, value)` and the append it asks for; as it
/// was where the posting is refused.
pub open spec fn after_add(
    disk: Map<Seq<char>, Seq<Seq<char>>>,
    dir: Seq<char>,
    key: Seq<char>,
    value: Seq<char>,
) -> Map<Seq<char>, Seq<Seq<char>>> {
    if valid_key(key) {
        let path = key_path(dir, key);
        disk.insert(path, lines_at(disk, path) + split_lines(value))
    } else {
        disk
    }
}

/// The directory after adding each (key, value) pair of `entries` in turn.
pub open spec fn after_adds(
    disk: Map<Seq<char>, Seq<Seq<char>>>,
    dir: Seq<char>,
    entries: Seq<(Seq<char>, Seq<char>)>,
) -> Map<Seq<char>, Seq<Seq<char>>>
    decreases entries.len(),
{
    if entries.len() == 0 {
        disk
    } else {
        let last = entries.last();
        after_add(after_adds(disk, dir, entries.drop_last()), dir, last.0, last.1)
    }
}

/// What `get(key)` returns, as a set, once the record at `get_path(key)` is
/// read from the directory `disk`.
pub open spec fn stored(disk: Map<Seq<char>, Seq<Seq<char>>>, dir: Seq<char>, key: Seq<char>) -> Set<
    Seq<char>,
> {
    posting_set(key, record_at(disk, key_path(dir, key)))
}

/// The record names that the keys of `entries` give.
pub open spec fn record_names(entries: Seq<(Seq<char>, Seq<char>)>) -> Set<Seq<char>> {
    entries.map_values(|e: (Seq<char>, Seq<char>)| lower_of(e.0)).to_set()
}

/// Two names joined to one directory give one path only when they are equal.
pub proof fn lemma_join_injective(dir: Seq<char>, a: Seq<char>, b: Seq<char>)
    requires
        join(dir, a) == join(dir, b),
    ensures
        a == b,
{
    let prefix = if dir.len() == 0 || dir.last() == '/' {
        dir
    } else {
        dir + seq!['/']
    };
    assert(join(dir, a) =~= prefix + a);
    assert(join(dir, b) =~= prefix + b);
    assert(a =~= (prefix + a).subrange(prefix.len() as int, (prefix + a).len() as int));
    assert(b =~= (prefix + b).subrange(prefix.len() as int, (prefix + b).len() as int));
}

/// Keys that differ only in case share one record: they have one path, and
/// reading either gives the same postings.
pub proof fn lemma_case_shares_record(
    disk: Map<Seq<char>, Seq<Seq<char>>>,
    dir: Seq<char>,
    a: Seq<char>,
    b: Seq<char>,
)
    requires
        lower_of(a) == lower_of(b),
    ensures
        key_path(dir, a) == key_path(dir, b),
        stored(disk, dir, a) == stored(disk, dir, b),
{
}

/// Adding `v1` under `k1` and then `v2` under `k2`, where the two keys and
/// the key `k3` that is read differ only in case, makes `k3` give both values
/// beside what its record held before.
pub proof fn lemma_case_insensitive_adds(
    disk: Map<Seq<char>, Seq<Seq<char>>>,
    dir: Seq<char>,
    k1: Seq<char>,
    v1: Seq<char>,
    k2: Seq<char>,
    v2: Seq<char>,
    k3: Seq<char>,
)
    requires
        lower_of(k1) == lower_of(k3),
        lower_of(k2) == lower_of(k3),
        valid_key(k3),
        !v1.contains('\n'),
        !v2.contains('\n'),
    ensures
        stored(after_add(after_add(disk, dir, k1, v1), dir, k2, v2), dir, k3) == stored(
            disk,
            dir,
            k3,
        ).insert(v1).insert(v2),
{
    let path = key_path(dir, k3);
    let d1 = after_add(disk, dir, k1, v1);
    let d2 = after_add(d1, dir, k2, v2);
    lemma_one_line(v1);
    lemma_one_line(v2);
    assert(lines_at(d2, path) =~= lines_at(disk, path).push(v1).push(v2));
    assert(lines_at(d2, path).to_set() =~= lines_at(disk, path).to_set().insert(v1).insert(v2)) by {
        let s = lines_at(disk, path);
        let t = lines_at(d2, path);
        assert forall|x: Seq<char>| t.contains(x) <==> (s.contains(x) || x == v1 || x == v2) by {
            if s.contains(x) {
                let k = choose|k: int| 0 <= k < s.len() && #[trigger] s[k] == x;
                assert(t[k] == x);
            }
            if x == v1 {
                assert(t[s.len() as int] == x);
            }
            if x == v2 {
                assert(t[s.len() as int + 1] == x);
            }
            if t.contains(x) {
                let k = choose|k: int| 0 <= k < t.len() && #[trigger] t[k] == x;
                if k < s.len() {
                    assert(s[k] == x);
                }
            }
        }
    }
    assert(stored(disk, dir, k3) =~= lines_at(disk, path).to_set());
}

/// Reading a key twice from one directory gives the same postings: two
/// results of `get` on the same key and record hold the same values, and as
/// many of them.
pub proof fn lemma_reads_repeat(
    key: Seq<char>,
    record: Option<Seq<Seq<char>>>,
    first: Seq<Seq<char>>,
    second: Seq<Seq<char>>,
)
    requires
        first.no_duplicates(),
        second.no_duplicates(),
        first.to_set() == posting_set(key, record),
        second.to_set() == posting_set(key, record),
    ensures
        first.to_set() == second.to_set(),
        first.len() == second.len(),
{
    first.unique_seq_to_set();
    second.unique_seq_to_set();
}

/// A value added under a key is among the postings read for that key right
/// after, beside those that were there before.
pub proof fn lemma_add_then_get(
    disk: Map<Seq<char>, Seq<Seq<char>>>,
    dir: Seq<char>,
    key: Seq<char>,
    value: Seq<char>,
)
    requires
        valid_key(key),
        !value.contains('\n'),
    ensures
        stored(after_add(disk, dir, key, value), dir, key).contains(value),
        stored(after_add(disk, dir, key, value), dir, key) == stored(disk, dir, key).insert(value),
{
    lemma_one_line(value);
    let path = key_path(dir, key);
    let s = lines_at(disk, path);
    let t = lines_at(after_add(disk, dir, key, value), path);
    assert(t =~= s.push(value));
    assert forall|x: Seq<char>| t.contains(x) <==> (s.contains(x) || x == value) by {
        if s.contains(x) {
            let k = choose|k: int| 0 <= k < s.len() && #[trigger] s[k] == x;
            assert(t[k] == x);
        }
        if x == value {
            assert(t[s.len() as int] == x);
        }
        if t.contains(x) {
            let k = choose|k: int| 0 <= k < t.len() && #[trigger] t[k] == x;
            if k < s.len() {
                assert(s[k] == x);
            }
        }
    }
    assert(stored(disk, dir, key) =~= s.to_set());
    assert(stored(after_add(disk, dir, key, value), dir, key) =~= s.to_set().insert(value));
}

/// Adding under a key that can name a record leaves that record in the
/// directory, created where it was missing, and no other record appears.
pub proof fn lemma_add_creates_record(
    disk: Map<Seq<char>, Seq<Seq<char>>>,
    dir: Seq<char>,
    key: Seq<char>,
    value: Seq<char>,
)
    requires
        valid_key(key),
    ensures
        after_add(disk, dir, key, value).dom() == disk.dom().insert(key_path(dir, key)),
{
    assert(after_add(disk, dir, key, value).dom() =~= disk.dom().insert(key_path(dir, key)));
}

/// An empty store directory has no postings for any key.
pub proof fn lemma_fresh_store_is_empty(dir: Seq<char>, key: Seq<char>)
    ensures
        stored(Map::empty(), dir, key) == Set::<Seq<char>>::empty(),
{
}

/// The paths of the records of an empty directory after adding `entries`
/// are those of their record names.
proof fn lemma_record_paths(dir: Seq<char>, entries: Seq<(Seq<char>, Seq<char>)>)
    requires
        forall|i: int| 0 <= i < entries.len() ==> valid_key(#[trigger] entries[i].0),
    ensures
        after_adds(Map::empty(), dir, entries).dom().finite(),
        after_adds(Map::empty(), dir, entries).dom().len() == record_names(entries).len(),
        forall|p: Seq<char>|
            #[trigger] after_adds(Map::empty(), dir, entries).dom().contains(p) <==> exists|
                n: Seq<char>,
            | #[trigger] record_names(entries).contains(n) && p == join(dir, n),
    decreases entries.len(),
{
    let disk = after_adds(Map::empty(), dir, entries);
    let names = record_names(entries);
    if entries.len() == 0 {
        assert(disk.dom() =~= Set::empty());
        assert(names =~= Set::empty());
    } else {
        let rest = entries.drop_last();
        let last = entries.last();
        assert forall|i: int| 0 <= i < rest.len() implies valid_key(#[trigger] rest[i].0) by {
            assert(rest[i] == entries[i]);
        }
        lemma_record_paths(dir, rest);
        let before = after_adds(Map::empty(), dir, rest);
        let old_names = record_names(rest);
        let name = lower_of(last.0);
        let path = join(dir, name);
        assert(valid_key(entries[entries.len() - 1].0));
        assert(disk == before.insert(path, lines_at(before, path) + split_lines(last.1)));
        assert(disk.dom() =~= before.dom().insert(path));
        let f = |e: (Seq<char>, Seq<char>)| lower_of(e.0);
        assert(entries.map_values(f) =~= rest.map_values(f).push(name));
        assert forall|n: Seq<char>| names.contains(n) <==> (old_names.contains(n) || n == name) by {
            let all = entries.map_values(f);
            let prev = rest.map_values(f);
            if prev.contains(n) {
                let k = choose|k: int| 0 <= k < prev.len() && #[trigger] prev[k] == n;
                assert(all[k] == n);
            }
            if n == name {
                assert(all[prev.len() as int] == n);
            }
            if all.contains(n) {
                let k = choose|k: int| 0 <= k < all.len() && #[trigger] all[k] == n;
                if k < prev.len() {
                    assert(prev[k] == n);
                }
            }
        }
        assert(names =~= old_names.insert(name));
        assert(before.dom().contains(path) <==> old_names.contains(name)) by {
            if before.dom().contains(path) {
                let n = choose|n: Seq<char>| #[trigger] old_names.contains(n) && path == join(dir, n);
                lemma_join_injective(dir, n, name);
            }
        }
        assert forall|p: Seq<char>| #[trigger] disk.dom().contains(p) <==> exists|n: Seq<char>|
            #[trigger] names.contains(n) && p == join(dir, n) by {
            if before.dom().contains(p) {
                let n = choose|n: Seq<char>| #[trigger] old_names.contains(n) && p == join(dir, n);
                assert(names.contains(n));
            }
            if p == path {
                assert(names.contains(name));
            }
            if exists|n: Seq<char>| #[trigger] names.contains(n) && p == join(dir, n) {
                let n = choose|n: Seq<char>| #[trigger] names.contains(n) && p == join(dir, n);
                if n != name {
                    assert(old_names.contains(n));
                    assert(before.dom().contains(p));
                }
            }
        }
    }
}

/// After adding any number of postings to an empty store, one for each
/// occurrence of a word in each document, the directory holds exactly one
/// record per distinct lower-case key.
pub proof fn lemma_record_count(dir: Seq<char>, entries: Seq<(Seq<char>, Seq<char>)>)
    requires
        forall|i: int| 0 <= i < entries.len() ==> valid_key(#[trigger] entries[i].0),
    ensures
        after_adds(Map::empty(), dir, entries).dom().len() == record_names(entries).len(),
{
    lemma_record_paths(dir, entries);
}

} // verus!
