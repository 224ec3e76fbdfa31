//! The in-memory index: entries kept in strictly increasing order of their
//! names' bytes, found by binary search.
use vstd::prelude::*;
use vstd::string::*;
use vstd::utf8::*;

use crate::model::{entry_key, CacheEntry};

verus! {

/// Lexicographic order on byte strings: the order of `str` in Rust.
pub open spec fn bytes_lt(a: Seq<u8>, b: Seq<u8>) -> bool
    decreases a.len(),
{
    if b.len() == 0 {
        false
    } else if a.len() == 0 {
        true
    } else if a[0] != b[0] {
        a[0] < b[0]
    } else {
        bytes_lt(a.drop_first(), b.drop_first())
    }
}

/// No byte string precedes itself.
pub proof fn lemma_bytes_lt_irreflexive(a: Seq<u8>)
    ensures
        !bytes_lt(a, a),
    decreases a.len(),
{
    if a.len() > 0 {
        lemma_bytes_lt_irreflexive(a.drop_first());
    }
}

/// The order is transitive.
pub proof fn lemma_bytes_lt_transitive(a: Seq<u8>, b: Seq<u8>, c: Seq<u8>)
    requires
        bytes_lt(a, b),
        bytes_lt(b, c),
    ensures
        bytes_lt(a, c),
    decreases a.len(),
{
    if a.len() > 0 && b.len() > 0 && c.len() > 0 && a[0] == b[0] && b[0] == c[0] {
        lemma_bytes_lt_transitive(a.drop_first(), b.drop_first(), c.drop_first());
    }
}

/// Two different byte strings are ordered one way or the other.
pub proof fn lemma_bytes_lt_total(a: Seq<u8>, b: Seq<u8>)
    ensures
        a == b || bytes_lt(a, b) || bytes_lt(b, a),
    decreases a.len(),
{
    if a.len() > 0 && b.len() > 0 && a[0] == b[0] {
        lemma_bytes_lt_total(a.drop_first(), b.drop_first());
        if a.drop_first() == b.drop_first() {
            assert(a =~= seq![a[0]] + a.drop_first());
            assert(b =~= seq![b[0]] + b.drop_first());
        }
    } else if a.len() == 0 && b.len() == 0 {
        assert(a =~= b);
    }
}

/// Outcome of comparing two names.
#[derive(Debug, PartialEq, Eq, Structural, Clone, Copy)]
pub enum NameOrder {
    Less,
    Equal,
    Greater,
}

/// Compares two names byte by byte, as `str` is ordered.
pub fn compare_names(a: &[u8], b: &[u8]) -> (res: NameOrder)
    ensures
        res == NameOrder::Less <==> bytes_lt(a@, b@),
        res == NameOrder::Equal <==> a@ == b@,
        res == NameOrder::Greater <==> bytes_lt(b@, a@),
{
    proof {
        lemma_bytes_lt_irreflexive(a@);
        lemma_bytes_lt_total(a@, b@);
    }
    let mut i: usize = 0;
    assert(a@.skip(0) =~= a@);
    assert(b@.skip(0) =~= b@);
    while i < a.len() && i < b.len()
        invariant
            i <= a@.len(),
            i <= b@.len(),
            a@.take(i as int) == b@.take(i as int),
            bytes_lt(a@, b@) == bytes_lt(a@.skip(i as int), b@.skip(i as int)),
            bytes_lt(b@, a@) == bytes_lt(b@.skip(i as int), a@.skip(i as int)),
        decreases a@.len() - i,
    {
        if a[i] < b[i] {
            proof {
                assert(a@ != b@) by {
                    assert(a@[i as int] != b@[i as int]);
                }
                lemma_bytes_lt_irreflexive(a@);
                lemma_bytes_lt_total(a@, b@);
                assert(a@.skip(i as int)[0] == a@[i as int]);
                assert(b@.skip(i as int)[0] == b@[i as int]);
            }
            return NameOrder::Less;
        }
        if a[i] > b[i] {
            proof {
                assert(a@ != b@) by {
                    assert(a@[i as int] != b@[i as int]);
                }
                assert(a@.skip(i as int)[0] == a@[i as int]);
                assert(b@.skip(i as int)[0] == b@[i as int]);
            }
            return NameOrder::Greater;
        }
        proof {
            assert(a@.skip(i as int).drop_first() =~= a@.skip(i + 1));
            assert(b@.skip(i as int).drop_first() =~= b@.skip(i + 1));
            assert(a@.skip(i as int)[0] == a@[i as int]);
            assert(b@.skip(i as int)[0] == b@[i as int]);
            assert(a@.take(i + 1) =~= a@.take(i as int).push(a@[i as int]));
            assert(b@.take(i + 1) =~= b@.take(i as int).push(b@[i as int]));
        }
        i = i + 1;
    }
    proof {
        if i == a@.len() {
            assert(a@.take(i as int) =~= a@);
        }
        if i == b@.len() {
            assert(b@.take(i as int) =~= b@);
        }
    }
    if a.len() < b.len() {
        assert(a@ != b@);
        return NameOrder::Less;
    }
    if a.len() == b.len() {
        assert(a@ =~= b@);
        return NameOrder::Equal;
    }
    assert(a@ != b@);
    NameOrder::Greater
}


/// The entries are in strictly increasing order of their names' bytes; in
/// particular no name occurs twice.
pub open spec fn names_sorted(s: Seq<CacheEntry>) -> bool {
    forall|i: int, j: int|
        0 <= i < j < s.len() ==> bytes_lt(#[trigger] entry_key(s[i]), #[trigger] entry_key(s[j]))
}

/// Some entry has the given name.
pub open spec fn has_name(s: Seq<CacheEntry>, k: Seq<u8>) -> bool {
    exists|i: int| 0 <= i < s.len() && #[trigger] entry_key(s[i]) == k
}

/// The index as a map from names to entries.
pub open spec fn index_map(s: Seq<CacheEntry>) -> Map<Seq<u8>, CacheEntry> {
    Map::new(
        |k: Seq<u8>| has_name(s, k),
        |k: Seq<u8>| s[choose|i: int| 0 <= i < s.len() && #[trigger] entry_key(s[i]) == k],
    )
}

/// In a sorted index two positions with the same name are the same position.
pub proof fn lemma_sorted_unique(s: Seq<CacheEntry>, i: int, j: int)
    requires
        names_sorted(s),
        0 <= i < s.len(),
        0 <= j < s.len(),
        entry_key(s[i]) == entry_key(s[j]),
    ensures
        i == j,
{
    lemma_bytes_lt_irreflexive(entry_key(s[i]));
    if i < j {
        assert(bytes_lt(entry_key(s[i]), entry_key(s[j])));
    } else if j < i {
        assert(bytes_lt(entry_key(s[j]), entry_key(s[i])));
    }
}

/// In a sorted index the map gives, for the name at a position, that entry.
pub proof fn lemma_index_map_at(s: Seq<CacheEntry>, i: int)
    requires
        names_sorted(s),
        0 <= i < s.len(),
    ensures
        index_map(s).dom().contains(entry_key(s[i])),
        index_map(s)[entry_key(s[i])] == s[i],
{
    let k = entry_key(s[i]);
    assert(has_name(s, k));
    let j = choose|j: int| 0 <= j < s.len() && #[trigger] entry_key(s[j]) == k;
    lemma_sorted_unique(s, i, j);
}

/// The binary search of a name between positions `first` and `last`: halves
/// the range at its middle until it finds the name (giving `-(i + 1)` for the
/// position `i` where it is) or the range is empty (giving its start).
pub open spec fn name_search(s: Seq<CacheEntry>, k: Seq<u8>, first: int, last: int) -> int
    decreases last - first,
{
    if last <= first {
        first
    } else {
        let next = (first + last) / 2;
        if entry_key(s[next]) == k {
            -next - 1
        } else if bytes_lt(k, entry_key(s[next])) {
            name_search(s, k, first, next)
        } else {
            name_search(s, k, next + 1, last)
        }
    }
}

/// The binary search stays inside the range it searches: a result `r >= 0`
/// lies between `first` and `last`, and for `r < 0` the position `-r - 1`
/// lies in the range and holds the name.
pub proof fn lemma_name_search_bounds(s: Seq<CacheEntry>, k: Seq<u8>, first: int, last: int)
    requires
        0 <= first <= last <= s.len(),
    ensures
        name_search(s, k, first, last) >= 0 ==> first <= name_search(s, k, first, last) <= last,
        name_search(s, k, first, last) < 0 ==> first <= -name_search(s, k, first, last) - 1 < last
            && entry_key(s[-name_search(s, k, first, last) - 1]) == k,
    decreases last - first,
{
    if first < last {
        let next = (first + last) / 2;
        if entry_key(s[next]) != k {
            if bytes_lt(k, entry_key(s[next])) {
                lemma_name_search_bounds(s, k, first, next);
            } else {
                lemma_name_search_bounds(s, k, next + 1, last);
            }
        }
    }
}

/// Position of a name in the index, found by binary search: `-(i + 1)` when
/// the entry at `i` has the name, otherwise the position at which an entry
/// with that name would keep the index sorted.
pub fn cache_name_pos(name: &str, active_cache: &[CacheEntry]) -> (res: isize)
    requires
        active_cache@.len() <= isize::MAX as int,
    ensures
        res < 0 ==> 0 <= -res - 1 < active_cache@.len()
            && entry_key(active_cache@[-res - 1]) == name.spec_bytes(),
        res >= 0 ==> res <= active_cache@.len(),
        res >= 0 && names_sorted(active_cache@) ==> (forall|i: int|
            0 <= i < res ==> bytes_lt(#[trigger] entry_key(active_cache@[i]), name.spec_bytes()))
            && (forall|i: int|
            res <= i < active_cache@.len() ==> bytes_lt(
                name.spec_bytes(),
                #[trigger] entry_key(active_cache@[i]),
            )),
        names_sorted(active_cache@) ==> (res < 0 <==> has_name(active_cache@, name.spec_bytes())),
        res == name_search(active_cache@, name.spec_bytes(), 0, active_cache@.len() as int),
{
    let key = name.as_bytes();
    let ghost nb = name.spec_bytes();
    let ghost s = active_cache@;
    let mut first: isize = 0;
    let mut last: isize = active_cache.len() as isize;
    while last > first
        invariant
            s == active_cache@,
            nb == key@,
            nb == name.spec_bytes(),
            s.len() <= isize::MAX as int,
            0 <= first <= last <= s.len(),
            name_search(s, nb, 0, s.len() as int) == name_search(s, nb, first as int, last as int),
            names_sorted(s) ==> forall|i: int|
                0 <= i < first ==> bytes_lt(#[trigger] entry_key(s[i]), nb),
            names_sorted(s) ==> forall|i: int|
                last <= i < s.len() ==> bytes_lt(nb, #[trigger] entry_key(s[i])),
        decreases last - first,
    {
        let gap = last - first;
        assert(gap >> 1 == gap / 2) by (bit_vector)
            requires
                gap >= 0,
        ;
        // the midpoint `(first + last) >> 1`, computed without overflow
        let next = first + (gap >> 1);
        assert(next == (first + last) / 2);
        let ce = &active_cache[next as usize];
        let ghost ck = entry_key(*ce);
        match compare_names(key, ce.name.as_str().as_bytes()) {
            NameOrder::Equal => {
                assert(entry_key(s[next as int]) == nb);
                return -next - 1;
            },
            NameOrder::Less => {
                proof {
                    if names_sorted(s) {
                        assert forall|i: int| next <= i < s.len() implies bytes_lt(
                            nb,
                            #[trigger] entry_key(s[i]),
                        ) by {
                            if i > next {
                                lemma_bytes_lt_transitive(nb, ck, entry_key(s[i]));
                            }
                        }
                    }
                }
                last = next;
            },
            NameOrder::Greater => {
                proof {
                    if names_sorted(s) {
                        assert forall|i: int| 0 <= i < next + 1 implies bytes_lt(
                            #[trigger] entry_key(s[i]),
                            nb,
                        ) by {
                            if i < next {
                                lemma_bytes_lt_transitive(entry_key(s[i]), ck, nb);
                            }
                        }
                    }
                }
                first = next + 1;
            },
        }
    }
    proof {
        if names_sorted(s) && has_name(s, nb) {
            let i = choose|i: int| 0 <= i < s.len() && #[trigger] entry_key(s[i]) == nb;
            lemma_bytes_lt_irreflexive(nb);
            if i < first {
                assert(bytes_lt(entry_key(s[i]), nb));
            } else {
                assert(bytes_lt(nb, entry_key(s[i])));
            }
        }
    }
    first
}


/// Replacing the entry at a position by one with the same name keeps the
/// index sorted and maps that name to the new entry.
proof fn lemma_replace_at(s: Seq<CacheEntry>, idx: int, ce: CacheEntry)
    requires
        names_sorted(s),
        0 <= idx < s.len(),
        entry_key(s[idx]) == entry_key(ce),
    ensures
        names_sorted(s.update(idx, ce)),
        index_map(s.update(idx, ce)) == index_map(s).insert(entry_key(ce), ce),
{
    let t = s.update(idx, ce);
    let k = entry_key(ce);
    assert forall|i: int, j: int| 0 <= i < j < t.len() implies bytes_lt(
        #[trigger] entry_key(t[i]),
        #[trigger] entry_key(t[j]),
    ) by {
        assert(entry_key(t[i]) == entry_key(s[i]));
        assert(entry_key(t[j]) == entry_key(s[j]));
    }
    let m = index_map(s).insert(k, ce);
    assert forall|kk: Seq<u8>| #[trigger] index_map(t).dom().contains(kk) <==> m.dom().contains(kk) by {
        if has_name(t, kk) {
            let j = choose|j: int| 0 <= j < t.len() && #[trigger] entry_key(t[j]) == kk;
            assert(entry_key(s[j]) == kk);
        }
        if has_name(s, kk) {
            let j = choose|j: int| 0 <= j < s.len() && #[trigger] entry_key(s[j]) == kk;
            assert(entry_key(t[j]) == kk);
        }
        if kk == k {
            assert(entry_key(t[idx]) == kk);
        }
    }
    assert forall|kk: Seq<u8>| #[trigger] index_map(t).dom().contains(kk) implies index_map(t)[kk] == m[kk] by {
        let j = choose|j: int| 0 <= j < t.len() && #[trigger] entry_key(t[j]) == kk;
        lemma_index_map_at(t, j);
        if j == idx {
            assert(kk == k);
        } else {
            assert(entry_key(s[j]) == kk);
            lemma_index_map_at(s, j);
            if kk == k {
                lemma_sorted_unique(s, j, idx);
            }
        }
    }
    assert(index_map(t) =~= m);
}

/// Inserting an entry at the position where its name belongs keeps the index
/// sorted and adds that name, mapped to the entry.
proof fn lemma_insert_at(s: Seq<CacheEntry>, pos: int, ce: CacheEntry)
    requires
        names_sorted(s),
        0 <= pos <= s.len(),
        forall|i: int| 0 <= i < pos ==> bytes_lt(#[trigger] entry_key(s[i]), entry_key(ce)),
        forall|i: int| pos <= i < s.len() ==> bytes_lt(entry_key(ce), #[trigger] entry_key(s[i])),
    ensures
        names_sorted(s.insert(pos, ce)),
        index_map(s.insert(pos, ce)) == index_map(s).insert(entry_key(ce), ce),
{
    let t = s.insert(pos, ce);
    let k = entry_key(ce);
    assert forall|i: int, j: int| 0 <= i < j < t.len() implies bytes_lt(
        #[trigger] entry_key(t[i]),
        #[trigger] entry_key(t[j]),
    ) by {
        if i < pos && j < pos {
            assert(t[i] == s[i] && t[j] == s[j]);
        } else if i < pos && j == pos {
            assert(t[i] == s[i]);
        } else if i < pos {
            assert(t[i] == s[i] && t[j] == s[j - 1]);
            lemma_bytes_lt_transitive(entry_key(s[i]), k, entry_key(s[j - 1]));
        } else if i == pos {
            assert(t[j] == s[j - 1]);
        } else {
            assert(t[i] == s[i - 1] && t[j] == s[j - 1]);
        }
    }
    lemma_bytes_lt_irreflexive(k);
    let m = index_map(s).insert(k, ce);
    assert forall|kk: Seq<u8>| #[trigger] index_map(t).dom().contains(kk) <==> m.dom().contains(kk) by {
        if has_name(t, kk) {
            let j = choose|j: int| 0 <= j < t.len() && #[trigger] entry_key(t[j]) == kk;
            if j < pos {
                assert(entry_key(s[j]) == kk);
            } else if j > pos {
                assert(entry_key(s[j - 1]) == kk);
            }
        }
        if has_name(s, kk) {
            let j = choose|j: int| 0 <= j < s.len() && #[trigger] entry_key(s[j]) == kk;
            if j < pos {
                assert(entry_key(t[j]) == kk);
            } else {
                assert(entry_key(t[j + 1]) == kk);
            }
        }
        if kk == k {
            assert(entry_key(t[pos]) == kk);
        }
    }
    assert forall|kk: Seq<u8>| #[trigger] index_map(t).dom().contains(kk) implies index_map(t)[kk] == m[kk] by {
        let j = choose|j: int| 0 <= j < t.len() && #[trigger] entry_key(t[j]) == kk;
        lemma_index_map_at(t, j);
        if j < pos {
            assert(t[j] == s[j]);
            lemma_index_map_at(s, j);
        } else if j > pos {
            assert(t[j] == s[j - 1]);
            lemma_index_map_at(s, j - 1);
        }
    }
    assert(index_map(t) =~= m);
}

/// Removing the entry at a position keeps the index sorted and removes that
/// name from the map.
proof fn lemma_remove_at(s: Seq<CacheEntry>, idx: int)
    requires
        names_sorted(s),
        0 <= idx < s.len(),
    ensures
        names_sorted(s.remove(idx)),
        index_map(s.remove(idx)) == index_map(s).remove(entry_key(s[idx])),
{
    let t = s.remove(idx);
    let k = entry_key(s[idx]);
    assert forall|i: int, j: int| 0 <= i < j < t.len() implies bytes_lt(
        #[trigger] entry_key(t[i]),
        #[trigger] entry_key(t[j]),
    ) by {
        if j < idx {
            assert(t[i] == s[i] && t[j] == s[j]);
        } else if i < idx {
            assert(t[i] == s[i] && t[j] == s[j + 1]);
        } else {
            assert(t[i] == s[i + 1] && t[j] == s[j + 1]);
        }
    }
    let m = index_map(s).remove(k);
    assert forall|kk: Seq<u8>| #[trigger] index_map(t).dom().contains(kk) <==> m.dom().contains(kk) by {
        if has_name(t, kk) {
            let j = choose|j: int| 0 <= j < t.len() && #[trigger] entry_key(t[j]) == kk;
            if j < idx {
                assert(entry_key(s[j]) == kk);
                if kk == k {
                    lemma_sorted_unique(s, j, idx);
                }
            } else {
                assert(entry_key(s[j + 1]) == kk);
                if kk == k {
                    lemma_sorted_unique(s, j + 1, idx);
                }
            }
        }
        if has_name(s, kk) && kk != k {
            let j = choose|j: int| 0 <= j < s.len() && #[trigger] entry_key(s[j]) == kk;
            if j < idx {
                assert(entry_key(t[j]) == kk);
            } else {
                assert(j != idx);
                assert(entry_key(t[j - 1]) == kk);
            }
        }
    }
    assert forall|kk: Seq<u8>| #[trigger] index_map(t).dom().contains(kk) implies index_map(t)[kk] == m[kk] by {
        let j = choose|j: int| 0 <= j < t.len() && #[trigger] entry_key(t[j]) == kk;
        lemma_index_map_at(t, j);
        if j < idx {
            lemma_index_map_at(s, j);
        } else {
            lemma_index_map_at(s, j + 1);
        }
    }
    assert(index_map(t) =~= m);
}

/// Puts an entry into the index: it replaces the entry with the same name,
/// or, when there is none, goes where its name keeps the index sorted.
pub fn add_cache_entry(ce: CacheEntry, active_cache: &mut Vec<CacheEntry>)
    requires
        old(active_cache)@.len() <= isize::MAX as int,
    ensures
        ({
            let pos = name_search(
                old(active_cache)@,
                entry_key(ce),
                0,
                old(active_cache)@.len() as int,
            );
            final(active_cache)@ == if pos < 0 {
                old(active_cache)@.update(-pos - 1, ce)
            } else {
                old(active_cache)@.insert(pos, ce)
            }
        }),
        final(active_cache)@.len() == old(active_cache)@.len() + if name_search(
            old(active_cache)@,
            entry_key(ce),
            0,
            old(active_cache)@.len() as int,
        ) < 0 {
            0int
        } else {
            1int
        },
        names_sorted(old(active_cache)@) ==> final(active_cache)@.len() == old(active_cache)@.len()
            + if has_name(old(active_cache)@, entry_key(ce)) {
            0int
        } else {
            1int
        },
        names_sorted(old(active_cache)@) ==> names_sorted(final(active_cache)@),
        names_sorted(old(active_cache)@) ==> index_map(final(active_cache)@) == index_map(
            old(active_cache)@,
        ).insert(entry_key(ce), ce),
{
    let ghost s = active_cache@;
    let pos = cache_name_pos(ce.name.as_str(), active_cache.as_slice());
    if pos < 0 {
        let idx = (-pos - 1) as usize;
        proof {
            if names_sorted(s) {
                lemma_replace_at(s, idx as int, ce);
            }
        }
        active_cache.set(idx, ce);
    } else {
        proof {
            if names_sorted(s) {
                lemma_insert_at(s, pos as int, ce);
            }
        }
        active_cache.insert(pos as usize, ce);
    }
}

/// Takes the entry with the given name out of the index; returns 1 when there
/// was one, 0 when there was none.
pub fn remove_cache_entry(name: &str, active_cache: &mut Vec<CacheEntry>) -> (res: isize)
    requires
        old(active_cache)@.len() <= isize::MAX as int,
    ensures
        ({
            let pos = name_search(
                old(active_cache)@,
                name.spec_bytes(),
                0,
                old(active_cache)@.len() as int,
            );
            &&& res == if pos < 0 {
                1isize
            } else {
                0isize
            }
            &&& final(active_cache)@ == if pos < 0 {
                old(active_cache)@.remove(-pos - 1)
            } else {
                old(active_cache)@
            }
        }),
        final(active_cache)@.len() == old(active_cache)@.len() - res,
        names_sorted(old(active_cache)@) ==> (res == 1 <==> has_name(
            old(active_cache)@,
            name.spec_bytes(),
        )),
        names_sorted(old(active_cache)@) ==> names_sorted(final(active_cache)@),
        names_sorted(old(active_cache)@) ==> index_map(final(active_cache)@) == index_map(
            old(active_cache)@,
        ).remove(name.spec_bytes()),
{
    let ghost s = active_cache@;
    let pos = cache_name_pos(name, active_cache.as_slice());
    if pos < 0 {
        let idx = (-pos - 1) as usize;
        proof {
            if names_sorted(s) {
                lemma_remove_at(s, idx as int);
            }
        }
        active_cache.remove(idx);
        return 1;
    }
    proof {
        if names_sorted(s) {
            assert(index_map(s).remove(name.spec_bytes()) =~= index_map(s));
        }
    }
    return 0;
}


/// A sorted index is determined by its map: two sorted indexes that map the
/// same names to the same entries are the same sequence.
pub proof fn lemma_sorted_index_determined(s1: Seq<CacheEntry>, s2: Seq<CacheEntry>)
    requires
        names_sorted(s1),
        names_sorted(s2),
        index_map(s1) == index_map(s2),
    ensures
        s1 == s2,
    decreases s1.len(),
{
    if s1.len() == 0 || s2.len() == 0 {
        if s1.len() > 0 {
            lemma_index_map_at(s1, 0);
            assert(index_map(s2).dom().contains(entry_key(s1[0])));
        }
        if s2.len() > 0 {
            lemma_index_map_at(s2, 0);
            assert(index_map(s1).dom().contains(entry_key(s2[0])));
        }
        assert(s1 =~= s2);
    } else {
        let k1 = entry_key(s1[0]);
        let k2 = entry_key(s2[0]);
        lemma_index_map_at(s1, 0);
        lemma_index_map_at(s2, 0);
        assert(has_name(s2, k1));
        assert(has_name(s1, k2));
        let j = choose|j: int| 0 <= j < s2.len() && #[trigger] entry_key(s2[j]) == k1;
        let i = choose|i: int| 0 <= i < s1.len() && #[trigger] entry_key(s1[i]) == k2;
        if j > 0 {
            assert(bytes_lt(k2, k1));
            if i > 0 {
                assert(bytes_lt(k1, k2));
                lemma_bytes_lt_transitive(k1, k2, k1);
                lemma_bytes_lt_irreflexive(k1);
            } else {
                lemma_bytes_lt_irreflexive(k1);
            }
        }
        assert(k1 == k2);
        assert(s1[0] == s2[0]);
        lemma_remove_at(s1, 0);
        lemma_remove_at(s2, 0);
        lemma_sorted_index_determined(s1.remove(0), s2.remove(0));
        assert(s1 =~= seq![s1[0]] + s1.remove(0));
        assert(s2 =~= seq![s2[0]] + s2.remove(0));
    }
}

/// Reading back what was written: once an entry has been added to a sorted
/// index, the entry that the index holds under its name is that entry.
pub proof fn lemma_lookup_after_add(before: Seq<CacheEntry>, after: Seq<CacheEntry>, ce: CacheEntry)
    requires
        names_sorted(before),
        names_sorted(after),
        index_map(after) == index_map(before).insert(entry_key(ce), ce),
    ensures
        has_name(after, entry_key(ce)),
        forall|i: int|
            0 <= i < after.len() && entry_key(#[trigger] after[i]) == entry_key(ce) ==> after[i]
                == ce,
{
    assert(index_map(after).dom().contains(entry_key(ce)));
    assert forall|i: int|
        0 <= i < after.len() && entry_key(#[trigger] after[i]) == entry_key(ce) implies after[i]
        == ce by {
        lemma_index_map_at(after, i);
    }
}

/// Removing a name undoes adding it: adding an entry under a name that a
/// sorted index does not hold, then removing that name, gives the index back.
pub proof fn lemma_remove_undoes_add(
    before: Seq<CacheEntry>,
    added: Seq<CacheEntry>,
    removed: Seq<CacheEntry>,
    ce: CacheEntry,
)
    requires
        names_sorted(before),
        !has_name(before, entry_key(ce)),
        names_sorted(added),
        index_map(added) == index_map(before).insert(entry_key(ce), ce),
        names_sorted(removed),
        index_map(removed) == index_map(added).remove(entry_key(ce)),
    ensures
        removed == before,
{
    assert(index_map(removed) =~= index_map(before));
    lemma_sorted_index_determined(removed, before);
}

/// The last write wins: adding two entries with the same name to a sorted
/// index leaves it as adding only the second would.
pub proof fn lemma_add_same_name_overwrites(
    before: Seq<CacheEntry>,
    first: Seq<CacheEntry>,
    second: Seq<CacheEntry>,
    only_b: Seq<CacheEntry>,
    a: CacheEntry,
    b: CacheEntry,
)
    requires
        names_sorted(before),
        entry_key(a) == entry_key(b),
        names_sorted(first),
        index_map(first) == index_map(before).insert(entry_key(a), a),
        names_sorted(second),
        index_map(second) == index_map(first).insert(entry_key(b), b),
        names_sorted(only_b),
        index_map(only_b) == index_map(before).insert(entry_key(b), b),
    ensures
        second == only_b,
{
    assert(index_map(second) =~= index_map(only_b));
    lemma_sorted_index_determined(second, only_b);
}

/// Adding entries under different names gives the same index in either order.
pub proof fn lemma_adds_commute(
    before: Seq<CacheEntry>,
    a: CacheEntry,
    b: CacheEntry,
    a_first: Seq<CacheEntry>,
    ab: Seq<CacheEntry>,
    b_first: Seq<CacheEntry>,
    ba: Seq<CacheEntry>,
)
    requires
        names_sorted(before),
        entry_key(a) != entry_key(b),
        names_sorted(a_first),
        index_map(a_first) == index_map(before).insert(entry_key(a), a),
        names_sorted(ab),
        index_map(ab) == index_map(a_first).insert(entry_key(b), b),
        names_sorted(b_first),
        index_map(b_first) == index_map(before).insert(entry_key(b), b),
        names_sorted(ba),
        index_map(ba) == index_map(b_first).insert(entry_key(a), a),
    ensures
        ab == ba,
{
    assert(index_map(ab) =~= index_map(ba));
    lemma_sorted_index_determined(ab, ba);
}

} // verus!
