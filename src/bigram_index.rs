//! The bigram inverted index: for every two-character window of the
//! lowercased entry names, the ascending list of entries holding it, plus a
//! per-character list for one-character queries.
use std::collections::HashMap;

use vstd::prelude::*;

use crate::file_tree::{Element, FileTree};
use crate::text::{chars_of, lower_of, lowercase};

verus! {

broadcast use vstd::std_specs::hash::group_hash_axioms;

/// The map key of the window `a b`: the two scalar values side by side.
pub open spec fn pair_key(a: char, b: char) -> u64 {
    ((a as u32) as int * 0x1_0000_0000 + (b as u32) as int) as u64
}

/// `s` holds `a` directly followed by `b`.
pub open spec fn has_pair(s: Seq<char>, a: char, b: char) -> bool {
    exists|j: int| 0 <= j < s.len() - 1 && #[trigger] s[j] == a && s[j + 1] == b
}

/// `s` holds window `j` of `q`, the characters `q[j] q[j + 1]`.
pub open spec fn holds_window(s: Seq<char>, q: Seq<char>, j: int) -> bool {
    has_pair(s, q[j], q[j + 1])
}

/// `s` holds every two-character window of `q` (each one somewhere).
pub open spec fn has_all_pairs(s: Seq<char>, q: Seq<char>) -> bool {
    forall|j: int| 0 <= j < q.len() - 1 ==> #[trigger] holds_window(s, q, j)
}

/// `s` holds a window whose key is `k`.
pub open spec fn has_key(s: Seq<char>, k: u64) -> bool {
    exists|j: int| 0 <= j < s.len() - 1 && #[trigger] pair_key(s[j], s[j + 1]) == k
}

/// The lowercased names of the entries, by identifier.
pub open spec fn lowered_names(e: Seq<Element>) -> Seq<Seq<char>> {
    Seq::new(e.len(), |i: int| lower_of(e[i].filename@))
}

/// Each element is smaller than the next.
pub open spec fn strictly_increasing(s: Seq<usize>) -> bool {
    forall|i: int, j: int| 0 <= i < j < s.len() ==> #[trigger] s[i] < #[trigger] s[j]
}

/// The keys of all windows of all names.
pub open spec fn bigram_keys(names: Seq<Seq<char>>) -> Set<u64> {
    Set::new(|k: u64| exists|e: int| 0 <= e < names.len() && #[trigger] has_key(names[e], k))
}

/// Some of the first `n` names holds a window with key `k`.
pub open spec fn key_seen(names: Seq<Seq<char>>, k: u64, n: int) -> bool {
    exists|e: int| 0 <= e < n && #[trigger] has_key(names[e], k)
}

/// `s` holds a character whose scalar value is `c`.
pub open spec fn has_code(s: Seq<char>, c: u32) -> bool {
    exists|j: int| 0 <= j < s.len() && #[trigger] (s[j] as u32) == c
}

/// Some of the first `n` names holds a character with scalar value `c`.
pub open spec fn code_seen(names: Seq<Seq<char>>, c: u32, n: int) -> bool {
    exists|e: int| 0 <= e < n && #[trigger] has_code(names[e], c)
}

/// `s` has a window with key `k` among its first `m` windows.
pub open spec fn has_key_before(s: Seq<char>, k: u64, m: int) -> bool {
    exists|j: int| 0 <= j < m && j < s.len() - 1 && #[trigger] pair_key(s[j], s[j + 1]) == k
}

/// `s` holds a character with scalar value `c` among its first `m`.
pub open spec fn has_code_before(s: Seq<char>, c: u32, m: int) -> bool {
    exists|j: int| 0 <= j < m && j < s.len() && #[trigger] (s[j] as u32) == c
}

/// The pair lists after the first `i` names and the first `w` windows of
/// name `i`: a key is present exactly when one of those windows has it, and
/// its list is ascending and holds exactly the names having it.
pub open spec fn pair_lists_upto(m: Map<u64, Vec<usize>>, names: Seq<Seq<char>>, i: int, w: int) -> bool {
    &&& forall|k: u64| #[trigger] m.contains_key(k) <==> (key_seen(names, k, i) || has_key_before(names[i], k, w))
    &&& forall|k: u64| #[trigger] m.contains_key(k) ==> strictly_increasing(m[k]@)
    &&& forall|k: u64, x: usize| m.contains_key(k) ==> (#[trigger] m[k]@.contains(x) <==> (
        (x < i && has_key(names[x as int], k)) || (x == i && has_key_before(names[i], k, w))))
}

/// The character lists after the first `i` names and the first `w`
/// characters of name `i`, in the same way.
pub open spec fn code_lists_upto(m: Map<u32, Vec<usize>>, names: Seq<Seq<char>>, i: int, w: int) -> bool {
    &&& forall|c: u32| #[trigger] m.contains_key(c) <==> (code_seen(names, c, i) || has_code_before(names[i], c, w))
    &&& forall|c: u32| #[trigger] m.contains_key(c) ==> strictly_increasing(m[c]@)
    &&& forall|c: u32, x: usize| m.contains_key(c) ==> (#[trigger] m[c]@.contains(x) <==> (
        (x < i && has_code(names[x as int], c)) || (x == i && has_code_before(names[i], c, w))))
}

/// `l` with `i` appended, unless it already ends with `i`.
pub open spec fn with_posting(l: Seq<usize>, i: usize) -> Seq<usize> {
    if l.len() > 0 && l.last() == i { l } else { l.push(i) }
}

/// Distinct windows have distinct keys.
proof fn lemma_pair_key_injective(a: char, b: char, c: char, d: char)
    ensures
        pair_key(a, b) == pair_key(c, d) <==> (a == c && b == d),
{
    let x = (a as u32) as int;
    let y = (b as u32) as int;
    let z = (c as u32) as int;
    let w = (d as u32) as int;
    assert(0 <= x * 0x1_0000_0000 + y < 0x1_0000_0000_0000_0000) by (nonlinear_arith)
        requires 0 <= x < 0x1_0000_0000, 0 <= y < 0x1_0000_0000;
    assert(0 <= z * 0x1_0000_0000 + w < 0x1_0000_0000_0000_0000) by (nonlinear_arith)
        requires 0 <= z < 0x1_0000_0000, 0 <= w < 0x1_0000_0000;
    if x * 0x1_0000_0000 + y == z * 0x1_0000_0000 + w {
        assert(x == z && y == w) by (nonlinear_arith)
            requires
                x * 0x1_0000_0000 + y == z * 0x1_0000_0000 + w,
                0 <= y < 0x1_0000_0000,
                0 <= w < 0x1_0000_0000,
        ;
    }
}

/// A name holds the window `a b` exactly when it holds a window with its key.
proof fn lemma_has_key_pair(s: Seq<char>, a: char, b: char)
    ensures
        has_key(s, pair_key(a, b)) <==> has_pair(s, a, b),
{
    if has_key(s, pair_key(a, b)) {
        let j = choose|j: int| 0 <= j < s.len() - 1 && #[trigger] pair_key(s[j], s[j + 1]) == pair_key(a, b);
        lemma_pair_key_injective(s[j], s[j + 1], a, b);
    }
    if has_pair(s, a, b) {
        let j = choose|j: int| 0 <= j < s.len() - 1 && #[trigger] s[j] == a && s[j + 1] == b;
        assert(pair_key(s[j], s[j + 1]) == pair_key(a, b));
    }
}

/// Records `i` in the list under `k`, creating the list when it is missing.
pub(crate) fn add_posting<K: std::hash::Hash + Eq>(m: &mut HashMap<K, Vec<usize>>, k: K, i: usize)
    requires
        vstd::std_specs::hash::obeys_key_model::<K>(),
    ensures
        final(m)@.dom() == old(m)@.dom().insert(k),
        forall|k2: K| k2 != k && old(m)@.contains_key(k2) ==> final(m)@[k2] == old(m)@[k2],
        final(m)@[k]@ == with_posting(if old(m)@.contains_key(k) { old(m)@[k]@ } else { Seq::empty() }, i),
{
    let ghost before = if old(m)@.contains_key(k) { old(m)@[k]@ } else { Seq::<usize>::empty() };
    let mut list = match m.remove(&k) {
        Some(l) => l,
        None => Vec::new(),
    };
    assert(list@ == before);
    if list.len() == 0 || list[list.len() - 1] != i {
        list.push(i);
    }
    m.insert(k, list);
}

/// Appending `i` to an ascending list of values at most `i` keeps it
/// ascending and adds exactly `i`.
proof fn lemma_with_posting(l: Seq<usize>, i: usize)
    requires
        strictly_increasing(l),
        forall|x: usize| #[trigger] l.contains(x) ==> x <= i,
    ensures
        strictly_increasing(with_posting(l, i)),
        forall|x: usize| #[trigger] with_posting(l, i).contains(x) <==> (l.contains(x) || x == i),
{
    let r = with_posting(l, i);
    if !(l.len() > 0 && l.last() == i) {
        assert forall|p: int, q: int| 0 <= p < q < r.len() implies #[trigger] r[p] < #[trigger] r[q] by {
            if q == l.len() {
                assert(l.contains(l[p]));
                if l.len() > 0 {
                    assert(l.contains(l.last()));
                }
            }
        }
        assert forall|x: usize| #[trigger] r.contains(x) <==> (l.contains(x) || x == i) by {
            if r.contains(x) {
                let p = choose|p: int| 0 <= p < r.len() && r[p] == x;
                if p < l.len() {
                    assert(l[p] == x);
                }
            }
            if l.contains(x) {
                let p = choose|p: int| 0 <= p < l.len() && l[p] == x;
                assert(r[p] == x);
            }
            if x == i {
                assert(r[l.len() as int] == x);
            }
        }
    } else {
        assert(l.contains(l.last()));
    }
}

/// Recording window `w` of name `i` advances the pair lists by one window.
proof fn lemma_pair_step(m: Map<u64, Vec<usize>>, m2: Map<u64, Vec<usize>>, names: Seq<Seq<char>>, i: usize, w: int)
    requires
        0 <= i < names.len(),
        0 <= w < names[i as int].len() - 1,
        pair_lists_upto(m, names, i as int, w),
        ({
            let k = pair_key(names[i as int][w], names[i as int][w + 1]);
            &&& m2.dom() == m.dom().insert(k)
            &&& forall|k2: u64| k2 != k && m.contains_key(k2) ==> m2[k2] == m[k2]
            &&& m2[k]@ == with_posting(if m.contains_key(k) { m[k]@ } else { Seq::empty() }, i)
        }),
    ensures
        pair_lists_upto(m2, names, i as int, w + 1),
{
    let s = names[i as int];
    let k0 = pair_key(s[w], s[w + 1]);
    assert(has_key_before(s, k0, w + 1));
    assert forall|k: u64| k != k0 implies (has_key_before(s, k, w + 1) <==> has_key_before(s, k, w)) by {
        if has_key_before(s, k, w + 1) {
            let j = choose|j: int| 0 <= j < w + 1 && j < s.len() - 1 && #[trigger] pair_key(s[j], s[j + 1]) == k;
            assert(j != w);
        }
    }
    let old_list = if m.contains_key(k0) { m[k0]@ } else { Seq::<usize>::empty() };
    assert forall|x: usize| #[trigger] old_list.contains(x) implies x <= i by {
        if m.contains_key(k0) {
            assert(m[k0]@.contains(x));
        }
    }
    assert(strictly_increasing(old_list));
    lemma_with_posting(old_list, i);
    assert forall|x: usize| #[trigger] m2[k0]@.contains(x) <==> (
        (x < i && has_key(names[x as int], k0)) || (x == i && has_key_before(s, k0, w + 1))) by {
        if !m.contains_key(k0) && x < i && has_key(names[x as int], k0) {
            assert(key_seen(names, k0, i as int));
        }
    }
    assert forall|k: u64, x: usize| m2.contains_key(k) implies (#[trigger] m2[k]@.contains(x) <==> (
        (x < i && has_key(names[x as int], k)) || (x == i && has_key_before(s, k, w + 1)))) by {
        if k != k0 {
            assert(m.contains_key(k));
            assert(m[k]@.contains(x) <==> ((x < i && has_key(names[x as int], k)) || (x == i && has_key_before(s, k, w))));
        }
    }
}

/// Recording character `w` of name `i` advances the character lists by one.
proof fn lemma_code_step(m: Map<u32, Vec<usize>>, m2: Map<u32, Vec<usize>>, names: Seq<Seq<char>>, i: usize, w: int)
    requires
        0 <= i < names.len(),
        0 <= w < names[i as int].len(),
        code_lists_upto(m, names, i as int, w),
        ({
            let c = names[i as int][w] as u32;
            &&& m2.dom() == m.dom().insert(c)
            &&& forall|c2: u32| c2 != c && m.contains_key(c2) ==> m2[c2] == m[c2]
            &&& m2[c]@ == with_posting(if m.contains_key(c) { m[c]@ } else { Seq::empty() }, i)
        }),
    ensures
        code_lists_upto(m2, names, i as int, w + 1),
{
    let s = names[i as int];
    let c0 = s[w] as u32;
    assert(has_code_before(s, c0, w + 1));
    assert forall|c: u32| c != c0 implies (has_code_before(s, c, w + 1) <==> has_code_before(s, c, w)) by {
        if has_code_before(s, c, w + 1) {
            let j = choose|j: int| 0 <= j < w + 1 && j < s.len() && #[trigger] (s[j] as u32) == c;
            assert(j != w);
        }
    }
    let old_list = if m.contains_key(c0) { m[c0]@ } else { Seq::<usize>::empty() };
    assert forall|x: usize| #[trigger] old_list.contains(x) implies x <= i by {
        if m.contains_key(c0) {
            assert(m[c0]@.contains(x));
        }
    }
    assert(strictly_increasing(old_list));
    lemma_with_posting(old_list, i);
    assert forall|x: usize| #[trigger] m2[c0]@.contains(x) <==> (
        (x < i && has_code(names[x as int], c0)) || (x == i && has_code_before(s, c0, w + 1))) by {
        if !m.contains_key(c0) && x < i && has_code(names[x as int], c0) {
            assert(code_seen(names, c0, i as int));
        }
    }
    assert forall|c: u32, x: usize| m2.contains_key(c) implies (#[trigger] m2[c]@.contains(x) <==> (
        (x < i && has_code(names[x as int], c)) || (x == i && has_code_before(s, c, w + 1)))) by {
        if c != c0 {
            assert(m.contains_key(c));
            assert(m[c]@.contains(x) <==> ((x < i && has_code(names[x as int], c)) || (x == i && has_code_before(s, c, w))));
        }
    }
}

/// The map key of the window `a b`.
fn key_of(a: char, b: char) -> (k: u64)
    ensures
        k == pair_key(a, b),
{
    let hi = (a as u32) as u64;
    let lo = (b as u32) as u64;
    assert(hi * 0x1_0000_0000 + lo < 0x1_0000_0000_0000_0000) by (nonlinear_arith)
        requires hi < 0x1_0000_0000, lo < 0x1_0000_0000;
    hi * 0x1_0000_0000 + lo
}

/// The elements that occur in both ascending lists, ascending.
fn intersect_sorted(a: &Vec<usize>, b: &Vec<usize>) -> (r: Vec<usize>)
    requires
        strictly_increasing(a@),
        strictly_increasing(b@),
    ensures
        strictly_increasing(r@),
        forall|x: usize| r@.contains(x) <==> a@.contains(x) && b@.contains(x),
{
    let mut out: Vec<usize> = Vec::new();
    let mut i: usize = 0;
    let mut j: usize = 0;
    while i < a.len() && j < b.len()
        invariant
            strictly_increasing(a@),
            strictly_increasing(b@),
            i <= a.len(),
            j <= b.len(),
            strictly_increasing(out@),
            forall|x: usize| #[trigger] out@.contains(x) ==> a@.contains(x) && b@.contains(x),
            forall|p: int| 0 <= p < i && b@.contains(#[trigger] a@[p]) ==> out@.contains(a@[p]),
            forall|q: int| 0 <= q < j && a@.contains(#[trigger] b@[q]) ==> out@.contains(b@[q]),
            out@.len() > 0 && i < a.len() ==> out@.last() < a@[i as int],
            out@.len() > 0 && j < b.len() ==> out@.last() < b@[j as int],
        decreases a.len() - i + b.len() - j,
    {
        let x = a[i];
        let y = b[j];
        if x == y {
            proof {
                assert forall|z: usize| #[trigger] out@.push(x).contains(z) implies a@.contains(z) && b@.contains(z) by {
                    if z != x {
                        assert(out@.contains(z));
                    } else {
                        assert(a@[i as int] == z);
                        assert(b@[j as int] == z);
                    }
                }
                assert forall|p: int| 0 <= p < i + 1 && b@.contains(#[trigger] a@[p]) implies out@.push(x).contains(a@[p]) by {
                    if p < i {
                        assert(out@.contains(a@[p]));
                        let k = choose|k: int| 0 <= k < out@.len() && out@[k] == a@[p];
                        assert(out@.push(x)[k] == a@[p]);
                    } else {
                        assert(out@.push(x)[out@.len() as int] == x);
                    }
                }
                assert forall|q: int| 0 <= q < j + 1 && a@.contains(#[trigger] b@[q]) implies out@.push(x).contains(b@[q]) by {
                    if q < j {
                        assert(out@.contains(b@[q]));
                        let k = choose|k: int| 0 <= k < out@.len() && out@[k] == b@[q];
                        assert(out@.push(x)[k] == b@[q]);
                    } else {
                        assert(out@.push(x)[out@.len() as int] == x);
                    }
                }
            }
            out.push(x);
            i += 1;
            j += 1;
        } else if x < y {
            proof {
                if b@.contains(x) {
                    let q = choose|q: int| 0 <= q < b@.len() && b@[q] == x;
                    if q >= j {
                        if q > j {
                            assert(b@[j as int] < b@[q]);
                        }
                    }
                    assert(a@.contains(b@[q]));
                }
            }
            i += 1;
        } else {
            proof {
                if a@.contains(y) {
                    let p = choose|p: int| 0 <= p < a@.len() && a@[p] == y;
                    if p >= i {
                        if p > i {
                            assert(a@[i as int] < a@[p]);
                        }
                    }
                    assert(b@.contains(a@[p]));
                }
            }
            j += 1;
        }
    }
    proof {
        assert forall|x: usize| a@.contains(x) && b@.contains(x) implies out@.contains(x) by {
            let p = choose|p: int| 0 <= p < a@.len() && a@[p] == x;
            let q = choose|q: int| 0 <= q < b@.len() && b@[q] == x;
            if i >= a.len() {
                assert(b@.contains(a@[p]));
            } else {
                assert(a@.contains(b@[q]));
            }
        }
    }
    out
}


/// `s` holds each of the first `j` windows of `q`.
pub open spec fn has_pairs_upto(s: Seq<char>, q: Seq<char>, j: int) -> bool {
    forall|t: int| 0 <= t < j && t < q.len() - 1 ==> #[trigger] holds_window(s, q, t)
}

/// Finishing name `i` turns the lists into those after `i + 1` names.
proof fn lemma_next_name(m: Map<u64, Vec<usize>>, c: Map<u32, Vec<usize>>, names: Seq<Seq<char>>, i: int)
    requires
        0 <= i < names.len(),
        pair_lists_upto(m, names, i, names[i].len() - 1),
        code_lists_upto(c, names, i, names[i].len() as int),
    ensures
        pair_lists_upto(m, names, i + 1, 0),
        code_lists_upto(c, names, i + 1, 0),
{
    let s = names[i];
    assert forall|k: u64| has_key_before(s, k, s.len() - 1) <==> #[trigger] has_key(s, k) by {
        if has_key(s, k) {
            let j = choose|j: int| 0 <= j < s.len() - 1 && #[trigger] pair_key(s[j], s[j + 1]) == k;
            assert(has_key_before(s, k, s.len() - 1));
        }
    }
    assert forall|k: u64| key_seen(names, k, i + 1) <==> (key_seen(names, k, i) || #[trigger] has_key(s, k)) by {
        if key_seen(names, k, i + 1) {
            let e = choose|e: int| 0 <= e < i + 1 && #[trigger] has_key(names[e], k);
            if e < i {
                assert(key_seen(names, k, i));
            }
        }
        if has_key(s, k) {
            assert(has_key(names[i], k));
        }
    }
    assert forall|k: u64| #[trigger] m.contains_key(k) <==> (key_seen(names, k, i + 1) || has_key_before(names[i + 1], k, 0)) by {
        assert(has_key(s, k) <==> has_key_before(s, k, s.len() - 1));
    }
    assert forall|k: u64, x: usize| m.contains_key(k) implies (#[trigger] m[k]@.contains(x) <==> (
        (x < i + 1 && has_key(names[x as int], k)) || (x == i + 1 && has_key_before(names[i + 1], k, 0)))) by {
        assert(has_key(s, k) <==> has_key_before(s, k, s.len() - 1));
    }
    assert forall|a: u32| has_code_before(s, a, s.len() as int) <==> #[trigger] has_code(s, a) by {
        if has_code(s, a) {
            let j = choose|j: int| 0 <= j < s.len() && #[trigger] (s[j] as u32) == a;
            assert(has_code_before(s, a, s.len() as int));
        }
    }
    assert forall|a: u32| code_seen(names, a, i + 1) <==> (code_seen(names, a, i) || #[trigger] has_code(s, a)) by {
        if code_seen(names, a, i + 1) {
            let e = choose|e: int| 0 <= e < i + 1 && #[trigger] has_code(names[e], a);
            if e < i {
                assert(code_seen(names, a, i));
            }
        }
        if has_code(s, a) {
            assert(has_code(names[i], a));
        }
    }
    assert forall|a: u32| #[trigger] c.contains_key(a) <==> (code_seen(names, a, i + 1) || has_code_before(names[i + 1], a, 0)) by {
        assert(has_code(s, a) <==> has_code_before(s, a, s.len() as int));
    }
    assert forall|a: u32, x: usize| c.contains_key(a) implies (#[trigger] c[a]@.contains(x) <==> (
        (x < i + 1 && has_code(names[x as int], a)) || (x == i + 1 && has_code_before(names[i + 1], a, 0)))) by {
        assert(has_code(s, a) <==> has_code_before(s, a, s.len() as int));
    }
}

/// The bigram index over the lowercased names of a tree, with a list per
/// single character for queries too short to form a window.
pub struct BigramIndex {
    index: HashMap<u64, Vec<usize>>,
    letters: HashMap<u32, Vec<usize>>,
    count: usize,
    names: Ghost<Seq<Seq<char>>>,
}

impl BigramIndex {
    /// The lowercased names the index was built from, by identifier.
    pub closed spec fn names(&self) -> Seq<Seq<char>> {
        self.names@
    }

    /// Every list is ascending and holds exactly the entries whose lowercased
    /// name has its window (or character), and no list is empty.
    pub closed spec fn wf(&self) -> bool {
        &&& self.count == self.names@.len()
        &&& pair_lists_upto(self.index@, self.names@, self.names@.len() as int, 0)
        &&& code_lists_upto(self.letters@, self.names@, self.names@.len() as int, 0)
    }

    /// Builds the index over every entry of `tree`.
    pub fn new(tree: &FileTree) -> (r: BigramIndex)
        ensures
            r.wf(),
            r.names() == lowered_names(tree@),
    {
        create_bigram_reverse_index(tree)
    }

    /// The entries whose name holds every window of `q`, ascending; `q` is
    /// taken as it is (already lowercased). With fewer than two characters
    /// there is no window and every entry is returned.
    pub fn query_lowered(&self, q: &Vec<char>) -> (r: Vec<usize>)
        requires
            self.wf(),
        ensures
            strictly_increasing(r@),
            forall|e: usize| #[trigger] r@.contains(e) <==> (e < self.names().len() && has_all_pairs(self.names()[e as int], q@)),
    {
        let ghost names = self.names@;
        if q.len() < 2 {
            let mut all: Vec<usize> = Vec::new();
            for e in 0..self.count
                invariant
                    self.count == names.len(),
                    all@.len() == e,
                    forall|p: int| 0 <= p < e ==> #[trigger] all@[p] == p,
            {
                all.push(e);
            }
            proof {
                assert forall|e: usize| #[trigger] all@.contains(e) <==> (e < names.len() && has_all_pairs(names[e as int], q@)) by {
                    if e < names.len() {
                        assert(all@[e as int] == e);
                    }
                }
            }
            return all;
        }
        let k = key_of(q[0], q[1]);
        let mut acc: Vec<usize> = match self.index.get(&k) {
            Some(list) => list.clone(),
            None => {
                proof {
                    assert forall|e: usize| e < names.len() implies !has_all_pairs(names[e as int], q@) by {
                        lemma_has_key_pair(names[e as int], q@[0], q@[1]);
                        if has_all_pairs(names[e as int], q@) {
                            assert(holds_window(names[e as int], q@, 0));
                            assert(key_seen(names, k, names.len() as int));
                        }
                    }
                }
                return Vec::new();
            }
        };
        proof {
            assert(acc@ =~= self.index@[k]@);
            assert forall|e: usize| #[trigger] acc@.contains(e) <==> (e < names.len() && has_pairs_upto(names[e as int], q@, 1)) by {
                lemma_has_key_pair(names[e as int], q@[0], q@[1]);
                if has_pairs_upto(names[e as int], q@, 1) {
                    assert(holds_window(names[e as int], q@, 0));
                }
            }
        }
        let last = q.len() - 1;
        let mut j: usize = 1;
        while j < last
            invariant
                self.wf(),
                names == self.names@,
                last == q@.len() - 1,
                1 <= j <= last,
                strictly_increasing(acc@),
                forall|e: usize| #[trigger] acc@.contains(e) <==> (e < names.len() && has_pairs_upto(names[e as int], q@, j as int)),
            decreases last - j,
        {
            let kj = key_of(q[j], q[j + 1]);
            match self.index.get(&kj) {
                Some(list) => {
                    let next = intersect_sorted(&acc, list);
                    proof {
                        assert forall|e: usize| #[trigger] next@.contains(e) <==> (e < names.len() && has_pairs_upto(names[e as int], q@, j + 1)) by {
                            lemma_has_key_pair(names[e as int], q@[j as int], q@[j + 1]);
                            if e < names.len() && has_pairs_upto(names[e as int], q@, j + 1) {
                                assert(holds_window(names[e as int], q@, j as int));
                            }
                            if acc@.contains(e) && list@.contains(e) {
                                assert forall|t: int| 0 <= t < j + 1 && t < q@.len() - 1 implies #[trigger] holds_window(names[e as int], q@, t) by {
                                    if t < j {
                                        assert(has_pairs_upto(names[e as int], q@, j as int));
                                    }
                                }
                            }
                        }
                    }
                    acc = next;
                },
                None => {
                    proof {
                        assert forall|e: usize| e < names.len() implies !has_all_pairs(names[e as int], q@) by {
                            lemma_has_key_pair(names[e as int], q@[j as int], q@[j + 1]);
                            if has_all_pairs(names[e as int], q@) {
                                assert(holds_window(names[e as int], q@, j as int));
                                assert(key_seen(names, kj, names.len() as int));
                            }
                        }
                    }
                    return Vec::new();
                },
            }
            j += 1;
        }
        proof {
            assert forall|e: usize| e < names.len() implies (has_pairs_upto(names[e as int], q@, j as int) <==> #[trigger] has_all_pairs(names[e as int], q@)) by {
                if has_pairs_upto(names[e as int], q@, j as int) {
                    assert forall|t: int| 0 <= t < q@.len() - 1 implies #[trigger] holds_window(names[e as int], q@, t) by {}
                }
            }
        }
        acc
    }

    /// The entries whose lowercased name holds every window of the
    /// lowercased `word`, ascending: a superset of the entries whose
    /// lowercased name contains it.
    pub fn query_word(&self, word: &str) -> (r: Vec<usize>)
        requires
            self.wf(),
        ensures
            strictly_increasing(r@),
            forall|e: usize| #[trigger] r@.contains(e) <==> (e < self.names().len() && has_all_pairs(self.names()[e as int], lower_of(word@))),
    {
        let lowered = lowercase(word);
        let q = chars_of(lowered.as_str());
        self.query_lowered(&q)
    }

    /// The entries whose lowercased name contains `c`, ascending.
    pub fn query_char(&self, c: char) -> (r: Vec<usize>)
        requires
            self.wf(),
        ensures
            strictly_increasing(r@),
            forall|e: usize| #[trigger] r@.contains(e) <==> (e < self.names().len() && self.names()[e as int].contains(c)),
    {
        let ghost names = self.names@;
        let code = c as u32;
        proof {
            assert forall|e: usize| e < names.len() implies (#[trigger] names[e as int].contains(c) <==> has_code(names[e as int], code)) by {
                if has_code(names[e as int], code) {
                    let j = choose|j: int| 0 <= j < names[e as int].len() && #[trigger] (names[e as int][j] as u32) == code;
                    vstd::utf8::char_u32_cast(names[e as int][j], code);
                    vstd::utf8::char_u32_cast(c, code);
                }
            }
        }
        match self.letters.get(&code) {
            Some(list) => {
                let r = list.clone();
                assert(r@ =~= self.letters@[code]@);
                r
            },
            None => {
                proof {
                    assert forall|e: usize| e < names.len() implies !names[e as int].contains(c) by {
                        if has_code(names[e as int], code) {
                            assert(code_seen(names, code, names.len() as int));
                        }
                    }
                }
                Vec::new()
            },
        }
    }

    /// The number of distinct windows over all names.
    pub fn len(&self) -> (n: usize)
        requires
            self.wf(),
        ensures
            n == bigram_keys(self.names()).len(),
    {
        proof {
            assert(self.index@.dom() =~= bigram_keys(self.names@));
        }
        self.index.len()
    }
}

/// The index under its other name.
pub type BiLetterIndex = BigramIndex;

/// Builds both maps in one pass over the entries: each window and each
/// character of each lowercased name records the entry's identifier once.
fn create_bigram_reverse_index(tree: &FileTree) -> (r: BigramIndex)
    ensures
        r.wf(),
        r.names() == lowered_names(tree@),
{
    let ghost names = lowered_names(tree@);
    let mut pairs: HashMap<u64, Vec<usize>> = HashMap::new();
    let mut letters: HashMap<u32, Vec<usize>> = HashMap::new();
    let n = tree.elements.len();
    for i in 0..n
        invariant
            n == tree@.len(),
            names == lowered_names(tree@),
            pair_lists_upto(pairs@, names, i as int, 0),
            code_lists_upto(letters@, names, i as int, 0),
    {
        let lowered = lowercase(tree.elements[i].filename.as_str());
        let cs = chars_of(lowered.as_str());
        assert(cs@ == names[i as int]);
        for w in 0..cs.len()
            invariant
                cs@ == names[i as int],
                i < names.len(),
                pair_lists_upto(pairs@, names, i as int, 0),
                code_lists_upto(letters@, names, i as int, w as int),
        {
            let ghost before = letters@;
            add_posting(&mut letters, cs[w] as u32, i);
            proof {
                lemma_code_step(before, letters@, names, i, w as int);
            }
        }
        if cs.len() >= 2 {
            for w in 0..cs.len() - 1
                invariant
                    cs@ == names[i as int],
                    cs@.len() >= 2,
                    i < names.len(),
                    pair_lists_upto(pairs@, names, i as int, w as int),
            {
                let ghost before = pairs@;
                add_posting(&mut pairs, key_of(cs[w], cs[w + 1]), i);
                proof {
                    lemma_pair_step(before, pairs@, names, i, w as int);
                }
            }
        } else {
            proof {
                assert forall|k: u64| !#[trigger] has_key_before(names[i as int], k, names[i as int].len() - 1) by {}
                assert forall|k: u64| !#[trigger] has_key_before(names[i as int], k, 0) by {}
            }
        }
        proof {
            lemma_next_name(pairs@, letters@, names, i as int);
        }
    }
    BigramIndex { index: pairs, letters, count: n, names: Ghost(names) }
}


/// `q` occurs in `s` as a contiguous run.
pub open spec fn contains_substring(s: Seq<char>, q: Seq<char>) -> bool {
    exists|k: int| 0 <= k <= s.len() - q.len() && #[trigger] s.subrange(k, k + q.len()) == q
}

/// Every name that contains `q` holds every window of `q`: the candidates
/// of `query_lowered(q)` (and of `query_word` on the lowercased word) are a
/// superset of the entries whose lowercased name contains the query.
pub proof fn lemma_bigram_superset(s: Seq<char>, q: Seq<char>)
    requires
        contains_substring(s, q),
    ensures
        has_all_pairs(s, q),
{
    let k = choose|k: int| 0 <= k <= s.len() - q.len() && #[trigger] s.subrange(k, k + q.len()) == q;
    assert forall|j: int| 0 <= j < q.len() - 1 implies #[trigger] holds_window(s, q, j) by {
        assert(s.subrange(k, k + q.len())[j] == s[k + j]);
        assert(s.subrange(k, k + q.len())[j + 1] == s[k + j + 1]);
        assert(s[k + j] == q[j] && s[k + j + 1] == q[j + 1]);
    }
}

} // verus!
