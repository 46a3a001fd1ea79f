//! Sorting of identifier lists by a field, through per-field rank vectors
//! that are built once, on first use.
use vstd::prelude::*;

use crate::file_tree::{Element, FileTree};

verus! {

broadcast use vstd::seq_lib::group_to_multiset_ensures;

/// A field to sort by.
#[derive(Debug, Clone, Copy, PartialEq, Eq, Structural)]
pub enum SortField {
    Filename,
    DateModified,
    DateCreated,
    Size,
}

/// A direction to sort in.
#[derive(Debug, Clone, Copy, PartialEq, Eq, Structural)]
pub enum SortOrder {
    Ascending,
    Descending,
}

/// Lexicographic order on scalar values: a proper prefix comes first.
pub open spec fn lex_less(a: Seq<char>, b: Seq<char>) -> bool
    decreases a.len(),
{
    if a.len() == 0 {
        b.len() > 0
    } else if b.len() == 0 {
        false
    } else if a[0] != b[0] {
        (a[0] as u32) < (b[0] as u32)
    } else {
        lex_less(a.drop_first(), b.drop_first())
    }
}

/// Order on optional numbers: an absent value comes before any present one.
pub open spec fn opt_less(a: Option<i64>, b: Option<i64>) -> bool {
    match (a, b) {
        (None, Some(_)) => true,
        (Some(x), Some(y)) => x < y,
        _ => false,
    }
}

/// The field value of `x` comes strictly before that of `y`.
pub open spec fn key_less(x: Element, y: Element, f: SortField) -> bool {
    match f {
        SortField::Filename => lex_less(x.filename@, y.filename@),
        SortField::DateModified => opt_less(x.date_modified, y.date_modified),
        SortField::DateCreated => opt_less(x.date_created, y.date_created),
        SortField::Size => opt_less(x.size, y.size),
    }
}

/// `x` and `y` have the same field value.
pub open spec fn key_same(x: Element, y: Element, f: SortField) -> bool {
    match f {
        SortField::Filename => x.filename@ == y.filename@,
        SortField::DateModified => x.date_modified == y.date_modified,
        SortField::DateCreated => x.date_created == y.date_created,
        SortField::Size => x.size == y.size,
    }
}

/// Entry `a` comes before entry `b` in the stable ascending order by `f`:
/// by field value, and by identifier between equal values.
pub open spec fn precedes(e: Seq<Element>, f: SortField, a: int, b: int) -> bool {
    key_less(e[a], e[b], f) || (key_same(e[a], e[b], f) && a < b)
}

/// Entry `a` comes before entry `b` in the order `o` by `f`.
pub open spec fn ordered_before(e: Seq<Element>, f: SortField, o: SortOrder, a: int, b: int) -> bool {
    match o {
        SortOrder::Ascending => precedes(e, f, a, b),
        SortOrder::Descending => precedes(e, f, b, a),
    }
}

/// Each identifier of `s` comes before every later one in the order `o` by `f`.
pub open spec fn sorted_by(e: Seq<Element>, f: SortField, o: SortOrder, s: Seq<usize>) -> bool {
    forall|i: int, j: int| 0 <= i < j < s.len() ==> #[trigger] ordered_before(e, f, o, s[i] as int, s[j] as int)
}

proof fn lemma_lex_irreflexive(a: Seq<char>)
    ensures
        !lex_less(a, a),
    decreases a.len(),
{
    if a.len() > 0 {
        lemma_lex_irreflexive(a.drop_first());
    }
}

proof fn lemma_lex_transitive(a: Seq<char>, b: Seq<char>, c: Seq<char>)
    requires
        lex_less(a, b),
        lex_less(b, c),
    ensures
        lex_less(a, c),
    decreases a.len(),
{
    if a.len() > 0 && b.len() > 0 && c.len() > 0 {
        if a[0] == b[0] && b[0] == c[0] {
            lemma_lex_transitive(a.drop_first(), b.drop_first(), c.drop_first());
        } else if a[0] == c[0] {
            vstd::utf8::char_u32_cast(a[0], a[0] as u32);
            vstd::utf8::char_u32_cast(c[0], c[0] as u32);
        }
    }
}

proof fn lemma_lex_total(a: Seq<char>, b: Seq<char>)
    ensures
        lex_less(a, b) || lex_less(b, a) || a == b,
    decreases a.len(),
{
    if a.len() > 0 && b.len() > 0 {
        if a[0] == b[0] {
            lemma_lex_total(a.drop_first(), b.drop_first());
            if a.drop_first() == b.drop_first() {
                assert(a =~= seq![a[0]] + a.drop_first());
                assert(b =~= seq![b[0]] + b.drop_first());
            }
        } else {
            vstd::utf8::char_u32_cast(a[0], a[0] as u32);
            vstd::utf8::char_u32_cast(b[0], b[0] as u32);
        }
    } else if a.len() == 0 && b.len() == 0 {
        assert(a =~= b);
    }
}

/// `precedes` is a strict total order on the identifiers of the arena.
pub proof fn lemma_precedes_order(e: Seq<Element>, f: SortField)
    ensures
        forall|a: int| !#[trigger] precedes(e, f, a, a),
        forall|a: int, b: int, c: int| #[trigger] precedes(e, f, a, b) && #[trigger] precedes(e, f, b, c) ==> precedes(e, f, a, c),
        forall|a: int, b: int| a != b ==> #[trigger] precedes(e, f, a, b) || #[trigger] precedes(e, f, b, a),
{
    assert forall|a: int| !#[trigger] precedes(e, f, a, a) by {
        lemma_lex_irreflexive(e[a].filename@);
    }
    assert forall|a: int, b: int, c: int| #[trigger] precedes(e, f, a, b) && #[trigger] precedes(e, f, b, c) implies precedes(e, f, a, c) by {
        if f is Filename && lex_less(e[a].filename@, e[b].filename@) && lex_less(e[b].filename@, e[c].filename@) {
            lemma_lex_transitive(e[a].filename@, e[b].filename@, e[c].filename@);
        }
    }
    assert forall|a: int, b: int| a != b implies #[trigger] precedes(e, f, a, b) || #[trigger] precedes(e, f, b, a) by {
        lemma_lex_total(e[a].filename@, e[b].filename@);
    }
}

/// Relies on `str`'s `<`: strings are ordered lexicographically by their
/// bytes, which orders them by scalar value.
#[verifier::external_body]
fn str_less(a: &str, b: &str) -> (r: bool)
    ensures
        r == lex_less(a@, b@),
{
    a < b
}

fn opt_less_exec(a: Option<i64>, b: Option<i64>) -> (r: bool)
    ensures
        r == opt_less(a, b),
{
    match (a, b) {
        (None, Some(_)) => true,
        (Some(x), Some(y)) => x < y,
        _ => false,
    }
}

fn opt_same_exec(a: Option<i64>, b: Option<i64>) -> (r: bool)
    ensures
        r == (a == b),
{
    match (a, b) {
        (None, None) => true,
        (Some(x), Some(y)) => x == y,
        _ => false,
    }
}

/// Whether entry `a` comes before entry `b` in the stable ascending order.
fn precedes_exec(tree: &FileTree, f: SortField, a: usize, b: usize) -> (r: bool)
    requires
        a < tree@.len(),
        b < tree@.len(),
    ensures
        r == precedes(tree@, f, a as int, b as int),
{
    let x = &tree.elements[a];
    let y = &tree.elements[b];
    match f {
        SortField::Filename => {
            str_less(x.filename.as_str(), y.filename.as_str()) || (x.filename == y.filename && a < b)
        },
        SortField::DateModified => {
            opt_less_exec(x.date_modified, y.date_modified) || (opt_same_exec(x.date_modified, y.date_modified) && a < b)
        },
        SortField::DateCreated => {
            opt_less_exec(x.date_created, y.date_created) || (opt_same_exec(x.date_created, y.date_created) && a < b)
        },
        SortField::Size => {
            opt_less_exec(x.size, y.size) || (opt_same_exec(x.size, y.size) && a < b)
        },
    }
}


/// Every identifier of `s` comes before every later one.
pub open spec fn ascending_by(e: Seq<Element>, f: SortField, s: Seq<usize>) -> bool {
    forall|i: int, j: int| 0 <= i < j < s.len() ==> #[trigger] precedes(e, f, s[i] as int, s[j] as int)
}

/// Merges two lists that are ascending by `f` and share no identifier.
fn merge(tree: &FileTree, f: SortField, a: &Vec<usize>, b: &Vec<usize>) -> (r: Vec<usize>)
    requires
        forall|i: int| 0 <= i < a@.len() ==> #[trigger] a@[i] < tree@.len(),
        forall|i: int| 0 <= i < b@.len() ==> #[trigger] b@[i] < tree@.len(),
        ascending_by(tree@, f, a@),
        ascending_by(tree@, f, b@),
        forall|i: int, j: int| 0 <= i < a@.len() && 0 <= j < b@.len() ==> a@[i] != b@[j],
    ensures
        r@.to_multiset() == a@.to_multiset().add(b@.to_multiset()),
        ascending_by(tree@, f, r@),
{
    proof {
        lemma_precedes_order(tree@, f);
    }
    let mut out: Vec<usize> = Vec::new();
    let mut i: usize = 0;
    let mut j: usize = 0;
    while i < a.len() || j < b.len()
        invariant
            forall|p: int| 0 <= p < a@.len() ==> #[trigger] a@[p] < tree@.len(),
            forall|p: int| 0 <= p < b@.len() ==> #[trigger] b@[p] < tree@.len(),
            ascending_by(tree@, f, a@),
            ascending_by(tree@, f, b@),
            forall|p: int, q: int| 0 <= p < a@.len() && 0 <= q < b@.len() ==> a@[p] != b@[q],
            forall|x: int| !#[trigger] precedes(tree@, f, x, x),
            forall|x: int, y: int, z: int| #[trigger] precedes(tree@, f, x, y) && #[trigger] precedes(tree@, f, y, z) ==> precedes(tree@, f, x, z),
            forall|x: int, y: int| x != y ==> #[trigger] precedes(tree@, f, x, y) || #[trigger] precedes(tree@, f, y, x),
            i <= a@.len(),
            j <= b@.len(),
            out@.to_multiset() == a@.take(i as int).to_multiset().add(b@.take(j as int).to_multiset()),
            ascending_by(tree@, f, out@),
            out@.len() > 0 && i < a@.len() ==> precedes(tree@, f, out@.last() as int, a@[i as int] as int),
            out@.len() > 0 && j < b@.len() ==> precedes(tree@, f, out@.last() as int, b@[j as int] as int),
        decreases a@.len() - i + b@.len() - j,
    {
        let take_a = if i < a.len() && j < b.len() {
            precedes_exec(tree, f, a[i], b[j])
        } else {
            i < a.len()
        };
        let x = if take_a { a[i] } else { b[j] };
        proof {
            if out@.len() > 0 {
                assert forall|p: int| 0 <= p < out@.len() implies #[trigger] precedes(tree@, f, out@[p] as int, x as int) by {
                    if p < out@.len() - 1 {
                        assert(precedes(tree@, f, out@[p] as int, out@.last() as int));
                    }
                }
            }
            if !take_a && i < a@.len() {
                assert(a@[i as int] != b@[j as int]);
            }
            assert(ascending_by(tree@, f, out@.push(x)));
        }
        out.push(x);
        if take_a {
            assert(a@.take(i + 1) =~= a@.take(i as int).push(x));
            i += 1;
        } else {
            assert(b@.take(j + 1) =~= b@.take(j as int).push(x));
            j += 1;
        }
    }
    assert(a@.take(a@.len() as int) =~= a@);
    assert(b@.take(b@.len() as int) =~= b@);
    out
}

/// The identifiers `lo..hi`, ascending by `f`.
fn merge_sort_range(tree: &FileTree, f: SortField, lo: usize, hi: usize) -> (r: Vec<usize>)
    requires
        lo <= hi <= tree@.len(),
    ensures
        r@.len() == hi - lo,
        forall|x: usize| #[trigger] r@.contains(x) <==> lo <= x < hi,
        ascending_by(tree@, f, r@),
    decreases hi - lo,
{
    if hi - lo <= 1 {
        let mut r: Vec<usize> = Vec::new();
        if hi > lo {
            r.push(lo);
            assert(r@[0] == lo);
        }
        return r;
    }
    let mid = lo + (hi - lo) / 2;
    let a = merge_sort_range(tree, f, lo, mid);
    let b = merge_sort_range(tree, f, mid, hi);
    proof {
        assert forall|i: int| 0 <= i < a@.len() implies #[trigger] a@[i] < tree@.len() by {
            assert(a@.contains(a@[i]));
        }
        assert forall|i: int| 0 <= i < b@.len() implies #[trigger] b@[i] < tree@.len() by {
            assert(b@.contains(b@[i]));
        }
        assert forall|i: int, j: int| 0 <= i < a@.len() && 0 <= j < b@.len() implies a@[i] != b@[j] by {
            assert(a@.contains(a@[i]));
            assert(b@.contains(b@[j]));
        }
    }
    let r = merge(tree, f, &a, &b);
    proof {
        assert forall|x: usize| #[trigger] r@.contains(x) <==> lo <= x < hi by {
            assert(r@.to_multiset().count(x) == a@.to_multiset().count(x) + b@.to_multiset().count(x));
        }
        assert(r@.len() == r@.to_multiset().len());
        assert(a@.len() == a@.to_multiset().len());
        assert(b@.len() == b@.to_multiset().len());
    }
    r
}

/// `rank` is the rank vector of the arena for `f`: a permutation of the
/// identifiers whose order is the stable ascending order by `f`.
pub open spec fn is_rank(rank: Seq<usize>, e: Seq<Element>, f: SortField) -> bool {
    &&& rank.len() == e.len()
    &&& forall|a: int| 0 <= a < e.len() ==> #[trigger] rank[a] < e.len()
    &&& forall|a: int, b: int| 0 <= a < e.len() && 0 <= b < e.len() ==> (#[trigger] rank[a] < #[trigger] rank[b] <==> precedes(e, f, a, b))
    &&& forall|p: int| 0 <= p < e.len() ==> #[trigger] rank_taken(rank, p)
}

/// Some identifier has rank `p`.
pub open spec fn rank_taken(rank: Seq<usize>, p: int) -> bool {
    exists|a: int| 0 <= a < rank.len() && #[trigger] rank[a] == p
}

/// Builds the rank vector of `tree` for `f`.
fn build_rank(tree: &FileTree, f: SortField) -> (rank: Vec<usize>)
    ensures
        is_rank(rank@, tree@, f),
{
    proof {
        lemma_precedes_order(tree@, f);
    }
    let n = tree.elements.len();
    let sorted = merge_sort_range(tree, f, 0, n);
    let mut rank: Vec<usize> = vec![0; n];
    for p in 0..n
        invariant
            n == tree@.len(),
            sorted@.len() == n,
            rank@.len() == n,
            forall|q: int| 0 <= q < p ==> #[trigger] rank@[sorted@[q] as int] == q,
            forall|x: usize| #[trigger] sorted@.contains(x) <==> x < n,
            ascending_by(tree@, f, sorted@),
            forall|x: int| !#[trigger] precedes(tree@, f, x, x),
    {
        proof {
            assert forall|q: int, t: int| 0 <= q < t < n implies #[trigger] sorted@[q] != #[trigger] sorted@[t] by {
                assert(precedes(tree@, f, sorted@[q] as int, sorted@[t] as int));
            }
            assert(sorted@.contains(sorted@[p as int]));
        }
        let ghost prev = rank@;
        let target = sorted[p];
        rank.set(target, p);
        proof {
            assert(rank@ == prev.update(target as int, p));
            assert forall|q: int| 0 <= q < p + 1 implies #[trigger] rank@[sorted@[q] as int] == q by {
                assert(sorted@.contains(sorted@[q]));
                if q < p {
                    assert(sorted@[q] != target);
                    assert(prev[sorted@[q] as int] == q);
                } else {
                    assert(q == p);
                    assert(sorted@[q] == target);
                }
            }
        }
    }
    proof {
        assert forall|a: int| 0 <= a < n implies #[trigger] rank@[a] < n by {
            assert(sorted@.contains(a as usize));
            let q = choose|q: int| 0 <= q < n && sorted@[q] == a as usize;
            assert(rank@[sorted@[q] as int] == q);
        }
        assert forall|a: int, b: int| 0 <= a < n && 0 <= b < n implies (#[trigger] rank@[a] < #[trigger] rank@[b] <==> precedes(tree@, f, a, b)) by {
            assert(sorted@.contains(a as usize));
            assert(sorted@.contains(b as usize));
            let qa = choose|q: int| 0 <= q < n && sorted@[q] == a as usize;
            let qb = choose|q: int| 0 <= q < n && sorted@[q] == b as usize;
            assert(rank@[sorted@[qa] as int] == qa);
            assert(rank@[sorted@[qb] as int] == qb);
            if qa < qb {
                assert(precedes(tree@, f, sorted@[qa] as int, sorted@[qb] as int));
            } else if qb < qa {
                assert(precedes(tree@, f, sorted@[qb] as int, sorted@[qa] as int));
            }
        }
        assert forall|p: int| 0 <= p < n implies #[trigger] rank_taken(rank@, p) by {
            assert(sorted@.contains(sorted@[p]));
            assert(rank@[sorted@[p] as int] == p);
        }
    }
    rank
}


/// `rank` maps the identifiers `0..n` one-to-one into `0..n`.
pub open spec fn rank_injective(rank: Seq<usize>) -> bool {
    &&& forall|a: int| 0 <= a < rank.len() ==> #[trigger] rank[a] < rank.len()
    &&& forall|a: int, b: int| 0 <= a < rank.len() && 0 <= b < rank.len() && a != b ==> #[trigger] rank[a] != #[trigger] rank[b]
}

/// The scratch position of `x`: its rank, or its rank from the end.
pub open spec fn slot_of(rank: Seq<usize>, o: SortOrder, x: usize) -> int {
    match o {
        SortOrder::Ascending => rank[x as int] as int,
        SortOrder::Descending => rank.len() - 1 - rank[x as int],
    }
}

/// Each identifier of `s` has a smaller scratch position than every later one.
pub open spec fn slots_increasing(rank: Seq<usize>, o: SortOrder, s: Seq<usize>) -> bool {
    forall|i: int, j: int| 0 <= i < j < s.len() ==> #[trigger] slot_of(rank, o, s[i]) < #[trigger] slot_of(rank, o, s[j])
}

/// A rank vector of the arena orders its identifiers one-to-one.
proof fn lemma_rank_injective(rank: Seq<usize>, e: Seq<Element>, f: SortField)
    requires
        is_rank(rank, e, f),
    ensures
        rank_injective(rank),
{
    lemma_precedes_order(e, f);
    assert forall|a: int, b: int| 0 <= a < rank.len() && 0 <= b < rank.len() && a != b implies #[trigger] rank[a] != #[trigger] rank[b] by {
        if precedes(e, f, a, b) {
            assert(rank[a] < rank[b]);
        } else {
            assert(precedes(e, f, b, a));
            assert(rank[b] < rank[a]);
        }
    }
}

/// The rank vectors of the four fields, each built on first use.
pub struct Sorter {
    pub filename_order: Option<Vec<usize>>,
    pub date_modified_order: Option<Vec<usize>>,
    pub date_created_order: Option<Vec<usize>>,
    pub size_order: Option<Vec<usize>>,
}

impl Sorter {
    /// The rank vector of `f`, once built.
    pub open spec fn cached(&self, f: SortField) -> Option<Vec<usize>> {
        match f {
            SortField::Filename => self.filename_order,
            SortField::DateModified => self.date_modified_order,
            SortField::DateCreated => self.date_created_order,
            SortField::Size => self.size_order,
        }
    }

    /// Every rank vector built so far is the one of the arena `e`.
    pub open spec fn ready_for(&self, e: Seq<Element>) -> bool {
        forall|f: SortField| #[trigger] self.cached(f) matches Some(rank) ==> is_rank(rank@, e, f)
    }

    /// A sorter with no rank vector built yet.
    pub fn new() -> (s: Sorter)
        ensures
            forall|e: Seq<Element>| #[trigger] s.ready_for(e),
    {
        Sorter { filename_order: None, date_modified_order: None, date_created_order: None, size_order: None }
    }

    /// Builds the rank vector by file name for `tree`, unless it is built
    /// already; the other vectors are left as they are.
    pub fn prepare_filename_order(&mut self, tree: &FileTree)
        requires
            old(self).ready_for(tree@),
        ensures
            final(self).ready_for(tree@),
            final(self).cached(SortField::Filename) is Some,
            is_rank(final(self).cached(SortField::Filename)->0@, tree@, SortField::Filename),
            old(self).cached(SortField::Filename) is Some ==> final(self).cached(SortField::Filename) == old(self).cached(
                SortField::Filename,
            ),
            forall|g: SortField| g != SortField::Filename ==> #[trigger] final(self).cached(g) == old(self).cached(g),
    {
        self.prepare_order(tree, SortField::Filename);
    }

    /// Builds the rank vector by modification date for `tree`, unless it is built
    /// already; the other vectors are left as they are.
    pub fn prepare_date_modified_order(&mut self, tree: &FileTree)
        requires
            old(self).ready_for(tree@),
        ensures
            final(self).ready_for(tree@),
            final(self).cached(SortField::DateModified) is Some,
            is_rank(final(self).cached(SortField::DateModified)->0@, tree@, SortField::DateModified),
            old(self).cached(SortField::DateModified) is Some ==> final(self).cached(SortField::DateModified) == old(self).cached(
                SortField::DateModified,
            ),
            forall|g: SortField| g != SortField::DateModified ==> #[trigger] final(self).cached(g) == old(self).cached(g),
    {
        self.prepare_order(tree, SortField::DateModified);
    }

    /// Builds the rank vector by creation date for `tree`, unless it is built
    /// already; the other vectors are left as they are.
    pub fn prepare_date_created_order(&mut self, tree: &FileTree)
        requires
            old(self).ready_for(tree@),
        ensures
            final(self).ready_for(tree@),
            final(self).cached(SortField::DateCreated) is Some,
            is_rank(final(self).cached(SortField::DateCreated)->0@, tree@, SortField::DateCreated),
            old(self).cached(SortField::DateCreated) is Some ==> final(self).cached(SortField::DateCreated) == old(self).cached(
                SortField::DateCreated,
            ),
            forall|g: SortField| g != SortField::DateCreated ==> #[trigger] final(self).cached(g) == old(self).cached(g),
    {
        self.prepare_order(tree, SortField::DateCreated);
    }

    /// Builds the rank vector by size for `tree`, unless it is built
    /// already; the other vectors are left as they are.
    pub fn prepare_size_order(&mut self, tree: &FileTree)
        requires
            old(self).ready_for(tree@),
        ensures
            final(self).ready_for(tree@),
            final(self).cached(SortField::Size) is Some,
            is_rank(final(self).cached(SortField::Size)->0@, tree@, SortField::Size),
            old(self).cached(SortField::Size) is Some ==> final(self).cached(SortField::Size) == old(self).cached(
                SortField::Size,
            ),
            forall|g: SortField| g != SortField::Size ==> #[trigger] final(self).cached(g) == old(self).cached(g),
    {
        self.prepare_order(tree, SortField::Size);
    }

    /// Builds the rank vector of `f` for `tree`, unless it is built already.
    fn prepare_order(&mut self, tree: &FileTree, f: SortField)
        requires
            old(self).ready_for(tree@),
        ensures
            final(self).ready_for(tree@),
            final(self).cached(f) is Some,
            is_rank(final(self).cached(f)->0@, tree@, f),
            old(self).cached(f) is Some ==> final(self).cached(f) == old(self).cached(f),
            forall|g: SortField| g != f ==> #[trigger] final(self).cached(g) == old(self).cached(g),
    {
        match f {
            SortField::Filename => {
                if self.filename_order.is_none() {
                    self.filename_order = Some(build_rank(tree, f));
                }
            },
            SortField::DateModified => {
                if self.date_modified_order.is_none() {
                    self.date_modified_order = Some(build_rank(tree, f));
                }
            },
            SortField::DateCreated => {
                if self.date_created_order.is_none() {
                    self.date_created_order = Some(build_rank(tree, f));
                }
            },
            SortField::Size => {
                if self.size_order.is_none() {
                    self.size_order = Some(build_rank(tree, f));
                }
            },
        }
        proof {
            assert forall|g: SortField| #[trigger] self.cached(g) is Some implies is_rank(self.cached(g)->0@, tree@, g) by {
                if g != f {
                    assert(self.cached(g) == old(self).cached(g));
                }
            }
        }
    }

    /// The rank vector of `f`, once built.
    fn order_of(&self, f: SortField) -> (r: &Vec<usize>)
        requires
            self.cached(f) is Some,
        ensures
            *r == self.cached(f)->0,
    {
        match f {
            SortField::Filename => self.filename_order.as_ref().unwrap(),
            SortField::DateModified => self.date_modified_order.as_ref().unwrap(),
            SortField::DateCreated => self.date_created_order.as_ref().unwrap(),
            SortField::Size => self.size_order.as_ref().unwrap(),
        }
    }

    /// Sorts the distinct identifiers of `elements` by `field` in `order`,
    /// building that field's rank vector on first use. Entries with equal
    /// values keep identifier order (reversed when descending).
    pub fn sort_by(&mut self, tree: &FileTree, elements: &mut [usize], field: SortField, order: SortOrder)
        requires
            old(self).ready_for(tree@),
            old(elements)@.no_duplicates(),
            forall|i: int| 0 <= i < old(elements)@.len() ==> #[trigger] old(elements)@[i] < tree@.len(),
        ensures
            final(self).ready_for(tree@),
            final(elements)@.len() == old(elements)@.len(),
            forall|x: usize| #[trigger] final(elements)@.contains(x) <==> old(elements)@.contains(x),
            sorted_by(tree@, field, order, final(elements)@),
    {
        self.prepare_order(tree, field);
        let rank = self.order_of(field);
        proof {
            assert(is_rank(rank@, tree@, field));
            lemma_rank_injective(rank@, tree@, field);
        }
        let ghost before = elements@;
        self.sort_by_order_list(elements, rank, order);
        proof {
            let e = tree@;
            let s = elements@;
            assert forall|i: int| 0 <= i < s.len() implies #[trigger] s[i] < e.len() by {
                assert(s.contains(s[i]));
                let q = choose|q: int| 0 <= q < before.len() && before[q] == s[i];
            }
            assert forall|i: int, j: int| 0 <= i < j < s.len() implies #[trigger] ordered_before(e, field, order, s[i] as int, s[j] as int) by {
                assert(slot_of(rank@, order, s[i]) < slot_of(rank@, order, s[j]));
                assert(s[i] < e.len() && s[j] < e.len());
            }
        }
    }

    /// Reorders the distinct identifiers of `elements` by their rank in
    /// `order_list`: ascending, or from the highest rank down.
    fn sort_by_order_list(&self, elements: &mut [usize], order_list: &Vec<usize>, order: SortOrder)
        requires
            rank_injective(order_list@),
            old(elements)@.no_duplicates(),
            forall|i: int| 0 <= i < old(elements)@.len() ==> #[trigger] old(elements)@[i] < order_list@.len(),
        ensures
            final(elements)@.len() == old(elements)@.len(),
            forall|x: usize| #[trigger] final(elements)@.contains(x) <==> old(elements)@.contains(x),
            slots_increasing(order_list@, order, final(elements)@),
    {
        let ghost rank = order_list@;
        let ghost s = elements@;
        let n = order_list.len();
        let mut scratch: Vec<usize> = vec![usize::MAX; n];
        let m = elements.len();
        for k in 0..m
            invariant
                rank == order_list@,
                n == rank.len(),
                rank_injective(rank),
                s == elements@,
                m == s.len(),
                s.no_duplicates(),
                forall|i: int| 0 <= i < s.len() ==> #[trigger] s[i] < n,
                scratch@.len() == n,
                forall|t: int| 0 <= t < n && #[trigger] scratch@[t] != usize::MAX ==> s.contains(scratch@[t]) && slot_of(rank, order, scratch@[t]) == t,
                forall|q: int| 0 <= q < k ==> #[trigger] scratch@[slot_of(rank, order, s[q])] == s[q],
        {
            let x = elements[k];
            let t = if order == SortOrder::Ascending { order_list[x] } else { n - 1 - order_list[x] };
            let ghost prev = scratch@;
            scratch.set(t, x);
            proof {
                assert(s.contains(x));
                assert forall|q: int| 0 <= q < k + 1 implies #[trigger] scratch@[slot_of(rank, order, s[q])] == s[q] by {
                    if q < k {
                        assert(s[q] != x);
                        assert(rank[s[q] as int] != rank[x as int]);
                    }
                }
            }
        }
        let mut out: Vec<usize> = Vec::new();
        for t in 0..n
            invariant
                rank == order_list@,
                n == rank.len(),
                rank_injective(rank),
                s == elements@,
                forall|i: int| 0 <= i < s.len() ==> #[trigger] s[i] < n,
                scratch@.len() == n,
                forall|u: int| 0 <= u < n && #[trigger] scratch@[u] != usize::MAX ==> s.contains(scratch@[u]) && slot_of(rank, order, scratch@[u]) == u,
                forall|q: int| 0 <= q < s.len() ==> #[trigger] scratch@[slot_of(rank, order, s[q])] == s[q],
                forall|p: int| 0 <= p < out@.len() ==> s.contains(#[trigger] out@[p]) && slot_of(rank, order, out@[p]) < t,
                slots_increasing(rank, order, out@),
                forall|q: int| 0 <= q < s.len() && slot_of(rank, order, #[trigger] s[q]) < t ==> out@.contains(s[q]),
        {
            let x = scratch[t];
            if x != usize::MAX {
                proof {
                    assert forall|q: int| 0 <= q < s.len() && slot_of(rank, order, #[trigger] s[q]) < t + 1 implies out@.push(x).contains(s[q]) by {
                        if slot_of(rank, order, s[q]) < t {
                            assert(out@.contains(s[q]));
                            let p = choose|p: int| 0 <= p < out@.len() && out@[p] == s[q];
                            assert(out@.push(x)[p] == s[q]);
                        } else {
                            assert(out@.push(x)[out@.len() as int] == x);
                        }
                    }
                }
                out.push(x);
            } else {
                proof {
                    assert forall|q: int| 0 <= q < s.len() && slot_of(rank, order, #[trigger] s[q]) < t + 1 implies out@.contains(s[q]) by {
                        if slot_of(rank, order, s[q]) == t {
                            assert(scratch@[slot_of(rank, order, s[q])] == s[q]);
                            assert(s[q] < n);
                        }
                    }
                }
            }
        }
        proof {
            assert forall|x: usize| #[trigger] out@.contains(x) <==> s.contains(x) by {
                if s.contains(x) {
                    let q = choose|q: int| 0 <= q < s.len() && s[q] == x;
                    assert(slot_of(rank, order, s[q]) < n);
                }
                if out@.contains(x) {
                    let p = choose|p: int| 0 <= p < out@.len() && out@[p] == x;
                    assert(s.contains(out@[p]));
                }
            }
            assert(out@.no_duplicates()) by {
                assert forall|i: int, j: int| 0 <= i < out@.len() && 0 <= j < out@.len() && i != j implies out@[i] != out@[j] by {
                    if i < j {
                        assert(slot_of(rank, order, out@[i]) < slot_of(rank, order, out@[j]));
                    } else {
                        assert(slot_of(rank, order, out@[j]) < slot_of(rank, order, out@[i]));
                    }
                }
            }
            assert(out@.to_set() =~= s.to_set());
            out@.unique_seq_to_set();
            s.unique_seq_to_set();
        }
        for p in 0..m
            invariant
                m == out@.len(),
                elements@.len() == m,
                forall|q: int| 0 <= q < p ==> #[trigger] elements@[q] == out@[q],
        {
            elements[p] = out[p];
        }
        assert(elements@ =~= out@);
    }
}


/// Two lists, each strictly ordered by the same strict order `lt` and
/// holding the same elements, are equal.
pub proof fn lemma_unique_arrangement(lt: spec_fn(usize, usize) -> bool, s: Seq<usize>, t: Seq<usize>)
    requires
        forall|a: usize| !#[trigger] lt(a, a),
        forall|a: usize, b: usize, c: usize| #[trigger] lt(a, b) && #[trigger] lt(b, c) ==> lt(a, c),
        forall|i: int, j: int| 0 <= i < j < s.len() ==> #[trigger] lt(s[i], s[j]),
        forall|i: int, j: int| 0 <= i < j < t.len() ==> #[trigger] lt(t[i], t[j]),
        forall|x: usize| #[trigger] s.contains(x) <==> t.contains(x),
    ensures
        s == t,
    decreases s.len(),
{
    if s.len() == 0 {
        if t.len() > 0 {
            assert(t.contains(t[0]));
            assert(s.contains(t[0]));
        }
        assert(s =~= t);
    } else {
        assert(s.contains(s[0]));
        assert(t.len() > 0);
        assert(t.contains(s[0]));
        assert(t.contains(t[0]));
        assert(s.contains(t[0]));
        if s[0] != t[0] {
            let k = choose|k: int| 0 <= k < s.len() && s[k] == t[0];
            let j = choose|j: int| 0 <= j < t.len() && t[j] == s[0];
            assert(lt(s[0], s[k]));
            assert(lt(t[0], t[j]));
        }
        let s1 = s.drop_first();
        let t1 = t.drop_first();
        assert forall|x: usize| #[trigger] s1.contains(x) <==> t1.contains(x) by {
            if s1.contains(x) {
                let k = choose|k: int| 0 <= k < s1.len() && s1[k] == x;
                assert(s[k + 1] == x);
                assert(lt(s[0], s[k + 1]));
                assert(s.contains(x));
                assert(t.contains(x));
                let j = choose|j: int| 0 <= j < t.len() && t[j] == x;
                assert(j != 0);
                assert(t1[j - 1] == x);
            }
            if t1.contains(x) {
                let k = choose|k: int| 0 <= k < t1.len() && t1[k] == x;
                assert(t[k + 1] == x);
                assert(lt(t[0], t[k + 1]));
                assert(s.contains(x));
                let j = choose|j: int| 0 <= j < s.len() && s[j] == x;
                assert(j != 0);
                assert(s1[j - 1] == x);
            }
        }
        assert forall|i: int, j: int| 0 <= i < j < s1.len() implies #[trigger] lt(s1[i], s1[j]) by {
            assert(lt(s[i + 1], s[j + 1]));
        }
        assert forall|i: int, j: int| 0 <= i < j < t1.len() implies #[trigger] lt(t1[i], t1[j]) by {
            assert(lt(t[i + 1], t[j + 1]));
        }
        lemma_unique_arrangement(lt, s1, t1);
        assert(s =~= seq![s[0]] + s1);
        assert(t =~= seq![t[0]] + t1);
    }
}

/// Sorting a list that is already sorted by the same field and order
/// changes nothing: any list with the same elements that `sort_by` may
/// return (same length, same elements, sorted) is the list itself.
pub proof fn lemma_sort_idempotent(e: Seq<Element>, f: SortField, o: SortOrder, s: Seq<usize>, t: Seq<usize>)
    requires
        sorted_by(e, f, o, s),
        sorted_by(e, f, o, t),
        forall|x: usize| #[trigger] t.contains(x) <==> s.contains(x),
    ensures
        t == s,
{
    lemma_precedes_order(e, f);
    let lt = |a: usize, b: usize| ordered_before(e, f, o, a as int, b as int);
    assert forall|a: usize, b: usize, c: usize| #[trigger] lt(a, b) && #[trigger] lt(b, c) implies lt(a, c) by {
        match o {
            SortOrder::Ascending => assert(precedes(e, f, a as int, b as int) && precedes(e, f, b as int, c as int)),
            SortOrder::Descending => assert(precedes(e, f, c as int, b as int) && precedes(e, f, b as int, a as int)),
        }
    }
    assert forall|a: usize| !#[trigger] lt(a, a) by {
        assert(!precedes(e, f, a as int, a as int));
    }
    assert forall|i: int, j: int| 0 <= i < j < s.len() implies #[trigger] lt(s[i], s[j]) by {
        assert(ordered_before(e, f, o, s[i] as int, s[j] as int));
    }
    assert forall|i: int, j: int| 0 <= i < j < t.len() implies #[trigger] lt(t[i], t[j]) by {
        assert(ordered_before(e, f, o, t[i] as int, t[j] as int));
    }
    lemma_unique_arrangement(lt, s, t);
}

/// A rank vector is a permutation of `0..n`, and it numbers the entries in
/// the order of the stable sort by its field: listing all identifiers in
/// that order (ascending by field value, equal values by identifier) puts
/// each identifier at the position its rank gives.
pub proof fn lemma_rank_bijection(rank: Seq<usize>, e: Seq<Element>, f: SortField, sorted: Seq<usize>)
    requires
        e.len() <= usize::MAX,
        is_rank(rank, e, f),
        forall|x: usize| #[trigger] sorted.contains(x) <==> x < e.len(),
        sorted_by(e, f, SortOrder::Ascending, sorted),
    ensures
        forall|a: int| 0 <= a < e.len() ==> #[trigger] rank[a] < e.len(),
        forall|a: int, b: int| 0 <= a < e.len() && 0 <= b < e.len() && a != b ==> #[trigger] rank[a] != #[trigger] rank[b],
        forall|p: int| 0 <= p < e.len() ==> #[trigger] rank_taken(rank, p),
        sorted.len() == e.len(),
        forall|p: int| 0 <= p < sorted.len() ==> #[trigger] rank[sorted[p] as int] == p,
{
    lemma_rank_injective(rank, e, f);
    let n = e.len();
    // The identifiers listed by rank.
    let by_rank = Seq::new(n, |p: int| choose|a: usize| a < n && rank[a as int] == p);
    assert forall|p: int| 0 <= p < n implies #[trigger] rank[by_rank[p] as int] == p && by_rank[p] < n by {
        assert(rank_taken(rank, p));
        let a = choose|a: int| 0 <= a < rank.len() && #[trigger] rank[a] == p;
        assert(rank[(a as usize) as int] == p);
    }
    assert forall|x: usize| #[trigger] by_rank.contains(x) <==> x < n by {
        if x < n {
            let p = rank[x as int] as int;
            assert(rank[by_rank[p] as int] == p);
            assert(by_rank[p] == x);
        }
    }
    assert forall|i: int, j: int| 0 <= i < j < by_rank.len() implies #[trigger] ordered_before(e, f, SortOrder::Ascending, by_rank[i] as int, by_rank[j] as int) by {
        assert(rank[by_rank[i] as int] < rank[by_rank[j] as int]);
    }
    lemma_sort_idempotent(e, f, SortOrder::Ascending, by_rank, sorted);
}

} // verus!
