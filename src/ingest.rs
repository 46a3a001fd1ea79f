//! Building the arena from file-listing records: each record's path is
//! split into components, existing directories are found again through a
//! map from joined path prefixes to identifiers, missing ones are created,
//! and the record's metadata goes to the entry at the end of its path.
use std::collections::HashMap;

use vstd::prelude::*;

use crate::bigram_index::{add_posting, with_posting};
use crate::file_tree::{arena_linked, arena_wf, Element, FileTree};
use crate::text::{chars_of, push_char};

verus! {

broadcast use vstd::std_specs::hash::group_hash_axioms;

/// One line of a file listing.
pub struct Record {
    pub filename: String,
    pub size: Option<i64>,
    pub date_modified: Option<i64>,
    pub date_created: Option<i64>,
    pub attributes: u32,
}

/// The path separators: backslash and slash.
pub open spec fn is_separator(c: char) -> bool {
    c == '\\' || c == '/'
}

/// The components of a path, split at every separator; there is always at
/// least one, possibly empty.
pub open spec fn split_path(s: Seq<char>) -> Seq<Seq<char>>
    decreases s.len(),
{
    if s.len() == 0 {
        seq![Seq::empty()]
    } else {
        let r = split_path(s.drop_last());
        if is_separator(s.last()) {
            r.push(Seq::empty())
        } else {
            r.update(r.len() - 1, r.last().push(s.last()))
        }
    }
}

proof fn lemma_split_path_nonempty(s: Seq<char>)
    ensures
        split_path(s).len() >= 1,
    decreases s.len(),
{
    if s.len() > 0 {
        lemma_split_path_nonempty(s.drop_last());
    }
}

/// The names on the way from the root (excluded) down to `i` (included).
pub open spec fn names_to(e: Seq<Element>, i: int) -> Seq<Seq<char>>
    decreases i,
{
    if 0 < i < e.len() && e[i].parent < i {
        names_to(e, e[i].parent as int).push(e[i].filename@)
    } else {
        Seq::empty()
    }
}

/// Entries `0..=i` keep their names and parents from `a` to `b`.
pub open spec fn same_shape_upto(a: Seq<Element>, b: Seq<Element>, i: int) -> bool {
    &&& i < a.len() <= b.len()
    &&& forall|j: int| 0 <= j <= i ==> #[trigger] b[j].filename@ == a[j].filename@ && b[j].parent == a[j].parent
}

proof fn lemma_shape_down(a: Seq<Element>, b: Seq<Element>, i: int, j: int)
    requires
        same_shape_upto(a, b, i),
        0 <= j <= i,
    ensures
        same_shape_upto(a, b, j),
{
}

proof fn lemma_names_to_stable(a: Seq<Element>, b: Seq<Element>, i: int)
    requires
        0 <= i,
        same_shape_upto(a, b, i),
    ensures
        names_to(b, i) == names_to(a, i),
    decreases i,
{
    assert(b[i].filename@ == a[i].filename@);
    if 0 < i && a[i].parent < i {
        assert(b[i].parent == a[i].parent);
        lemma_names_to_stable(a, b, a[i].parent as int);
    }
}

/// Splits `path` at every backslash and slash.
pub fn split_components(path: &str) -> (r: Vec<String>)
    ensures
        r@.len() == split_path(path@).len(),
        forall|k: int| 0 <= k < r@.len() ==> #[trigger] r@[k]@ == split_path(path@)[k],
{
    let s = chars_of(path);
    let mut parts: Vec<String> = Vec::new();
    let mut current = String::new();
    let n = s.len();
    for i in 0..n
        invariant
            s@ == path@,
            n == s@.len(),
            parts@.len() + 1 == split_path(s@.take(i as int)).len(),
            forall|k: int| 0 <= k < parts@.len() ==> #[trigger] parts@[k]@ == split_path(s@.take(i as int))[k],
            current@ == split_path(s@.take(i as int)).last(),
    {
        let ghost before = s@.take(i as int);
        proof {
            lemma_split_path_nonempty(before);
            assert(s@.take(i + 1).drop_last() =~= before);
        }
        let c = s[i];
        if c == '\\' || c == '/' {
            parts.push(current);
            current = String::new();
        } else {
            push_char(&mut current, c);
        }
    }
    proof {
        lemma_split_path_nonempty(s@);
        assert(s@.take(n as int) =~= s@);
    }
    parts.push(current);
    parts
}

/// The synthetic root: named "Root", no metadata, its own parent.
pub open spec fn root_entry(x: Element) -> bool {
    &&& x.filename@ == "Root"@
    &&& x.size is None
    &&& x.date_modified is None
    &&& x.date_created is None
    &&& x.attributes == 0
    &&& x.parent == 0
}

/// No two entries under the same parent share a name.
pub open spec fn siblings_unique(e: Seq<Element>) -> bool {
    forall|i: int, j: int|
        0 < i < e.len() && 0 < j < e.len() && i != j && #[trigger] e[i].parent == #[trigger] e[j].parent
            ==> e[i].filename@ != e[j].filename@
}

/// No two entries have the same path: one entry per distinct path.
pub open spec fn paths_unique(e: Seq<Element>) -> bool {
    forall|i: int, j: int|
        0 < i < e.len() && 0 < j < e.len() && #[trigger] names_to(e, i) == #[trigger] names_to(e, j) ==> i == j
}

/// Entry `j` is new and its path is one of the first `k` prefixes of `want`.
pub open spec fn prefix_entry(e: Seq<Element>, j: int, want: Seq<Seq<char>>, k: int) -> bool {
    exists|m: int| 1 <= m <= k && names_to(e, j) == #[trigger] want.take(m)
}

/// One step of the bucket hash: mixes one character into `h`.
pub open spec fn mix(h: u64, c: char) -> u64 {
    (((h ^ ((c as u32) as u64)) as int * 1099511628211) % 0x1_0000_0000_0000_0000) as u64
}

/// The bucket of the entry named `name` under `parent`.
pub open spec fn bucket_of(parent: usize, name: Seq<char>) -> u64
    decreases name.len(),
{
    if name.len() == 0 {
        parent as u64
    } else {
        mix(bucket_of(parent, name.drop_last()), name.last())
    }
}

/// Entry `i` is listed in the bucket of its parent and name.
pub open spec fn in_bucket(m: Map<u64, Vec<usize>>, e: Seq<Element>, i: int) -> bool {
    let k = bucket_of(e[i].parent, e[i].filename@);
    m.contains_key(k) && m[k]@.contains(i as usize)
}

/// Every entry but the root is listed in its bucket.
pub open spec fn indexed(m: Map<u64, Vec<usize>>, e: Seq<Element>) -> bool {
    forall|i: int| 0 < i < e.len() ==> #[trigger] in_bucket(m, e, i)
}

proof fn lemma_names_to_len(e: Seq<Element>, i: int)
    requires
        arena_wf(e),
        0 <= i < e.len(),
    ensures
        i > 0 ==> names_to(e, i).len() >= 1 && names_to(e, i) == names_to(e, e[i].parent as int).push(e[i].filename@),
        i == 0 ==> names_to(e, i).len() == 0,
{
}

/// With unique names among siblings, distinct entries have distinct paths.
proof fn lemma_path_injective(e: Seq<Element>, i: int, j: int)
    requires
        arena_wf(e),
        siblings_unique(e),
        0 < i < e.len(),
        0 < j < e.len(),
        names_to(e, i) == names_to(e, j),
    ensures
        i == j,
    decreases i + j,
{
    let pi = e[i].parent as int;
    let pj = e[j].parent as int;
    lemma_names_to_len(e, i);
    lemma_names_to_len(e, j);
    lemma_names_to_len(e, pi);
    lemma_names_to_len(e, pj);
    assert(names_to(e, pi) =~= names_to(e, i).drop_last());
    assert(names_to(e, pj) =~= names_to(e, j).drop_last());
    assert(e[i].filename@ == names_to(e, i).last());
    assert(e[j].filename@ == names_to(e, j).last());
    if pi > 0 && pj > 0 {
        lemma_path_injective(e, pi, pj);
    }
    if i != j {
        assert(e[i].parent == e[j].parent);
    }
}

proof fn lemma_paths_unique(e: Seq<Element>)
    requires
        arena_wf(e),
        siblings_unique(e),
    ensures
        paths_unique(e),
{
    assert forall|i: int, j: int| 0 < i < e.len() && 0 < j < e.len() && #[trigger] names_to(e, i) == #[trigger] names_to(e, j) implies i == j by {
        lemma_path_injective(e, i, j);
    }
}

/// Every prefix of an entry's path is the path of one of its ancestors.
proof fn lemma_prefix_closed(e: Seq<Element>, x: int, m: int)
    requires
        arena_wf(e),
        0 < x < e.len(),
        1 <= m <= names_to(e, x).len(),
    ensures
        exists|y: int| 0 < y <= x && names_to(e, y) == names_to(e, x).take(m),
    decreases x,
{
    lemma_names_to_len(e, x);
    let p = e[x].parent as int;
    lemma_names_to_len(e, p);
    if m == names_to(e, x).len() {
        assert(names_to(e, x).take(m) =~= names_to(e, x));
    } else {
        lemma_prefix_closed(e, p, m);
        let y = choose|y: int| 0 < y <= p && names_to(e, y) == names_to(e, p).take(m);
        assert(names_to(e, p).take(m) =~= names_to(e, x).take(m));
    }
}

/// The bucket of the entry named `name` under `parent`.
fn bucket_key(parent: usize, name: &str) -> (k: u64)
    ensures
        k == bucket_of(parent, name@),
{
    let cs = chars_of(name);
    let mut h: u64 = parent as u64;
    let n = cs.len();
    for i in 0..n
        invariant
            n == cs@.len(),
            cs@ == name@,
            h == bucket_of(parent, cs@.take(i as int)),
    {
        let x: u64 = h ^ ((cs[i] as u32) as u64);
        assert((x as int) * 1099511628211 < 0x1_0000_0000_0000_0000_0000_0000_0000_0000) by (nonlinear_arith)
            requires 0 <= x < 0x1_0000_0000_0000_0000;
        let y: u128 = (x as u128) * 1099511628211u128;
        h = (y % 0x1_0000_0000_0000_0000u128) as u64;
        assert(cs@.take(i + 1).drop_last() =~= cs@.take(i as int));
    }
    assert(cs@.take(n as int) =~= cs@);
    h
}

/// The arena under construction, with an index of its entries by parent and
/// name: a map from bucket keys to the entries in each bucket. A path
/// prefix is found again by looking up each component under its parent.
pub struct TreeBuilder {
    tree: FileTree,
    buckets: HashMap<u64, Vec<usize>>,
}

impl TreeBuilder {
    /// The entries so far.
    pub closed spec fn entries(&self) -> Seq<Element> {
        self.tree@
    }

    /// The arena is well formed, starts with the root, has unique names
    /// among siblings, and every entry is in its bucket.
    pub closed spec fn wf(&self) -> bool {
        let e = self.tree@;
        &&& arena_wf(e)
        &&& arena_linked(e)
        &&& root_entry(e[0])
        &&& siblings_unique(e)
        &&& indexed(self.buckets@, e)
    }

    /// An arena holding only the root, with room for `capacity` entries.
    pub fn new(capacity: usize) -> (r: TreeBuilder)
        ensures
            r.wf(),
            r.entries().len() == 1,
            root_entry(r.entries()[0]),
            arena_wf(r.entries()),
            arena_linked(r.entries()),
    {
        TreeBuilder { tree: FileTree::with_capacity(capacity), buckets: HashMap::new() }
    }

    /// The entry named `name` under `parent`, if there is one.
    fn find_child(&self, parent: usize, name: &String) -> (r: Option<usize>)
        requires
            self.wf(),
        ensures
            r matches Some(x) ==> 0 < x < self.tree@.len() && self.tree@[x as int].parent == parent
                && self.tree@[x as int].filename@ == name@,
            r is None ==> forall|i: int| 0 < i < self.tree@.len() ==> !(#[trigger] self.tree@[i].parent == parent
                && self.tree@[i].filename@ == name@),
    {
        let k = bucket_key(parent, name.as_str());
        match self.buckets.get(&k) {
            None => {
                proof {
                    assert forall|i: int| 0 < i < self.tree@.len() implies !(#[trigger] self.tree@[i].parent == parent
                        && self.tree@[i].filename@ == name@) by {
                        assert(in_bucket(self.buckets@, self.tree@, i));
                    }
                }
                None
            },
            Some(bucket) => {
                let n = self.tree.elements.len();
                let mut j: usize = 0;
                while j < bucket.len()
                    invariant
                        self.wf(),
                        n == self.tree@.len(),
                        self.buckets@.contains_key(k) && self.buckets@[k] == *bucket,
                        j <= bucket@.len(),
                        forall|q: int| 0 <= q < j ==> !(0 < #[trigger] bucket@[q] < n
                            && self.tree@[bucket@[q] as int].parent == parent
                            && self.tree@[bucket@[q] as int].filename@ == name@),
                    decreases bucket@.len() - j,
                {
                    let x = bucket[j];
                    if 0 < x && x < n && self.tree.elements[x].parent == parent && self.tree.elements[x].filename == *name {
                        return Some(x);
                    }
                    j += 1;
                }
                proof {
                    assert forall|i: int| 0 < i < self.tree@.len() implies !(#[trigger] self.tree@[i].parent == parent
                        && self.tree@[i].filename@ == name@) by {
                        if self.tree@[i].parent == parent && self.tree@[i].filename@ == name@ {
                            assert(in_bucket(self.buckets@, self.tree@, i));
                            let q = choose|q: int| 0 <= q < bucket@.len() && bucket@[q] == i as usize;
                        }
                    }
                }
                None
            },
        }
    }

    /// Adds one record: the entries along its path are found again or
    /// created, and the one at the end gets the record's metadata. Returns
    /// that entry's identifier. A path that is there already gets no new
    /// entry, and no two entries ever share a path.
    #[verifier::spinoff_prover]
    pub fn add_record(&mut self, record: &Record) -> (id: usize)
        requires
            old(self).wf(),
            old(self).entries().len() + split_path(record.filename@).len() < usize::MAX,
        ensures
            final(self).wf(),
            arena_wf(final(self).entries()),
            arena_linked(final(self).entries()),
            paths_unique(final(self).entries()),
            root_entry(final(self).entries()[0]),
            ({
                let (a, b) = (old(self).entries(), final(self).entries());
                let want = split_path(record.filename@);
                &&& a.len() <= b.len()
                &&& 0 < id < b.len()
                &&& names_to(b, id as int) == want
                &&& b[id as int].size == record.size
                &&& b[id as int].date_modified == record.date_modified
                &&& b[id as int].date_created == record.date_created
                &&& b[id as int].attributes == record.attributes
                &&& forall|x: int| 0 < x < a.len() && #[trigger] names_to(a, x) == want ==> id == x && b.len() == a.len()
                &&& forall|j: int| a.len() <= j < b.len() ==> #[trigger] prefix_entry(b, j, want, want.len() as int)
                &&& forall|i: int| 0 <= i < a.len() ==> #[trigger] b[i].filename@ == a[i].filename@ && b[i].parent == a[i].parent
                &&& forall|i: int| 0 <= i < a.len() && i != id ==> #[trigger] b[i].size == a[i].size
                    && b[i].date_modified == a[i].date_modified && b[i].date_created == a[i].date_created
                    && b[i].attributes == a[i].attributes
                &&& forall|i: int| a.len() <= i < b.len() && i != id ==> #[trigger] b[i].size is None
                    && b[i].date_modified is None && b[i].date_created is None && b[i].attributes == 0
            }),
    {
        let parts = split_components(record.filename.as_str());
        let ghost start = self.tree@;
        let ghost want = split_path(record.filename@);
        let mut current: usize = 0;
        let n = parts.len();
        for k in 0..n
            invariant
                n == want.len(),
                parts@.len() == n,
                forall|q: int| 0 <= q < n ==> #[trigger] parts@[q]@ == want[q],
                start.len() + n < usize::MAX,
                start.len() >= 1,
                start.len() <= self.tree@.len() <= start.len() + k,
                self.wf(),
                current < self.tree@.len(),
                k > 0 ==> current > 0,
                names_to(self.tree@, current as int) == want.take(k as int),
                forall|j: int| start.len() <= j < self.tree@.len() ==> #[trigger] prefix_entry(self.tree@, j, want, n as int),
                forall|i: int| 0 <= i < start.len() ==> #[trigger] self.tree@[i].filename@ == start[i].filename@
                    && self.tree@[i].parent == start[i].parent && self.tree@[i].size == start[i].size
                    && self.tree@[i].date_modified == start[i].date_modified
                    && self.tree@[i].date_created == start[i].date_created
                    && self.tree@[i].attributes == start[i].attributes,
                forall|i: int| start.len() <= i < self.tree@.len() ==> #[trigger] self.tree@[i].size is None
                    && self.tree@[i].date_modified is None && self.tree@[i].date_created is None
                    && self.tree@[i].attributes == 0,
        {
            let ghost before = self.tree@;
            let ghost before_buckets = self.buckets@;
            let next = match self.find_child(current, &parts[k]) {
                Some(x) => x,
                None => {
                    let child = Element {
                        filename: parts[k].clone(),
                        size: None,
                        date_modified: None,
                        date_created: None,
                        attributes: 0,
                        parent: current,
                        children: Vec::new(),
                    };
                    let id = self.tree.add_child(current, child);
                    let key = bucket_key(current, parts[k].as_str());
                    add_posting(&mut self.buckets, key, id);
                    proof {
                        let e = self.tree@;
                        assert forall|i: int, j: int|
                            0 < i < e.len() && 0 < j < e.len() && i != j && #[trigger] e[i].parent == #[trigger] e[j].parent
                            implies e[i].filename@ != e[j].filename@ by {
                            if i < id && j < id {
                                assert(before[i].parent == before[j].parent);
                            } else if i == id {
                                assert(!(before[j].parent == current && before[j].filename@ == parts@[k as int]@));
                            } else {
                                assert(!(before[i].parent == current && before[i].filename@ == parts@[k as int]@));
                            }
                        }
                        let old_list = if before_buckets.contains_key(key) { before_buckets[key]@ } else { Seq::<usize>::empty() };
                        assert(with_posting(old_list, id).contains(id)) by {
                            if !(old_list.len() > 0 && old_list.last() == id) {
                                assert(old_list.push(id)[old_list.len() as int] == id);
                            } else {
                                assert(old_list[old_list.len() - 1] == id);
                            }
                        }
                        assert forall|i: int| 0 < i < e.len() implies #[trigger] in_bucket(self.buckets@, e, i) by {
                            if i < id {
                                assert(in_bucket(before_buckets, before, i));
                                let ki = bucket_of(before[i].parent, before[i].filename@);
                                if ki == key {
                                    let p = choose|p: int| 0 <= p < old_list.len() && old_list[p] == i as usize;
                                    if !(old_list.len() > 0 && old_list.last() == id) {
                                        assert(old_list.push(id)[p] == i as usize);
                                    }
                                }
                            }
                        }
                    }
                    id
                },
            };
            proof {
                let after = self.tree@;
                assert forall|i: int| 0 <= i < before.len() implies #[trigger] after[i].filename@ == before[i].filename@
                    && after[i].parent == before[i].parent && after[i].size == before[i].size
                    && after[i].date_modified == before[i].date_modified
                    && after[i].date_created == before[i].date_created
                    && after[i].attributes == before[i].attributes by {
                }
                assert forall|i: int| 0 <= i < start.len() implies #[trigger] after[i].filename@ == start[i].filename@
                    && after[i].parent == start[i].parent && after[i].size == start[i].size
                    && after[i].date_modified == start[i].date_modified
                    && after[i].date_created == start[i].date_created
                    && after[i].attributes == start[i].attributes by {
                    assert(before[i].filename@ == start[i].filename@);
                    assert(after[i].filename@ == before[i].filename@);
                }
                assert(same_shape_upto(before, after, current as int));
                lemma_names_to_stable(before, after, current as int);
                assert(after[next as int].parent == current);
                assert(after[next as int].filename@ == want[k as int]);
                assert(want.take(k + 1) =~= want.take(k as int).push(want[k as int]));
                lemma_names_to_len(after, next as int);
                assert forall|j: int| start.len() <= j < after.len() implies #[trigger] prefix_entry(after, j, want, n as int) by {
                    if j < before.len() {
                        assert(prefix_entry(before, j, want, n as int));
                        let m = choose|m: int| 1 <= m <= n && names_to(before, j) == #[trigger] want.take(m);
                        assert(same_shape_upto(before, after, j));
                        lemma_names_to_stable(before, after, j);
                        assert(names_to(after, j) == want.take(m));
                    } else {
                        assert(j == next);
                        assert(names_to(after, j) == want.take(k + 1));
                    }
                }
            }
            current = next;
        }
        proof {
            assert(want.take(n as int) =~= want);
            lemma_split_path_nonempty(record.filename@);
        }
        let ghost before = self.tree@;
        match self.tree.get_mut(current) {
            Some(element) => {
                element.size = record.size;
                element.date_modified = record.date_modified;
                element.date_created = record.date_created;
                element.attributes = record.attributes;
            },
            None => {},
        }
        proof {
            let after = self.tree@;
            assert(same_shape_upto(before, after, current as int));
            lemma_names_to_stable(before, after, current as int);
            assert forall|i: int, c: int| 0 <= i < after.len() && 0 <= c < after[i].children@.len() implies {
                let x = #[trigger] after[i].children@[c];
                &&& i < x < after.len()
                &&& after[x as int].parent == i
            } by {
                assert(after[i].children@ == before[i].children@);
                let x = before[i].children@[c];
                assert(after[x as int].parent == before[x as int].parent);
            }
            assert forall|i: int| 0 < i < after.len() implies #[trigger] after[i].parent < i by {
                assert(after[i].parent == before[i].parent);
            }
            assert forall|i: int| 0 < i < after.len() implies #[trigger] after[after[i].parent as int].children@.contains(i as usize) by {
                assert(after[i].parent == before[i].parent);
                assert(before[before[i].parent as int].children@.contains(i as usize));
            }
            assert forall|i: int, j: int|
                0 < i < after.len() && 0 < j < after.len() && i != j && #[trigger] after[i].parent == #[trigger] after[j].parent
                implies after[i].filename@ != after[j].filename@ by {
                assert(before[i].parent == before[j].parent);
            }
            assert forall|i: int| 0 < i < after.len() implies #[trigger] in_bucket(self.buckets@, after, i) by {
                assert(in_bucket(self.buckets@, before, i));
                assert(after[i].parent == before[i].parent && after[i].filename@ == before[i].filename@);
            }
            assert(after[0].filename@ == before[0].filename@);
            assert(after[current as int].size == record.size);
            assert forall|i: int| 0 <= i < start.len() implies #[trigger] after[i].filename@ == start[i].filename@
                && after[i].parent == start[i].parent by {
                assert(before[i].filename@ == start[i].filename@);
                assert(after[i].filename@ == before[i].filename@);
            }
            assert forall|i: int| 0 <= i < start.len() && i != current implies #[trigger] after[i].size == start[i].size
                && after[i].date_modified == start[i].date_modified && after[i].date_created == start[i].date_created
                && after[i].attributes == start[i].attributes by {
                assert(before[i].filename@ == start[i].filename@);
                assert(after[i] == before[i]);
            }
            assert forall|i: int| start.len() <= i < after.len() && i != current implies #[trigger] after[i].size is None
                && after[i].date_modified is None && after[i].date_created is None && after[i].attributes == 0 by {
                assert(before[i].size is None);
                assert(after[i] == before[i]);
            }
            assert forall|j: int| start.len() <= j < after.len() implies #[trigger] prefix_entry(after, j, want, n as int) by {
                assert(prefix_entry(before, j, want, n as int));
                let m = choose|m: int| 1 <= m <= n && names_to(before, j) == #[trigger] want.take(m);
                assert(same_shape_upto(before, after, j));
                lemma_names_to_stable(before, after, j);
            }
            lemma_paths_unique(after);
            assert forall|x: int| 0 < x < start.len() && #[trigger] names_to(start, x) == want implies current == x
                && after.len() == start.len() by {
                assert(same_shape_upto(start, after, x));
                lemma_names_to_stable(start, after, x);
                assert(names_to(after, current as int) == names_to(after, x));
                if after.len() > start.len() {
                    let j = start.len() as int;
                    assert(prefix_entry(after, j, want, n as int));
                    let m = choose|m: int| 1 <= m <= n && names_to(after, j) == #[trigger] want.take(m);
                    lemma_prefix_closed(start, x, m);
                    let y = choose|y: int| 0 < y <= x && names_to(start, y) == names_to(start, x).take(m);
                    lemma_shape_down(start, after, x, y);
                    lemma_names_to_stable(start, after, y);
                    assert(names_to(after, y) == names_to(after, j));
                }
            }
        }
        current
    }

    /// The finished arena, with spare capacity released.
    pub fn finish(self) -> (tree: FileTree)
        ensures
            tree@ == self.entries(),
    {
        let mut tree = self.tree;
        tree.shrink_to_fit();
        tree
    }
}

} // verus!
