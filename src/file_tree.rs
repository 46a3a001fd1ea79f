//! The file tree arena: every entry lives in one vector, identified by its
//! index, with a parent link and an ordered list of children.
use vstd::prelude::*;
use vstd::string::StringExecFns;

use crate::text::{push_char, shrink_vec};

verus! {

/// One file or directory.
#[derive(Clone)]
pub struct Element {
    pub filename: String,
    pub size: Option<i64>,
    pub date_modified: Option<i64>,
    pub date_created: Option<i64>,
    pub attributes: u32,
    pub parent: usize,
    pub children: Vec<usize>,
}

/// The structural invariant of an arena: the root's parent is itself, every
/// other entry's parent comes before it, and each listed child comes after
/// its parent, inside the arena, and names that parent.
pub open spec fn arena_wf(e: Seq<Element>) -> bool {
    &&& e.len() >= 1
    &&& e[0].parent == 0
    &&& forall|i: int| 0 < i < e.len() ==> #[trigger] e[i].parent < i
    &&& forall|i: int, k: int|
        0 <= i < e.len() && 0 <= k < e[i].children@.len() ==> {
            let c = #[trigger] e[i].children@[k];
            &&& i < c < e.len()
            &&& e[c as int].parent == i
        }
}

/// Every entry but the root is listed among its parent's children.
pub open spec fn arena_linked(e: Seq<Element>) -> bool {
    forall|i: int| 0 < i < e.len() ==> #[trigger] e[e[i].parent as int].children@.contains(i as usize)
}

/// `acc` with the names of `j` and its ancestors put in front, one by one, up
/// to but not including the root: a name is joined with a backslash to a
/// non-empty path and stands alone before an empty one.
pub open spec fn climb_path(e: Seq<Element>, j: int, acc: Seq<char>) -> Seq<char>
    decreases j,
{
    if 0 < j < e.len() && e[j].parent < j {
        let name = e[j].filename@;
        let next = if acc.len() == 0 { name } else { name + seq!['\\'] + acc };
        climb_path(e, e[j].parent as int, next)
    } else {
        acc
    }
}

/// The path of the directory holding `i`: the backslash-joined names of its
/// ancestors, without the root and without `i` itself.
pub open spec fn full_path_of(e: Seq<Element>, i: int) -> Seq<char> {
    if 0 < i < e.len() {
        climb_path(e, e[i].parent as int, Seq::empty())
    } else {
        Seq::empty()
    }
}

/// The descendants of `i` in depth-first pre-order: each child, followed by
/// its own descendants, in the order of the child list.
pub open spec fn descendants(e: Seq<Element>, i: int) -> Seq<usize>
    decreases e.len() - i, 1int,
{
    if 0 <= i < e.len() {
        descendants_upto(e, i, e[i].children@.len() as int)
    } else {
        Seq::empty()
    }
}

/// The descendants reached through the first `k` children of `i`.
pub open spec fn descendants_upto(e: Seq<Element>, i: int, k: int) -> Seq<usize>
    decreases e.len() - i, 0int, k,
{
    if 0 <= i < e.len() && 0 < k <= e[i].children@.len() {
        let c = e[i].children@[k - 1];
        let before = descendants_upto(e, i, k - 1);
        if i < c < e.len() {
            before + seq![c] + descendants(e, c as int)
        } else {
            before + seq![c]
        }
    } else {
        Seq::empty()
    }
}

impl Element {
    /// The synthetic root entry: named "Root", no metadata, its own parent.
    fn new_root() -> (r: Element)
        ensures
            r.filename@ == "Root"@,
            r.size is None,
            r.date_modified is None,
            r.date_created is None,
            r.attributes == 0,
            r.parent == 0,
            r.children@.len() == 0,
    {
        Element {
            filename: String::from_str("Root"),
            size: None,
            date_modified: None,
            date_created: None,
            attributes: 0,
            parent: 0,
            children: Vec::new(),
        }
    }
}

/// The arena of all entries; identifier 0 is the root.
pub struct FileTree {
    pub elements: Vec<Element>,
}

impl View for FileTree {
    type V = Seq<Element>;

    open spec fn view(&self) -> Seq<Element> {
        self.elements@
    }
}

impl FileTree {
    /// A tree holding only the root, with room reserved for `capacity` entries.
    pub fn with_capacity(capacity: usize) -> (tree: FileTree)
        ensures
            tree@.len() == 1,
            tree@[0].filename@ == "Root"@,
            tree@[0].size is None,
            tree@[0].date_modified is None,
            tree@[0].date_created is None,
            tree@[0].attributes == 0,
            tree@[0].parent == 0,
            tree@[0].children@.len() == 0,
            arena_wf(tree@),
            arena_linked(tree@),
    {
        let mut elements: Vec<Element> = Vec::with_capacity(capacity);
        elements.push(Element::new_root());
        FileTree { elements }
    }

    /// Appends `element` as it is and returns its identifier. The arena stays
    /// well formed when the element names an earlier parent and has no children.
    pub fn add_element(&mut self, element: Element) -> (index: usize)
        ensures
            index == old(self)@.len(),
            final(self)@ == old(self)@.push(element),
            arena_wf(old(self)@) && element.parent < index && element.children@.len() == 0
                ==> arena_wf(final(self)@),
    {
        let index = self.elements.len();
        self.elements.push(element);
        index
    }

    /// The entry with identifier `index`, if there is one.
    pub fn get(&self, index: usize) -> (r: Option<&Element>)
        ensures
            index < self@.len() ==> r == Some(&self@[index as int]),
            index >= self@.len() ==> r is None,
    {
        if index < self.elements.len() {
            Some(&self.elements[index])
        } else {
            None
        }
    }

    /// The entry with identifier `index`, for changing in place.
    pub fn get_mut(&mut self, index: usize) -> (r: Option<&mut Element>)
        ensures
            index < old(self)@.len() ==> r is Some && *r->0 == old(self)@[index as int]
                && final(self)@ == old(self)@.update(index as int, *final(r->0)),
            index >= old(self)@.len() ==> r is None && final(self)@ == old(self)@,
    {
        if index < self.elements.len() {
            Some(&mut self.elements[index])
        } else {
            None
        }
    }

    /// All entries, in identifier order.
    pub fn get_elements(&self) -> (r: &[Element])
        ensures
            r@ == self@,
    {
        self.elements.as_slice()
    }

    /// The backslash-joined names of the ancestors of `index`, excluding the
    /// root and the entry itself; empty when its parent is the root.
    pub fn get_full_path(&self, index: usize) -> (path: String)
        requires
            arena_wf(self@),
            index < self@.len(),
        ensures
            path@ == full_path_of(self@, index as int),
    {
        let mut path = String::new();
        if index == 0 {
            return path;
        }
        let mut current = self.elements[index].parent;
        while current != 0
            invariant
                arena_wf(self@),
                0 < index < self@.len(),
                current < self@.len(),
                full_path_of(self@, index as int) == climb_path(self@, current as int, path@),
            decreases current,
        {
            let element = &self.elements[current];
            if path.as_str().is_empty() {
                path = element.filename.clone();
            } else {
                let mut joined = element.filename.clone();
                push_char(&mut joined, '\\');
                joined.append(path.as_str());
                assert(joined@ =~= element.filename@ + seq!['\\'] + path@);
                path = joined;
            }
            current = element.parent;
        }
        path
    }

    /// Every descendant of `index`, depth first, each child before its own
    /// descendants; empty when `index` is out of range.
    pub fn collect_all_children(&self, index: usize) -> (r: Vec<usize>)
        requires
            arena_wf(self@),
        ensures
            r@ == descendants(self@, index as int),
        decreases self@.len() - index,
    {
        let mut out: Vec<usize> = Vec::new();
        if index < self.elements.len() {
            let element = &self.elements[index];
            let n = element.children.len();
            let mut k: usize = 0;
            while k < n
                invariant
                    arena_wf(self@),
                    index < self@.len(),
                    element == &self@[index as int],
                    n == element.children@.len(),
                    k <= n,
                    out@ == descendants_upto(self@, index as int, k as int),
                decreases n - k,
            {
                let child = element.children[k];
                assert(index < child < self@.len());
                out.push(child);
                let mut below = self.collect_all_children(child);
                out.append(&mut below);
                k += 1;
            }
        }
        out
    }

    /// Appends `child` under `parent` and returns its identifier: the child's
    /// parent link is set and the identifier is pushed onto the parent's list.
    pub fn add_child(&mut self, parent: usize, child: Element) -> (index: usize)
        requires
            parent < old(self)@.len(),
        ensures
            index == old(self)@.len(),
            final(self)@.len() == old(self)@.len() + 1,
            forall|i: int| 0 <= i < old(self)@.len() && i != parent ==> final(self)@[i] == old(self)@[i],
            final(self)@[parent as int] == (Element {
                children: final(self)@[parent as int].children,
                ..old(self)@[parent as int]
            }),
            final(self)@[parent as int].children@ == old(self)@[parent as int].children@.push(index),
            final(self)@[index as int] == (Element { parent, ..child }),
            arena_wf(old(self)@) && child.children@.len() == 0 ==> arena_wf(final(self)@),
            arena_wf(old(self)@) && arena_linked(old(self)@) && child.children@.len() == 0
                ==> arena_linked(final(self)@),
    {
        let index = self.elements.len();
        self.elements[parent].children.push(index);
        let mut child = child;
        child.parent = parent;
        self.elements.push(child);
        proof {
            let e0 = old(self)@;
            let e1 = self@;
            if arena_wf(e0) && arena_linked(e0) && child.children@.len() == 0 {
                assert forall|i: int| 0 < i < e1.len() implies #[trigger] e1[e1[i].parent as int].children@.contains(i as usize) by {
                    if i < e0.len() {
                        let p = e0[i].parent as int;
                        assert(e0[p].children@.contains(i as usize));
                        let k = choose|k: int| 0 <= k < e0[p].children@.len() && e0[p].children@[k] == i as usize;
                        assert(e1[p].children@[k] == i as usize);
                    } else {
                        assert(e1[parent as int].children@[e0[parent as int].children@.len() as int] == index);
                    }
                }
            }
        }
        index
    }

    /// Releases spare capacity; the entries are unchanged.
    pub fn shrink_to_fit(&mut self)
        ensures
            final(self)@ == old(self)@,
    {
        shrink_vec(&mut self.elements);
    }

    /// The number of entries, the root included.
    pub fn len(&self) -> (n: usize)
        ensures
            n == self@.len(),
    {
        self.elements.len()
    }
}


/// In an arena built by `with_capacity` and `add_child` (children-free
/// children), every entry but the root has a parent with a smaller
/// identifier and is listed among that parent's children; the identifiers
/// are `0..len`, so `len` is one more than the last identifier given out.
pub proof fn lemma_arena_invariants(e: Seq<Element>)
    requires
        arena_wf(e),
        arena_linked(e),
    ensures
        forall|i: int| 0 < i < e.len() ==> #[trigger] e[i].parent < i && e[e[i].parent as int].children@.contains(i as usize),
        forall|p: int, c: usize| 0 <= p < e.len() && #[trigger] e[p].children@.contains(c) ==> c < e.len() && e[c as int].parent == p,
{
    assert forall|p: int, c: usize| 0 <= p < e.len() && #[trigger] e[p].children@.contains(c) implies c < e.len() && e[c as int].parent == p by {
        let k = choose|k: int| 0 <= k < e[p].children@.len() && e[p].children@[k] == c;
        assert(e[p].children@[k] == c);
    }
}

} // verus!
