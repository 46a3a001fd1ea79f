//! The post-filter: narrows a candidate list to the entries whose name
//! contains the query as a literal, ignoring case, using the regex crate.
use vstd::prelude::*;

use crate::file_tree::{Element, FileTree};

verus! {

#[verifier::external_type_specification]
#[verifier::external_body]
pub struct ExRegex(regex::Regex);

/// Whether the escaped, case-insensitive pattern for `query` compiles
/// within the regex crate's default size limit: a function of the query.
pub uninterp spec fn literal_pattern_builds(query: Seq<char>) -> bool;

/// Whether the case-insensitive pattern for the literal `query` matches
/// somewhere in `hay`, under the regex crate's Unicode simple case folding.
pub uninterp spec fn literal_matches(query: Seq<char>, hay: Seq<char>) -> bool;

/// A compiled case-insensitive pattern for one literal. Only
/// `compile_literal` builds one, so `regex` is always the pattern compiled
/// from `literal`.
struct LiteralMatcher {
    regex: regex::Regex,
    literal: Ghost<Seq<char>>,
}

impl LiteralMatcher {
    /// The literal the pattern was compiled from.
    spec fn literal(&self) -> Seq<char> {
        self.literal@
    }
}

/// Relies on `regex::escape`, `RegexBuilder::case_insensitive` and
/// `RegexBuilder::build`: the escaped query compiles, or fails to, by the
/// query alone.
#[verifier::external_body]
fn compile_literal(query: &str) -> (r: Option<LiteralMatcher>)
    ensures
        r is Some <==> literal_pattern_builds(query@),
        r matches Some(m) ==> m.literal() == query@,
{
    match regex::RegexBuilder::new(&regex::escape(query)).case_insensitive(true).build() {
        Ok(regex) => Some(LiteralMatcher { regex, literal: Ghost(query@) }),
        Err(_) => None,
    }
}

/// Relies on `Regex::is_match`: whether the literal occurs in `hay`,
/// ignoring case.
#[verifier::external_body]
fn literal_found(m: &LiteralMatcher, hay: &str) -> (r: bool)
    ensures
        r == literal_matches(m.literal(), hay@),
{
    m.regex.is_match(hay)
}

/// The elements of `ids` whose mark at the same position is set, in order.
pub open spec fn kept(ids: Seq<usize>, marks: Seq<bool>) -> Seq<usize>
    decreases ids.len(),
{
    if ids.len() == 0 {
        Seq::empty()
    } else {
        let n = ids.len() - 1;
        let before = kept(ids.take(n), marks);
        if marks[n] { before.push(ids[n]) } else { before }
    }
}

/// Whether the name of entry `id` contains `query` as a literal, ignoring case.
pub open spec fn name_matches(tree: Seq<Element>, query: Seq<char>, id: usize) -> bool {
    literal_matches(query, tree[id as int].filename@)
}

/// Marks taken from a predicate keep what the predicate's filter keeps.
proof fn lemma_kept_filter(ids: Seq<usize>, marks: Seq<bool>, pred: spec_fn(usize) -> bool)
    requires
        marks.len() >= ids.len(),
        forall|p: int| 0 <= p < ids.len() ==> marks[p] == pred(ids[p]),
    ensures
        kept(ids, marks) == ids.filter(pred),
    decreases ids.len(),
{
    reveal(Seq::filter);
    if ids.len() > 0 {
        let n = ids.len() - 1;
        lemma_kept_filter(ids.take(n), marks, pred);
        assert(ids.take(n) =~= ids.drop_last());
    }
}

/// Keeps, in order, the identifiers whose mark is set.
pub fn retain_marked(indices: &mut Vec<usize>, marks: &Vec<bool>)
    requires
        marks@.len() == old(indices)@.len(),
    ensures
        final(indices)@ == kept(old(indices)@, marks@),
{
    let ghost ids = indices@;
    let mut out: Vec<usize> = Vec::new();
    let n = indices.len();
    for p in 0..n
        invariant
            n == ids.len(),
            indices@ == ids,
            marks@.len() == n,
            out@ == kept(ids.take(p as int), marks@),
    {
        assert(ids.take(p + 1).take(p as int) =~= ids.take(p as int));
        if marks[p] {
            out.push(indices[p]);
        }
    }
    assert(ids.take(n as int) =~= ids);
    *indices = out;
}

/// Keeps, in order, the candidates whose name contains `query` as a
/// literal, ignoring case. When no pattern can be compiled for `query`
/// (it is too large) the list is emptied: the request degrades to no results.
pub fn post_filter(tree: &FileTree, indices: &mut Vec<usize>, query: &str)
    requires
        forall|p: int| 0 <= p < old(indices)@.len() ==> #[trigger] old(indices)@[p] < tree@.len(),
    ensures
        literal_pattern_builds(query@) ==> final(indices)@ == old(indices)@.filter(
            |id: usize| name_matches(tree@, query@, id),
        ),
        !literal_pattern_builds(query@) ==> final(indices)@.len() == 0,
{
    let matcher = match compile_literal(query) {
        Some(m) => m,
        None => {
            indices.clear();
            return;
        },
    };
    let mut marks: Vec<bool> = Vec::new();
    let n = indices.len();
    for p in 0..n
        invariant
            n == indices@.len(),
            forall|q: int| 0 <= q < indices@.len() ==> #[trigger] indices@[q] < tree@.len(),
            matcher.literal() == query@,
            marks@.len() == p,
            forall|q: int| 0 <= q < p ==> #[trigger] marks@[q] == name_matches(tree@, query@, indices@[q]),
    {
        let id = indices[p];
        let found = literal_found(&matcher, tree.elements[id].filename.as_str());
        marks.push(found);
    }
    let ghost ids = indices@;
    retain_marked(indices, &marks);
    proof {
        lemma_kept_filter(ids, marks@, |id: usize| name_matches(tree@, query@, id));
    }
}

} // verus!
