//! The search orchestrator: picks the retrieval path by query length,
//! post-filters, sorts, remembers the last result list and returns a page.
use vstd::prelude::*;
use vstd::string::StringExecFns;

use crate::bigram_index::{contains_substring, has_all_pairs, lemma_bigram_superset, lowered_names, strictly_increasing, BigramIndex};
use crate::file_tree::{arena_wf, full_path_of, Element, FileTree};
use crate::post_filter::{literal_pattern_builds, name_matches, post_filter};
use crate::sorter::{
    lemma_precedes_order, lemma_sort_idempotent, lemma_unique_arrangement, ordered_before, sorted_by, SortField, SortOrder,
    Sorter,
};
use crate::text::{chars_of, lower_of, lowercase};

verus! {

/// The number of results in one page.
pub const PAGE_SIZE: usize = 100;

/// One entry of a result page.
pub struct FileResult {
    pub name: String,
    pub path: String,
    pub size: Option<i64>,
    pub date_modified: Option<i64>,
    pub date_created: Option<i64>,
    pub attributes: u32,
}

/// A page of results, with the length of the whole result list.
pub struct SearchResult {
    pub results: Vec<FileResult>,
    pub total: usize,
    pub offset: usize,
    pub page_size: usize,
}

/// A remembered request (lowercased query, sort field and order) and its
/// result list.
pub struct SearchCache {
    pub query: String,
    pub indices: Vec<usize>,
    pub sort_by: Option<SortField>,
    pub sort_order: Option<SortOrder>,
}

/// The single memo slot: the last request served, if any.
pub struct LastSearchCache {
    pub search: Option<SearchCache>,
}

/// Whether entry `e` answers the lowercased query `q`: its lowercased name
/// holds the single character, or every window of a longer query; from three
/// characters on its name must also contain the query as a literal, ignoring
/// case, and no entry answers when no pattern can be compiled for the query.
/// The empty query takes every entry.
pub open spec fn is_candidate(tree: Seq<Element>, q: Seq<char>, e: usize) -> bool {
    let name = lowered_names(tree)[e as int];
    &&& e < tree.len()
    &&& if q.len() == 1 { name.contains(q[0]) } else { has_all_pairs(name, q) }
    &&& q.len() >= 3 ==> literal_pattern_builds(q) && name_matches(tree, q, e)
}

/// The order of a result list: by identifier without a sort field, else by
/// the field in the given order (ascending when none is given).
pub open spec fn in_result_order(tree: Seq<Element>, field: Option<SortField>, order: Option<SortOrder>, list: Seq<usize>) -> bool {
    match field {
        None => strictly_increasing(list),
        Some(f) => sorted_by(tree, f, order.unwrap_or(SortOrder::Ascending), list),
    }
}

/// `list` is the result list of the request: each candidate once, in the
/// requested order.
pub open spec fn is_search_result(
    tree: Seq<Element>,
    q: Seq<char>,
    field: Option<SortField>,
    order: Option<SortOrder>,
    list: Seq<usize>,
) -> bool {
    &&& list.no_duplicates()
    &&& forall|e: usize| #[trigger] list.contains(e) <==> is_candidate(tree, q, e)
    &&& in_result_order(tree, field, order, list)
}

/// The remembered list, if any, is the result list of its request.
pub open spec fn memo_valid(tree: Seq<Element>, cache: LastSearchCache) -> bool {
    cache.search matches Some(c) ==> is_search_result(tree, c.query@, c.sort_by, c.sort_order, c.indices@)
}

/// The slot remembers exactly this request.
pub open spec fn memo_holds(cache: LastSearchCache, q: Seq<char>, field: Option<SortField>, order: Option<SortOrder>) -> bool {
    cache.search matches Some(c) && c.query@ == q && c.sort_by == field && c.sort_order == order
}

/// The page of `list` that starts at `offset`: at most `PAGE_SIZE` entries,
/// empty past the end.
pub open spec fn page_of(list: Seq<usize>, offset: int) -> Seq<usize> {
    let start = if offset < list.len() { offset } else { list.len() as int };
    let end = if start + PAGE_SIZE < list.len() { start + PAGE_SIZE } else { list.len() as int };
    list.subrange(start, end)
}

/// `r` is the projection of entry `id`.
pub open spec fn projects(tree: Seq<Element>, id: usize, r: FileResult) -> bool {
    &&& r.name@ == tree[id as int].filename@
    &&& r.path@ == full_path_of(tree, id as int)
    &&& r.size == tree[id as int].size
    &&& r.date_modified == tree[id as int].date_modified
    &&& r.date_created == tree[id as int].date_created
    &&& r.attributes == tree[id as int].attributes
}

/// `r` is the page at `offset` of the list remembered in `cache`, which is
/// the result list of the request, with the list's length.
pub open spec fn page_served(
    tree: Seq<Element>,
    q: Seq<char>,
    field: Option<SortField>,
    order: Option<SortOrder>,
    offset: Option<usize>,
    cache: LastSearchCache,
    r: SearchResult,
) -> bool {
    let list = cache.search->0.indices@;
    let page = page_of(list, offset.unwrap_or(0) as int);
    &&& is_search_result(tree, q, field, order, list)
    &&& r.total == list.len()
    &&& r.offset == offset.unwrap_or(0)
    &&& r.page_size == PAGE_SIZE
    &&& r.results@.len() == page.len()
    &&& forall|i: int| 0 <= i < page.len() ==> projects(tree, page[i], #[trigger] r.results@[i])
}

impl FileResult {
    /// The result record of `element`, under the directory path `path`.
    pub fn from_element(element: &Element, path: String) -> (r: FileResult)
        ensures
            r.name@ == element.filename@,
            r.path@ == path@,
            r.size == element.size,
            r.date_modified == element.date_modified,
            r.date_created == element.date_created,
            r.attributes == element.attributes,
    {
        FileResult {
            name: element.filename.clone(),
            path,
            size: element.size,
            date_modified: element.date_modified,
            date_created: element.date_created,
            attributes: element.attributes,
        }
    }
}

impl LastSearchCache {
    /// An empty slot.
    pub fn new() -> (r: LastSearchCache)
        ensures
            r.search is None,
    {
        LastSearchCache { search: None }
    }
}

/// A filter of an ascending list is ascending and keeps what the predicate
/// accepts.
proof fn lemma_filter_ascending(s: Seq<usize>, pred: spec_fn(usize) -> bool)
    requires
        strictly_increasing(s),
    ensures
        strictly_increasing(s.filter(pred)),
        forall|x: usize| #[trigger] s.filter(pred).contains(x) <==> s.contains(x) && pred(x),
    decreases s.len(),
{
    reveal(Seq::filter);
    if s.len() > 0 {
        let rest = s.drop_last();
        assert(strictly_increasing(rest));
        lemma_filter_ascending(rest, pred);
        let fr = rest.filter(pred);
        assert forall|x: usize| #[trigger] fr.contains(x) implies x < s.last() by {
            let k = choose|k: int| 0 <= k < rest.len() && rest[k] == x;
            assert(s[k] == x);
        }
        if pred(s.last()) {
            assert forall|i: int, j: int| 0 <= i < j < fr.push(s.last()).len() implies #[trigger] fr.push(s.last())[i] < #[trigger] fr.push(s.last())[j] by {
                if j == fr.len() {
                    assert(fr.contains(fr[i]));
                }
            }
        }
        assert forall|x: usize| #[trigger] s.filter(pred).contains(x) <==> s.contains(x) && pred(x) by {
            if s.contains(x) && x != s.last() {
                let k = choose|k: int| 0 <= k < s.len() && s[k] == x;
                assert(rest[k] == x);
            }
            if rest.contains(x) {
                let k = choose|k: int| 0 <= k < rest.len() && rest[k] == x;
                assert(s[k] == x);
            }
            if pred(s.last()) {
                let fl = fr.push(s.last());
                if fl.contains(x) && x != s.last() {
                    let k = choose|k: int| 0 <= k < fl.len() && fl[k] == x;
                    assert(fr[k] == x);
                }
                if x == s.last() {
                    assert(fl[fr.len() as int] == x);
                }
                if fr.contains(x) {
                    let k = choose|k: int| 0 <= k < fr.len() && fr[k] == x;
                    assert(fl[k] == x);
                }
            }
        }
    }
}

proof fn lemma_increasing_distinct(s: Seq<usize>)
    requires
        strictly_increasing(s),
    ensures
        s.no_duplicates(),
{
    assert forall|i: int, j: int| 0 <= i < s.len() && 0 <= j < s.len() && i != j implies s[i] != s[j] by {
        if i < j {
            assert(s[i] < s[j]);
        } else {
            assert(s[j] < s[i]);
        }
    }
}

proof fn lemma_sorted_distinct(tree: Seq<Element>, f: SortField, o: SortOrder, s: Seq<usize>)
    requires
        sorted_by(tree, f, o, s),
    ensures
        s.no_duplicates(),
{
    lemma_precedes_order(tree, f);
    assert forall|i: int, j: int| 0 <= i < s.len() && 0 <= j < s.len() && i != j implies s[i] != s[j] by {
        if i < j {
            assert(ordered_before(tree, f, o, s[i] as int, s[j] as int));
        } else {
            assert(ordered_before(tree, f, o, s[j] as int, s[i] as int));
        }
    }
}

fn same_field(a: Option<SortField>, b: Option<SortField>) -> (r: bool)
    ensures
        r == (a == b),
{
    match (a, b) {
        (None, None) => true,
        (Some(x), Some(y)) => x == y,
        _ => false,
    }
}

fn same_order(a: Option<SortOrder>, b: Option<SortOrder>) -> (r: bool)
    ensures
        r == (a == b),
{
    match (a, b) {
        (None, None) => true,
        (Some(x), Some(y)) => x == y,
        _ => false,
    }
}

/// Computes the result list of a request from scratch.
fn find_matches(
    tree: &FileTree,
    bigram_index: &BigramIndex,
    sorter: &mut Sorter,
    lowered: &str,
    sort_by: Option<SortField>,
    sort_order: Option<SortOrder>,
) -> (r: Vec<usize>)
    requires
        bigram_index.wf(),
        bigram_index.names() == lowered_names(tree@),
        old(sorter).ready_for(tree@),
    ensures
        final(sorter).ready_for(tree@),
        is_search_result(tree@, lowered@, sort_by, sort_order, r@),
{
    let q = chars_of(lowered);
    let ghost names = lowered_names(tree@);
    let mut indices = if q.len() == 1 {
        bigram_index.query_char(q[0])
    } else {
        bigram_index.query_lowered(&q)
    };
    proof {
        assert forall|e: usize| #[trigger] indices@.contains(e) <==> (e < tree@.len() && (if q@.len() == 1 {
            names[e as int].contains(q@[0])
        } else {
            has_all_pairs(names[e as int], q@)
        })) by {}
    }
    if q.len() >= 3 {
        proof {
            assert forall|p: int| 0 <= p < indices@.len() implies #[trigger] indices@[p] < tree@.len() by {
                assert(indices@.contains(indices@[p]));
            }
        }
        let ghost before = indices@;
        post_filter(tree, &mut indices, lowered);
        proof {
            if literal_pattern_builds(lowered@) {
                lemma_filter_ascending(before, |id: usize| name_matches(tree@, lowered@, id));
            }
        }
    }
    proof {
        lemma_increasing_distinct(indices@);
        assert forall|e: usize| #[trigger] indices@.contains(e) <==> is_candidate(tree@, lowered@, e) by {}
    }
    match sort_by {
        Some(field) => {
            let order = sort_order.unwrap_or(SortOrder::Ascending);
            proof {
                assert forall|i: int| 0 <= i < indices@.len() implies #[trigger] indices@[i] < tree@.len() by {
                    assert(indices@.contains(indices@[i]));
                }
            }
            let ghost before = indices@;
            sorter.sort_by(tree, indices.as_mut_slice(), field, order);
            proof {
                lemma_sorted_distinct(tree@, field, order, indices@);
                assert forall|e: usize| #[trigger] indices@.contains(e) <==> is_candidate(tree@, lowered@, e) by {
                    assert(indices@.contains(e) <==> before.contains(e));
                }
            }
        },
        None => {},
    }
    indices
}

/// Serves a request whose query is already lowercased: reuses the
/// remembered list when the slot holds the same (query, field, order),
/// otherwise computes the list and replaces the slot with it; then returns
/// the page at `offset` (0 when absent).
pub fn search_lowered(
    tree: &FileTree,
    bigram_index: &BigramIndex,
    sorter: &mut Sorter,
    last_search_cache: &mut LastSearchCache,
    lowered: String,
    offset: Option<usize>,
    sort_by: Option<SortField>,
    sort_order: Option<SortOrder>,
) -> (r: SearchResult)
    requires
        arena_wf(tree@),
        bigram_index.wf(),
        bigram_index.names() == lowered_names(tree@),
        old(sorter).ready_for(tree@),
        memo_valid(tree@, *old(last_search_cache)),
    ensures
        final(sorter).ready_for(tree@),
        memo_valid(tree@, *final(last_search_cache)),
        memo_holds(*final(last_search_cache), lowered@, sort_by, sort_order),
        memo_holds(*old(last_search_cache), lowered@, sort_by, sort_order) ==> *final(last_search_cache) == *old(
            last_search_cache,
        ),
        page_served(tree@, lowered@, sort_by, sort_order, offset, *final(last_search_cache), r),
{
    let hit = match &last_search_cache.search {
        Some(c) => c.query == lowered && same_field(c.sort_by, sort_by) && same_order(c.sort_order, sort_order),
        None => false,
    };
    if !hit {
        let indices = find_matches(tree, bigram_index, sorter, lowered.as_str(), sort_by, sort_order);
        last_search_cache.search = Some(SearchCache { query: lowered, indices, sort_by, sort_order });
    }
    let cache = last_search_cache.search.as_ref().unwrap();
    let list = &cache.indices;
    let offset = offset.unwrap_or(0);
    let len = list.len();
    let start = if offset < len { offset } else { len };
    let end = if len - start > PAGE_SIZE { start + PAGE_SIZE } else { len };
    let ghost page = list@.subrange(start as int, end as int);
    assert(page == page_of(list@, offset as int));
    let mut results: Vec<FileResult> = Vec::new();
    let mut i = start;
    while i < end
        invariant
            arena_wf(tree@),
            is_search_result(tree@, cache.query@, cache.sort_by, cache.sort_order, list@),
            start <= i <= end <= list@.len(),
            page == list@.subrange(start as int, end as int),
            results@.len() == i - start,
            forall|k: int| 0 <= k < i - start ==> #[trigger] projects(tree@, page[k], results@[k]),
        decreases end - i,
    {
        let id = list[i];
        assert(list@.contains(id));
        match tree.get(id) {
            Some(element) => {
                let path = tree.get_full_path(id);
                results.push(FileResult::from_element(element, path));
            },
            None => {},
        }
        i += 1;
    }
    SearchResult { results, total: len, offset, page_size: PAGE_SIZE }
}

/// Serves a request: lowercases the query and goes on as `search_lowered`.
pub fn search(
    tree: &FileTree,
    bigram_index: &BigramIndex,
    sorter: &mut Sorter,
    last_search_cache: &mut LastSearchCache,
    query: &str,
    offset: Option<usize>,
    sort_by: Option<SortField>,
    sort_order: Option<SortOrder>,
) -> (r: SearchResult)
    requires
        arena_wf(tree@),
        bigram_index.wf(),
        bigram_index.names() == lowered_names(tree@),
        old(sorter).ready_for(tree@),
        memo_valid(tree@, *old(last_search_cache)),
    ensures
        final(sorter).ready_for(tree@),
        memo_valid(tree@, *final(last_search_cache)),
        memo_holds(*final(last_search_cache), lower_of(query@), sort_by, sort_order),
        memo_holds(*old(last_search_cache), lower_of(query@), sort_by, sort_order) ==> *final(last_search_cache)
            == *old(last_search_cache),
        page_served(tree@, lower_of(query@), sort_by, sort_order, offset, *final(last_search_cache), r),
{
    let lowered = lowercase(query);
    let ghost q = lowered@;
    let r = search_lowered(tree, bigram_index, sorter, last_search_cache, lowered, offset, sort_by, sort_order);
    assert(q == lower_of(query@));
    r
}


/// For a query of three or more characters whose pattern compiles and
/// matches a name exactly when the lowercased name contains the query (as
/// it does on ASCII text), the candidates, and so the result list, are
/// exactly the entries whose lowercased name contains the query.
pub proof fn lemma_post_filter_exact(tree: Seq<Element>, q: Seq<char>)
    requires
        q.len() >= 3,
        literal_pattern_builds(q),
        forall|e: usize| e < tree.len() ==> (#[trigger] name_matches(tree, q, e) <==> contains_substring(
            lowered_names(tree)[e as int],
            q,
        )),
    ensures
        forall|e: usize| #[trigger] is_candidate(tree, q, e) <==> (e < tree.len() && contains_substring(
            lowered_names(tree)[e as int],
            q,
        )),
{
    assert forall|e: usize| #[trigger] is_candidate(tree, q, e) <==> (e < tree.len() && contains_substring(
        lowered_names(tree)[e as int],
        q,
    )) by {
        if e < tree.len() && contains_substring(lowered_names(tree)[e as int], q) {
            lemma_bigram_superset(lowered_names(tree)[e as int], q);
            assert(name_matches(tree, q, e));
        }
    }
}

/// Two result lists of the same request are identical: a repeated request
/// gets the same list, whether it is served from the memo slot or computed
/// again.
pub proof fn lemma_memo_consistent(
    tree: Seq<Element>,
    q: Seq<char>,
    field: Option<SortField>,
    order: Option<SortOrder>,
    l1: Seq<usize>,
    l2: Seq<usize>,
)
    requires
        is_search_result(tree, q, field, order, l1),
        is_search_result(tree, q, field, order, l2),
    ensures
        l1 == l2,
{
    assert forall|x: usize| #[trigger] l1.contains(x) <==> l2.contains(x) by {
        assert(l1.contains(x) <==> is_candidate(tree, q, x));
    }
    match field {
        None => {
            let lt = |a: usize, b: usize| a < b;
            assert forall|i: int, j: int| 0 <= i < j < l1.len() implies #[trigger] lt(l1[i], l1[j]) by {
                assert(l1[i] < l1[j]);
            }
            assert forall|i: int, j: int| 0 <= i < j < l2.len() implies #[trigger] lt(l2[i], l2[j]) by {
                assert(l2[i] < l2[j]);
            }
            lemma_unique_arrangement(lt, l1, l2);
        },
        Some(f) => {
            lemma_sort_idempotent(tree, f, order.unwrap_or(SortOrder::Ascending), l1, l2);
        },
    }
}

/// The pages of `list` from `offset` on, one after another.
pub open spec fn pages_from(list: Seq<usize>, offset: int) -> Seq<usize>
    decreases list.len() - offset,
{
    if 0 <= offset < list.len() {
        if offset + PAGE_SIZE < list.len() {
            page_of(list, offset) + pages_from(list, offset + PAGE_SIZE)
        } else {
            page_of(list, offset)
        }
    } else {
        Seq::empty()
    }
}

/// The pages at offsets `0, PAGE_SIZE, 2 * PAGE_SIZE, ...` put together are
/// the whole result list.
pub proof fn lemma_paging_consistent(list: Seq<usize>)
    ensures
        pages_from(list, 0) == list,
{
    lemma_pages_suffix(list, 0);
    assert(list.subrange(0, list.len() as int) =~= list);
}

proof fn lemma_pages_suffix(list: Seq<usize>, offset: int)
    requires
        0 <= offset <= list.len(),
    ensures
        pages_from(list, offset) == list.subrange(offset, list.len() as int),
    decreases list.len() - offset,
{
    if offset < list.len() {
        let next = offset + PAGE_SIZE;
        if next < list.len() {
            lemma_pages_suffix(list, next);
            assert(list.subrange(offset, next) + list.subrange(next, list.len() as int) =~= list.subrange(
                offset,
                list.len() as int,
            ));
        } else {
            assert(page_of(list, offset) =~= list.subrange(offset, list.len() as int));
        }
    } else {
        assert(list.subrange(offset, list.len() as int) =~= Seq::<usize>::empty());
    }
}


/// The sort field a request names: `filename`, `date_modified`,
/// `date_created` or `size`; anything else names none.
pub open spec fn sort_field_named(s: Seq<char>) -> Option<SortField> {
    if s == "filename"@ {
        Some(SortField::Filename)
    } else if s == "date_modified"@ {
        Some(SortField::DateModified)
    } else if s == "date_created"@ {
        Some(SortField::DateCreated)
    } else if s == "size"@ {
        Some(SortField::Size)
    } else {
        None
    }
}

/// The sort order a request names: `ascending` or `descending`; anything
/// else names none.
pub open spec fn sort_order_named(s: Seq<char>) -> Option<SortOrder> {
    if s == "ascending"@ {
        Some(SortOrder::Ascending)
    } else if s == "descending"@ {
        Some(SortOrder::Descending)
    } else {
        None
    }
}

/// Reads the sort field of a request; unknown or absent names give none.
pub fn parse_sort_field(name: Option<&str>) -> (r: Option<SortField>)
    ensures
        r == match name {
            Some(s) => sort_field_named(s@),
            None => None,
        },
{
    match name {
        None => None,
        Some(s) => {
            let given = String::from_str(s);
            if given == String::from_str("filename") {
                Some(SortField::Filename)
            } else if given == String::from_str("date_modified") {
                Some(SortField::DateModified)
            } else if given == String::from_str("date_created") {
                Some(SortField::DateCreated)
            } else if given == String::from_str("size") {
                Some(SortField::Size)
            } else {
                None
            }
        },
    }
}

/// Reads the sort order of a request; unknown or absent names give none.
pub fn parse_sort_order(name: Option<&str>) -> (r: Option<SortOrder>)
    ensures
        r == match name {
            Some(s) => sort_order_named(s@),
            None => None,
        },
{
    match name {
        None => None,
        Some(s) => {
            let given = String::from_str(s);
            if given == String::from_str("ascending") {
                Some(SortOrder::Ascending)
            } else if given == String::from_str("descending") {
                Some(SortOrder::Descending)
            } else {
                None
            }
        },
    }
}

/// Two pages served for the same request and offset from the same list
/// hold the same records: same names, paths and metadata, in the same order.
pub proof fn lemma_pages_agree(
    tree: Seq<Element>,
    q: Seq<char>,
    field: Option<SortField>,
    order: Option<SortOrder>,
    offset: Option<usize>,
    c1: LastSearchCache,
    c2: LastSearchCache,
    r1: SearchResult,
    r2: SearchResult,
)
    requires
        page_served(tree, q, field, order, offset, c1, r1),
        page_served(tree, q, field, order, offset, c2, r2),
    ensures
        r1.total == r2.total,
        r1.results@.len() == r2.results@.len(),
        forall|i: int| 0 <= i < r1.results@.len() ==> {
            &&& #[trigger] r1.results@[i].name@ == r2.results@[i].name@
            &&& r1.results@[i].path@ == r2.results@[i].path@
            &&& r1.results@[i].size == r2.results@[i].size
            &&& r1.results@[i].date_modified == r2.results@[i].date_modified
            &&& r1.results@[i].date_created == r2.results@[i].date_created
            &&& r1.results@[i].attributes == r2.results@[i].attributes
        },
{
    lemma_memo_consistent(tree, q, field, order, c1.search->0.indices@, c2.search->0.indices@);
    assert forall|i: int| 0 <= i < r1.results@.len() implies {
        &&& #[trigger] r1.results@[i].name@ == r2.results@[i].name@
        &&& r1.results@[i].path@ == r2.results@[i].path@
        &&& r1.results@[i].size == r2.results@[i].size
        &&& r1.results@[i].date_modified == r2.results@[i].date_modified
        &&& r1.results@[i].date_created == r2.results@[i].date_created
        &&& r1.results@[i].attributes == r2.results@[i].attributes
    } by {
        assert(projects(tree, page_of(c1.search->0.indices@, offset.unwrap_or(0) as int)[i], r1.results@[i]));
        assert(projects(tree, page_of(c2.search->0.indices@, offset.unwrap_or(0) as int)[i], r2.results@[i]));
    }
}

} // verus!
