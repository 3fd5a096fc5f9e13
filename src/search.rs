//! Answering a query over a corpus: which cards match, the window of them
//! on one result page, and the query restated in words.
use vstd::prelude::*;
use crate::filter::{all_accept, clause_holds, matching, matching_ids, SearchCard};
use crate::parser::{all_supported, compiled_from, parse_filters, parse_query, plan, query_error, query_text, readable_query, ClauseModel};

verus! {

/// Results shown on one page.
pub const PAGE_SIZE: usize = 120;

/// Whether a card satisfies every clause.
pub open spec fn satisfies_all(cs: Seq<ClauseModel>, card: SearchCard) -> bool {
    forall|i: int| 0 <= i < cs.len() ==> clause_holds(#[trigger] cs[i], card)
}

/// The ids of the cards that satisfy every clause, in corpus order.
pub open spec fn selected(cs: Seq<ClauseModel>, cards: Seq<SearchCard>) -> Seq<usize> {
    cards.filter(|c: SearchCard| satisfies_all(cs, c)).map_values(|c: SearchCard| c.id)
}

/// The items of page `page` when pages hold `size` items each.
pub open spec fn window(s: Seq<usize>, page: nat, size: nat) -> Seq<usize> {
    if page * size >= s.len() {
        Seq::empty()
    } else if s.len() - page * size < size {
        s.skip((page * size) as int)
    } else {
        s.subrange((page * size) as int, (page * size + size) as int)
    }
}

/// Filters compiled from a query select the cards that satisfy its
/// clauses.
pub proof fn lemma_compiled_selects(
    s: Seq<char>,
    raw: Seq<crate::parser::RawCardFilter>,
    filters: Seq<crate::filter::CardFilter>,
    cards: Seq<SearchCard>,
)
    requires
        compiled_from(s, raw, filters),
    ensures
        matching(filters, cards) == selected(plan(parse_query(s)->0), cards),
{
    let cs = plan(parse_query(s)->0);
    assert(crate::parser::models(raw).len() == raw.len());
    assert forall|card: SearchCard| all_accept(filters, card) == satisfies_all(cs, card) by {
        if all_accept(filters, card) {
            assert forall|i: int| 0 <= i < cs.len() implies clause_holds(#[trigger] cs[i], card) by {
                assert(filters[i].accepts(card));
            }
        }
        if satisfies_all(cs, card) {
            assert forall|i: int| 0 <= i < filters.len() implies #[trigger] filters[i].accepts(card) by {
                assert(clause_holds(cs[i], card));
            }
        }
    }
    let p1 = |c: SearchCard| all_accept(filters, c);
    let p2 = |c: SearchCard| satisfies_all(cs, c);
    assert(p1 =~= p2);
}

/// The ids on page `page` of `ids`.
pub fn page_window(ids: &Vec<usize>, page: usize, size: usize) -> (r: Vec<usize>)
    ensures
        r@ == window(ids@, page as nat, size as nat),
{
    let n = ids.len();
    if size == 0 || page > n / size {
        proof {
            if size > 0 {
                assert((page as int) * (size as int) >= n) by (nonlinear_arith)
                    requires
                        page > n / size,
                        size > 0,
                ;
            }
        }
        return Vec::new();
    }
    proof {
        assert((page as int) * (size as int) <= n) by (nonlinear_arith)
            requires
                page <= n / size,
                size > 0,
        ;
    }
    let start = page * size;
    let end = if n - start < size { n } else { start + size };
    let mut out: Vec<usize> = Vec::new();
    let mut i = start;
    while i < end
        invariant
            start <= i <= end <= n,
            n == ids@.len(),
            out@ == ids@.subrange(start as int, i as int),
        decreases end - i,
    {
        out.push(ids[i]);
        proof {
            assert(out@ =~= ids@.subrange(start as int, i + 1));
        }
        i = i + 1;
    }
    proof {
        if start >= n {
            assert(out@ =~= Seq::<usize>::empty());
        } else if n - start < size {
            assert(out@ =~= ids@.skip(start as int));
        }
    }
    out
}

/// One page of answers to a query.
pub struct SearchResults {
    /// The query restated in words.
    pub description: String,
    /// The ids on the requested page, in corpus order.
    pub ids: Vec<usize>,
    /// Whether an earlier page exists.
    pub has_prev: bool,
    /// Whether the page is full, so that a later one may exist.
    pub has_next: bool,
}

/// Parses and compiles `raw_query`, scans `cards`, and returns page `page`
/// of the matches with the restated query; or the parse or compile error.
pub fn compute_results(raw_query: &str, page: usize, cards: &Vec<SearchCard>) -> (r: Result<SearchResults, String>)
    ensures
        r is Ok <==> (parse_query(raw_query@) matches Some(cs) && all_supported(plan(cs))),
        r matches Err(e) ==> e@ == query_error(raw_query@),
        r matches Ok(res) ==> ({
            let cs = plan(parse_query(raw_query@)->0);
            &&& res.description@ == query_text(cs)
            &&& res.ids@ == window(selected(cs, cards@), page as nat, PAGE_SIZE as nat)
            &&& res.has_prev == (page > 0)
            &&& res.has_next == (res.ids@.len() == PAGE_SIZE)
        }),
{
    match parse_filters(raw_query) {
        Err(e) => Err(e),
        Ok((raw, filters)) => {
            let all = matching_ids(&filters, cards);
            proof {
                lemma_compiled_selects(raw_query@, raw@, filters@, cards@);
            }
            let ids = page_window(&all, page, PAGE_SIZE);
            let has_next = ids.len() == PAGE_SIZE;
            Ok(SearchResults { description: readable_query(&raw), ids, has_prev: page > 0, has_next })
        },
    }
}

} // verus!
