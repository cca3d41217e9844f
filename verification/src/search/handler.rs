//! The search: from what is asked to a ranked answer.
use crate::ieee::{double_is_nan, double_less, double_rank, is_double_less};
use crate::search::engine::{
    best_hits, boolean_query, first_number, first_text, first_value, gives_back, hit_views,
    index_docs, index_fields, is_one_of, is_stored, listed_clauses, no_clauses, number_value,
    open_reader, push_exact, push_near, query_clauses, reader_docs, reader_fields, search,
    stored_part, text_value, Clause, DocValue, Hit, HitModel,
};
use crate::search::indexer::{
    holds_all, holds_only, law_index_holds_places, place_values, search_fields, DocModel,
    SearchSchema,
};
use crate::search::tokenizer::{normalize_turkish, normalized};
use crate::text::{
    byte_len, has_part, is_white, law_words_ignore_outer_whitespace, lemma_trimmed_is_empty,
    lower_text, split_words, str_contains, string_views, trimmed, words,
};
use std::sync::Arc;
use tantivy::query::BooleanQuery;
use tantivy::{IndexReader, TantivyError};
use vstd::multiset::Multiset;
use vstd::prelude::*;

verus! {

// --- The query ---

/// The words of a query, as searches compare them.
pub open spec fn tokens_of(q: Seq<char>) -> Seq<Seq<char>> {
    words(q).map_values(|w: Seq<char>| normalized(lower_text(w)))
}

/// Splits a query into its words, as searches compare them.
pub fn query_tokens(q: &str) -> (r: Vec<String>)
    ensures
        string_views(r@) == tokens_of(q@),
{
    let parts = split_words(q);
    let mut tokens: Vec<String> = Vec::new();
    let mut i: usize = 0;
    while i < parts.len()
        invariant
            string_views(parts@) == words(q@),
            i <= parts@.len(),
            tokens@.len() == i,
            forall|j: int|
                0 <= j < i ==> (#[trigger] tokens@[j])@ == normalized(lower_text(parts@[j]@)),
        decreases parts@.len() - i,
    {
        let lower = parts[i].as_str().to_lowercase();
        tokens.push(normalize_turkish(lower.as_str()));
        i = i + 1;
    }
    proof {
        assert forall|j: int| 0 <= j < words(q@).len() implies #[trigger] words(q@)[j]
            == parts@[j]@ by {
            assert(string_views(parts@)[j] == parts@[j]@);
        }
        assert(string_views(tokens@) =~= tokens_of(q@));
    }
    tokens
}

/// The clauses for a word: it may be a word of the name, or, with at least four
/// bytes, one edit away from one, or a word of the context.
pub open spec fn token_clauses(ss: SearchSchema, token: Seq<char>) -> Seq<Clause> {
    let exact = seq![Clause::Exact { field: ss.f_name_norm, text: token }];
    let near = if byte_len(token) >= 4 {
        seq![
            Clause::Near { field: ss.f_name_norm, text: token, distance: 1, transpositions: true },
        ]
    } else {
        seq![]
    };
    exact + near + seq![Clause::Exact { field: ss.f_context, text: token }]
}

/// The clauses for some words.
pub open spec fn clauses_for(ss: SearchSchema, tokens: Seq<Seq<char>>) -> Seq<Clause>
    decreases tokens.len(),
{
    if tokens.len() == 0 {
        seq![]
    } else {
        clauses_for(ss, tokens.drop_last()) + token_clauses(ss, tokens.last())
    }
}

/// Builds the query for a text: a document has to match at least one clause.
pub fn build_query(ss: &SearchSchema, q: &str) -> (r: BooleanQuery)
    ensures
        query_clauses(r) == clauses_for(*ss, tokens_of(q@)),
{
    let tokens = query_tokens(q);
    let ghost all = tokens_of(q@);
    let mut list = no_clauses();
    let mut i: usize = 0;
    while i < tokens.len()
        invariant
            all == string_views(tokens@),
            i <= tokens@.len(),
            listed_clauses(list) == clauses_for(*ss, all.take(i as int)),
        decreases tokens@.len() - i,
    {
        let token = tokens[i].as_str();
        let ghost before = listed_clauses(list);
        push_exact(&mut list, ss.f_name_norm, token);
        if token.len() >= 4 {
            push_near(&mut list, ss.f_name_norm, token, 1, true);
        }
        push_exact(&mut list, ss.f_context, token);
        proof {
            assert(all[i as int] == token@);
            assert(all.take(i + 1).drop_last() =~= all.take(i as int));
            assert(listed_clauses(list) =~= before + token_clauses(*ss, token@));
        }
        i = i + 1;
    }
    assert(all.take(i as int) =~= all);
    boolean_query(list)
}

proof fn lemma_clause_fields(ss: SearchSchema, tokens: Seq<Seq<char>>, n: int)
    requires
        ss.f_name_norm < n,
        ss.f_context < n,
    ensures
        forall|i: int|
            0 <= i < clauses_for(ss, tokens).len() ==> (#[trigger] clauses_for(
                ss,
                tokens,
            )[i]).field() < n,
    decreases tokens.len(),
{
    if tokens.len() > 0 {
        lemma_clause_fields(ss, tokens.drop_last(), n);
        let before = clauses_for(ss, tokens.drop_last());
        let more = token_clauses(ss, tokens.last());
        assert forall|i: int| 0 <= i < clauses_for(ss, tokens).len() implies (
        #[trigger] clauses_for(ss, tokens)[i]).field() < n by {
            if i < before.len() {
                assert(clauses_for(ss, tokens)[i] == before[i]);
            } else {
                assert(clauses_for(ss, tokens)[i] == more[i - before.len()]);
            }
        }
    }
}

// --- Candidates ---

/// A place in an answer.
pub struct SearchResult {
    pub display_name: String,
    /// The double-precision pattern of the latitude.
    pub lat: u64,
    /// The double-precision pattern of the longitude.
    pub lon: u64,
    pub kind: String,
}

/// A place in an answer, as characters.
#[verifier::ext_equal]
pub struct ResultModel {
    pub display_name: Seq<char>,
    pub lat: u64,
    pub lon: u64,
    pub kind: Seq<char>,
}

impl View for SearchResult {
    type V = ResultModel;

    open spec fn view(&self) -> ResultModel {
        ResultModel {
            display_name: self.display_name@,
            lat: self.lat,
            lon: self.lon,
            kind: self.kind@,
        }
    }
}

/// The places of an answer, as characters.
pub open spec fn result_views(results: Seq<SearchResult>) -> Seq<ResultModel> {
    results.map_values(|r: SearchResult| r@)
}

/// How many of the first `k` words, of at least four bytes, stand in a text.
pub open spec fn matches_in(text: Seq<char>, tokens: Seq<Seq<char>>, k: int) -> nat
    decreases k,
{
    if k <= 0 {
        0
    } else {
        matches_in(text, tokens, k - 1) + if byte_len(tokens[k - 1]) >= 4 && has_part(
            text,
            tokens[k - 1],
        ) {
            1nat
        } else {
            0nat
        }
    }
}

/// Whether all words of at least three bytes stand in a text, and there is one.
pub open spec fn all_match(text: Seq<char>, tokens: Seq<Seq<char>>) -> bool {
    &&& exists|i: int| 0 <= i < tokens.len() && byte_len(#[trigger] tokens[i]) >= 3
    &&& forall|i: int|
        0 <= i < tokens.len() && byte_len(#[trigger] tokens[i]) >= 3 ==> has_part(text, tokens[i])
}

/// How much what is shown of a place fits the words: one, and one for each
/// longer word that stands in it, and three if all words stand in it.
pub open spec fn context_boost(display: Seq<char>, tokens: Seq<Seq<char>>) -> nat {
    let text = normalized(lower_text(display));
    1 + matches_in(text, tokens, tokens.len() as int) + if all_match(text, tokens) {
        3nat
    } else {
        0nat
    }
}

/// Finds how much what is shown of a place fits the words.
pub fn find_boost(display: &str, tokens: &Vec<String>) -> (r: u128)
    ensures
        r == context_boost(display@, string_views(tokens@)),
{
    let ghost all = string_views(tokens@);
    let lower = display.to_lowercase();
    let text = normalize_turkish(lower.as_str());
    let mut matches: u128 = 0;
    let mut meaningful: bool = false;
    let mut missing: bool = false;
    let mut i: usize = 0;
    while i < tokens.len()
        invariant
            all == string_views(tokens@),
            text@ == normalized(lower_text(display@)),
            i <= tokens@.len(),
            matches == matches_in(text@, all, i as int),
            matches <= i,
            meaningful == exists|j: int| 0 <= j < i && byte_len(#[trigger] all[j]) >= 3,
            missing == exists|j: int|
                0 <= j < i && byte_len(#[trigger] all[j]) >= 3 && !has_part(text@, all[j]),
        decreases tokens@.len() - i,
    {
        let token = tokens[i].as_str();
        assert(all[i as int] == token@);
        let found: bool = str_contains(text.as_str(), token);
        if token.len() >= 4 && found {
            matches = matches + 1;
        }
        if token.len() >= 3 {
            meaningful = true;
            if !found {
                missing = true;
            }
        }
        i = i + 1;
    }
    assert((meaningful && !missing) == all_match(text@, all));
    1 + matches + if meaningful && !missing {
        3
    } else {
        0
    }
}

/// A document that can stand in the answer.
pub struct Candidate {
    pub score: u32,
    pub importance: u64,
    pub boost: nat,
    pub result: ResultModel,
}

/// The double-precision pattern of one: the weight of a document that has none.
pub const PLAIN_IMPORTANCE: u64 = 0x3FF0_0000_0000_0000;

/// A found document as a candidate, where its stored values could be read and
/// have what is shown, the coordinates and the kind.
pub open spec fn candidate_of(
    ss: SearchSchema,
    tokens: Seq<Seq<char>>,
    hit: HitModel,
) -> Option<Candidate> {
    match hit.values {
        None => None,
        Some(values) => match (
            text_value(values, ss.f_display),
            number_value(values, ss.f_lat),
            number_value(values, ss.f_lon),
            text_value(values, ss.f_kind),
        ) {
            (Some(display), Some(lat), Some(lon), Some(kind)) => Some(
                Candidate {
                    score: hit.score,
                    importance: match number_value(values, ss.f_importance) {
                        Some(n) => n,
                        None => PLAIN_IMPORTANCE,
                    },
                    boost: context_boost(display, tokens),
                    result: ResultModel { display_name: display, lat, lon, kind },
                },
            ),
            _ => None,
        },
    }
}

/// The candidates among the first `k` found documents.
pub open spec fn candidates_of(
    ss: SearchSchema,
    tokens: Seq<Seq<char>>,
    hits: Seq<HitModel>,
    k: int,
) -> Seq<Candidate>
    decreases k,
{
    if k <= 0 {
        seq![]
    } else {
        match candidate_of(ss, tokens, hits[k - 1]) {
            Some(c) => candidates_of(ss, tokens, hits, k - 1).push(c),
            None => candidates_of(ss, tokens, hits, k - 1),
        }
    }
}

// --- Ranking ---

/// A place with its weight.
pub struct Scored {
    /// The double-precision pattern of the weight.
    pub weight: u64,
    pub result: SearchResult,
}

/// A place with its weight, as characters.
#[verifier::ext_equal]
pub struct ScoredModel {
    pub weight: u64,
    pub result: ResultModel,
}

impl View for Scored {
    type V = ScoredModel;

    open spec fn view(&self) -> ScoredModel {
        ScoredModel { weight: self.weight, result: self.result@ }
    }
}

/// The places of a list with their weights.
pub open spec fn scored_views(list: Seq<Scored>) -> Seq<ScoredModel> {
    list.map_values(|s: Scored| s@)
}

/// The first place from `i` on that weighs less than `weight`, or the end.
pub open spec fn rank_from(list: Seq<ScoredModel>, weight: u64, i: int) -> int
    decreases list.len() - i,
{
    if i >= list.len() {
        list.len() as int
    } else if double_less(list[i].weight, weight) {
        i
    } else {
        rank_from(list, weight, i + 1)
    }
}

/// The places by falling weight; those that weigh the same stay in order.
pub open spec fn ranked(items: Seq<ScoredModel>) -> Seq<ScoredModel>
    decreases items.len(),
{
    if items.len() == 0 {
        seq![]
    } else {
        let before = ranked(items.drop_last());
        before.insert(rank_from(before, items.last().weight, 0), items.last())
    }
}

fn insert_ranked(list: &mut Vec<Scored>, item: Scored)
    ensures
        scored_views(final(list)@) == scored_views(old(list)@).insert(
            rank_from(scored_views(old(list)@), item.weight, 0),
            item@,
        ),
{
    let ghost models = scored_views(list@);
    let mut i: usize = 0;
    while i < list.len() && !is_double_less(list[i].weight, item.weight)
        invariant
            models == scored_views(list@),
            list@ == old(list)@,
            i <= list@.len(),
            rank_from(models, item.weight, i as int) == rank_from(models, item.weight, 0),
        decreases list@.len() - i,
    {
        assert(models[i as int].weight == list@[i as int].weight);
        i = i + 1;
    }
    proof {
        if i < list@.len() {
            assert(models[i as int].weight == list@[i as int].weight);
        }
        assert(rank_from(models, item.weight, i as int) == i);
    }
    list.insert(i, item);
    assert(scored_views(list@) =~= models.insert(i as int, item@));
}

/// Whether the weights fall.
pub open spec fn is_falling(list: Seq<ScoredModel>) -> bool {
    forall|i: int, j: int|
        0 <= i < j < list.len() ==> !double_less(
            (#[trigger] list[i]).weight,
            (#[trigger] list[j]).weight,
        )
}

/// Whether all weights are numbers.
pub open spec fn has_weights(list: Seq<ScoredModel>) -> bool {
    forall|i: int| 0 <= i < list.len() ==> !double_is_nan((#[trigger] list[i]).weight)
}

/// The places of a list that weigh as much as `weight`.
pub open spec fn weighing(list: Seq<ScoredModel>, weight: u64) -> Seq<ScoredModel> {
    list.filter(|s: ScoredModel| double_rank(s.weight) == double_rank(weight))
}

proof fn lemma_rank_from(list: Seq<ScoredModel>, weight: u64, i: int)
    requires
        0 <= i <= list.len(),
    ensures
        i <= rank_from(list, weight, i) <= list.len(),
        forall|j: int|
            i <= j < rank_from(list, weight, i) ==> !double_less(
                (#[trigger] list[j]).weight,
                weight,
            ),
        rank_from(list, weight, i) < list.len() ==> double_less(
            list[rank_from(list, weight, i)].weight,
            weight,
        ),
    decreases list.len() - i,
{
    if i < list.len() && !double_less(list[i].weight, weight) {
        lemma_rank_from(list, weight, i + 1);
    }
}

proof fn lemma_weighing_none(list: Seq<ScoredModel>, weight: u64)
    requires
        forall|i: int|
            0 <= i < list.len() ==> double_rank((#[trigger] list[i]).weight) != double_rank(weight),
    ensures
        weighing(list, weight) == Seq::<ScoredModel>::empty(),
    decreases list.len(),
{
    reveal(Seq::filter);
    if list.len() > 0 {
        assert(list.last() == list[list.len() - 1]);
        assert forall|i: int| 0 <= i < list.drop_last().len() implies double_rank(
            (#[trigger] list.drop_last()[i]).weight,
        ) != double_rank(weight) by {
            assert(list.drop_last()[i] == list[i]);
        }
        lemma_weighing_none(list.drop_last(), weight);
    }
}

proof fn lemma_weighing_insert(list: Seq<ScoredModel>, item: ScoredModel, weight: u64)
    requires
        is_falling(list),
        has_weights(list),
        !double_is_nan(item.weight),
    ensures
        weighing(list.insert(rank_from(list, item.weight, 0), item), weight) == weighing(
            list.push(item),
            weight,
        ),
{
    lemma_rank_from(list, item.weight, 0);
    let p = rank_from(list, item.weight, 0);
    let pred = |s: ScoredModel| double_rank(s.weight) == double_rank(weight);
    let front = list.take(p);
    let back = list.skip(p);
    let one = seq![item];
    assert(list.insert(p, item) =~= (front + one) + back);
    assert(list.push(item) =~= (front + back) + one);
    assert(list =~= front + back);
    Seq::filter_distributes_over_add(front + one, back, pred);
    Seq::filter_distributes_over_add(front, one, pred);
    Seq::filter_distributes_over_add(front + back, one, pred);
    Seq::filter_distributes_over_add(front, back, pred);
    if pred(item) {
        assert forall|i: int| 0 <= i < back.len() implies double_rank((#[trigger] back[i]).weight)
            != double_rank(weight) by {
            assert(back[i] == list[p + i]);
            assert(list[p + i].weight == list[p + i].weight && !double_is_nan(list[p + i].weight));
            if i > 0 {
                assert(!double_less(list[p].weight, list[p + i].weight));
            }
        }
        lemma_weighing_none(back, weight);
        assert(back.filter(pred) =~= seq![]);
        assert(front.filter(pred) + one.filter(pred) + back.filter(pred) =~= front.filter(pred)
            + back.filter(pred) + one.filter(pred));
    } else {
        assert forall|i: int| 0 <= i < one.len() implies double_rank((#[trigger] one[i]).weight)
            != double_rank(weight) by {
            assert(one[i] == item);
        }
        lemma_weighing_none(one, weight);
        assert(one.filter(pred) =~= seq![]);
        assert(front.filter(pred) + one.filter(pred) + back.filter(pred) =~= front.filter(pred)
            + back.filter(pred) + one.filter(pred));
    }
}

/// Ranking keeps the places, orders them by falling weight, and leaves those
/// that weigh the same in order. This needs weights that are numbers.
pub proof fn law_ranking_sorts(items: Seq<ScoredModel>)
    requires
        has_weights(items),
    ensures
        ranked(items).to_multiset() == items.to_multiset(),
        has_weights(ranked(items)),
        is_falling(ranked(items)),
        forall|weight: u64| #[trigger] weighing(ranked(items), weight) == weighing(items, weight),
    decreases items.len(),
{
    broadcast use vstd::seq_lib::group_to_multiset_ensures;

    if items.len() > 0 {
        let init = items.drop_last();
        let last = items.last();
        assert(last == items[items.len() - 1]);
        assert forall|i: int| 0 <= i < init.len() implies !double_is_nan(
            (#[trigger] init[i]).weight,
        ) by {
            assert(init[i] == items[i]);
        }
        law_ranking_sorts(init);
        let before = ranked(init);
        lemma_rank_from(before, last.weight, 0);
        let p = rank_from(before, last.weight, 0);
        let after = before.insert(p, last);
        assert(items =~= init.push(last));
        assert(after.to_multiset() =~= before.to_multiset().insert(last)) by {
            vstd::seq_lib::to_multiset_insert(before, p, last);
        }
        assert forall|i: int| 0 <= i < after.len() implies !double_is_nan(
            (#[trigger] after[i]).weight,
        ) by {
            if i < p {
                assert(after[i] == before[i]);
            } else if i > p {
                assert(after[i] == before[i - 1]);
            }
        }
        assert forall|i: int, j: int| 0 <= i < j < after.len() implies !double_less(
            (#[trigger] after[i]).weight,
            (#[trigger] after[j]).weight,
        ) by {
            if j < p {
                assert(after[i] == before[i] && after[j] == before[j]);
            } else if j == p {
                assert(after[i] == before[i]);
            } else if i == p {
                assert(after[j] == before[j - 1]);
                assert(!double_is_nan(before[p].weight) && !double_is_nan(before[j - 1].weight));
                if j - 1 > p {
                    assert(!double_less(before[p].weight, before[j - 1].weight));
                }
            } else {
                assert(after[j] == before[j - 1]);
                if i < p {
                    assert(after[i] == before[i]);
                } else {
                    assert(after[i] == before[i - 1]);
                }
            }
        }
        assert forall|weight: u64| #[trigger] weighing(ranked(items), weight) == weighing(
            items,
            weight,
        ) by {
            lemma_weighing_insert(before, last, weight);
            let pred = |s: ScoredModel| double_rank(s.weight) == double_rank(weight);
            Seq::filter_distributes_over_add(before, seq![last], pred);
            Seq::filter_distributes_over_add(init, seq![last], pred);
            assert(before.push(last) =~= before + seq![last]);
            assert(items =~= init + seq![last]);
            assert(weighing(before, weight) == weighing(init, weight));
        }
    }
}

// --- The answer ---

/// Whether a place that is shown the same, but for letter case, is in a list.
pub open spec fn is_shown(list: Seq<ResultModel>, display: Seq<char>) -> bool {
    exists|i: int|
        0 <= i < list.len() && lower_text((#[trigger] list[i]).display_name) == lower_text(display)
}

/// The answer from the first `k` places: the first `limit` that are shown
/// differently.
pub open spec fn answer_after(ranking: Seq<ScoredModel>, limit: nat, k: int) -> Seq<ResultModel>
    decreases k,
{
    if k <= 0 {
        seq![]
    } else {
        let before = answer_after(ranking, limit, k - 1);
        if before.len() >= limit || is_shown(before, ranking[k - 1].result.display_name) {
            before
        } else {
            before.push(ranking[k - 1].result)
        }
    }
}

/// The answer from a ranking.
pub open spec fn answer_of(ranking: Seq<ScoredModel>, limit: nat) -> Seq<ResultModel> {
    answer_after(ranking, limit, ranking.len() as int)
}

/// An answer has at most `limit` places, no two of them are shown the same but
/// for letter case, and all come from the ranking; with fewer than `limit`,
/// every place of the ranking is shown.
pub proof fn law_answer_has_no_doubles(ranking: Seq<ScoredModel>, limit: nat, k: int)
    requires
        0 <= k <= ranking.len(),
    ensures
        answer_after(ranking, limit, k).len() <= limit,
        forall|i: int, j: int|
            0 <= i < j < answer_after(ranking, limit, k).len() ==> lower_text(
                (#[trigger] answer_after(ranking, limit, k)[i]).display_name,
            ) != lower_text((#[trigger] answer_after(ranking, limit, k)[j]).display_name),
        forall|i: int|
            0 <= i < answer_after(ranking, limit, k).len() ==> exists|j: int|
                0 <= j < k && (#[trigger] ranking[j]).result == (#[trigger] answer_after(
                    ranking,
                    limit,
                    k,
                )[i]),
        answer_after(ranking, limit, k).len() < limit ==> forall|j: int|
            0 <= j < k ==> is_shown(
                answer_after(ranking, limit, k),
                (#[trigger] ranking[j]).result.display_name,
            ),
    decreases k,
{
    if k > 0 {
        law_answer_has_no_doubles(ranking, limit, k - 1);
        let before = answer_after(ranking, limit, k - 1);
        let after = answer_after(ranking, limit, k);
        let item = ranking[k - 1].result;
        if after != before {
            assert forall|i: int, j: int| 0 <= i < j < after.len() implies lower_text(
                (#[trigger] after[i]).display_name,
            ) != lower_text((#[trigger] after[j]).display_name) by {
                assert(after[i] == before[i]);
            }
            assert forall|i: int| 0 <= i < after.len() implies exists|j: int|
                0 <= j < k && (#[trigger] ranking[j]).result == (#[trigger] after[i]) by {
                if i < before.len() {
                    assert(after[i] == before[i]);
                    let j = choose|j: int|
                        0 <= j < k - 1 && (#[trigger] ranking[j]).result == before[i];
                    assert(ranking[j].result == after[i]);
                } else {
                    assert(ranking[k - 1].result == after[i]);
                }
            }
        }
        if after.len() < limit {
            assert forall|j: int| 0 <= j < k implies is_shown(
                after,
                (#[trigger] ranking[j]).result.display_name,
            ) by {
                let display = ranking[j].result.display_name;
                if j < k - 1 {
                    assert(is_shown(before, display));
                    let i = choose|i: int|
                        0 <= i < before.len() && lower_text((#[trigger] before[i]).display_name)
                            == lower_text(display);
                    assert(after[i] == before[i]);
                } else if after != before {
                    assert(after.last() == item);
                    assert(lower_text(after[after.len() - 1].display_name) == lower_text(display));
                }
            }
        }
    }
}

fn has_text(list: &Vec<String>, text: &String) -> (r: bool)
    ensures
        r == exists|i: int| 0 <= i < list@.len() && (#[trigger] list@[i])@ == text@,
{
    let mut i: usize = 0;
    while i < list.len()
        invariant
            i <= list@.len(),
            forall|j: int| 0 <= j < i ==> (#[trigger] list@[j])@ != text@,
        decreases list@.len() - i,
    {
        if list[i] == *text {
            assert(list@[i as int]@ == text@);
            return true;
        }
        i = i + 1;
    }
    false
}

fn answer(ranking: Vec<Scored>, limit: usize) -> (r: Vec<SearchResult>)
    ensures
        result_views(r@) == answer_of(scored_views(ranking@), limit as nat),
{
    let ghost models = scored_views(ranking@);
    let ghost items = ranking@;
    let mut ranking = ranking;
    let mut seen: Vec<String> = Vec::new();
    let mut out: Vec<SearchResult> = Vec::new();
    assert(result_views(out@) =~= seq![]);
    let ghost mut k: int = 0;
    while ranking.len() > 0
        invariant
            models == scored_views(items),
            0 <= k <= items.len(),
            ranking@ == items.skip(k),
            seen@.len() == out@.len(),
            forall|i: int|
                0 <= i < out@.len() ==> (#[trigger] seen@[i])@ == lower_text(
                    out@[i].display_name@,
                ),
            result_views(out@) == answer_after(models, limit as nat, k),
        decreases ranking@.len(),
    {
        let item = ranking.remove(0);
        proof {
            assert(item == items[k]);
            assert(models[k] == item@);
            assert(items.skip(k).remove(0) =~= items.skip(k + 1));
        }
        let ghost before = result_views(out@);
        if out.len() < limit {
            let lower = item.result.display_name.as_str().to_lowercase();
            let ghost display = item.result.display_name@;
            let shown: bool = has_text(&seen, &lower);
            proof {
                if shown {
                    let i = choose|i: int| 0 <= i < seen@.len() && (#[trigger] seen@[i])@ == lower@;
                    assert(lower_text(before[i].display_name) == lower_text(display));
                }
                if is_shown(before, display) {
                    let i = choose|i: int|
                        0 <= i < before.len() && lower_text((#[trigger] before[i]).display_name)
                            == lower_text(display);
                    assert(seen@[i]@ == lower@);
                }
                assert(shown == is_shown(before, display));
            }
            if !shown {
                let ghost result = item.result;
                let ghost were = out@;
                seen.push(lower);
                out.push(item.result);
                assert(result_views(out@) =~= result_views(were).push(result@));
            }
        }
        proof {
            k = k + 1;
        }
    }
    out
}

/// `weights` holds what `weigh` answered for each candidate.
pub open spec fn candidates_weighed<W: Fn(u32, u64, u128) -> u64>(
    weigh: W,
    candidates: Seq<Candidate>,
    weights: Seq<u64>,
) -> bool {
    &&& weights.len() == candidates.len()
    &&& forall|k: int|
        0 <= k < candidates.len() ==> call_ensures(
            weigh,
            (candidates[k].score, candidates[k].importance, candidates[k].boost as u128),
            #[trigger] weights[k],
        )
}

/// The candidates with their weights.
pub open spec fn scored_of(candidates: Seq<Candidate>, weights: Seq<u64>) -> Seq<ScoredModel> {
    Seq::new(
        candidates.len(),
        |k: int| ScoredModel { weight: weights[k], result: candidates[k].result },
    )
}

/// `r` is the answer to a query for which these documents were found: the
/// candidates among them, weighed by `weigh`, by falling weight.
pub open spec fn answered<W: Fn(u32, u64, u128) -> u64>(
    ss: SearchSchema,
    q: Seq<char>,
    hits: Seq<HitModel>,
    weigh: W,
    limit: nat,
    r: Seq<ResultModel>,
) -> bool {
    let candidates = candidates_of(ss, tokens_of(q), hits, hits.len() as int);
    exists|weights: Seq<u64>| #[trigger]
        candidates_weighed(weigh, candidates, weights) && r == answer_of(
            ranked(scored_of(candidates, weights)),
            limit,
        )
}

fn read_candidate(ss: &SearchSchema, tokens: &Vec<String>, hit: &Hit) -> (r: Option<
    (u32, u64, u128, SearchResult),
>)
    ensures
        match (r, candidate_of(*ss, string_views(tokens@), hit@)) {
            (Some((score, importance, boost, result)), Some(c)) => c.score == score && c.importance
                == importance && c.boost == boost && c.result == result@,
            (None, None) => true,
            _ => false,
        },
{
    let doc = match &hit.doc {
        Some(doc) => doc,
        None => return None,
    };
    match (
        first_text(doc, ss.f_display),
        first_number(doc, ss.f_lat),
        first_number(doc, ss.f_lon),
        first_text(doc, ss.f_kind),
    ) {
        (Some(display_name), Some(lat), Some(lon), Some(kind)) => {
            let importance: u64 = match first_number(doc, ss.f_importance) {
                Some(n) => n,
                None => PLAIN_IMPORTANCE,
            };
            let boost: u128 = find_boost(display_name.as_str(), tokens);
            Some((hit.score, importance, boost, SearchResult { display_name, lat, lon, kind }))
        },
        _ => None,
    }
}

/// Answers a query for which the engine found these documents. `weigh` gives
/// the weight of a document from the engine's score, the document's own weight
/// and how much it fits.
pub fn answer_from<W: Fn(u32, u64, u128) -> u64>(
    ss: &SearchSchema,
    q: &str,
    hits: &Vec<Hit>,
    weigh: &W,
    limit: usize,
) -> (r: Vec<SearchResult>)
    requires
        forall|score: u32, importance: u64, boost: u128|
            call_requires(*weigh, (score, importance, boost)),
    ensures
        answered(*ss, q@, hit_views(hits@), *weigh, limit as nat, result_views(r@)),
{
    let tokens = query_tokens(q);
    let ghost all = tokens_of(q@);
    let ghost models = hit_views(hits@);
    let ghost mut weights: Seq<u64> = seq![];
    let mut ranking: Vec<Scored> = Vec::new();
    let ghost none = candidates_of(*ss, all, models, 0);
    assert(scored_views(ranking@) =~= ranked(scored_of(none, weights)));
    let mut k: usize = 0;
    while k < hits.len()
        invariant
            forall|score: u32, importance: u64, boost: u128|
                call_requires(*weigh, (score, importance, boost)),
            all == string_views(tokens@),
            all == tokens_of(q@),
            models == hit_views(hits@),
            k <= hits@.len(),
            candidates_weighed(*weigh, candidates_of(*ss, all, models, k as int), weights),
            scored_views(ranking@) == ranked(
                scored_of(candidates_of(*ss, all, models, k as int), weights),
            ),
        decreases hits@.len() - k,
    {
        assert(models[k as int] == hits@[k as int]@);
        if let Some((score, importance, boost, result)) = read_candidate(ss, &tokens, &hits[k]) {
            let weight: u64 = weigh(score, importance, boost);
            let item = Scored { weight, result };
            let ghost weights_were = weights;
            let ghost before = candidates_of(*ss, all, models, k as int);
            let ghost after = candidates_of(*ss, all, models, k + 1);
            let ghost model = item@;
            proof {
                weights = weights.push(weight);
                assert(scored_of(after, weights).drop_last() =~= scored_of(before, weights_were));
                assert(scored_of(after, weights).last() == model);
                assert forall|i: int| 0 <= i < after.len() implies call_ensures(
                    *weigh,
                    (after[i].score, after[i].importance, after[i].boost as u128),
                    #[trigger] weights[i],
                ) by {
                    if i < before.len() {
                        assert(weights[i] == weights_were[i]);
                        assert(after[i] == before[i]);
                    }
                }
            }
            insert_ranked(&mut ranking, item);
        }
        k = k + 1;
    }
    let ghost candidates = candidates_of(*ss, tokens_of(q@), models, models.len() as int);
    assert(models.len() == k);
    assert(candidates_weighed(*weigh, candidates, weights));
    answer(ranking, limit)
}

proof fn lemma_filter_take<T>(s: Seq<T>, n: int, pred: spec_fn(T) -> bool)
    requires
        0 < n <= s.len(),
    ensures
        s.take(n).filter(pred) == if pred(s[n - 1]) {
            s.take(n - 1).filter(pred).push(s[n - 1])
        } else {
            s.take(n - 1).filter(pred)
        },
{
    reveal(Seq::filter);
    assert(s.take(n).drop_last() =~= s.take(n - 1));
}

proof fn lemma_stored_values(ss: SearchSchema, d: DocModel)
    requires
        ss.is_standard(),
    ensures
        stored_part(search_fields(), place_values(ss, d)) == seq![
            (0u32, DocValue::Text(normalized(d.name))),
            (3u32, DocValue::Text(d.display)),
            (4u32, DocValue::Number(d.lat)),
            (5u32, DocValue::Number(d.lon)),
            (6u32, DocValue::Text(d.kind)),
        ],
{
    let pred = |v: (u32, DocValue)| is_stored(search_fields(), v);
    let v = place_values(ss, d);
    assert(v.take(0).filter(pred) =~= seq![]) by {
        reveal(Seq::filter);
    }
    lemma_filter_take(v, 1, pred);
    lemma_filter_take(v, 2, pred);
    lemma_filter_take(v, 3, pred);
    lemma_filter_take(v, 4, pred);
    lemma_filter_take(v, 5, pred);
    lemma_filter_take(v, 6, pred);
    lemma_filter_take(v, 7, pred);
    lemma_filter_take(v, 8, pred);
    assert(v.take(8) =~= v);
}

/// The place in an answer for what was put into a document.
pub open spec fn result_of(d: DocModel) -> ResultModel {
    ResultModel { display_name: d.display, lat: d.lat, lon: d.lon, kind: d.kind }
}

/// What was put into the document for a place comes out of it again: from what
/// the engine gives back a search makes a result with what is shown, the
/// coordinates and the kind. The weight of the place is not stored, so every
/// document has the plain one.
pub proof fn law_written_places_are_read(
    ss: SearchSchema,
    tokens: Seq<Seq<char>>,
    d: DocModel,
    score: u32,
    back: Seq<(u32, DocValue)>,
)
    requires
        ss.is_standard(),
        gives_back(search_fields(), place_values(ss, d), back),
    ensures
        candidate_of(ss, tokens, (HitModel { score, values: Some(back) })) == Some(
            Candidate {
                score,
                importance: PLAIN_IMPORTANCE,
                boost: context_boost(d.display, tokens),
                result: result_of(d),
            },
        ),
{
    lemma_stored_values(ss, d);
    let part = stored_part(search_fields(), place_values(ss, d));
    assert forall|i: int| 0 <= i < part.len() implies back[i] == part[i] by {
        let (field, value) = part[i];
        assert(i == 0 || i == 1 || i == 2 || i == 3 || i == 4);
        assert(!(value is Other));
    }
    assert(back =~= part);
    reveal_with_fuel(first_value, 6);
    let v1 = part.drop_first();
    let v2 = v1.drop_first();
    let v3 = v2.drop_first();
    let v4 = v3.drop_first();
    let v5 = v4.drop_first();
    assert(v1[0] == part[1] && v2[0] == part[2] && v3[0] == part[3] && v4[0] == part[4]);
    assert(v5.len() == 0);
}

proof fn lemma_ranked_from(items: Seq<ScoredModel>, i: int)
    requires
        0 <= i < ranked(items).len(),
    ensures
        exists|j: int| 0 <= j < items.len() && #[trigger] items[j] == ranked(items)[i],
    decreases items.len(),
{
    if items.len() > 0 {
        let init = items.drop_last();
        let before = ranked(init);
        lemma_rank_from(before, items.last().weight, 0);
        let p = rank_from(before, items.last().weight, 0);
        if i == p {
            assert(items[items.len() - 1] == ranked(items)[i]);
        } else {
            let k = if i < p {
                i
            } else {
                i - 1
            };
            assert(ranked(items)[i] == before[k]);
            lemma_ranked_from(init, k);
            let j = choose|j: int| 0 <= j < init.len() && #[trigger] init[j] == before[k];
            assert(items[j] == init[j]);
        }
    }
}

proof fn lemma_candidate_from(
    ss: SearchSchema,
    tokens: Seq<Seq<char>>,
    hits: Seq<HitModel>,
    k: int,
    i: int,
)
    requires
        0 <= k <= hits.len(),
        0 <= i < candidates_of(ss, tokens, hits, k).len(),
    ensures
        exists|j: int|
            0 <= j < k && candidate_of(ss, tokens, #[trigger] hits[j]) == Some(
                candidates_of(ss, tokens, hits, k)[i],
            ),
    decreases k,
{
    if k > 0 {
        let before = candidates_of(ss, tokens, hits, k - 1);
        if i < before.len() {
            lemma_candidate_from(ss, tokens, hits, k - 1, i);
            let j = choose|j: int|
                0 <= j < k - 1 && candidate_of(ss, tokens, #[trigger] hits[j]) == Some(before[i]);
            assert(candidate_of(ss, tokens, hits[j]) == Some(
                candidates_of(ss, tokens, hits, k)[i],
            ));
        } else {
            assert(candidate_of(ss, tokens, hits[k - 1]) == Some(
                candidates_of(ss, tokens, hits, k)[i],
            ));
        }
    }
}

/// Whether a place in an answer is one of those that were written.
pub open spec fn is_written(r: ResultModel, places: Seq<DocModel>) -> bool {
    exists|j: int| 0 <= j < places.len() && r == result_of(#[trigger] places[j])
}

/// Whether every place in an answer is one of those that were written.
pub open spec fn are_written(r: Seq<ResultModel>, places: Seq<DocModel>) -> bool {
    forall|i: int| 0 <= i < r.len() ==> is_written(#[trigger] r[i], places)
}

/// Every place in an answer is one that was put into the index: it is shown as
/// it was written, with its coordinates and its kind.
pub proof fn law_answers_are_written_places<W: Fn(u32, u64, u128) -> u64>(
    ss: SearchSchema,
    q: Seq<char>,
    hits: Seq<HitModel>,
    weigh: W,
    limit: nat,
    r: Seq<ResultModel>,
    docs: Multiset<Seq<(u32, DocValue)>>,
    places: Seq<DocModel>,
)
    requires
        ss.is_standard(),
        holds_only(ss, docs, places),
        forall|i: int|
            0 <= i < hits.len() ==> is_one_of(search_fields(), docs, #[trigger] hits[i]),
        answered(ss, q, hits, weigh, limit, r),
    ensures
        are_written(r, places),
{
    let tokens = tokens_of(q);
    let candidates = candidates_of(ss, tokens, hits, hits.len() as int);
    let weights = choose|weights: Seq<u64>| #[trigger]
        candidates_weighed(weigh, candidates, weights) && r == answer_of(
            ranked(scored_of(candidates, weights)),
            limit,
        );
    let items = scored_of(candidates, weights);
    let ranking = ranked(items);
    law_answer_has_no_doubles(ranking, limit, ranking.len() as int);
    assert forall|i: int| 0 <= i < r.len() implies is_written(#[trigger] r[i], places) by {
        let a = choose|a: int| 0 <= a < ranking.len() && (#[trigger] ranking[a]).result == r[i];
        lemma_ranked_from(items, a);
        let b = choose|b: int| 0 <= b < items.len() && #[trigger] items[b] == ranking[a];
        lemma_candidate_from(ss, tokens, hits, hits.len() as int, b);
        let h = choose|h: int|
            0 <= h < hits.len() && candidate_of(ss, tokens, #[trigger] hits[h]) == Some(
                candidates[b],
            );
        assert(is_one_of(search_fields(), docs, hits[h]));
        let back = hits[h].values->0;
        let values = choose|values: Seq<(u32, DocValue)>| #[trigger]
            docs.contains(values) && gives_back(search_fields(), values, back);
        let j = choose|j: int|
            0 <= j < places.len() && values == place_values(ss, #[trigger] places[j]);
        law_written_places_are_read(ss, tokens, places[j], hits[h].score, back);
        assert(r[i] == result_of(places[j]));
    }
}

/// Whether a function that weighs documents answers always the same way.
pub open spec fn answers_weights_once<W: Fn(u32, u64, u128) -> u64>(f: W) -> bool {
    forall|score: u32, importance: u64, boost: u128, x: u64, y: u64| #[trigger]
        call_ensures(f, (score, importance, boost), x) && #[trigger] call_ensures(
            f,
            (score, importance, boost),
            y,
        ) ==> x == y
}

/// There is one answer to a query, as long as `weigh` answers always the same
/// way.
pub proof fn law_answer_is_determined<W: Fn(u32, u64, u128) -> u64>(
    ss: SearchSchema,
    q: Seq<char>,
    hits: Seq<HitModel>,
    weigh: W,
    limit: nat,
    r: Seq<ResultModel>,
    s: Seq<ResultModel>,
)
    requires
        answers_weights_once(weigh),
        answered(ss, q, hits, weigh, limit, r),
        answered(ss, q, hits, weigh, limit, s),
    ensures
        r == s,
{
    let candidates = candidates_of(ss, tokens_of(q), hits, hits.len() as int);
    let x = choose|x: Seq<u64>| #[trigger]
        candidates_weighed(weigh, candidates, x) && r == answer_of(
            ranked(scored_of(candidates, x)),
            limit,
        );
    let y = choose|y: Seq<u64>| #[trigger]
        candidates_weighed(weigh, candidates, y) && s == answer_of(
            ranked(scored_of(candidates, y)),
            limit,
        );
    assert forall|k: int| 0 <= k < candidates.len() implies x[k] == y[k] by {
        let c = candidates[k];
        assert(call_ensures(weigh, (c.score, c.importance, c.boost as u128), x[k]));
        assert(call_ensures(weigh, (c.score, c.importance, c.boost as u128), y[k]));
    }
    assert(x =~= y);
}

/// Whitespace round a query does not change what is searched for.
pub proof fn law_outer_whitespace_changes_nothing(q: Seq<char>)
    ensures
        tokens_of(trimmed(q)) == tokens_of(q),
{
    law_words_ignore_outer_whitespace(q);
}

/// Whether a clause is one for some word.
pub open spec fn is_for_a_word(ss: SearchSchema, tokens: Seq<Seq<char>>, c: Clause) -> bool {
    exists|i: int| 0 <= i < tokens.len() && #[trigger] token_clauses(ss, tokens[i]).contains(c)
}

/// Every word is looked for in the names and in the contexts, and one of at
/// least four bytes also within one edit in the names; nothing else is looked
/// for.
pub proof fn law_every_word_is_searched(ss: SearchSchema, tokens: Seq<Seq<char>>)
    ensures
        forall|i: int, c: Clause|
            0 <= i < tokens.len() && #[trigger] token_clauses(ss, tokens[i]).contains(c)
                ==> clauses_for(ss, tokens).contains(c),
        forall|j: int|
            0 <= j < clauses_for(ss, tokens).len() ==> is_for_a_word(
                ss,
                tokens,
                #[trigger] clauses_for(ss, tokens)[j],
            ),
    decreases tokens.len(),
{
    if tokens.len() > 0 {
        let init = tokens.drop_last();
        law_every_word_is_searched(ss, init);
        let before = clauses_for(ss, init);
        let more = token_clauses(ss, tokens.last());
        let all = clauses_for(ss, tokens);
        let n = tokens.len() as int;
        assert forall|i: int, c: Clause|
            0 <= i < n && #[trigger] token_clauses(ss, tokens[i]).contains(c) implies all.contains(
            c,
        ) by {
            if i < n - 1 {
                assert(tokens[i] == init[i]);
                assert(token_clauses(ss, init[i]).contains(c));
                let j = choose|j: int| 0 <= j < before.len() && before[j] == c;
                assert(all[j] == c);
            } else {
                let j = choose|j: int| 0 <= j < more.len() && more[j] == c;
                assert(all[before.len() + j] == c);
            }
        }
        assert forall|j: int| 0 <= j < all.len() implies is_for_a_word(
            ss,
            tokens,
            #[trigger] all[j],
        ) by {
            if j < before.len() {
                assert(all[j] == before[j]);
                assert(is_for_a_word(ss, init, before[j]));
                let i = choose|i: int|
                    0 <= i < init.len() && #[trigger] token_clauses(ss, init[i]).contains(
                        before[j],
                    );
                assert(init[i] == tokens[i]);
                assert(token_clauses(ss, tokens[i]).contains(all[j]));
            } else {
                assert(all[j] == more[j - before.len()]);
                assert(token_clauses(ss, tokens[n - 1]).contains(all[j]));
            }
        }
    }
}

// --- What the words are searched for as ---

/// There are as many search words as the query has words, and each is the lower
/// case of the word in its place, as searches compare it.
pub proof fn law_every_word_is_a_search_word(q: Seq<char>)
    ensures
        tokens_of(q).len() == words(q).len(),
        forall|i: int|
            0 <= i < words(q).len() ==> #[trigger] tokens_of(q)[i] == normalized(
                lower_text(words(q)[i]),
            ),
{
}

/// A search word is looked for by itself in the names and in the contexts, and one
/// of at least four bytes also, with one edit or two neighbours swapped, in the
/// names; and the words are looked for one after the other.
pub proof fn law_words_are_searched_one_by_one(
    ss: SearchSchema,
    word: Seq<char>,
    xs: Seq<Seq<char>>,
    ys: Seq<Seq<char>>,
)
    ensures
        byte_len(word) < 4 ==> clauses_for(ss, seq![word]) == seq![
            Clause::Exact { field: ss.f_name_norm, text: word },
            Clause::Exact { field: ss.f_context, text: word },
        ],
        byte_len(word) >= 4 ==> clauses_for(ss, seq![word]) == seq![
            Clause::Exact { field: ss.f_name_norm, text: word },
            Clause::Near { field: ss.f_name_norm, text: word, distance: 1, transpositions: true },
            Clause::Exact { field: ss.f_context, text: word },
        ],
        clauses_for(ss, xs + ys) == clauses_for(ss, xs) + clauses_for(ss, ys),
    decreases ys.len(),
{
    let one = seq![word];
    assert(one.drop_last() =~= seq![]);
    assert(clauses_for(ss, Seq::<Seq<char>>::empty()) =~= seq![]);
    assert(clauses_for(ss, one) =~= token_clauses(ss, word));
    if ys.len() == 0 {
        assert(xs + ys =~= xs);
        assert(clauses_for(ss, xs) + clauses_for(ss, ys) =~= clauses_for(ss, xs));
    } else {
        law_words_are_searched_one_by_one(ss, word, xs, ys.drop_last());
        assert((xs + ys).drop_last() =~= xs + ys.drop_last());
        assert((xs + ys).last() == ys.last());
        assert(clauses_for(ss, xs + ys) =~= clauses_for(ss, xs) + clauses_for(ss, ys));
    }
}

proof fn lemma_matches_are_counted(text: Seq<char>, tokens: Seq<Seq<char>>, k: int)
    requires
        0 <= k <= tokens.len(),
    ensures
        matches_in(text, tokens, k) == tokens.take(k).filter(
            |t: Seq<char>| byte_len(t) >= 4 && has_part(text, t),
        ).len(),
    decreases k,
{
    let pred = |t: Seq<char>| byte_len(t) >= 4 && has_part(text, t);
    if k == 0 {
        reveal(Seq::filter);
        assert(tokens.take(0).filter(pred).len() == 0);
    } else {
        lemma_matches_are_counted(text, tokens, k - 1);
        lemma_filter_take(tokens, k, pred);
    }
}

/// How much a place fits is one, and one for each search word of at least four
/// bytes that stands in what is shown of it, and three where all the search words
/// of at least three bytes do, and there is one.
pub proof fn law_boost_counts_the_words(display: Seq<char>, tokens: Seq<Seq<char>>)
    ensures
        ({
            let text = normalized(lower_text(display));
            let long = tokens.filter(|t: Seq<char>| byte_len(t) >= 4 && has_part(text, t)).len();
            let short = exists|i: int| 0 <= i < tokens.len() && byte_len(#[trigger] tokens[i]) >= 3;
            let missing = exists|i: int|
                0 <= i < tokens.len() && byte_len(#[trigger] tokens[i]) >= 3 && !has_part(
                    text,
                    tokens[i],
                );
            &&& short && !missing ==> context_boost(display, tokens) == 4 + long
            &&& !short || missing ==> context_boost(display, tokens) == 1 + long
        }),
{
    let text = normalized(lower_text(display));
    lemma_matches_are_counted(text, tokens, tokens.len() as int);
    assert(tokens.take(tokens.len() as int) =~= tokens);
}

// --- What the answer is ---

/// `x` is the place that a found document tells of, and `w` the weight that `weigh`
/// gives it: from the engine's score, the weight that the document has, or one,
/// and how much what is shown fits the words of the query.
pub open spec fn is_told_by<W: Fn(u32, u64, u128) -> u64>(
    ss: SearchSchema,
    q: Seq<char>,
    hit: HitModel,
    weigh: W,
    w: u64,
    x: ResultModel,
) -> bool {
    &&& hit.values is Some
    &&& text_value(hit.values->0, ss.f_display) == Some(x.display_name)
    &&& number_value(hit.values->0, ss.f_lat) == Some(x.lat)
    &&& number_value(hit.values->0, ss.f_lon) == Some(x.lon)
    &&& text_value(hit.values->0, ss.f_kind) == Some(x.kind)
    &&& call_ensures(
        weigh,
        (
            hit.score,
            match number_value(hit.values->0, ss.f_importance) {
                Some(n) => n,
                None => 0x3FF0_0000_0000_0000u64,
            },
            context_boost(x.display_name, tokens_of(q)) as u128,
        ),
        w,
    )
}

/// Where the candidates come from: their places among the first `k` documents.
spec fn candidate_sources(
    ss: SearchSchema,
    tokens: Seq<Seq<char>>,
    hits: Seq<HitModel>,
    k: int,
) -> Seq<int>
    decreases k,
{
    if k <= 0 {
        seq![]
    } else if candidate_of(ss, tokens, hits[k - 1]) is Some {
        candidate_sources(ss, tokens, hits, k - 1).push(k - 1)
    } else {
        candidate_sources(ss, tokens, hits, k - 1)
    }
}

proof fn lemma_candidate_sources(
    ss: SearchSchema,
    tokens: Seq<Seq<char>>,
    hits: Seq<HitModel>,
    k: int,
)
    requires
        0 <= k <= hits.len(),
    ensures
        ({
            let from = candidate_sources(ss, tokens, hits, k);
            let candidates = candidates_of(ss, tokens, hits, k);
            &&& from.len() == candidates.len()
            &&& forall|i: int|
                0 <= i < from.len() ==> 0 <= #[trigger] from[i] < k && candidate_of(
                    ss,
                    tokens,
                    hits[from[i]],
                ) == Some(candidates[i])
            &&& forall|i: int, j: int|
                0 <= i < j < from.len() ==> #[trigger] from[i] < #[trigger] from[j]
            &&& forall|h: int|
                0 <= h < k && candidate_of(ss, tokens, #[trigger] hits[h]) is Some
                    ==> from.contains(h)
        }),
    decreases k,
{
    if k > 0 {
        lemma_candidate_sources(ss, tokens, hits, k - 1);
        let before = candidate_sources(ss, tokens, hits, k - 1);
        let from = candidate_sources(ss, tokens, hits, k);
        assert forall|h: int|
            0 <= h < k && candidate_of(ss, tokens, #[trigger] hits[h]) is Some implies from.contains(
            h,
        ) by {
            if h < k - 1 {
                assert(before.contains(h));
                let i = choose|i: int| 0 <= i < before.len() && before[i] == h;
                assert(from[i] == h);
            } else {
                assert(from[from.len() - 1] == h);
            }
        }
    }
}

/// Where the ranked places come from: their places in the list.
spec fn rank_sources(items: Seq<ScoredModel>) -> Seq<int>
    decreases items.len(),
{
    if items.len() == 0 {
        seq![]
    } else {
        let init = items.drop_last();
        rank_sources(init).insert(
            rank_from(ranked(init), items.last().weight, 0),
            items.len() - 1,
        )
    }
}

proof fn lemma_rank_sources(items: Seq<ScoredModel>)
    requires
        has_weights(items),
    ensures
        ({
            let from = rank_sources(items);
            &&& from.len() == items.len()
            &&& ranked(items).len() == items.len()
            &&& forall|i: int|
                0 <= i < from.len() ==> 0 <= #[trigger] from[i] < items.len() && ranked(items)[i]
                    == items[from[i]]
            &&& forall|i: int, j: int|
                0 <= i < j < from.len() ==> #[trigger] from[i] != #[trigger] from[j]
            &&& forall|i: int, j: int|
                0 <= i < j < from.len() && double_rank(items[#[trigger] from[i]].weight)
                    == double_rank(items[#[trigger] from[j]].weight) ==> from[i] < from[j]
            &&& forall|h: int| 0 <= h < items.len() ==> #[trigger] from.contains(h)
        }),
    decreases items.len(),
{
    if items.len() > 0 {
        let init = items.drop_last();
        let last = items.last();
        assert(has_weights(init)) by {
            assert forall|i: int| 0 <= i < init.len() implies !double_is_nan(
                (#[trigger] init[i]).weight,
            ) by {
                assert(init[i] == items[i]);
            }
        }
        lemma_rank_sources(init);
        law_ranking_sorts(init);
        let before = rank_sources(init);
        let list = ranked(init);
        lemma_rank_from(list, last.weight, 0);
        let p = rank_from(list, last.weight, 0);
        let from = rank_sources(items);
        assert(from =~= before.insert(p, items.len() - 1));
        assert(last == items[items.len() - 1]);
        assert(!double_is_nan(last.weight));
        assert forall|i: int| 0 <= i < from.len() implies 0 <= #[trigger] from[i] < items.len()
            && ranked(items)[i] == items[from[i]] by {
            if i < p {
                assert(from[i] == before[i]);
            } else if i > p {
                assert(from[i] == before[i - 1]);
            }
        }
        assert forall|i: int, j: int| 0 <= i < j < from.len() implies #[trigger] from[i]
            != #[trigger] from[j] && (double_rank(items[from[i]].weight) == double_rank(
            items[from[j]].weight,
        ) ==> from[i] < from[j]) by {
            let a = if i < p {
                i
            } else {
                i - 1
            };
            let b = if j < p {
                j
            } else {
                j - 1
            };
            if i != p {
                assert(from[i] == before[a]);
                assert(list[a] == init[before[a]]);
            }
            if j != p {
                assert(from[j] == before[b]);
                assert(list[b] == init[before[b]]);
            }
            if i == p {
                assert(!double_is_nan(list[b].weight) && !double_is_nan(list[p].weight));
                assert(double_less(list[p].weight, last.weight));
                if b > p {
                    assert(!double_less(list[p].weight, list[b].weight));
                }
            }
        }
        assert forall|h: int| 0 <= h < items.len() implies #[trigger] from.contains(h) by {
            if h < items.len() - 1 {
                assert(before.contains(h));
                let i = choose|i: int| 0 <= i < before.len() && before[i] == h;
                assert(from[if i < p {
                    i
                } else {
                    i + 1
                }] == h);
            } else {
                assert(from[p] == h);
            }
        }
    }
}

/// Where the places of an answer come from: their places among the first `k` of
/// the ranking.
spec fn answer_sources(ranking: Seq<ScoredModel>, limit: nat, k: int) -> Seq<int>
    decreases k,
{
    if k <= 0 {
        seq![]
    } else {
        let from = answer_sources(ranking, limit, k - 1);
        let before = answer_after(ranking, limit, k - 1);
        if before.len() >= limit || is_shown(before, ranking[k - 1].result.display_name) {
            from
        } else {
            from.push(k - 1)
        }
    }
}

proof fn lemma_answer_sources(ranking: Seq<ScoredModel>, limit: nat, k: int)
    requires
        0 <= k <= ranking.len(),
    ensures
        ({
            let from = answer_sources(ranking, limit, k);
            let r = answer_after(ranking, limit, k);
            &&& from.len() == r.len()
            &&& forall|i: int|
                0 <= i < r.len() ==> 0 <= #[trigger] from[i] < k && ranking[from[i]].result == r[i]
            &&& forall|i: int, j: int|
                0 <= i < j < from.len() ==> #[trigger] from[i] < #[trigger] from[j]
            &&& forall|h: int|
                0 <= h < k && !(#[trigger] from.contains(h)) ==> (exists|i: int|
                    0 <= i < r.len() && #[trigger] from[i] < h && lower_text(r[i].display_name)
                        == lower_text(ranking[h].result.display_name)) || (r.len() >= limit
                    && forall|i: int| 0 <= i < r.len() ==> #[trigger] from[i] < h)
        }),
    decreases k,
{
    if k > 0 {
        lemma_answer_sources(ranking, limit, k - 1);
        let was = answer_sources(ranking, limit, k - 1);
        let before = answer_after(ranking, limit, k - 1);
        let from = answer_sources(ranking, limit, k);
        let r = answer_after(ranking, limit, k);
        assert forall|h: int| 0 <= h < k && !(#[trigger] from.contains(h)) implies (exists|i: int|
            0 <= i < r.len() && #[trigger] from[i] < h && lower_text(r[i].display_name)
                == lower_text(ranking[h].result.display_name)) || (r.len() >= limit && forall|i: int|
            0 <= i < r.len() ==> #[trigger] from[i] < h) by {
            if h < k - 1 {
                if was.contains(h) {
                    let i = choose|i: int| 0 <= i < was.len() && was[i] == h;
                    assert(from[i] == h);
                }
                if exists|i: int|
                    0 <= i < before.len() && #[trigger] was[i] < h && lower_text(
                        before[i].display_name,
                    ) == lower_text(ranking[h].result.display_name) {
                    let i = choose|i: int|
                        0 <= i < before.len() && #[trigger] was[i] < h && lower_text(
                            before[i].display_name,
                        ) == lower_text(ranking[h].result.display_name);
                    assert(from[i] < h);
                } else {
                    assert(from =~= was);
                }
            } else {
                if from.len() > was.len() {
                    assert(from[from.len() - 1] == h);
                }
                if before.len() < limit {
                    assert(is_shown(before, ranking[h].result.display_name));
                    let i = choose|i: int|
                        0 <= i < before.len() && lower_text((#[trigger] before[i]).display_name)
                            == lower_text(ranking[h].result.display_name);
                    assert(from[i] < h);
                }
            }
        }
    }
}

/// Whether the places of an answer are told by the documents at `from`, with these
/// weights: by falling weight, and those that weigh the same in the order of the
/// documents.
pub open spec fn is_drawn<W: Fn(u32, u64, u128) -> u64>(
    ss: SearchSchema,
    q: Seq<char>,
    hits: Seq<HitModel>,
    weigh: W,
    r: Seq<ResultModel>,
    from: Seq<int>,
    weights: Seq<u64>,
) -> bool {
    &&& from.len() == r.len()
    &&& weights.len() == r.len()
    &&& forall|i: int|
        0 <= i < r.len() ==> 0 <= #[trigger] from[i] < hits.len() && is_told_by(
            ss,
            q,
            hits[from[i]],
            weigh,
            weights[i],
            r[i],
        )
    &&& forall|i: int, j: int|
        0 <= i < j < r.len() ==> double_less(#[trigger] weights[j], #[trigger] weights[i]) || (
        double_rank(weights[i]) == double_rank(weights[j]) && from[i] < from[j])
    &&& forall|i: int, j: int|
        0 <= i < j < r.len() ==> lower_text((#[trigger] r[i]).display_name) != lower_text(
            (#[trigger] r[j]).display_name,
        )
}

/// Whether a place that is told with weight `w` is left out of an answer for a
/// reason: one that is shown the same stands in it and does not weigh less, or the
/// answer is full of places that do not weigh less.
pub open spec fn is_left_out(
    r: Seq<ResultModel>,
    weights: Seq<u64>,
    limit: nat,
    w: u64,
    x: ResultModel,
) -> bool {
    ||| exists|i: int|
        0 <= i < r.len() && lower_text((#[trigger] r[i]).display_name) == lower_text(x.display_name)
            && !double_less(weights[i], w)
    ||| r.len() == limit && forall|i: int|
        0 <= i < r.len() ==> !double_less(#[trigger] weights[i], w)
}

/// An answer holds the heaviest places that the documents tell of, by falling
/// weight, each shown once and at most `limit` of them: each comes from a document,
/// with the weight that `weigh` gives it, and every other document tells of a
/// place that is left out for a reason. This needs a `weigh` that answers always
/// the same way, and with numbers.
pub proof fn law_answer_holds_the_heaviest<W: Fn(u32, u64, u128) -> u64>(
    ss: SearchSchema,
    q: Seq<char>,
    hits: Seq<HitModel>,
    weigh: W,
    limit: nat,
    r: Seq<ResultModel>,
) -> (drawn: (Seq<int>, Seq<u64>))
    requires
        answered(ss, q, hits, weigh, limit, r),
        answers_weights_once(weigh),
        forall|score: u32, importance: u64, boost: u128, w: u64| #[trigger]
            call_ensures(weigh, (score, importance, boost), w) ==> !double_is_nan(w),
    ensures
        r.len() <= limit,
        is_drawn(ss, q, hits, weigh, r, drawn.0, drawn.1),
        forall|h: int, w: u64, x: ResultModel|
            0 <= h < hits.len() && #[trigger] is_told_by(ss, q, hits[h], weigh, w, x)
                ==> drawn.0.contains(h) || is_left_out(r, drawn.1, limit, w, x),
{
    let tokens = tokens_of(q);
    let n = hits.len() as int;
    let candidates = candidates_of(ss, tokens, hits, n);
    let weights = choose|weights: Seq<u64>| #[trigger]
        candidates_weighed(weigh, candidates, weights) && r == answer_of(
            ranked(scored_of(candidates, weights)),
            limit,
        );
    let items = scored_of(candidates, weights);
    assert(has_weights(items)) by {
        assert forall|i: int| 0 <= i < items.len() implies !double_is_nan(
            (#[trigger] items[i]).weight,
        ) by {
            assert(items[i].weight == weights[i]);
        }
    }
    let ranking = ranked(items);
    let m = ranking.len() as int;
    lemma_candidate_sources(ss, tokens, hits, n);
    lemma_rank_sources(items);
    law_ranking_sorts(items);
    lemma_answer_sources(ranking, limit, m);
    law_answer_has_no_doubles(ranking, limit, m);
    let c_from = candidate_sources(ss, tokens, hits, n);
    let r_from = rank_sources(items);
    let a_from = answer_sources(ranking, limit, m);
    let from = Seq::new(r.len(), |i: int| c_from[r_from[a_from[i]]]);
    let drawn = Seq::new(r.len(), |i: int| ranking[a_from[i]].weight);
    assert forall|i: int| 0 <= i < r.len() implies 0 <= #[trigger] from[i] < hits.len()
        && is_told_by(ss, q, hits[from[i]], weigh, drawn[i], r[i]) by {
        let a = a_from[i];
        let b = r_from[a];
        assert(items[b] == ranking[a]);
        assert(candidate_of(ss, tokens, hits[c_from[b]]) == Some(candidates[b]));
        assert(call_ensures(
            weigh,
            (candidates[b].score, candidates[b].importance, candidates[b].boost as u128),
            weights[b],
        ));
    }
    assert forall|i: int, j: int| 0 <= i < j < r.len() implies double_less(
        #[trigger] drawn[j],
        #[trigger] drawn[i],
    ) || (double_rank(drawn[i]) == double_rank(drawn[j]) && from[i] < from[j]) by {
        let a = a_from[i];
        let b = a_from[j];
        assert(a < b);
        assert(!double_less(ranking[a].weight, ranking[b].weight));
        assert(!double_is_nan(ranking[a].weight) && !double_is_nan(ranking[b].weight));
        assert(items[r_from[a]] == ranking[a] && items[r_from[b]] == ranking[b]);
        if double_rank(drawn[i]) == double_rank(drawn[j]) {
            assert(r_from[a] < r_from[b]);
        }
    }
    assert forall|h: int, w: u64, x: ResultModel|
        0 <= h < hits.len() && #[trigger] is_told_by(
            ss,
            q,
            hits[h],
            weigh,
            w,
            x,
        ) implies from.contains(h) || is_left_out(r, drawn, limit, w, x) by {
        assert(candidate_of(ss, tokens, hits[h]) is Some);
        assert(c_from.contains(h));
        let b = choose|b: int| 0 <= b < c_from.len() && c_from[b] == h;
        let c = candidates[b];
        assert(candidate_of(ss, tokens, hits[h]) == Some(c));
        assert(c.result =~= x);
        assert(call_ensures(weigh, (c.score, c.importance, c.boost as u128), weights[b]));
        assert(w == weights[b]);
        assert(r_from.contains(b));
        let a = choose|a: int| 0 <= a < r_from.len() && r_from[a] == b;
        assert(ranking[a] == items[b]);
        assert(!double_is_nan(ranking[a].weight));
        if a_from.contains(a) {
            let i = choose|i: int| 0 <= i < a_from.len() && a_from[i] == a;
            assert(from[i] == h);
        } else if exists|i: int|
            0 <= i < r.len() && #[trigger] a_from[i] < a && lower_text(r[i].display_name)
                == lower_text(ranking[a].result.display_name) {
            let i = choose|i: int|
                0 <= i < r.len() && #[trigger] a_from[i] < a && lower_text(r[i].display_name)
                    == lower_text(ranking[a].result.display_name);
            assert(!double_less(ranking[a_from[i]].weight, ranking[a].weight));
            assert(lower_text(r[i].display_name) == lower_text(x.display_name) && !double_less(
                drawn[i],
                w,
            ));
        } else {
            assert forall|i: int| 0 <= i < r.len() implies !double_less(#[trigger] drawn[i], w) by {
                assert(a_from[i] < a);
                assert(!double_less(ranking[a_from[i]].weight, ranking[a].weight));
            }
        }
    }
    (from, drawn)
}

/// Ranking keeps the places, whatever they weigh.
pub proof fn law_ranking_keeps_the_places(items: Seq<ScoredModel>)
    ensures
        ranked(items).to_multiset() == items.to_multiset(),
    decreases items.len(),
{
    broadcast use vstd::seq_lib::group_to_multiset_ensures;

    if items.len() > 0 {
        let init = items.drop_last();
        law_ranking_keeps_the_places(init);
        let before = ranked(init);
        lemma_rank_from(before, items.last().weight, 0);
        vstd::seq_lib::to_multiset_insert(
            before,
            rank_from(before, items.last().weight, 0),
            items.last(),
        );
        assert(items =~= init.push(items.last()));
    }
}

// --- Searching ---

/// The engine failed.
pub enum SearchError {
    Engine(TantivyError),
}

/// What a search needs: a reader of the index, and where its fields are.
pub struct SearchState {
    pub reader: IndexReader,
    pub ss: Arc<SearchSchema>,
}

impl SearchState {
    /// Whether the fields that are searched are fields of the index.
    pub open spec fn is_valid(&self) -> bool {
        self.ss.f_name_norm < reader_fields(self.reader).len() && self.ss.f_context < reader_fields(
            self.reader,
        ).len()
    }

    /// Where the fields are.
    pub open spec fn schema(&self) -> SearchSchema {
        *self.ss
    }

    /// The documents that the engine finds for a query with at most `limit`
    /// places in its answer.
    pub open spec fn found(&self, q: Seq<char>, limit: int) -> Seq<HitModel> {
        best_hits(self.reader, clauses_for(*self.ss, tokens_of(q)), 20 * limit)
    }

    /// Whether the documents that the engine finds are ones that the reader
    /// holds.
    pub open spec fn holds_found(&self, q: Seq<char>, limit: int) -> bool {
        forall|i: int|
            0 <= i < self.found(q, limit).len() ==> is_one_of(
                reader_fields(self.reader),
                reader_docs(self.reader),
                #[trigger] self.found(q, limit)[i],
            )
    }

    /// What a search needs, from the outcome of opening a reader: it is had if
    /// and only if the reader was, and the engine's error is handed on.
    pub fn with_reader(opened: Result<IndexReader, TantivyError>, ss: Arc<SearchSchema>) -> (r:
        Result<Self, SearchError>)
        ensures
            match (opened, r) {
                (Ok(reader), Ok(state)) => state.reader == reader && state.ss == ss,
                (Err(e), Err(SearchError::Engine(f))) => f == e,
                _ => false,
            },
    {
        match opened {
            Ok(reader) => Ok(SearchState { reader, ss }),
            Err(e) => Err(SearchError::Engine(e)),
        }
    }

    /// Opens an index for searching. Whether the engine can open a reader is
    /// not stated; what follows from either outcome, `with_reader` says.
    pub fn new(index: &tantivy::Index, ss: Arc<SearchSchema>) -> (r: Result<Self, SearchError>)
        requires
            ss.f_name_norm < index_fields(*index).len(),
            ss.f_context < index_fields(*index).len(),
        ensures
            r is Ok ==> r->Ok_0.is_valid() && r->Ok_0.ss == ss,
            r is Ok ==> reader_fields(r->Ok_0.reader) == index_fields(*index),
            r is Ok ==> reader_docs(r->Ok_0.reader) == index_docs(*index),
    {
        Self::with_reader(open_reader(index), ss)
    }
}

/// Every place in the answer to a search of an index is one that was put into
/// it: it is shown as it was written, with its coordinates and its kind.
pub proof fn law_search_finds_indexed_places<W: Fn(u32, u64, u128) -> u64>(
    index: tantivy::Index,
    ss: SearchSchema,
    places: Seq<DocModel>,
    state: SearchState,
    q: Seq<char>,
    weigh: W,
    limit: nat,
    r: Seq<ResultModel>,
)
    requires
        holds_all(index, ss, places),
        state.ss.is_standard(),
        reader_fields(state.reader) == index_fields(index),
        reader_docs(state.reader) == index_docs(index),
        state.holds_found(q, limit as int),
        answered(*state.ss, q, state.found(q, limit as int), weigh, limit, r),
    ensures
        are_written(r, places),
{
    law_index_holds_places(index, ss, places);
    assert(holds_only(*state.ss, index_docs(index), places)) by {
        assert forall|values: Seq<(u32, DocValue)>| #[trigger]
            index_docs(index).contains(values) implies exists|i: int|
            0 <= i < places.len() && values == place_values(*state.ss, #[trigger] places[i]) by {
            let i = choose|i: int|
                0 <= i < places.len() && values == place_values(ss, #[trigger] places[i]);
            assert(place_values(ss, places[i]) =~= place_values(*state.ss, places[i]));
        }
    }
    law_answers_are_written_places(
        state.schema(),
        q,
        state.found(q, limit as int),
        weigh,
        limit,
        r,
        index_docs(index),
        places,
    );
}

/// For each place that an answer may have, the engine is asked for twenty documents
/// that match the words of the query.
pub proof fn law_twenty_documents_are_looked_at(state: SearchState, q: Seq<char>, limit: int)
    ensures
        state.found(q, limit) == best_hits(
            state.reader,
            clauses_for(state.schema(), tokens_of(q)),
            limit * 20,
        ),
        state.schema() == *state.ss,
{
}

/// How many more documents are looked at than are answered.
pub const HITS_PER_RESULT: usize = 20;

/// Makes the answer to a query from the outcome of asking the engine: there is
/// one if and only if the engine did not fail, and its error is handed on.
pub fn answer_outcome<W: Fn(u32, u64, u128) -> u64>(
    ss: &SearchSchema,
    q: &str,
    outcome: Result<Vec<Hit>, TantivyError>,
    weigh: &W,
    limit: usize,
) -> (r: Result<Vec<SearchResult>, SearchError>)
    requires
        forall|score: u32, importance: u64, boost: u128|
            call_requires(*weigh, (score, importance, boost)),
    ensures
        match (outcome, r) {
            (Ok(hits), Ok(results)) => answered(
                *ss,
                q@,
                hit_views(hits@),
                *weigh,
                limit as nat,
                result_views(results@),
            ),
            (Err(e), Err(SearchError::Engine(f))) => f == e,
            _ => false,
        },
{
    match outcome {
        Ok(hits) => Ok(answer_from(ss, q, &hits, weigh, limit)),
        Err(e) => Err(SearchError::Engine(e)),
    }
}

/// Searches for a text. The engine is asked for the documents that match the
/// query, and the answer is made from what it finds. Whether the engine fails
/// is not stated; what follows from either outcome, `answer_outcome` says.
pub fn run_search<W: Fn(u32, u64, u128) -> u64>(
    state: &SearchState,
    q: &str,
    limit: usize,
    weigh: &W,
) -> (r: Result<Vec<SearchResult>, SearchError>)
    requires
        state.is_valid(),
        0 < limit <= usize::MAX / 40960,
        forall|score: u32, importance: u64, boost: u128|
            call_requires(*weigh, (score, importance, boost)),
    ensures
        r is Ok ==> answered(
            *state.ss,
            q@,
            state.found(q@, limit as int),
            *weigh,
            limit as nat,
            result_views(r->Ok_0@),
        ),
        r is Ok ==> state.found(q@, limit as int).len() <= 20 * limit,
        r is Ok ==> state.holds_found(q@, limit as int),
{
    let ss: &SearchSchema = &state.ss;
    let query = build_query(ss, q);
    proof {
        lemma_clause_fields(*ss, tokens_of(q@), reader_fields(state.reader).len() as int);
    }
    let outcome = search(&state.reader, &query, limit * HITS_PER_RESULT);
    proof {
        if outcome is Ok {
            let hits = outcome->Ok_0;
            let found = state.found(q@, limit as int);
            assert(hit_views(hits@) == found);
            assert forall|i: int| 0 <= i < found.len() implies is_one_of(
                reader_fields(state.reader),
                reader_docs(state.reader),
                #[trigger] found[i],
            ) by {
                assert(found[i] == hits@[i]@);
            }
        }
    }
    answer_outcome(ss, q, outcome, weigh, limit)
}

// --- Requests ---

/// What is asked.
pub struct SearchParams {
    pub q: Option<String>,
}

/// What is replied.
pub enum Reply {
    /// The status and a message, and what the engine failed with, where it did.
    Refused { status: u16, error: &'static str, cause: Option<SearchError> },
    Found(Vec<SearchResult>),
}

/// Whether a reply refuses with a status and a message.
pub open spec fn refuses(r: Reply, code: u16, message: Seq<char>) -> bool {
    match r {
        Reply::Refused { status, error, .. } => status == code && error@ == message,
        Reply::Found(_) => false,
    }
}

/// What the engine failed with, where a reply refuses because of that.
pub open spec fn cause_of(r: Reply) -> Option<SearchError> {
    match r {
        Reply::Refused { cause, .. } => cause,
        Reply::Found(_) => None,
    }
}

/// How many places a reply has at most.
pub const REPLY_LIMIT: usize = 5;

/// Whether something is asked.
pub open spec fn is_asked(params: SearchParams) -> bool {
    match params.q {
        Some(q) => trimmed(q@).len() > 0,
        None => false,
    }
}

/// `r` is a reply to a request: a refusal where nothing is asked, and else the answer
/// to what is asked, or a refusal because the engine failed.
pub open spec fn replies<W: Fn(u32, u64, u128) -> u64>(
    params: SearchParams,
    state: SearchState,
    weigh: W,
    r: Reply,
) -> bool {
    if !is_asked(params) {
        refuses(r, 400, "missing query parameter q"@) && cause_of(r) is None
    } else {
        match r {
            Reply::Refused { .. } => refuses(r, 500, "search error"@) && cause_of(r) is Some,
            Reply::Found(results) => answered(
                state.schema(),
                trimmed(params.q->0@),
                state.found(trimmed(params.q->0@), 5),
                weigh,
                5,
                result_views(results@),
            ) && state.holds_found(trimmed(params.q->0@), 5),
        }
    }
}

/// A request without a query, or with one of whitespace alone, is refused as a bad
/// one; any other is refused because the engine failed, or answered with at most
/// five places, from at most a hundred documents that the engine finds for its
/// words.
pub proof fn law_requests_are_answered<W: Fn(u32, u64, u128) -> u64>(
    params: SearchParams,
    state: SearchState,
    weigh: W,
    r: Reply,
)
    requires
        replies(params, state, weigh, r),
    ensures
        ({
            let blank = params.q is None || forall|i: int|
                0 <= i < params.q->0@.len() ==> is_white(#[trigger] params.q->0@[i]);
            match r {
                Reply::Refused { status, error, cause } => (blank && status == 400 && error@
                    == "missing query parameter q"@ && cause is None) || (!blank && status == 500
                    && error@ == "search error"@ && cause is Some),
                Reply::Found(results) => !blank && results@.len() <= 5 && answered(
                    state.schema(),
                    params.q->0@,
                    best_hits(
                        state.reader,
                        clauses_for(state.schema(), tokens_of(params.q->0@)),
                        100,
                    ),
                    weigh,
                    5,
                    result_views(results@),
                ),
            }
        }),
{
    if let Some(q) = params.q {
        lemma_trimmed_is_empty(q@);
        law_outer_whitespace_changes_nothing(q@);
        if let Reply::Found(results) = r {
            if is_asked(params) {
                let hits = state.found(trimmed(q@), 5);
                let candidates = candidates_of(
                    state.schema(),
                    tokens_of(q@),
                    hits,
                    hits.len() as int,
                );
                let weights = choose|weights: Seq<u64>| #[trigger]
                    candidates_weighed(weigh, candidates, weights) && result_views(results@)
                        == answer_of(ranked(scored_of(candidates, weights)), 5);
                let ranking = ranked(scored_of(candidates, weights));
                law_answer_has_no_doubles(ranking, 5, ranking.len() as int);
                assert(candidates_weighed(weigh, candidates, weights));
            }
        }
    }
}

/// The reply to the outcome of a search.
pub fn reply_to(outcome: Result<Vec<SearchResult>, SearchError>) -> (r: Reply)
    ensures
        match outcome {
            Ok(results) => r == Reply::Found(results),
            Err(e) => refuses(r, 500, "search error"@) && cause_of(r) == Some(e),
        },
{
    match outcome {
        Ok(results) => Reply::Found(results),
        Err(e) => Reply::Refused { status: 500, error: "search error", cause: Some(e) },
    }
}

/// Replies to a request. One that asks nothing is refused; any other is
/// answered with at most five places, or refused because the engine failed.
pub fn search_handler<W: Fn(u32, u64, u128) -> u64>(
    params: SearchParams,
    state: &SearchState,
    weigh: &W,
) -> (r: Reply)
    requires
        state.is_valid(),
        forall|score: u32, importance: u64, boost: u128|
            call_requires(*weigh, (score, importance, boost)),
    ensures
        !is_asked(params) ==> refuses(r, 400, "missing query parameter q"@) && cause_of(r) is None,
        is_asked(params) ==> match r {
            Reply::Refused { .. } => refuses(r, 500, "search error"@) && cause_of(r) is Some,
            Reply::Found(results) => answered(
                *state.ss,
                trimmed(params.q->0@),
                state.found(trimmed(params.q->0@), 5),
                *weigh,
                5,
                result_views(results@),
            ) && state.holds_found(trimmed(params.q->0@), 5),
        },
        replies(params, *state, *weigh, r),
{
    let q = match &params.q {
        Some(q) => q.as_str().trim(),
        None => "",
    };
    proof {
        reveal_strlit("");
    }
    if q.is_empty() {
        return Reply::Refused { status: 400, error: "missing query parameter q", cause: None };
    }
    reply_to(run_search(state, q, REPLY_LIMIT, weigh))
}

} // verus!
