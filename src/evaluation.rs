//! The integer side of mean average precision: which documents are relevant
//! to a query, and at which ranks a ranked list meets them.
use vstd::prelude::*;

use crate::text::{
    chars_of, lines, parse_i32, parse_i32_spec, parse_u32, parse_u32_spec, split_lines, split_words,
    views, words,
};
use crate::DocId;

verus! {

/// The character of a decimal digit.
pub open spec fn digit_char(d: nat) -> char {
    ((d + 48) as u8) as char
}

/// The decimal text of `n`, as `u32::to_string` writes it: no sign, no leading zero.
pub open spec fn decimal(n: nat) -> Seq<char>
    decreases n,
{
    if n < 10 {
        seq![digit_char(n)]
    } else {
        decimal(n / 10).push(digit_char(n % 10))
    }
}

pub fn decimal_chars(n: u32) -> (r: Vec<char>)
    ensures
        r@ == decimal(n as nat),
    decreases n,
{
    let c = ((n % 10) as u8 + 48) as char;
    if n < 10 {
        let mut v: Vec<char> = Vec::new();
        v.push(c);
        assert(v@ =~= seq![digit_char(n as nat)]);
        v
    } else {
        let mut v = decimal_chars(n / 10);
        v.push(c);
        v
    }
}

fn same_chars(a: &Vec<char>, b: &Vec<char>) -> (r: bool)
    ensures
        r == (a@ == b@),
{
    if a.len() != b.len() {
        return false;
    }
    let mut i: usize = 0;
    while i < a.len()
        invariant
            i <= a.len() == b.len(),
            forall|j: int| 0 <= j < i ==> a@[j] == b@[j],
        decreases a.len() - i,
    {
        if a[i] != b[i] {
            return false;
        }
        i += 1;
    }
    assert(a@ =~= b@);
    true
}

/// A line `query_id doc_id grade` judging `doc` relevant to `query`: exactly
/// three fields, the first the query id's decimal text, the second a
/// document id, the third a grade of at least 2.
pub open spec fn judges_relevant(l: Seq<char>, query: DocId, doc: DocId) -> bool {
    let ws = words(l);
    &&& ws.len() == 3
    &&& ws[0] == decimal(query as nat)
    &&& parse_u32_spec(ws[1]) == Some(doc)
    &&& match parse_i32_spec(ws[2]) {
        Some(g) => g >= 2,
        None => false,
    }
}

/// Whether some line of the judgments marks `doc` relevant to `query`.
pub open spec fn is_relevant(qrels: Seq<char>, query: DocId, doc: DocId) -> bool {
    exists|i: int| 0 <= i < lines(qrels).len() && judges_relevant(#[trigger] lines(qrels)[i], query, doc)
}

fn judge_line(l: &Vec<char>, query: DocId, query_text: &Vec<char>) -> (r: Option<DocId>)
    requires
        query_text@ == decimal(query as nat),
    ensures
        match r {
            Some(d) => judges_relevant(l@, query, d),
            None => forall|d: DocId| !judges_relevant(l@, query, d),
        },
{
    let ws = split_words(l);
    if ws.len() != 3 {
        return None;
    }
    if !same_chars(&ws[0], query_text) {
        return None;
    }
    match (parse_u32(&ws[1]), parse_i32(&ws[2])) {
        (Some(d), Some(g)) => {
            if g >= 2 {
                Some(d)
            } else {
                None
            }
        },
        _ => None,
    }
}

/// The documents judged relevant to `query`, each once, in order of first judgment.
pub fn relevance_set(qrels: &str, query: DocId) -> (r: Vec<DocId>)
    ensures
        r@.no_duplicates(),
        forall|d: DocId| #[trigger] r@.contains(d) <==> is_relevant(qrels@, query, d),
{
    let chars = chars_of(qrels);
    let ls = split_lines(&chars);
    let query_text = decimal_chars(query);
    let ghost lv = views(ls@);
    let mut out: Vec<DocId> = Vec::new();
    let mut i: usize = 0;
    while i < ls.len()
        invariant
            i <= ls.len(),
            lv == views(ls@),
            lv == lines(qrels@),
            query_text@ == decimal(query as nat),
            out@.no_duplicates(),
            forall|d: DocId|
                #[trigger] out@.contains(d) <==> exists|k: int|
                    0 <= k < i && judges_relevant(#[trigger] lv[k], query, d),
        decreases ls.len() - i,
    {
        assert(lv[i as int] == ls@[i as int]@);
        let ghost before = out@;
        match judge_line(&ls[i], query, &query_text) {
            Some(d) => {
                let mut seen = false;
                let mut a: usize = 0;
                while a < out.len()
                    invariant
                        a <= out.len(),
                        seen <==> exists|b: int| 0 <= b < a && out@[b] == d,
                    decreases out.len() - a,
                {
                    if out[a] == d {
                        seen = true;
                    }
                    a += 1;
                }
                if !seen {
                    out.push(d);
                    assert forall|x: int, y: int|
                        0 <= x < y < out.len() implies out@[x] != out@[y] by {
                        if y == out.len() - 1 {
                            assert(before[x] == out@[x]);
                        }
                    }
                }
            },
            None => {},
        }
        assert forall|d2: DocId|
            #[trigger] out@.contains(d2) <==> exists|k: int|
                0 <= k < i + 1 && judges_relevant(#[trigger] lv[k], query, d2) by {
            if out@.contains(d2) && !before.contains(d2) {
                assert(judges_relevant(lv[i as int], query, d2));
            }
            if before.contains(d2) {
                let x = choose|x: int| 0 <= x < before.len() && before[x] == d2;
                assert(out@[x] == d2);
            }
            if exists|k: int| 0 <= k < i + 1 && judges_relevant(#[trigger] lv[k], query, d2) {
                let k = choose|k: int| 0 <= k < i + 1 && judges_relevant(#[trigger] lv[k], query, d2);
                if k == i {
                    if !before.contains(d2) {
                        assert(out@[out.len() - 1] == d2);
                    }
                } else {
                    assert(before.contains(d2));
                    let x = choose|x: int| 0 <= x < before.len() && before[x] == d2;
                    assert(out@[x] == d2);
                }
            }
        }
        i += 1;
    }
    out
}

/// The 1-based ranks at which the ranked list holds a relevant document.
pub open spec fn hit_ranks(ranked: Seq<DocId>, relevant: Seq<DocId>) -> Seq<int>
    decreases ranked.len(),
{
    if ranked.len() == 0 {
        Seq::empty()
    } else if relevant.contains(ranked.last()) {
        hit_ranks(ranked.drop_last(), relevant).push(ranked.len() as int)
    } else {
        hit_ranks(ranked.drop_last(), relevant)
    }
}

/// The ranks at which a walk down the ranked list meets relevant documents,
/// stopping once as many were met as there are relevant documents. Average
/// precision is the sum of `(k + 1) / r[k]` divided by the number of relevant
/// documents, or 0 when there are none.
pub fn relevant_ranks(ranked: &Vec<DocId>, relevant: &Vec<DocId>) -> (r: Vec<usize>)
    ensures
        r.len() == if hit_ranks(ranked@, relevant@).len() < relevant.len() {
            hit_ranks(ranked@, relevant@).len() as int
        } else {
            relevant.len() as int
        },
        forall|k: int| 0 <= k < r.len() ==> r@[k] == hit_ranks(ranked@, relevant@)[k],
{
    let mut out: Vec<usize> = Vec::new();
    if relevant.len() == 0 {
        return out;
    }
    let mut i: usize = 0;
    while i < ranked.len()
        invariant
            i <= ranked.len(),
            relevant.len() > 0,
            out.len() < relevant.len(),
            out.len() == hit_ranks(ranked@.take(i as int), relevant@).len(),
            forall|k: int| 0 <= k < out.len() ==> out@[k] == hit_ranks(ranked@.take(i as int), relevant@)[k],
        decreases ranked.len() - i,
    {
        proof {
            assert(ranked@.take(i + 1).drop_last() =~= ranked@.take(i as int));
            lemma_hit_ranks_prefix(ranked@, relevant@, i + 1);
        }
        let d = ranked[i];
        let mut found = false;
        let mut a: usize = 0;
        while a < relevant.len()
            invariant
                a <= relevant.len(),
                found <==> exists|b: int| 0 <= b < a && relevant@[b] == d,
            decreases relevant.len() - a,
        {
            if relevant[a] == d {
                found = true;
            }
            a += 1;
        }
        if found {
            out.push(i + 1);
            if out.len() == relevant.len() {
                return out;
            }
        }
        i += 1;
    }
    proof {
        assert(ranked@.take(ranked.len() as int) =~= ranked@);
    }
    out
}

/// The hits of a prefix are a prefix of the hits.
proof fn lemma_hit_ranks_prefix(ranked: Seq<DocId>, relevant: Seq<DocId>, n: int)
    requires
        0 <= n <= ranked.len(),
    ensures
        hit_ranks(ranked.take(n), relevant).len() <= hit_ranks(ranked, relevant).len(),
        forall|k: int|
            0 <= k < hit_ranks(ranked.take(n), relevant).len() ==> hit_ranks(ranked.take(n), relevant)[k]
                == hit_ranks(ranked, relevant)[k],
    decreases ranked.len() - n,
{
    if n < ranked.len() {
        lemma_hit_ranks_prefix(ranked, relevant, n + 1);
        assert(ranked.take(n + 1).drop_last() =~= ranked.take(n));
    } else {
        assert(ranked.take(n) =~= ranked);
    }
}

/// The hit ranks climb strictly from at least 1 to at most the list's length.
proof fn lemma_hit_ranks_climb(ranked: Seq<DocId>, relevant: Seq<DocId>)
    ensures
        forall|k: int|
            0 <= k < hit_ranks(ranked, relevant).len() ==> k + 1 <= #[trigger] hit_ranks(
                ranked,
                relevant,
            )[k] <= ranked.len(),
        hit_ranks(ranked, relevant).len() <= ranked.len(),
    decreases ranked.len(),
{
    if ranked.len() > 0 {
        lemma_hit_ranks_climb(ranked.drop_last(), relevant);
    }
}

/// Average precision lies in `[0, 1]`: each term `(k + 1) / r[k]` has
/// `1 <= k + 1 <= r[k]`, and there are at most as many terms as relevant
/// documents, by which the sum is divided. With no relevant documents there
/// are no terms, and the average precision is 0.
pub proof fn lemma_average_precision_bounded(ranked: Seq<DocId>, relevant: Seq<DocId>, r: Seq<int>)
    requires
        r.len() == if hit_ranks(ranked, relevant).len() < relevant.len() {
            hit_ranks(ranked, relevant).len() as int
        } else {
            relevant.len() as int
        },
        forall|k: int| 0 <= k < r.len() ==> r[k] == hit_ranks(ranked, relevant)[k],
    ensures
        r.len() <= relevant.len(),
        forall|k: int| 0 <= k < r.len() ==> 1 <= k + 1 <= #[trigger] r[k],
        relevant.len() == 0 ==> r.len() == 0,
{
    lemma_hit_ranks_climb(ranked, relevant);
    assert forall|k: int| 0 <= k < r.len() implies 1 <= k + 1 <= #[trigger] r[k] by {
        assert(r[k] == hit_ranks(ranked, relevant)[k]);
    }
}

} // verus!
