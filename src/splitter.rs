//! Splitting a corpus into records, each opened by a `.I <id>` line, and
//! reading queries out of records.
use std::collections::HashMap;
use vstd::prelude::*;

use crate::text::{
    chars_of, join, join_chars, lines, parse_u32, split_lines, split_words, string_of, trim, trim_chars,
    views, words, parse_u32_spec,
};
use crate::DocId;

verus! {

broadcast use vstd::std_specs::hash::group_hash_axioms;

/// A line that opens a record.
pub open spec fn is_record_start(l: Seq<char>) -> bool {
    l.len() >= 2 && l[0] == '.' && l[1] == 'I'
}

/// The id in a record-start line: its second whitespace-separated field.
pub open spec fn record_id(l: Seq<char>) -> Option<DocId> {
    if words(l).len() >= 2 {
        parse_u32_spec(words(l)[1])
    } else {
        None
    }
}

/// The records completed so far, the lines of the open record, its id, and
/// the positions of record-start lines whose id could not be read.
pub open spec fn scan_records(ls: Seq<Seq<char>>) -> (
    Seq<(DocId, Seq<Seq<char>>)>,
    Seq<Seq<char>>,
    DocId,
    Seq<int>,
)
    decreases ls.len(),
{
    if ls.len() == 0 {
        (Seq::empty(), Seq::empty(), 0, Seq::empty())
    } else {
        let prev = scan_records(ls.drop_last());
        let l = ls.last();
        if is_record_start(l) {
            let recs = if prev.1.len() > 0 {
                prev.0.push((prev.2, prev.1))
            } else {
                prev.0
            };
            match record_id(l) {
                Some(id) => (recs, seq![l], id, prev.3),
                None => (recs, seq![l], prev.2, prev.3.push(ls.len() - 1)),
            }
        } else {
            (prev.0, prev.1.push(l), prev.2, prev.3)
        }
    }
}

/// The records of a text's lines: a record-start line closes the open record
/// if it holds any line; the last record is always closed.
pub open spec fn records(ls: Seq<Seq<char>>) -> Seq<(DocId, Seq<Seq<char>>)> {
    let st = scan_records(ls);
    st.0.push((st.2, st.1))
}

/// The positions of the record-start lines whose id could not be read.
pub open spec fn malformed_starts(ls: Seq<Seq<char>>) -> Seq<int> {
    scan_records(ls).3
}

fn record_start_id(l: &Vec<char>) -> (r: (bool, Option<DocId>))
    ensures
        r.0 == is_record_start(l@),
        r.1 == record_id(l@),
{
    let start = l.len() >= 2 && l[0] == '.' && l[1] == 'I';
    let ws = split_words(l);
    if ws.len() >= 2 {
        (start, parse_u32(&ws[1]))
    } else {
        (start, None)
    }
}

fn split_records(ls: &Vec<Vec<char>>) -> (r: (Vec<(DocId, Vec<Vec<char>>)>, Vec<usize>))
    ensures
        r.0.len() == records(views(ls@)).len(),
        forall|j: int|
            0 <= j < r.0.len() ==> (#[trigger] r.0@[j]).0 == records(views(ls@))[j].0 && views(
                r.0@[j].1@,
            ) == records(views(ls@))[j].1,
        r.1.len() == malformed_starts(views(ls@)).len(),
        forall|j: int| 0 <= j < r.1.len() ==> r.1@[j] == malformed_starts(views(ls@))[j],
{
    let ghost lv = views(ls@);
    let mut recs: Vec<(DocId, Vec<Vec<char>>)> = Vec::new();
    let mut buffer: Vec<Vec<char>> = Vec::new();
    let mut id: DocId = 0;
    let mut bad: Vec<usize> = Vec::new();
    let mut i: usize = 0;
    while i < ls.len()
        invariant
            i <= ls.len(),
            lv == views(ls@),
            ({
                let st = scan_records(lv.take(i as int));
                &&& recs.len() == st.0.len()
                &&& forall|j: int|
                    0 <= j < recs.len() ==> (#[trigger] recs@[j]).0 == st.0[j].0 && views(
                        recs@[j].1@,
                    ) == st.0[j].1
                &&& views(buffer@) == st.1
                &&& id == st.2
                &&& bad.len() == st.3.len()
                &&& forall|j: int| 0 <= j < bad.len() ==> bad@[j] == st.3[j]
            }),
        decreases ls.len() - i,
    {
        proof {
            assert(lv.take(i + 1).drop_last() =~= lv.take(i as int));
            assert(lv.take(i + 1).last() == ls@[i as int]@);
        }
        let line = &ls[i];
        let (start, parsed) = record_start_id(line);
        let ghost prev_recs = recs@;
        let ghost prev_bad = bad@;
        if start {
            if buffer.len() > 0 {
                let mut flushed: Vec<Vec<char>> = Vec::new();
                std::mem::swap(&mut flushed, &mut buffer);
                recs.push((id, flushed));
                assert forall|j: int| 0 <= j < recs.len() - 1 implies (#[trigger] recs@[j])
                    == prev_recs[j] by {}
            }
            let mut fresh: Vec<Vec<char>> = Vec::new();
            fresh.push(line.clone());
            buffer = fresh;
            match parsed {
                Some(v) => {
                    id = v;
                },
                None => {
                    bad.push(i);
                    assert forall|j: int| 0 <= j < bad.len() - 1 implies bad@[j] == prev_bad[j] by {}
                },
            }
        } else {
            let ghost before = views(buffer@);
            buffer.push(line.clone());
            assert(views(buffer@) =~= before.push(line@));
        }
        proof {
            let st = scan_records(lv.take(i + 1));
            assert(views(buffer@) =~= st.1);
        }
        i += 1;
    }
    proof {
        assert(lv.take(ls.len() as int) =~= lv);
    }
    recs.push((id, buffer));
    (recs, bad)
}

/// Splits a corpus into its records: each record's id and its lines joined
/// with newlines; and the positions of the record-start lines whose id could
/// not be read (such a record keeps the previous id).
pub fn split_documents(corpus: &str) -> (r: (Vec<(DocId, String)>, Vec<usize>))
    ensures
        r.0.len() == records(lines(corpus@)).len(),
        forall|j: int|
            0 <= j < r.0.len() ==> (#[trigger] r.0@[j]).0 == records(lines(corpus@))[j].0
                && r.0@[j].1@ == join(records(lines(corpus@))[j].1, '\n'),
        r.1@ == malformed_starts(lines(corpus@)).map_values(|x: int| x as usize),
{
    let chars = chars_of(corpus);
    let ls = split_lines(&chars);
    let (recs, bad) = split_records(&ls);
    let mut out: Vec<(DocId, String)> = Vec::new();
    let mut j: usize = 0;
    while j < recs.len()
        invariant
            j <= recs.len(),
            recs.len() == records(lines(corpus@)).len(),
            forall|a: int|
                0 <= a < recs.len() ==> (#[trigger] recs@[a]).0 == records(lines(corpus@))[a].0
                    && views(recs@[a].1@) == records(lines(corpus@))[a].1,
            out.len() == j,
            forall|a: int|
                0 <= a < j ==> (#[trigger] out@[a]).0 == records(lines(corpus@))[a].0 && out@[a].1@
                    == join(records(lines(corpus@))[a].1, '\n'),
        decreases recs.len() - j,
    {
        let content = join_chars(&recs[j].1, '\n');
        out.push((recs[j].0, string_of(&content)));
        j += 1;
    }
    assert(bad@ =~= malformed_starts(lines(corpus@)).map_values(|x: int| x as usize));
    (out, bad)
}

/// A line that is markup in a query collection: a record start or `.W`.
pub open spec fn is_query_marker(l: Seq<char>) -> bool {
    l.len() >= 2 && l[0] == '.' && (l[1] == 'I' || l[1] == 'W')
}

/// The lines that are not markup, in order.
pub open spec fn text_lines(ls: Seq<Seq<char>>) -> Seq<Seq<char>>
    decreases ls.len(),
{
    if ls.len() == 0 {
        ls
    } else if is_query_marker(ls.last()) {
        text_lines(ls.drop_last())
    } else {
        text_lines(ls.drop_last()).push(ls.last())
    }
}

/// A query's text: its non-markup lines joined by single spaces, trimmed.
pub open spec fn query_text(ls: Seq<Seq<char>>) -> Seq<char> {
    trim(join(text_lines(ls), ' '))
}

/// Query id → text; a later record with the same id replaces an earlier one.
pub open spec fn queries_of(recs: Seq<(DocId, Seq<Seq<char>>)>) -> Map<DocId, Seq<char>>
    decreases recs.len(),
{
    if recs.len() == 0 {
        Map::empty()
    } else {
        queries_of(recs.drop_last()).insert(recs.last().0, query_text(recs.last().1))
    }
}

fn query_of(ls: &Vec<Vec<char>>) -> (r: String)
    ensures
        r@ == query_text(views(ls@)),
{
    let ghost lv = views(ls@);
    let mut kept: Vec<Vec<char>> = Vec::new();
    let mut i: usize = 0;
    while i < ls.len()
        invariant
            i <= ls.len(),
            lv == views(ls@),
            views(kept@) == text_lines(lv.take(i as int)),
        decreases ls.len() - i,
    {
        proof {
            assert(lv.take(i + 1).drop_last() =~= lv.take(i as int));
            assert(lv.take(i + 1).last() == ls@[i as int]@);
        }
        let l = &ls[i];
        if !(l.len() >= 2 && l[0] == '.' && (l[1] == 'I' || l[1] == 'W')) {
            let ghost before = views(kept@);
            kept.push(l.clone());
            assert(views(kept@) =~= before.push(l@));
        }
        i += 1;
    }
    proof {
        assert(lv.take(ls.len() as int) =~= lv);
    }
    let joined = join_chars(&kept, ' ');
    string_of(&trim_chars(&joined))
}

/// Reads a query collection: the text of each query by its id.
pub fn extract_queries(content: &str) -> (r: HashMap<DocId, String>)
    ensures
        forall|id: DocId|
            #[trigger] r@.contains_key(id) <==> queries_of(records(lines(content@))).contains_key(id),
        forall|id: DocId|
            #[trigger] r@.contains_key(id) ==> r@[id]@ == queries_of(records(lines(content@)))[id],
{
    let chars = chars_of(content);
    let ls = split_lines(&chars);
    let (recs, _bad) = split_records(&ls);
    let ghost rv = records(lines(content@));
    let mut out: HashMap<DocId, String> = HashMap::new();
    let mut j: usize = 0;
    while j < recs.len()
        invariant
            j <= recs.len(),
            recs.len() == rv.len(),
            rv == records(lines(content@)),
            forall|a: int|
                0 <= a < recs.len() ==> (#[trigger] recs@[a]).0 == rv[a].0 && views(recs@[a].1@)
                    == rv[a].1,
            forall|id: DocId|
                #[trigger] out@.contains_key(id) <==> queries_of(rv.take(j as int)).contains_key(
                    id,
                ),
            forall|id: DocId|
                #[trigger] out@.contains_key(id) ==> out@[id]@ == queries_of(rv.take(j as int))[id],
        decreases recs.len() - j,
    {
        proof {
            assert(rv.take(j + 1).drop_last() =~= rv.take(j as int));
        }
        let text = query_of(&recs[j].1);
        out.insert(recs[j].0, text);
        j += 1;
    }
    proof {
        assert(rv.take(recs.len() as int) =~= rv);
    }
    out
}

} // verus!
