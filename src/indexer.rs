//! Building the inverted index from split documents.
use vstd::prelude::*;

use crate::text::{
    chars_of, copy_range, lines, parse_u32, parse_u32_spec, split_lines, split_words, string_of,
    strip_dots, strip_dots_chars, trim, trim_chars, views, words,
};
use crate::tokenizer::{lower_of, lowercase, token_of, tokenize, Stopwords};
use crate::types::{ascending, InvertedIndex, Posting};
use crate::DocId;

verus! {

broadcast use vstd::std_specs::hash::group_hash_axioms;

/// Each word lowercased.
pub open spec fn lowered(ws: Seq<Seq<char>>) -> Seq<Seq<char>> {
    ws.map_values(|w: Seq<char>| lower_of(w))
}

/// How often `x` occurs in `s`.
pub open spec fn occurrences(s: Seq<Seq<char>>, x: Seq<char>) -> nat
    decreases s.len(),
{
    if s.len() == 0 {
        0
    } else {
        occurrences(s.drop_last(), x) + if s.last() == x {
            1nat
        } else {
            0nat
        }
    }
}

/// The elements of `s` without repeats, in order of first occurrence.
pub open spec fn distinct(s: Seq<Seq<char>>) -> Seq<Seq<char>>
    decreases s.len(),
{
    if s.len() == 0 {
        s
    } else if distinct(s.drop_last()).contains(s.last()) {
        distinct(s.drop_last())
    } else {
        distinct(s.drop_last()).push(s.last())
    }
}

pub open spec fn entry_keys(es: Seq<(String, u32)>) -> Seq<Seq<char>> {
    es.map_values(|e: (String, u32)| e.0@)
}

proof fn lemma_absent_never_occurs(s: Seq<Seq<char>>, x: Seq<char>)
    requires
        !distinct(s).contains(x),
    ensures
        occurrences(s, x) == 0,
    decreases s.len(),
{
    if s.len() > 0 {
        if distinct(s.drop_last()).contains(x) {
            let k = choose|k: int|
                0 <= k < distinct(s.drop_last()).len() && distinct(s.drop_last())[k] == x;
            if !distinct(s.drop_last()).contains(s.last()) {
                assert(distinct(s)[k] == x);
            }
        }
        if s.last() == x {
            if !distinct(s.drop_last()).contains(s.last()) {
                assert(distinct(s)[distinct(s).len() - 1] == x);
            }
        }
        lemma_absent_never_occurs(s.drop_last(), x);
    }
}

/// The position of `key` among the entries' keys.
fn find_key(entries: &Vec<(String, u32)>, key: &String) -> (r: Option<usize>)
    ensures
        match r {
            Some(a) => a < entries.len() && entries@[a as int].0@ == key@,
            None => forall|a: int| 0 <= a < entries.len() ==> entries@[a].0@ != key@,
        },
{
    let mut a: usize = 0;
    while a < entries.len()
        invariant
            a <= entries.len(),
            forall|j: int| 0 <= j < a ==> entries@[j].0@ != key@,
        decreases entries.len() - a,
    {
        if entries[a].0 == *key {
            return Some(a);
        }
        a += 1;
    }
    None
}

/// The raw term frequencies of a text: its distinct lowercased
/// whitespace-separated words in order of first occurrence, each with its
/// count, and the number of words.
pub fn calculate_document_tf(content: &str) -> (r: (Vec<(String, u32)>, u32))
    requires
        content@.len() <= u32::MAX,
    ensures
        r.1 == words(content@).len(),
        entry_keys(r.0@) == distinct(lowered(words(content@))),
        forall|j: int|
            0 <= j < r.0.len() ==> r.0@[j].1 == occurrences(
                lowered(words(content@)),
                #[trigger] r.0@[j].0@,
            ),
{
    let chars = chars_of(content);
    let ws = split_words(&chars);
    let ghost lw = lowered(views(ws@));
    let mut entries: Vec<(String, u32)> = Vec::new();
    let mut i: usize = 0;
    while i < ws.len()
        invariant
            i <= ws.len() <= u32::MAX,
            lw == lowered(views(ws@)),
            entry_keys(entries@) == distinct(lw.take(i as int)),
            forall|j: int|
                0 <= j < entries.len() ==> entries@[j].1 == occurrences(
                    lw.take(i as int),
                    #[trigger] entries@[j].0@,
                ) && entries@[j].1 <= i,
            forall|a: int, b: int|
                0 <= a < entries.len() && 0 <= b < entries.len() && a != b ==> entries@[a].0@
                    != entries@[b].0@,
        decreases ws.len() - i,
    {
        let term = lowercase(string_of(&ws[i]).as_str());
        proof {
            assert(lw.take(i + 1).drop_last() =~= lw.take(i as int));
            assert(lw.take(i + 1).last() == term@);
        }
        let ghost before = entries@;
        assert(forall|j: int|
            0 <= j < before.len() ==> before[j].1 == occurrences(
                lw.take(i as int),
                #[trigger] before[j].0@,
            ) && before[j].1 <= i);
        assert(forall|x: Seq<char>|
            #[trigger] occurrences(lw.take(i + 1), x) == occurrences(lw.take(i as int), x) + if term@
                == x {
                1nat
            } else {
                0nat
            });
        match find_key(&entries, &term) {
            Some(a) => {
                assert(entry_keys(before)[a as int] == term@);
                let c = entries[a].1;
                entries[a].1 = c + 1;
                assert(entry_keys(entries@) =~= entry_keys(before));
            },
            None => {
                assert(!entry_keys(before).contains(term@)) by {
                    if entry_keys(before).contains(term@) {
                        let k = choose|k: int|
                            0 <= k < entry_keys(before).len() && entry_keys(before)[k] == term@;
                        assert(before[k].0@ == term@);
                    }
                }
                proof {
                    lemma_absent_never_occurs(lw.take(i as int), term@);
                }
                entries.push((term, 1));
                assert(entry_keys(entries@) =~= entry_keys(before).push(term@));
            },
        }
        assert forall|j: int| 0 <= j < entries.len() implies entries@[j].1 == occurrences(
            lw.take(i + 1),
            #[trigger] entries@[j].0@,
        ) && entries@[j].1 <= i + 1 by {
            if j < before.len() {
                assert(entry_keys(entries@)[j] == entry_keys(before)[j]);
            }
        }
        i += 1;
    }
    proof {
        assert(lw.take(ws.len() as int) =~= lw);
    }
    (entries, ws.len() as u32)
}

/// A line that opens a title section: exactly `.T`.
pub open spec fn is_title_marker(l: Seq<char>) -> bool {
    l == seq!['.', 'T']
}

/// The first line that is not blank.
pub open spec fn first_nonblank(ls: Seq<Seq<char>>) -> Option<Seq<char>>
    decreases ls.len(),
{
    if ls.len() == 0 {
        None
    } else if trim(ls[0]).len() > 0 {
        Some(ls[0])
    } else {
        first_nonblank(ls.drop_first())
    }
}

/// The first non-blank line after the first title marker.
pub open spec fn title_line(ls: Seq<Seq<char>>) -> Option<Seq<char>>
    decreases ls.len(),
{
    if ls.len() == 0 {
        None
    } else if is_title_marker(ls[0]) {
        first_nonblank(ls.drop_first())
    } else {
        title_line(ls.drop_first())
    }
}

/// A document's display title: its title line trimmed and without trailing
/// full stops, or `Title Missing`.
pub open spec fn title_of(content: Seq<char>) -> Seq<char> {
    match title_line(lines(content)) {
        Some(l) => strip_dots(trim(l)),
        None => "Title Missing"@,
    }
}

pub fn extract_title_from_content(content: &str) -> (r: String)
    ensures
        r@ == title_of(content@),
{
    let chars = chars_of(content);
    let ls = split_lines(&chars);
    let ghost lv = views(ls@);
    let len = ls.len();
    let mut i: usize = 0;
    proof {
        assert(lv.subrange(0, len as int) =~= lv);
    }
    while i < len
        invariant
            i <= len == ls.len(),
            lv == views(ls@),
            lv == lines(content@),
            title_line(lv) == title_line(lv.subrange(i as int, len as int)),
        decreases len - i,
    {
        let line = &ls[i];
        proof {
            assert(lv.subrange(i as int, len as int).drop_first() =~= lv.subrange(
                i + 1,
                len as int,
            ));
            assert(lv.subrange(i as int, len as int)[0] == ls@[i as int]@);
        }
        if line.len() == 2 && line[0] == '.' && line[1] == 'T' {
            assert(line@ =~= seq!['.', 'T']);
            let mut j: usize = i + 1;
            while j < len
                invariant
                    i < j <= len == ls.len(),
                    lv == views(ls@),
                    lv == lines(content@),
                    title_line(lv) == first_nonblank(lv.subrange(j as int, len as int)),
                decreases len - j,
            {
                let tj = trim_chars(&ls[j]);
                proof {
                    assert(lv.subrange(j as int, len as int).drop_first() =~= lv.subrange(
                        j + 1,
                        len as int,
                    ));
                    assert(lv.subrange(j as int, len as int)[0] == ls@[j as int]@);
                }
                if tj.len() > 0 {
                    let stripped = strip_dots_chars(&tj);
                    return string_of(&stripped);
                }
                j += 1;
            }
            return String::from_str("Title Missing");
        } else {
            assert(line@ != seq!['.', 'T']) by {
                if line@ == seq!['.', 'T'] {
                    assert(line@[0] == '.' && line@[1] == 'T');
                }
            }
        }
        i += 1;
    }
    String::from_str("Title Missing")
}

/// The id that a stored document's name `doc<id>` carries.
pub open spec fn doc_id_of(name: Seq<char>) -> Option<DocId> {
    if name.len() >= 3 && name.take(3) == seq!['d', 'o', 'c'] {
        parse_u32_spec(name.skip(3))
    } else {
        None
    }
}

pub fn extract_doc_id(filename: &str) -> (r: Option<DocId>)
    ensures
        r == doc_id_of(filename@),
{
    let chars = chars_of(filename);
    if chars.len() >= 3 && chars[0] == 'd' && chars[1] == 'o' && chars[2] == 'c' {
        assert(chars@.take(3) =~= seq!['d', 'o', 'c']);
        let rest = copy_range(&chars, 3, chars.len());
        assert(rest@ =~= chars@.skip(3));
        parse_u32(&rest)
    } else {
        proof {
            if chars@.len() >= 3 && chars@.take(3) == seq!['d', 'o', 'c'] {
                assert(chars@.take(3)[0] == 'd');
                assert(chars@.take(3)[1] == 'o');
                assert(chars@.take(3)[2] == 'c');
            }
        }
        None
    }
}

/// How many of the words normalise to token `t`.
pub open spec fn token_count(ws: Seq<Seq<char>>, stop: Set<Seq<char>>, t: Seq<char>) -> nat
    decreases ws.len(),
{
    if ws.len() == 0 {
        0
    } else {
        token_count(ws.drop_last(), stop, t) + if token_of(lower_of(ws.last()), stop) == Some(t) {
            1nat
        } else {
            0nat
        }
    }
}

/// The frequency of token `t` in a document: the counts of its distinct raw
/// terms that normalise to `t`, summed; that is, the number of its words that do.
pub open spec fn doc_tf(content: Seq<char>, stop: Set<Seq<char>>, t: Seq<char>) -> nat {
    token_count(words(content), stop, t)
}

/// The tokens of a document's words, each once, with its frequency.
fn document_tokens(ws: &Vec<Vec<char>>, stopwords: &Stopwords) -> (r: Vec<(String, u32)>)
    requires
        ws.len() <= u32::MAX,
    ensures
        forall|a: int, b: int|
            0 <= a < r.len() && 0 <= b < r.len() && a != b ==> r@[a].0@ != r@[b].0@,
        forall|a: int|
            0 <= a < r.len() ==> r@[a].1 == token_count(views(ws@), stopwords@, #[trigger] r@[a].0@)
                && r@[a].1 > 0,
        forall|t: Seq<char>|
            #[trigger] token_count(views(ws@), stopwords@, t) > 0 ==> exists|a: int|
                0 <= a < r.len() && r@[a].0@ == t,
{
    let ghost wv = views(ws@);
    let mut toks: Vec<(String, u32)> = Vec::new();
    let mut i: usize = 0;
    while i < ws.len()
        invariant
            i <= ws.len() <= u32::MAX,
            wv == views(ws@),
            forall|a: int, b: int|
                0 <= a < toks.len() && 0 <= b < toks.len() && a != b ==> toks@[a].0@ != toks@[b].0@,
            forall|a: int|
                0 <= a < toks.len() ==> toks@[a].1 == token_count(
                    wv.take(i as int),
                    stopwords@,
                    #[trigger] toks@[a].0@,
                ) && toks@[a].1 > 0 && toks@[a].1 <= i,
            forall|t: Seq<char>|
                #[trigger] token_count(wv.take(i as int), stopwords@, t) > 0 ==> exists|a: int|
                    0 <= a < toks.len() && toks@[a].0@ == t,
        decreases ws.len() - i,
    {
        let lw = lowercase(string_of(&ws[i]).as_str());
        let tok = tokenize(lw.as_str(), stopwords);
        let ghost ti = token_of(lower_of(ws@[i as int]@), stopwords@);
        proof {
            assert(wv.take(i + 1).drop_last() =~= wv.take(i as int));
            assert(wv.take(i + 1).last() == ws@[i as int]@);
        }
        let ghost before = toks@;
        assert(forall|a: int|
            0 <= a < before.len() ==> before[a].1 == token_count(
                wv.take(i as int),
                stopwords@,
                #[trigger] before[a].0@,
            ) && before[a].1 > 0 && before[a].1 <= i);
        assert(forall|t: Seq<char>|
            #[trigger] token_count(wv.take(i as int), stopwords@, t) > 0 ==> exists|a: int|
                0 <= a < before.len() && before[a].0@ == t);
        assert(forall|t: Seq<char>|
            #[trigger] token_count(wv.take(i + 1), stopwords@, t) == token_count(
                wv.take(i as int),
                stopwords@,
                t,
            ) + if ti == Some(t) {
                1nat
            } else {
                0nat
            });
        match tok {
            Some(t) => {
                match find_key(&toks, &t) {
                    Some(a) => {
                        let c = toks[a].1;
                        toks[a].1 = c + 1;
                        assert forall|b: int| 0 <= b < toks.len() implies toks@[b].0@ == before[b].0@ by {}
                    },
                    None => {
                        assert(token_count(wv.take(i as int), stopwords@, t@) == 0);
                        toks.push((t, 1));
                    },
                }
                assert forall|t2: Seq<char>|
                    #[trigger] token_count(wv.take(i + 1), stopwords@, t2) > 0 implies exists|a: int|
                        0 <= a < toks.len() && toks@[a].0@ == t2 by {
                    if t2 != t@ {
                        let a = choose|a: int| 0 <= a < before.len() && before[a].0@ == t2;
                        assert(toks@[a].0@ == t2);
                    } else if toks.len() > before.len() {
                        assert(toks@[before.len() as int].0@ == t2);
                    } else {
                        let a = choose|a: int| 0 <= a < toks.len() && toks@[a].0@ == t@;
                    }
                }
            },
            None => {},
        }
        assert forall|a: int| 0 <= a < toks.len() implies toks@[a].1 == token_count(
            wv.take(i + 1),
            stopwords@,
            #[trigger] toks@[a].0@,
        ) && toks@[a].1 > 0 && toks@[a].1 <= i + 1 by {
            if a < before.len() {
                assert(toks@[a].0@ == before[a].0@);
            }
        }
        i += 1;
    }
    proof {
        assert(wv.take(ws.len() as int) =~= wv);
    }
    toks
}

/// Why no index was built.
#[derive(Clone, Copy, Debug, PartialEq, Eq, Structural)]
pub enum BuildError {
    /// There are no documents, so the average document length is undefined.
    NoDocuments,
    /// Two documents carry the same id.
    DuplicateDocId(DocId),
}

/// `p` is the posting of token `t` for one of the first `n` documents.
pub open spec fn posting_from(
    p: Posting,
    t: Seq<char>,
    docs: Seq<(DocId, String)>,
    n: int,
    stop: Set<Seq<char>>,
) -> bool {
    exists|i: int|
        0 <= i < n && docs[i].0 == p.doc_id && p.tf == doc_tf(docs[i].1@, stop, t) && p.tf > 0
}

/// Some posting of document `id` is recorded under token `t`.
pub open spec fn has_posting(ix: InvertedIndex, t: Seq<char>, id: DocId) -> bool {
    exists|p: Posting| #[trigger] ix.holds(t, p) && p.doc_id == id
}

/// The sum of the word counts of the first `n` documents.
pub open spec fn total_words(docs: Seq<(DocId, String)>, n: int) -> int
    decreases n,
{
    if n <= 0 {
        0
    } else {
        total_words(docs, n - 1) + words(docs[n - 1].1@).len()
    }
}

pub open spec fn distinct_ids(docs: Seq<(DocId, String)>, n: int) -> bool {
    forall|i: int, j: int| 0 <= i < j < n ==> docs[i].0 != docs[j].0
}

/// The index counts the first `n` documents and holds each one's length and title.
pub open spec fn documents_recorded(ix: InvertedIndex, docs: Seq<(DocId, String)>, n: int) -> bool {
    &&& ix.n == n
    &&& ix.total_length == total_words(docs, n)
    &&& forall|i: int|
        0 <= i < n ==> ix.doc_lengths@.contains_key(#[trigger] docs[i].0) && ix.doc_lengths@[docs[i].0]
            == words(docs[i].1@).len() && ix.doc_titles@.contains_key(docs[i].0)
            && ix.doc_titles@[docs[i].0]@ == title_of(docs[i].1@)
    &&& forall|id: DocId|
        #[trigger] ix.doc_lengths@.contains_key(id) ==> exists|i: int| 0 <= i < n && docs[i].0 == id
    &&& forall|id: DocId|
        #[trigger] ix.doc_titles@.contains_key(id) ==> exists|i: int| 0 <= i < n && docs[i].0 == id
}

/// The dictionary holds exactly the postings of the first `n` documents: each
/// recorded posting is a document's frequency of its token, and each token of
/// each document has a posting for that document.
pub open spec fn postings_recorded(
    ix: InvertedIndex,
    docs: Seq<(DocId, String)>,
    n: int,
    stop: Set<Seq<char>>,
) -> bool {
    &&& forall|t: Seq<char>, p: Posting| #[trigger] ix.holds(t, p) ==> posting_from(p, t, docs, n, stop)
    &&& forall|i: int, t: Seq<char>|
        0 <= i < n && #[trigger] doc_tf(docs[i].1@, stop, t) > 0 ==> has_posting(ix, t, docs[i].0)
}

/// `p` is the posting of token `t` for one of the first `k` documents in `order`.
spec fn posting_among(
    p: Posting,
    t: Seq<char>,
    docs: Seq<(DocId, String)>,
    order: Seq<usize>,
    k: int,
    stop: Set<Seq<char>>,
) -> bool {
    exists|j: int|
        0 <= j < k && docs[order[j] as int].0 == p.doc_id && p.tf == doc_tf(
            docs[order[j] as int].1@,
            stop,
            t,
        ) && p.tf > 0
}

/// Position `i` appears in `order`.
pub open spec fn lists(order: Seq<usize>, i: int) -> bool {
    exists|p: int| 0 <= p < order.len() && order[p] == i
}

/// `order` lists every index of `docs` once, by strictly ascending document id.
pub open spec fn orders_by_id(docs: Seq<(DocId, String)>, order: Seq<usize>) -> bool {
    &&& order.len() == docs.len()
    &&& forall|p: int| 0 <= p < order.len() ==> (#[trigger] order[p]) < docs.len()
    &&& forall|i: int| 0 <= i < docs.len() ==> #[trigger] lists(order, i)
    &&& forall|p: int, q: int|
        0 <= p < q < order.len() ==> docs[order[p] as int].0 < docs[order[q] as int].0
}

/// The positions of the documents, sorted by ascending id.
fn order_by_id(docs: &Vec<(DocId, String)>) -> (r: Vec<usize>)
    requires
        distinct_ids(docs@, docs.len() as int),
    ensures
        orders_by_id(docs@, r@),
{
    let mut order: Vec<usize> = Vec::new();
    let mut i: usize = 0;
    while i < docs.len()
        invariant
            i <= docs.len(),
            distinct_ids(docs@, docs.len() as int),
            order.len() == i,
            forall|p: int| 0 <= p < order.len() ==> (#[trigger] order@[p]) < i,
            forall|x: int| 0 <= x < i ==> #[trigger] lists(order@, x),
            forall|p: int, q: int|
                0 <= p < q < order.len() ==> docs@[order@[p] as int].0 < docs@[order@[q] as int].0,
        decreases docs.len() - i,
    {
        let id = docs[i].0;
        let mut pos: usize = order.len();
        while pos > 0 && docs[order[pos - 1]].0 > id
            invariant
                pos <= order.len() == i < docs.len(),
                id == docs@[i as int].0,
                forall|p: int| 0 <= p < order.len() ==> (#[trigger] order@[p]) < i,
                forall|q: int| pos <= q < order.len() ==> docs@[order@[q] as int].0 > id,
            decreases pos,
        {
            pos -= 1;
        }
        proof {
            if pos > 0 {
                let x = order@[pos - 1] as int;
                assert(x < i);
                assert(docs@[x].0 != id);
            }
        }
        let ghost before = order@;
        order.insert(pos, i);
        proof {
            before.insert_ensures(pos as int, i);
            assert forall|p: int| 0 <= p < order.len() implies (#[trigger] order@[p]) < i + 1 by {
                if p < pos {
                    assert(order@[p] == before[p]);
                } else if p > pos {
                    assert(order@[p] == before[p - 1]);
                }
            }
            assert forall|x: int| 0 <= x < i + 1 implies #[trigger] lists(order@, x) by {
                if x == i {
                    assert(order@[pos as int] == x);
                } else {
                    assert(lists(before, x));
                    let p = choose|p: int| 0 <= p < before.len() && before[p] == x;
                    if p < pos {
                        assert(order@[p] == x);
                    } else {
                        assert(order@[p + 1] == x);
                    }
                }
            }
            assert forall|p: int, q: int|
                0 <= p < q < order.len() implies docs@[order@[p] as int].0 < docs@[order@[
                q
            ] as int].0 by {
                if p < pos {
                    assert(order@[p] == before[p]);
                }
                if p > pos {
                    assert(order@[p] == before[p - 1]);
                }
                if q < pos {
                    assert(order@[q] == before[q]);
                }
                if q > pos {
                    assert(order@[q] == before[q - 1]);
                }
                if p == pos {
                    assert(docs@[before[q - 1] as int].0 > id);
                }
                if q == pos && p > 0 {
                    assert(p <= pos - 1);
                    if p < pos - 1 {
                        assert(docs@[before[p] as int].0 < docs@[before[pos - 1] as int].0);
                    }
                }
            }
        }
        i += 1;
    }
    order
}

/// Records the length and title of every document, in the given order,
/// refusing a repeated id.
fn record_documents(docs: &Vec<(DocId, String)>) -> (r: Result<InvertedIndex, DocId>)
    requires
        docs.len() <= u32::MAX,
        forall|i: int| 0 <= i < docs.len() ==> (#[trigger] docs@[i]).1@.len() <= u32::MAX,
    ensures
        r is Ok <==> distinct_ids(docs@, docs.len() as int),
        match r {
            Ok(ix) => ix.dictionary@.len() == 0 && documents_recorded(ix, docs@, docs.len() as int),
            Err(id) => exists|i: int, j: int|
                0 <= i < j < docs.len() && docs@[i].0 == id && docs@[j].0 == id,
        },
{
    let mut ix = InvertedIndex::new();
    let mut k: usize = 0;
    while k < docs.len()
        invariant
            k <= docs.len() <= u32::MAX,
            forall|i: int| 0 <= i < docs.len() ==> (#[trigger] docs@[i]).1@.len() <= u32::MAX,
            ix.dictionary@.len() == 0,
            documents_recorded(ix, docs@, k as int),
            distinct_ids(docs@, k as int),
            ix.total_length <= k * (u32::MAX as int),
        decreases docs.len() - k,
    {
        let id = docs[k].0;
        if ix.doc_lengths.contains_key(&id) {
            proof {
                let i = choose|i: int| 0 <= i < k && docs@[i].0 == id;
                assert(0 <= i < k && docs@[i].0 == id && docs@[k as int].0 == id);
                assert(!distinct_ids(docs@, docs.len() as int));
            }
            return Err(id);
        }
        let content = docs[k].1.as_str();
        let title = extract_title_from_content(content);
        let chars = chars_of(content);
        let ws = split_words(&chars);
        let len = ws.len() as u32;
        let ghost ix0 = ix;
        ix.doc_lengths.insert(id, len);
        ix.doc_titles.insert(id, title);
        ix.n = (k + 1) as u32;
        proof {
            assert(ix.total_length + len <= (k + 1) * (u32::MAX as int)) by (nonlinear_arith)
                requires
                    ix.total_length <= k * (u32::MAX as int),
                    len <= u32::MAX,
            ;
            assert((k + 1) * (u32::MAX as int) <= u32::MAX * (u32::MAX as int)) by (nonlinear_arith)
                requires
                    k + 1 <= u32::MAX,
            ;
        }
        ix.total_length = ix.total_length + len as u64;
        proof {
            assert(distinct_ids(docs@, k + 1)) by {
                assert forall|i: int| 0 <= i < k implies docs@[i].0 != id by {
                    assert(ix0.doc_lengths@.contains_key(docs@[i].0));
                }
            }
            assert(documents_recorded(ix, docs@, k + 1)) by {
                assert forall|i: int| 0 <= i < k + 1 implies ix.doc_lengths@.contains_key(
                    #[trigger] docs@[i].0,
                ) && ix.doc_lengths@[docs@[i].0] == words(docs@[i].1@).len()
                    && ix.doc_titles@.contains_key(docs@[i].0) && ix.doc_titles@[docs@[i].0]@
                    == title_of(docs@[i].1@) by {
                    if i < k {
                        assert(ix0.doc_lengths@.contains_key(docs@[i].0));
                    }
                }
                assert forall|d: DocId| #[trigger] ix.doc_lengths@.contains_key(d) implies exists|
                    i: int,
                | 0 <= i < k + 1 && docs@[i].0 == d by {
                    if d != id {
                        assert(ix0.doc_lengths@.contains_key(d));
                    }
                }
                assert forall|d: DocId| #[trigger] ix.doc_titles@.contains_key(d) implies exists|
                    i: int,
                | 0 <= i < k + 1 && docs@[i].0 == d by {
                    if d != id {
                        assert(ix0.doc_titles@.contains_key(d));
                    }
                }
            }
        }
        k += 1;
    }
    Ok(ix)
}

/// Builds the index of the given documents. Documents are processed in
/// ascending id order, whatever the order of `docs`, so every posting list
/// comes out in ascending document order.
pub fn build_index(docs: &Vec<(DocId, String)>, stopwords: &Stopwords) -> (r: Result<
    InvertedIndex,
    BuildError,
>)
    requires
        docs.len() <= u32::MAX,
        forall|i: int| 0 <= i < docs.len() ==> (#[trigger] docs@[i]).1@.len() <= u32::MAX,
    ensures
        r is Ok <==> docs.len() > 0 && distinct_ids(docs@, docs.len() as int),
        match r {
            Ok(ix) => {
                &&& ix.wf()
                &&& documents_recorded(ix, docs@, docs.len() as int)
                &&& postings_recorded(ix, docs@, docs.len() as int, stopwords@)
            },
            Err(BuildError::NoDocuments) => docs.len() == 0,
            Err(BuildError::DuplicateDocId(id)) => exists|i: int, j: int|
                0 <= i < j < docs.len() && docs@[i].0 == id && docs@[j].0 == id,
        },
{
    if docs.len() == 0 {
        return Err(BuildError::NoDocuments);
    }
    let mut ix = match record_documents(docs) {
        Ok(ix) => ix,
        Err(id) => {
            return Err(BuildError::DuplicateDocId(id));
        },
    };
    let order = order_by_id(docs);
    let n = docs.len();
    let mut k: usize = 0;
    while k < n
        invariant
            k <= n == docs.len() <= u32::MAX,
            forall|i: int| 0 <= i < docs.len() ==> (#[trigger] docs@[i]).1@.len() <= u32::MAX,
            orders_by_id(docs@, order@),
            ix.wf(),
            documents_recorded(ix, docs@, n as int),
            forall|t: Seq<char>, p: Posting| #[trigger]
                ix.holds(t, p) ==> posting_among(p, t, docs@, order@, k as int, stopwords@),
            forall|j: int, t: Seq<char>|
                0 <= j < k && #[trigger] doc_tf(docs@[order@[j] as int].1@, stopwords@, t) > 0
                    ==> has_posting(ix, t, docs@[order@[j] as int].0),
            forall|e: int| 0 <= e < ix.dictionary.len() ==> #[trigger] ix.list(e).len() <= k,
        decreases n - k,
    {
        let d = order[k];
        let id = docs[d].0;
        let chars = chars_of(docs[d].1.as_str());
        let ws = split_words(&chars);
        let toks = document_tokens(&ws, stopwords);
        proof {
            assert forall|t: Seq<char>, p: Posting| #[trigger] ix.holds(t, p) implies posting_among(
                p,
                t,
                docs@,
                order@,
                k + 1,
                stopwords@,
            ) && p.doc_id < id by {
                let j = choose|j: int|
                    0 <= j < k && docs@[order@[j] as int].0 == p.doc_id && p.tf == doc_tf(
                        docs@[order@[j] as int].1@,
                        stopwords@,
                        t,
                    ) && p.tf > 0;
            }
        }
        let mut m: usize = 0;
        while m < toks.len()
            invariant
                k < n == docs.len() <= u32::MAX,
                orders_by_id(docs@, order@),
                d == order@[k as int],
                id == docs@[d as int].0,
                views(ws@) == words(docs@[d as int].1@),
                forall|a: int, b: int|
                    0 <= a < toks.len() && 0 <= b < toks.len() && a != b ==> toks@[a].0@
                        != toks@[b].0@,
                forall|a: int|
                    0 <= a < toks.len() ==> toks@[a].1 == token_count(
                        views(ws@),
                        stopwords@,
                        #[trigger] toks@[a].0@,
                    ) && toks@[a].1 > 0,
                m <= toks.len(),
                ix.wf(),
                documents_recorded(ix, docs@, n as int),
                forall|t: Seq<char>, p: Posting| #[trigger]
                    ix.holds(t, p) ==> posting_among(p, t, docs@, order@, k + 1, stopwords@),
                forall|t: Seq<char>, p: Posting| #[trigger]
                    ix.holds(t, p) && p.doc_id != id ==> p.doc_id < id,
                forall|j: int, t: Seq<char>|
                    0 <= j < k && #[trigger] doc_tf(docs@[order@[j] as int].1@, stopwords@, t) > 0
                        ==> has_posting(ix, t, docs@[order@[j] as int].0),
                forall|a: int| 0 <= a < m ==> has_posting(ix, #[trigger] toks@[a].0@, id),
                forall|t: Seq<char>, p: Posting| #[trigger]
                    ix.holds(t, p) && p.doc_id == id ==> exists|a: int| 0 <= a < m && toks@[a].0@ == t,
                forall|e: int|
                    0 <= e < ix.dictionary.len() && (forall|a: int|
                        0 <= a < m ==> toks@[a].0@ != ix.key(e)) ==> #[trigger] ix.list(e).len() <= k,
                forall|e: int| 0 <= e < ix.dictionary.len() ==> #[trigger] ix.list(e).len() <= k + 1,
            decreases toks.len() - m,
        {
            let token = toks[m].0.clone();
            let posting = Posting::new(id, toks[m].1);
            let ghost ix1 = ix;
            proof {
                assert(ix1.doc_lengths@.contains_key(id)) by {
                    assert(docs@[d as int].0 == id);
                }
                assert forall|q: Posting| ix1.holds(token@, q) implies q.doc_id < posting.doc_id by {
                    if q.doc_id == id {
                        let a = choose|a: int| 0 <= a < m && toks@[a].0@ == token@;
                    }
                }
                assert forall|e: int|
                    0 <= e < ix1.dictionary.len() && ix1.key(e) == token@ implies ix1.list(e).len()
                    < ix1.n by {
                    assert forall|a: int| 0 <= a < m implies toks@[a].0@ != ix1.key(e) by {}
                }
            }
            ix.add_posting(token, posting);
            proof {
                assert(ix.holds(toks@[m as int].0@, posting));
                assert(posting_among(posting, toks@[m as int].0@, docs@, order@, k + 1, stopwords@));
                assert forall|j: int, t: Seq<char>|
                    0 <= j < k && #[trigger] doc_tf(docs@[order@[j] as int].1@, stopwords@, t) > 0
                        implies has_posting(ix, t, docs@[order@[j] as int].0) by {
                    assert(has_posting(ix1, t, docs@[order@[j] as int].0));
                    let p = choose|p: Posting| #[trigger]
                        ix1.holds(t, p) && p.doc_id == docs@[order@[j] as int].0;
                    assert(ix.holds(t, p));
                }
                assert forall|a: int| 0 <= a < m + 1 implies has_posting(
                    ix,
                    #[trigger] toks@[a].0@,
                    id,
                ) by {
                    if a < m {
                        assert(has_posting(ix1, toks@[a].0@, id));
                        let p = choose|p: Posting| #[trigger]
                            ix1.holds(toks@[a].0@, p) && p.doc_id == id;
                        assert(ix.holds(toks@[a].0@, p));
                    } else {
                        assert(ix.holds(toks@[a].0@, posting));
                    }
                }
                assert forall|t: Seq<char>, p: Posting| #[trigger]
                    ix.holds(t, p) && p.doc_id == id implies exists|a: int|
                        0 <= a < m + 1 && toks@[a].0@ == t by {
                    if !ix1.holds(t, p) {
                        assert(toks@[m as int].0@ == t);
                    }
                }
                assert forall|e: int|
                    0 <= e < ix.dictionary.len() implies #[trigger] ix.list(e).len() <= k + 1
                        && ((forall|a: int| 0 <= a < m + 1 ==> toks@[a].0@ != ix.key(e))
                        ==> ix.list(e).len() <= k) by {
                    if e < ix1.dictionary.len() {
                        assert(ix.key(e) == ix1.key(e));
                        if ix1.has_key(token@) {
                            let e0 = choose|e0: int|
                                0 <= e0 < ix1.dictionary.len() && ix1.key(e0) == token@
                                    && ix.list(e0) == ix1.list(e0).push(posting) && forall|f: int|
                                    0 <= f < ix1.dictionary.len() && f != e0 ==> ix.list(f)
                                        == ix1.list(f);
                            if e == e0 {
                                assert forall|a: int| 0 <= a < m implies toks@[a].0@ != ix1.key(
                                    e,
                                ) by {}
                            }
                        }
                        if (forall|a: int| 0 <= a < m + 1 ==> toks@[a].0@ != ix.key(e)) {
                            assert(forall|a: int| 0 <= a < m ==> toks@[a].0@ != ix1.key(e));
                        }
                    }
                }
            }
            m += 1;
        }
        proof {
            assert forall|j: int, t: Seq<char>|
                0 <= j < k + 1 && #[trigger] doc_tf(docs@[order@[j] as int].1@, stopwords@, t) > 0
                    implies has_posting(ix, t, docs@[order@[j] as int].0) by {
                if j == k {
                    let a = choose|a: int| 0 <= a < toks.len() && toks@[a].0@ == t;
                    assert(has_posting(ix, toks@[a].0@, id));
                }
            }
        }
        k += 1;
    }
    proof {
        assert forall|t: Seq<char>, p: Posting| #[trigger] ix.holds(t, p) implies posting_from(
            p,
            t,
            docs@,
            n as int,
            stopwords@,
        ) by {
            let j = choose|j: int|
                0 <= j < n && docs@[order@[j] as int].0 == p.doc_id && p.tf == doc_tf(
                    docs@[order@[j] as int].1@,
                    stopwords@,
                    t,
                ) && p.tf > 0;
            assert(order@[j] < n);
        }
        assert forall|i: int, t: Seq<char>|
            0 <= i < n && #[trigger] doc_tf(docs@[i].1@, stopwords@, t) > 0 implies has_posting(
            ix,
            t,
            docs@[i].0,
        ) by {
            assert(lists(order@, i));
            let j = choose|j: int| 0 <= j < order.len() && order@[j] == i;
            assert(docs@[order@[j] as int] == docs@[i]);
        }
    }
    Ok(ix)
}

} // verus!
