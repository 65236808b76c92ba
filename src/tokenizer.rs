//! Term normalisation: lowercase, keep alphanumeric characters, drop
//! stopwords, then a fixed three-pass suffix-stripping stemmer.
use vstd::prelude::*;

use crate::text::{chars_of, copy_range, lines, split_lines, string_of, trim, trim_chars, views};

verus! {

/// What `str::to_lowercase` returns for a string.
pub uninterp spec fn lower_of(s: Seq<char>) -> Seq<char>;

/// Whether `char::is_alphanumeric` holds of a character.
pub uninterp spec fn alnum(c: char) -> bool;

/// Relies on `str::to_lowercase`: the Unicode lowercase mapping of the whole
/// string, which depends on its characters alone; the empty string stays empty.
#[verifier::external_body]
pub(crate) fn lowercase(s: &str) -> (r: String)
    ensures
        r@ == lower_of(s@),
        s@.len() == 0 ==> r@.len() == 0,
{
    s.to_lowercase()
}

/// Relies on `char::is_alphanumeric`: whether the character is alphabetic or numeric.
#[verifier::external_body]
pub(crate) fn is_alnum(c: char) -> (r: bool)
    ensures
        r == alnum(c),
{
    c.is_alphanumeric()
}

/// The alphanumeric characters of `s`, in order.
pub open spec fn keep_alnum(s: Seq<char>) -> Seq<char>
    decreases s.len(),
{
    if s.len() == 0 {
        s
    } else if alnum(s.last()) {
        keep_alnum(s.drop_last()).push(s.last())
    } else {
        keep_alnum(s.drop_last())
    }
}

pub open spec fn ends_with(s: Seq<char>, suffix: Seq<char>) -> bool {
    suffix.len() <= s.len() && s.subrange(s.len() - suffix.len(), s.len() as int) == suffix
}

/// First stemming pass: `ies` becomes `y`, else `es`, else `s` is dropped,
/// each only above a minimum length.
pub open spec fn plural_stripped(s: Seq<char>) -> Seq<char> {
    if ends_with(s, seq!['i', 'e', 's']) && s.len() > 4 {
        s.subrange(0, s.len() - 3).push('y')
    } else if ends_with(s, seq!['e', 's']) && s.len() > 3 {
        s.subrange(0, s.len() - 2)
    } else if ends_with(s, seq!['s']) && s.len() > 2 {
        s.subrange(0, s.len() - 1)
    } else {
        s
    }
}

/// Second stemming pass: at most one of `ing`, `ed`, `ly` is dropped.
pub open spec fn affix_stripped(s: Seq<char>) -> Seq<char> {
    if ends_with(s, seq!['i', 'n', 'g']) && s.len() > 3 {
        s.subrange(0, s.len() - 3)
    } else if ends_with(s, seq!['e', 'd']) && s.len() > 2 {
        s.subrange(0, s.len() - 2)
    } else if ends_with(s, seq!['l', 'y']) && s.len() > 2 {
        s.subrange(0, s.len() - 2)
    } else {
        s
    }
}

/// Third stemming pass: a doubled final character is collapsed.
pub open spec fn double_collapsed(s: Seq<char>) -> Seq<char> {
    if s.len() >= 2 && s[s.len() - 1] == s[s.len() - 2] {
        s.drop_last()
    } else {
        s
    }
}

pub open spec fn stemmed(s: Seq<char>) -> Seq<char> {
    double_collapsed(affix_stripped(plural_stripped(s)))
}

/// The token of a raw term, or `None` when nothing alphanumeric is left or
/// what is left is a stopword. Lengths are counted in characters.
pub open spec fn token_of(term: Seq<char>, stop: Set<Seq<char>>) -> Option<Seq<char>> {
    let t = keep_alnum(lower_of(term));
    if t.len() == 0 || stop.contains(t) {
        None
    } else {
        Some(stemmed(t))
    }
}

pub open spec fn opt_view(o: Option<String>) -> Option<Seq<char>> {
    match o {
        Some(s) => Some(s@),
        None => None,
    }
}

/// Whether one of the first `n` lines, trimmed, is non-blank and lowercases to `w`.
pub open spec fn named_in(ls: Seq<Seq<char>>, n: int, w: Seq<char>) -> bool {
    exists|k: int| 0 <= k < n && trim(#[trigger] ls[k]).len() > 0 && w == lower_of(trim(ls[k]))
}

/// The stopwords that a newline-separated word list names: each non-blank
/// line, trimmed and lowercased.
pub open spec fn stopword_set(text: Seq<char>) -> Set<Seq<char>> {
    Set::new(|w: Seq<char>| named_in(lines(text), lines(text).len() as int, w))
}

spec fn listed(ws: Seq<String>, w: Seq<char>) -> bool {
    exists|j: int| 0 <= j < ws.len() && (#[trigger] ws[j])@ == w
}

/// An immutable set of stopwords, loaded once and passed to every tokenizer call.
pub struct Stopwords {
    words: Vec<String>,
}

impl View for Stopwords {
    type V = Set<Seq<char>>;

    closed spec fn view(&self) -> Set<Seq<char>> {
        Set::new(|w: Seq<char>| listed(self.words@, w))
    }
}

impl Stopwords {
    /// Reads a word list: one stopword per line; blank lines are skipped.
    pub fn from_text(text: &str) -> (r: Stopwords)
        ensures
            r@ == stopword_set(text@),
    {
        let chars = chars_of(text);
        let ls = split_lines(&chars);
        let ghost lv = views(ls@);
        let mut words: Vec<String> = Vec::new();
        let mut i: usize = 0;
        while i < ls.len()
            invariant
                i <= ls.len(),
                lv == views(ls@),
                lv == lines(text@),
                forall|w: Seq<char>| #[trigger] listed(words@, w) <==> named_in(lv, i as int, w),
            decreases ls.len() - i,
        {
            let t = trim_chars(&ls[i]);
            let ghost before = words@;
            assert(forall|w: Seq<char>| #[trigger] listed(before, w) <==> named_in(lv, i as int, w));
            if t.len() > 0 {
                let lowered = lowercase(string_of(&t).as_str());
                words.push(lowered);
                assert forall|w: Seq<char>| #[trigger]
                    listed(words@, w) <==> named_in(lv, i + 1, w) by {
                    if listed(words@, w) {
                        let j = choose|j: int| 0 <= j < words.len() && (#[trigger] words@[j])@ == w;
                        if j == words.len() - 1 {
                            assert(lv[i as int] == ls[i as int]@);
                        } else {
                            assert(before[j] == words@[j]);
                            assert(listed(before, w));
                        }
                    }
                    if named_in(lv, i + 1, w) {
                        let k = choose|k: int|
                            0 <= k < i + 1 && trim(#[trigger] lv[k]).len() > 0 && w == lower_of(
                                trim(lv[k]),
                            );
                        if k == i {
                            assert(words@[words.len() - 1]@ == w);
                        } else {
                            assert(named_in(lv, i as int, w));
                            assert(listed(before, w));
                            let j = choose|j: int| 0 <= j < before.len() && (#[trigger] before[j])@ == w;
                            assert(words@[j] == before[j]);
                        }
                    }
                }
            } else {
                assert forall|w: Seq<char>| #[trigger]
                    listed(words@, w) <==> named_in(lv, i + 1, w) by {
                    if named_in(lv, i + 1, w) {
                        let k = choose|k: int|
                            0 <= k < i + 1 && trim(#[trigger] lv[k]).len() > 0 && w == lower_of(
                                trim(lv[k]),
                            );
                        assert(k != i);
                        assert(named_in(lv, i as int, w));
                    }
                }
            }
            i += 1;
        }
        let r = Stopwords { words };
        assert(r@ =~= stopword_set(text@));
        r
    }

    /// Whether `t` is one of the stopwords.
    pub fn contains(&self, t: &Vec<char>) -> (r: bool)
        ensures
            r == self@.contains(t@),
    {
        let s = string_of(t);
        let mut i: usize = 0;
        while i < self.words.len()
            invariant
                i <= self.words.len(),
                s@ == t@,
                forall|j: int| 0 <= j < i ==> self.words[j]@ != t@,
            decreases self.words.len() - i,
        {
            if self.words[i] == s {
                return true;
            }
            i += 1;
        }
        false
    }
}

fn is_stopword(token: &Vec<char>, stopwords: &Stopwords) -> (r: bool)
    ensures
        r == stopwords@.contains(token@),
{
    stopwords.contains(token)
}

pub fn remove_specials(token: &Vec<char>) -> (r: Vec<char>)
    ensures
        r@ == keep_alnum(token@),
{
    let mut out: Vec<char> = Vec::new();
    let mut i: usize = 0;
    while i < token.len()
        invariant
            i <= token.len(),
            out@ == keep_alnum(token@.take(i as int)),
        decreases token.len() - i,
    {
        proof {
            assert(token@.take(i + 1).drop_last() =~= token@.take(i as int));
        }
        if is_alnum(token[i]) {
            out.push(token[i]);
        }
        i += 1;
    }
    proof {
        assert(token@.take(token.len() as int) =~= token@);
    }
    out
}

fn ends_with_chars(s: &Vec<char>, suffix: &Vec<char>) -> (r: bool)
    ensures
        r == ends_with(s@, suffix@),
{
    if suffix.len() > s.len() {
        return false;
    }
    let off = s.len() - suffix.len();
    let mut i: usize = 0;
    while i < suffix.len()
        invariant
            i <= suffix.len(),
            off == s.len() - suffix.len(),
            forall|j: int| 0 <= j < i ==> s[off + j] == suffix[j],
        decreases suffix.len() - i,
    {
        if s[off + i] != suffix[i] {
            assert(s@.subrange(off as int, s.len() as int)[i as int] != suffix@[i as int]);
            return false;
        }
        i += 1;
    }
    assert(s@.subrange(off as int, s.len() as int) =~= suffix@);
    true
}

pub fn remove_plural(token: Vec<char>) -> (r: Vec<char>)
    ensures
        r@ == plural_stripped(token@),
{
    let len = token.len();
    let ies = vec!['i', 'e', 's'];
    let es = vec!['e', 's'];
    let s = vec!['s'];
    assert(ies@ =~= seq!['i', 'e', 's']);
    assert(es@ =~= seq!['e', 's']);
    assert(s@ =~= seq!['s']);
    if ends_with_chars(&token, &ies) && len > 4 {
        let mut r = copy_range(&token, 0, len - 3);
        r.push('y');
        return r;
    }
    if ends_with_chars(&token, &es) && len > 3 {
        return copy_range(&token, 0, len - 2);
    }
    if ends_with_chars(&token, &s) && len > 2 {
        return copy_range(&token, 0, len - 1);
    }
    token
}

pub fn remove_affix(token: Vec<char>) -> (r: Vec<char>)
    ensures
        r@ == affix_stripped(token@),
{
    let len = token.len();
    let ing = vec!['i', 'n', 'g'];
    let ed = vec!['e', 'd'];
    let ly = vec!['l', 'y'];
    assert(ing@ =~= seq!['i', 'n', 'g']);
    assert(ed@ =~= seq!['e', 'd']);
    assert(ly@ =~= seq!['l', 'y']);
    if ends_with_chars(&token, &ing) && len > 3 {
        return copy_range(&token, 0, len - 3);
    }
    if ends_with_chars(&token, &ed) && len > 2 {
        return copy_range(&token, 0, len - 2);
    }
    if ends_with_chars(&token, &ly) && len > 2 {
        return copy_range(&token, 0, len - 2);
    }
    token
}

pub fn remove_double_letters(token: Vec<char>) -> (r: Vec<char>)
    ensures
        r@ == double_collapsed(token@),
{
    let len = token.len();
    if len >= 2 && token[len - 1] == token[len - 2] {
        let mut r = token;
        r.pop();
        return r;
    }
    token
}

pub fn stem(token: Vec<char>) -> (r: Vec<char>)
    ensures
        r@ == stemmed(token@),
{
    let token = remove_plural(token);
    let token = remove_affix(token);
    remove_double_letters(token)
}

/// Normalises a raw term into its token; `None` when it vanishes.
pub fn tokenize(term: &str, stopwords: &Stopwords) -> (r: Option<String>)
    ensures
        opt_view(r) == token_of(term@, stopwords@),
{
    let lowered = lowercase(term);
    let chars = chars_of(lowered.as_str());
    let token = remove_specials(&chars);
    if token.len() == 0 {
        return None;
    }
    if is_stopword(&token, stopwords) {
        return None;
    }
    let stemmed = stem(token);
    Some(string_of(&stemmed))
}

/// Tokenization depends on a term only through its lowercase form: equal
/// terms give equal tokens, and so do terms that differ only in case.
pub proof fn lemma_token_of_case_insensitive(a: Seq<char>, b: Seq<char>, stop: Set<Seq<char>>)
    requires
        lower_of(a) == lower_of(b),
    ensures
        token_of(a, stop) == token_of(b, stop),
{
}

proof fn lemma_keep_alnum_of_alnum(s: Seq<char>)
    requires
        forall|i: int| 0 <= i < s.len() ==> alnum(#[trigger] s[i]),
    ensures
        keep_alnum(s) == s,
    decreases s.len(),
{
    if s.len() > 0 {
        lemma_keep_alnum_of_alnum(s.drop_last());
        assert(keep_alnum(s.drop_last()).push(s.last()) =~= s);
    }
}

proof fn lemma_keep_alnum_of_symbols(s: Seq<char>)
    requires
        forall|i: int| 0 <= i < s.len() ==> !alnum(#[trigger] s[i]),
    ensures
        keep_alnum(s).len() == 0,
    decreases s.len(),
{
    if s.len() > 0 {
        lemma_keep_alnum_of_symbols(s.drop_last());
    }
}

/// A stopword that is already lowercase and alphanumeric normalises to nothing.
pub proof fn lemma_stopword_vanishes(w: Seq<char>, stop: Set<Seq<char>>)
    requires
        stop.contains(w),
        lower_of(w) == w,
        forall|i: int| 0 <= i < w.len() ==> alnum(#[trigger] w[i]),
    ensures
        token_of(w, stop) is None,
{
    lemma_keep_alnum_of_alnum(w);
}

/// A term whose lowercase form holds no alphanumeric character normalises to nothing.
pub proof fn lemma_symbols_vanish(term: Seq<char>, stop: Set<Seq<char>>)
    requires
        forall|i: int| 0 <= i < lower_of(term).len() ==> !alnum(#[trigger] lower_of(term)[i]),
    ensures
        token_of(term, stop) is None,
{
    lemma_keep_alnum_of_symbols(lower_of(term));
}

} // verus!
