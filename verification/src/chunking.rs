//! Sentence-level chunking of summarized text.
//!
//! A summary is split on whitespace into words; words are re-joined into
//! sentences at sentence-ending punctuation that is not a known abbreviation
//! and is followed by a word starting with an upper-case letter; trailing
//! words become the final chunk.
use vstd::prelude::*;

verus! {

/// Names the result of `char::is_whitespace`, which depends on the
/// character alone.
pub uninterp spec fn space_of(c: char) -> bool;

/// Names the result of `char::is_uppercase`, which depends on the
/// character alone.
pub uninterp spec fn upper_of(c: char) -> bool;

/// Relies on char::is_whitespace: whether this character separates words.
/// Its documentation lists the space character under the White_Space
/// property, so the plain space always separates — the fact that ties the
/// single-space joints of a chunk back to word boundaries.
#[verifier::external_body]
fn is_space(c: char) -> (r: bool)
    ensures
        r == space_of(c),
        c == ' ' ==> r,
{
    c.is_whitespace()
}

/// Relies on char::is_uppercase: whether this character is upper case.
#[verifier::external_body]
fn is_upper(c: char) -> (r: bool)
    ensures
        r == upper_of(c),
{
    c.is_uppercase()
}

/// The words completed and the word still open after scanning a prefix.
pub open spec fn split_acc(s: Seq<char>) -> (Seq<Seq<char>>, Seq<char>)
    decreases s.len(),
{
    if s.len() == 0 {
        (Seq::empty(), Seq::empty())
    } else {
        let (ws, buf) = split_acc(s.drop_last());
        let c = s.last();
        if space_of(c) {
            if buf.len() == 0 {
                (ws, buf)
            } else {
                (ws.push(buf), Seq::empty())
            }
        } else {
            (ws, buf.push(c))
        }
    }
}

/// The whitespace-separated words of a character sequence.
pub open spec fn words_spec(s: Seq<char>) -> Seq<Seq<char>> {
    let (ws, buf) = split_acc(s);
    if buf.len() == 0 {
        ws
    } else {
        ws.push(buf)
    }
}

/// Splits text into its whitespace-separated words.
fn split_words(input: &str) -> (r: Vec<String>)
    ensures
        r@.map_values(|w: String| w@) == words_spec(input@),
{
    let n = input.unicode_len();
    let mut ranges: Vec<(usize, usize)> = Vec::new();
    let mut start: usize = 0;
    let mut open = false;
    let mut i: usize = 0;
    proof {
        assert(input@.take(0) =~= Seq::<char>::empty());
    }
    while i < n
        invariant
            0 <= i <= n,
            n == input@.len(),
            open ==> start < i,
            forall|w: int|
                0 <= w < ranges@.len() ==> 0 <= (#[trigger] ranges@[w]).0 < ranges@[w].1 <= i,
            split_acc(input@.take(i as int)).0 == ranges@.map_values(
                |r: (usize, usize)| input@.subrange(r.0 as int, r.1 as int),
            ),
            split_acc(input@.take(i as int)).1 == if open {
                input@.subrange(start as int, i as int)
            } else {
                Seq::<char>::empty()
            },
        decreases n - i,
    {
        let c = input.get_char(i);
        proof {
            assert(input@.take(i + 1).drop_last() =~= input@.take(i as int));
            assert(input@.take(i + 1).last() == input@[i as int]);
        }
        if is_space(c) {
            if open {
                ranges.push((start, i));
                open = false;
                proof {
                    assert(ranges@.map_values(
                        |r: (usize, usize)| input@.subrange(r.0 as int, r.1 as int),
                    ) =~= split_acc(input@.take(i + 1)).0);
                }
            }
        } else {
            if !open {
                start = i;
                open = true;
            }
            proof {
                assert(input@.subrange(start as int, i + 1) =~= split_acc(input@.take(i + 1)).1);
            }
        }
        i = i + 1;
    }
    proof {
        assert(input@.take(n as int) =~= input@);
    }
    if open {
        ranges.push((start, n));
        proof {
            assert(ranges@.map_values(|r: (usize, usize)| input@.subrange(r.0 as int, r.1 as int))
                =~= words_spec(input@));
        }
    }
    let ghost all_words = words_spec(input@);
    let m = ranges.len();
    let mut words: Vec<String> = Vec::new();
    let mut j: usize = 0;
    while j < m
        invariant
            0 <= j <= m,
            m == ranges@.len(),
            n == input@.len(),
            forall|w: int|
                0 <= w < ranges@.len() ==> 0 <= (#[trigger] ranges@[w]).0 < ranges@[w].1 <= n,
            all_words == ranges@.map_values(
                |r: (usize, usize)| input@.subrange(r.0 as int, r.1 as int),
            ),
            words@.map_values(|w: String| w@) == all_words.take(j as int),
        decreases m - j,
    {
        let r = ranges[j];
        let piece = input.substring_char(r.0, r.1);
        let owned = piece.to_owned();
        let ghost prev = words@;
        words.push(owned);
        proof {
            assert(ranges@.map_values(
                |rr: (usize, usize)| input@.subrange(rr.0 as int, rr.1 as int),
            )[j as int] == input@.subrange(ranges@[j as int].0 as int, ranges@[j as int].1 as int));
            assert(all_words[j as int] == input@.subrange(r.0 as int, r.1 as int));
            assert(prev.map_values(|w: String| w@).len() == prev.len());
            assert(prev.len() == j as int);
            assert(words@ == prev.push(owned));
            assert forall|p: int| 0 <= p <= j implies words@.map_values(|w: String| w@)[p]
                == #[trigger] all_words[p] by {
                if p < j {
                    assert(words@[p] == prev[p]);
                    assert(prev.map_values(|w: String| w@)[p] == all_words.take(j as int)[p]);
                } else {
                    assert(words@[p] == owned);
                    assert(owned@ == all_words[j as int]);
                }
            }
            assert(words@.map_values(|w: String| w@) =~= all_words.take(j + 1));
        }
        j = j + 1;
    }
    proof {
        assert(all_words.take(m as int) =~= all_words);
    }
    words
}

/// A word that ends with sentence punctuation.
pub open spec fn ends_punct(w: Seq<char>) -> bool {
    w.len() > 0 && (w.last() == '.' || w.last() == '!' || w.last() == '?')
}

/// The word equals one of the known abbreviations.
pub open spec fn is_abbrev(abbrevs: Seq<Seq<char>>, w: Seq<char>) -> bool {
    exists|i: int| 0 <= i < abbrevs.len() && abbrevs[i] == w
}

/// A true sentence boundary after word `i`: sentence punctuation on a word
/// that is no abbreviation, confirmed by a following word starting upper
/// case.
pub open spec fn boundary(abbrevs: Seq<Seq<char>>, ws: Seq<Seq<char>>, i: int) -> bool {
    &&& ends_punct(ws[i])
    &&& !is_abbrev(abbrevs, ws[i])
    &&& i + 1 < ws.len()
    &&& ws[i + 1].len() > 0
    &&& upper_of(ws[i + 1][0])
}

/// Words joined by single spaces.
pub open spec fn join_words(ws: Seq<Seq<char>>) -> Seq<char>
    decreases ws.len(),
{
    if ws.len() == 0 {
        Seq::empty()
    } else if ws.len() == 1 {
        ws[0]
    } else {
        join_words(ws.drop_last()) + seq![' '] + ws.last()
    }
}

/// The sentences completed and the words still buffered after the first `i`
/// words.
pub open spec fn group_acc(abbrevs: Seq<Seq<char>>, ws: Seq<Seq<char>>, i: int) -> (
    Seq<Seq<char>>,
    Seq<Seq<char>>,
)
    decreases i,
{
    if i <= 0 {
        (Seq::empty(), Seq::empty())
    } else {
        let (ss, buf) = group_acc(abbrevs, ws, i - 1);
        let buf2 = buf.push(ws[i - 1]);
        if boundary(abbrevs, ws, i - 1) {
            (ss.push(join_words(buf2)), Seq::empty())
        } else {
            (ss, buf2)
        }
    }
}

/// The sentence-level chunks of a word list: words buffered up to each true
/// boundary, joined by single spaces; trailing words become the final chunk.
pub open spec fn sentences_spec(abbrevs: Seq<Seq<char>>, ws: Seq<Seq<char>>) -> Seq<Seq<char>> {
    let (ss, buf) = group_acc(abbrevs, ws, ws.len() as int);
    if buf.len() == 0 {
        ss
    } else {
        ss.push(join_words(buf))
    }
}

/// The whole chunker: split into words, regroup into sentences.
pub open spec fn chunks_spec(abbrevs: Seq<Seq<char>>, s: Seq<char>) -> Seq<Seq<char>> {
    sentences_spec(abbrevs, words_spec(s))
}

/// A word: nonempty, with no whitespace character in it.
pub open spec fn word_ok(w: Seq<char>) -> bool {
    w.len() > 0 && forall|j: int| 0 <= j < w.len() ==> !space_of(#[trigger] w[j])
}

/// A chunk: nonempty, ending in no whitespace character.
pub open spec fn chunk_ok(c: Seq<char>) -> bool {
    c.len() > 0 && !space_of(c.last())
}

proof fn lemma_split_acc_ok(s: Seq<char>)
    ensures
        forall|i: int| 0 <= i < split_acc(s).0.len() ==> word_ok(#[trigger] split_acc(s).0[i]),
        forall|j: int| 0 <= j < split_acc(s).1.len() ==> !space_of(#[trigger] split_acc(s).1[j]),
    decreases s.len(),
{
    if s.len() > 0 {
        lemma_split_acc_ok(s.drop_last());
        let (ws, buf) = split_acc(s.drop_last());
        let c = s.last();
        if space_of(c) && buf.len() > 0 {
            assert(word_ok(buf));
            assert forall|i: int| 0 <= i < split_acc(s).0.len() implies word_ok(
                #[trigger] split_acc(s).0[i],
            ) by {
                if i < ws.len() {
                    assert(split_acc(s).0[i] == ws[i]);
                } else {
                    assert(split_acc(s).0[i] == buf);
                }
            }
        }
    }
}

proof fn lemma_words_ok(s: Seq<char>)
    ensures
        forall|i: int| 0 <= i < words_spec(s).len() ==> word_ok(#[trigger] words_spec(s)[i]),
{
    lemma_split_acc_ok(s);
    let (ws, buf) = split_acc(s);
    assert forall|i: int| 0 <= i < words_spec(s).len() implies word_ok(
        #[trigger] words_spec(s)[i],
    ) by {
        if i < ws.len() {
            assert(words_spec(s)[i] == ws[i]);
        } else {
            assert(buf.len() > 0);
            assert(word_ok(buf));
            assert(words_spec(s)[i] == buf);
        }
    }
}

proof fn lemma_join_ok(ws: Seq<Seq<char>>)
    requires
        ws.len() > 0,
        forall|i: int| 0 <= i < ws.len() ==> word_ok(#[trigger] ws[i]),
    ensures
        chunk_ok(join_words(ws)),
        join_words(ws).last() == ws.last().last(),
    decreases ws.len(),
{
    assert(word_ok(ws.last()));
    if ws.len() == 1 {
        assert(join_words(ws) == ws[0]);
        assert(!space_of(ws[0][ws[0].len() - 1]));
    } else {
        let w1 = ws.drop_last();
        assert(forall|i: int| 0 <= i < w1.len() ==> w1[i] == ws[i]);
        lemma_join_ok(w1);
        let joined = join_words(w1) + seq![' '] + ws.last();
        assert(joined.last() == ws.last().last());
        assert(!space_of(ws.last()[ws.last().len() - 1]));
    }
}

proof fn lemma_group_acc_ok(abbrevs: Seq<Seq<char>>, ws: Seq<Seq<char>>, i: int)
    requires
        i <= ws.len(),
        forall|p: int| 0 <= p < ws.len() ==> word_ok(#[trigger] ws[p]),
    ensures
        forall|p: int|
            0 <= p < group_acc(abbrevs, ws, i).0.len() ==> chunk_ok(
                #[trigger] group_acc(abbrevs, ws, i).0[p],
            ),
        forall|p: int|
            0 <= p < group_acc(abbrevs, ws, i).1.len() ==> word_ok(
                #[trigger] group_acc(abbrevs, ws, i).1[p],
            ),
    decreases i,
{
    if i > 0 {
        lemma_group_acc_ok(abbrevs, ws, i - 1);
        let (ss, buf) = group_acc(abbrevs, ws, i - 1);
        let buf2 = buf.push(ws[i - 1]);
        assert(forall|p: int| 0 <= p < buf2.len() ==> word_ok(#[trigger] buf2[p]));
        if boundary(abbrevs, ws, i - 1) {
            lemma_join_ok(buf2);
            assert forall|p: int| 0 <= p < group_acc(abbrevs, ws, i).0.len() implies chunk_ok(
                #[trigger] group_acc(abbrevs, ws, i).0[p],
            ) by {
                if p < ss.len() {
                    assert(group_acc(abbrevs, ws, i).0[p] == ss[p]);
                } else {
                    assert(group_acc(abbrevs, ws, i).0[p] == join_words(buf2));
                }
            }
        }
    }
}

/// Law: every chunk the splitter yields is well formed — nonempty, and its
/// last character is no whitespace. A chunk is its words joined by single
/// spaces, so it is never blank and never carries trailing separators.
pub proof fn lemma_chunks_well_formed(abbrevs: Seq<Seq<char>>, s: Seq<char>)
    ensures
        forall|i: int|
            0 <= i < chunks_spec(abbrevs, s).len() ==> chunk_ok(
                #[trigger] chunks_spec(abbrevs, s)[i],
            ),
{
    lemma_words_ok(s);
    let ws = words_spec(s);
    lemma_group_acc_ok(abbrevs, ws, ws.len() as int);
    let (ss, buf) = group_acc(abbrevs, ws, ws.len() as int);
    if buf.len() > 0 {
        lemma_join_ok(buf);
    }
    assert forall|i: int| 0 <= i < chunks_spec(abbrevs, s).len() implies chunk_ok(
        #[trigger] chunks_spec(abbrevs, s)[i],
    ) by {
        if i < ss.len() {
            assert(chunks_spec(abbrevs, s)[i] == ss[i]);
        } else {
            assert(buf.len() > 0);
            assert(chunks_spec(abbrevs, s)[i] == join_words(buf));
        }
    }
}

/// Whether the word ends with `.`, `!` or `?`.
fn ends_punct_exec(w: &String) -> (r: bool)
    ensures
        r == ends_punct(w@),
{
    let n = w.as_str().unicode_len();
    if n == 0 {
        false
    } else {
        let c = w.as_str().get_char(n - 1);
        c == '.' || c == '!' || c == '?'
    }
}

/// Whether the word stands in the abbreviation list.
fn contains_str(list: &Vec<String>, w: &String) -> (r: bool)
    ensures
        r == is_abbrev(list@.map_values(|a: String| a@), w@),
{
    let n = list.len();
    let mut found = false;
    let mut j: usize = 0;
    while j < n
        invariant
            0 <= j <= n,
            n == list@.len(),
            found <==> exists|m: int| 0 <= m < j && (#[trigger] list@[m])@ == w@,
        decreases n - j,
    {
        if list[j].eq(w) {
            found = true;
        }
        j = j + 1;
    }
    proof {
        let gab = list@.map_values(|a: String| a@);
        if found {
            let m = choose|m: int| 0 <= m < n && (#[trigger] list@[m])@ == w@;
            assert(gab[m] == w@);
        } else {
            if is_abbrev(gab, w@) {
                let m = choose|m: int| 0 <= m < gab.len() && gab[m] == w@;
                assert(list@[m]@ == w@);
            }
        }
    }
    found
}

/// Regroups words into sentence chunks at true boundaries.
#[verifier::loop_isolation(false)]
fn group_sentences(words: &Vec<String>, abbreviations: &Vec<String>) -> (r: Vec<String>)
    ensures
        r@.map_values(|t: String| t@) == sentences_spec(
            abbreviations@.map_values(|a: String| a@),
            words@.map_values(|w: String| w@),
        ),
{
    let ghost gab = abbreviations@.map_values(|a: String| a@);
    let ghost gws = words@.map_values(|w: String| w@);
    let n = words.len();
    let mut out: Vec<String> = Vec::new();
    let mut buf = String::new();
    let mut has_words = false;
    let ghost mut bwords: Seq<Seq<char>> = Seq::empty();
    let mut i: usize = 0;
    while i < n
        invariant
            0 <= i <= n,
            out@.map_values(|t: String| t@) == group_acc(gab, gws, i as int).0,
            bwords == group_acc(gab, gws, i as int).1,
            buf@ == join_words(bwords),
            has_words <==> bwords.len() > 0,
        decreases n - i,
    {
        let w = &words[i];
        if has_words {
            buf.append(" ");
        }
        buf.append(w.as_str());
        proof {
            reveal_strlit(" ");
            let buf2 = bwords.push(gws[i as int]);
            if bwords.len() == 0 {
                assert(join_words(buf2) == buf2[0]);
                assert(buf@ =~= join_words(buf2));
            } else {
                assert(buf2.drop_last() =~= bwords);
                assert(buf@ =~= join_words(buf2));
            }
            bwords = buf2;
        }
        has_words = true;
        let mut is_boundary = false;
        if i + 1 < n {
            if ends_punct_exec(w) {
                if !contains_str(abbreviations, w) {
                    let next = &words[i + 1];
                    if next.as_str().unicode_len() > 0 {
                        if is_upper(next.as_str().get_char(0)) {
                            is_boundary = true;
                        }
                    }
                }
            }
        }
        proof {
            assert(gws[i as int] == words@[i as int]@);
            if i + 1 < n {
                assert(gws[i + 1] == words@[i + 1]@);
            }
            assert(is_boundary == boundary(gab, gws, i as int));
        }
        if is_boundary {
            out.push(buf);
            buf = String::new();
            has_words = false;
            proof {
                bwords = Seq::empty();
                assert(out@.map_values(|t: String| t@) =~= group_acc(gab, gws, i + 1).0);
            }
        }
        i = i + 1;
    }
    if has_words {
        out.push(buf);
        proof {
            assert(out@.map_values(|t: String| t@) =~= sentences_spec(gab, gws));
        }
    }
    out
}

/// Splits text into sentence-level chunks: words are grouped up to each
/// sentence-ending punctuation mark that is no known abbreviation and is
/// followed by an upper-case word; whatever trails becomes the last chunk.
pub fn split_to_sentences(input: &str, abbreviations: &Vec<String>) -> (r: Vec<String>)
    ensures
        r@.map_values(|t: String| t@) == chunks_spec(
            abbreviations@.map_values(|a: String| a@),
            input@,
        ),
{
    let words = split_words(input);
    group_sentences(&words, abbreviations)
}

/// Converts raw text into the chunk list handed to the embedder, one entry
/// per sentence.
pub fn text_to_vec(input: &str, abbreviations: &Vec<String>) -> (r: Vec<String>)
    ensures
        r@.map_values(|t: String| t@) == chunks_spec(
            abbreviations@.map_values(|a: String| a@),
            input@,
        ),
{
    split_to_sentences(input, abbreviations)
}

} // verus!
