//! Fuzzy scoring of a normalized query against a normalized candidate.

use vstd::prelude::*;
use vstd::math::{abs, max, min};
use vstd::utf8::encode_utf8;
use crate::app::distance::{bounded_lev, capped_lev};
use crate::util::chars::{
    char_width, from_chars, lemma_utf8_len_step, texts, to_chars, utf8_len, views,
};
use crate::util::words::{lemma_word_len, split_words, word_len, words};

verus! {

/// The score of a pair with an empty side: half of `i32::MIN`, below every
/// score that a real comparison can give.
pub const MIN_SCORE: i32 = -1_073_741_824;

/// The score of a query against itself.
pub const EXACT_SCORE: i32 = 500;

/// The greatest distance that is told apart; anything above counts as one more.
pub const DISTANCE_BOUND: usize = 3;

/// The longest query, in characters, whose every score fits an `i32`:
/// no score is above `225 + 96 * length`.
pub const MAX_QUERY_LEN: usize = 22_369_618;

/// Index of the first `ch` in `hay` at or after `from`; the length of `hay`
/// where there is none.
pub open spec fn find_from(hay: Seq<char>, ch: char, from: int) -> int
    decreases hay.len() - from,
{
    if from >= hay.len() {
        hay.len() as int
    } else if hay[from] == ch {
        from
    } else {
        find_from(hay, ch, from + 1)
    }
}

/// Indices in `hay`, from `from` on, at which the characters of `needle` are
/// found when each is matched at its first occurrence after the match before
/// it; `None` where some character finds no match.
pub open spec fn greedy_match(needle: Seq<char>, hay: Seq<char>, from: int) -> Option<Seq<int>>
    decreases needle.len(),
{
    if needle.len() == 0 {
        Some(Seq::empty())
    } else {
        let k = find_from(hay, needle[0], from);
        if k >= hay.len() {
            None
        } else {
            match greedy_match(needle.drop_first(), hay, k + 1) {
                None => None,
                Some(rest) => Some(seq![k] + rest),
            }
        }
    }
}

/// The matches found so far, followed by those still to come.
pub open spec fn glue(found: Seq<int>, more: Option<Seq<int>>) -> Option<Seq<int>> {
    match more {
        None => None,
        Some(rest) => Some(found + rest),
    }
}

/// The byte offsets in `hay` of the characters at the given indices.
pub open spec fn byte_offsets(hay: Seq<char>, at: Seq<int>) -> Seq<int> {
    Seq::new(at.len(), |j: int| utf8_len(hay.take(at[j])) as int)
}

/// Byte offsets in `hay` at which the characters of a non-empty `needle` are
/// matched greedily from left to right; `None` for an empty needle and where
/// some character finds no match.
pub open spec fn subsequence_at(needle: Seq<char>, hay: Seq<char>) -> Option<Seq<int>> {
    if needle.len() == 0 {
        None
    } else {
        match greedy_match(needle, hay, 0) {
            None => None,
            Some(at) => Some(byte_offsets(hay, at)),
        }
    }
}

/// Whether the characters of `needle` occur in `hay` in order, not
/// necessarily next to each other.
pub open spec fn is_subseq(needle: Seq<char>, hay: Seq<char>) -> bool
    decreases hay.len(),
{
    if needle.len() == 0 {
        true
    } else if hay.len() == 0 {
        false
    } else if needle[0] == hay[0] {
        is_subseq(needle.drop_first(), hay.drop_first())
    } else {
        is_subseq(needle, hay.drop_first())
    }
}

/// The positions as mathematical integers.
pub open spec fn ints(v: Seq<usize>) -> Seq<int> {
    Seq::new(v.len(), |i: int| v[i] as int)
}

/// Length of the run of positions, each one more than the one before, that
/// ends at index `k`.
pub open spec fn run_ending_at(p: Seq<int>, k: int) -> nat
    decreases k,
{
    if k <= 0 {
        1
    } else if p[k] == p[k - 1] + 1 {
        run_ending_at(p, k - 1) + 1
    } else {
        1
    }
}

/// The longest run that ends before index `k`.
pub open spec fn best_run_before(p: Seq<int>, k: int) -> nat
    decreases k,
{
    if k <= 0 {
        0
    } else {
        max(best_run_before(p, k - 1) as int, run_ending_at(p, k - 1) as int) as nat
    }
}

/// The longest run of consecutive positions; zero where there are none.
pub open spec fn best_streak(p: Seq<int>) -> nat {
    best_run_before(p, p.len() as int)
}

/// A byte offset is a boundary when it is the start of the text or comes
/// directly after a space and before the end.
pub open spec fn is_boundary(hay: Seq<u8>, p: int) -> bool {
    p == 0 || (0 < p < hay.len() && hay[p - 1] == 0x20)
}

/// Number of positions that are boundaries of `hay`.
pub open spec fn count_boundaries(p: Seq<int>, hay: Seq<u8>) -> nat
    decreases p.len(),
{
    if p.len() == 0 {
        0
    } else {
        count_boundaries(p.drop_last(), hay) + if is_boundary(hay, p.last()) {
            1nat
        } else {
            0nat
        }
    }
}

/// Number of distinct tokens that both lists hold.
pub open spec fn shared_tokens(a: Seq<Seq<char>>, b: Seq<Seq<char>>) -> nat {
    a.to_set().intersect(b.to_set()).len()
}

/// Whether `t` is a prefix of some token of `b`.
pub open spec fn has_prefix_in(t: Seq<char>, b: Seq<Seq<char>>) -> bool {
    exists|j: int| 0 <= j < b.len() && t.is_prefix_of(#[trigger] b[j])
}

/// Number of tokens of `a`, each counted as often as it occurs, that are a
/// prefix of some token of `b`.
pub open spec fn count_prefixed(a: Seq<Seq<char>>, b: Seq<Seq<char>>) -> nat
    decreases a.len(),
{
    if a.len() == 0 {
        0
    } else {
        count_prefixed(a.drop_last(), b) + if has_prefix_in(a.last(), b) {
            1nat
        } else {
            0nat
        }
    }
}

/// The first characters of the tokens, in order; an empty token gives none.
pub open spec fn initials(tokens: Seq<Seq<char>>) -> Seq<char>
    decreases tokens.len(),
{
    if tokens.len() == 0 {
        Seq::empty()
    } else if tokens.last().len() > 0 {
        initials(tokens.drop_last()).push(tokens.last()[0])
    } else {
        initials(tokens.drop_last())
    }
}

/// Whether the query reads as an acronym of the tokens: it has no more bytes
/// than there are tokens, and its characters occur in order among their
/// first characters.
pub open spec fn is_acronym(query: Seq<char>, tokens: Seq<Seq<char>>) -> bool {
    tokens.len() > 0 && utf8_len(query) <= tokens.len() && is_subseq(query, initials(tokens))
}

/// 120 where the candidate begins with the whole query.
pub open spec fn prefix_bonus(q: Seq<char>, c: Seq<char>) -> int {
    if q.is_prefix_of(c) {
        120
    } else {
        0
    }
}

/// 60 where the query is matched as a subsequence, and then 6 for each
/// position of the longest run of consecutive matches and 8 for each match
/// on a boundary.
pub open spec fn subsequence_bonus(q: Seq<char>, c: Seq<char>) -> int {
    match subsequence_at(q, c) {
        None => 0,
        Some(p) => (60 + 6 * best_streak(p) + 8 * count_boundaries(p, encode_utf8(c))) as int,
    }
}

/// 40 for each shared token, 24 for each query token that is a prefix of a
/// candidate token, and 18 more for each shared token.
pub open spec fn token_bonus(q: Seq<char>, c: Seq<char>) -> int {
    let qt = words(q);
    let ct = words(c);
    (40 * shared_tokens(qt, ct) + 24 * count_prefixed(qt, ct) + 18 * shared_tokens(qt, ct)) as int
}

/// 45 where the query reads as an acronym of the candidate.
pub open spec fn acronym_bonus(q: Seq<char>, c: Seq<char>) -> int {
    if is_acronym(q, words(c)) {
        45
    } else {
        0
    }
}

/// 12 for each edit between the two texts' bytes, up to four edits.
pub open spec fn distance_penalty(q: Seq<char>, c: Seq<char>) -> int {
    (12 * capped_lev(encode_utf8(q), encode_utf8(c), DISTANCE_BOUND as nat)) as int
}

/// The difference of the two lengths in bytes, up to 12.
pub open spec fn length_penalty(q: Seq<char>, c: Seq<char>) -> int {
    min(abs(utf8_len(c) - utf8_len(q)) as int, 12)
}

/// The score of a candidate for a query, both normalized. An empty side
/// gives `MIN_SCORE`, equal texts give 500; otherwise the bonuses are added
/// and the penalties taken off.
pub open spec fn score(q: Seq<char>, c: Seq<char>) -> int {
    if q.len() == 0 || c.len() == 0 {
        MIN_SCORE as int
    } else if q == c {
        EXACT_SCORE as int
    } else {
        prefix_bonus(q, c) + subsequence_bonus(q, c) + token_bonus(q, c) + acronym_bonus(q, c)
            - distance_penalty(q, c) - length_penalty(q, c)
    }
}

/// A search from `from` ends at or after `from`, at the first occurrence.
pub proof fn lemma_find_from(hay: Seq<char>, ch: char, from: int)
    requires
        0 <= from,
    ensures
        from <= find_from(hay, ch, from) || find_from(hay, ch, from) == hay.len(),
        find_from(hay, ch, from) <= hay.len(),
        find_from(hay, ch, from) < hay.len() ==> hay[find_from(hay, ch, from)] == ch,
    decreases hay.len() - from,
{
    if from < hay.len() && hay[from] != ch {
        lemma_find_from(hay, ch, from + 1);
    }
}

/// A greedy match has one index for each character of the needle; the
/// indices lie in `hay` from `from` on, each behind the one before it, and
/// at each the character of the needle is found.
pub proof fn lemma_greedy_match(needle: Seq<char>, hay: Seq<char>, from: int)
    requires
        0 <= from,
    ensures
        greedy_match(needle, hay, from) matches Some(at) ==> {
            &&& at.len() == needle.len()
            &&& forall|j: int|
                0 <= j < at.len() ==> from <= #[trigger] at[j] < hay.len() && hay[at[j]]
                    == needle[j]
            &&& forall|j: int| 0 < j < at.len() ==> at[j - 1] < #[trigger] at[j]
        },
    decreases needle.len(),
{
    if needle.len() > 0 {
        let k = find_from(hay, needle[0], from);
        lemma_find_from(hay, needle[0], from);
        if k < hay.len() {
            let rest_needle = needle.drop_first();
            lemma_greedy_match(rest_needle, hay, k + 1);
            match greedy_match(rest_needle, hay, k + 1) {
                Some(rest) => {
                    let at = seq![k] + rest;
                    assert forall|j: int| 0 <= j < at.len() implies from <= #[trigger] at[j]
                        < hay.len() && hay[at[j]] == needle[j] by {
                        if j > 0 {
                            assert(at[j] == rest[j - 1]);
                            assert(needle[j] == rest_needle[j - 1]);
                        }
                    }
                    assert forall|j: int| 0 < j < at.len() implies at[j - 1] < #[trigger] at[j] by {
                        assert(at[j] == rest[j - 1]);
                        if j > 1 {
                            assert(at[j - 1] == rest[j - 2]);
                        }
                    }
                },
                None => {},
            }
        }
    }
}

/// The characters of a needle are matched greedily exactly where the
/// needle is a subsequence of what is left of `hay`.
pub proof fn lemma_greedy_match_finds(needle: Seq<char>, hay: Seq<char>, from: int)
    requires
        0 <= from <= hay.len(),
    ensures
        greedy_match(needle, hay, from) is Some <==> is_subseq(needle, hay.skip(from)),
    decreases hay.len() - from,
{
    let left = hay.skip(from);
    if needle.len() == 0 {
    } else if from == hay.len() {
    } else {
        assert(left[0] == hay[from]);
        assert(left.drop_first() == hay.skip(from + 1));
        if needle[0] == hay[from] {
            lemma_greedy_match_finds(needle.drop_first(), hay, from + 1);
        } else {
            lemma_greedy_match_finds(needle, hay, from + 1);
        }
    }
}

/// A non-empty needle has positions in `hay` exactly where it is a
/// subsequence of `hay`.
pub proof fn lemma_subsequence_at(needle: Seq<char>, hay: Seq<char>)
    ensures
        subsequence_at(needle, hay) is Some <==> needle.len() > 0 && is_subseq(needle, hay),
{
    lemma_greedy_match_finds(needle, hay, 0);
    assert(hay.skip(0) == hay);
}

/// The indices lie in `hay`, each behind the one before it, and hold the
/// characters of `needle` in order.
pub open spec fn embeds(at: Seq<int>, needle: Seq<char>, hay: Seq<char>) -> bool {
    &&& at.len() == needle.len()
    &&& forall|j: int| 0 <= j < at.len() ==> 0 <= #[trigger] at[j] < hay.len() && hay[at[j]] == needle[j]
    &&& forall|j: int| 0 < j < at.len() ==> at[j - 1] < #[trigger] at[j]
}

/// A needle whose characters are found in `hay` at rising indices is a
/// subsequence of `hay`.
pub proof fn lemma_embedded_is_subseq(at: Seq<int>, needle: Seq<char>, hay: Seq<char>)
    requires
        embeds(at, needle, hay),
    ensures
        is_subseq(needle, hay),
    decreases hay.len(),
{
    if needle.len() > 0 {
        assert(0 <= at[0] < hay.len());
        assert forall|j: int| 0 <= j < at.len() implies at[0] <= #[trigger] at[j] by {
            lemma_rising(at, 0, j);
        }
        let rest_hay = hay.drop_first();
        if needle[0] == hay[0] {
            let rest_needle = needle.drop_first();
            let rest_at = Seq::new((at.len() - 1) as nat, |j: int| at[j + 1] - 1);
            assert(embeds(rest_at, rest_needle, rest_hay)) by {
                assert forall|j: int| 0 <= j < rest_at.len() implies 0 <= #[trigger] rest_at[j]
                    < rest_hay.len() && rest_hay[rest_at[j]] == rest_needle[j] by {
                    assert(at[j] < at[j + 1]);
                    assert(at[0] <= at[j]);
                    assert(hay[at[j + 1]] == needle[j + 1]);
                }
                assert forall|j: int| 0 < j < rest_at.len() implies rest_at[j - 1]
                    < #[trigger] rest_at[j] by {
                    assert(at[j] < at[j + 1]);
                }
            }
            lemma_embedded_is_subseq(rest_at, rest_needle, rest_hay);
        } else {
            let moved_at = Seq::new(at.len(), |j: int| at[j] - 1);
            assert(embeds(moved_at, needle, rest_hay)) by {
                assert forall|j: int| 0 <= j < moved_at.len() implies 0 <= #[trigger] moved_at[j]
                    < rest_hay.len() && rest_hay[moved_at[j]] == needle[j] by {
                    assert(at[0] <= at[j]);
                    assert(hay[at[j]] == needle[j]);
                }
                assert forall|j: int| 0 < j < moved_at.len() implies moved_at[j - 1]
                    < #[trigger] moved_at[j] by {
                    assert(at[j - 1] < at[j]);
                }
            }
            lemma_embedded_is_subseq(moved_at, needle, rest_hay);
        }
    }
}

/// Rising indices rise over any distance.
proof fn lemma_rising(at: Seq<int>, i: int, j: int)
    requires
        forall|k: int| 0 < k < at.len() ==> at[k - 1] < #[trigger] at[k],
        0 <= i <= j < at.len(),
    ensures
        at[i] <= at[j],
        i < j ==> at[i] < at[j],
    decreases j - i,
{
    if i < j {
        lemma_rising(at, i, j - 1);
        assert(at[j - 1] < at[j]);
    }
}

/// A needle is a subsequence of `hay` exactly if its characters are found
/// in `hay` at rising indices; the greedy match is one such finding.
pub proof fn lemma_subseq_iff_embedded(needle: Seq<char>, hay: Seq<char>)
    ensures
        is_subseq(needle, hay) <==> exists|at: Seq<int>| embeds(at, needle, hay),
        is_subseq(needle, hay) ==> greedy_match(needle, hay, 0) is Some && embeds(
            greedy_match(needle, hay, 0)->0,
            needle,
            hay,
        ),
{
    lemma_greedy_match_finds(needle, hay, 0);
    assert(hay.skip(0) == hay);
    if is_subseq(needle, hay) {
        lemma_greedy_match(needle, hay, 0);
        assert(embeds(greedy_match(needle, hay, 0)->0, needle, hay));
    }
    if exists|at: Seq<int>| embeds(at, needle, hay) {
        let at = choose|at: Seq<int>| embeds(at, needle, hay);
        lemma_embedded_is_subseq(at, needle, hay);
    }
}

/// No run is longer than the list of positions.
pub proof fn lemma_run_bound(p: Seq<int>, k: int)
    requires
        0 <= k <= p.len(),
    ensures
        best_run_before(p, k) <= k,
        k < p.len() ==> run_ending_at(p, k) <= k + 1,
    decreases k,
{
    if k > 0 {
        lemma_run_bound(p, k - 1);
    }
}

/// No more positions are boundaries than there are positions.
pub proof fn lemma_boundaries_bound(p: Seq<int>, hay: Seq<u8>)
    ensures
        count_boundaries(p, hay) <= p.len(),
    decreases p.len(),
{
    if p.len() > 0 {
        lemma_boundaries_bound(p.drop_last(), hay);
    }
}

/// A text has no more words than characters.
pub proof fn lemma_words_len(s: Seq<char>)
    ensures
        words(s).len() <= s.len(),
    decreases s.len(),
{
    if s.len() == 0 {
    } else if crate::util::chars::is_space(s[0]) {
        lemma_words_len(s.drop_first());
    } else {
        lemma_word_len(s);
        lemma_words_len(s.skip(word_len(s) as int));
    }
}

/// Nothing is a prefix of a token of an empty list.
pub proof fn lemma_none_prefixed(a: Seq<Seq<char>>, b: Seq<Seq<char>>)
    requires
        b.len() == 0,
    ensures
        count_prefixed(a, b) == 0,
    decreases a.len(),
{
    if a.len() > 0 {
        lemma_none_prefixed(a.drop_last(), b);
    }
}

/// No more tokens are prefixes than there are tokens.
pub proof fn lemma_prefixed_bound(a: Seq<Seq<char>>, b: Seq<Seq<char>>)
    ensures
        count_prefixed(a, b) <= a.len(),
    decreases a.len(),
{
    if a.len() > 0 {
        lemma_prefixed_bound(a.drop_last(), b);
    }
}

/// No more tokens are shared than the first list has.
pub proof fn lemma_shared_bound(a: Seq<Seq<char>>, b: Seq<Seq<char>>)
    ensures
        shared_tokens(a, b) <= a.len(),
{
    vstd::seq_lib::seq_to_set_is_finite(a);
    vstd::set_lib::lemma_len_intersect(a.to_set(), b.to_set());
    a.lemma_cardinality_of_set();
}

/// The score of two non-empty texts is at least -60, and at most 500 or
/// `225 + 96 * n` for a query of `n` characters, whichever is greater. So
/// the score of a query of up to `MAX_QUERY_LEN` characters fits an `i32`
/// and lies above `MIN_SCORE`.
pub proof fn lemma_score_bounds(q: Seq<char>, c: Seq<char>)
    requires
        q.len() > 0,
        c.len() > 0,
    ensures
        -60 <= score(q, c),
        score(q, c) <= 500 || score(q, c) <= 225 + 96 * q.len(),
        q.len() <= MAX_QUERY_LEN ==> MIN_SCORE < score(q, c) <= i32::MAX,
{
    if q != c {
        match greedy_match(q, c, 0) {
            Some(at) => {
                lemma_greedy_match(q, c, 0);
                let p = byte_offsets(c, at);
                lemma_run_bound(p, p.len() as int);
                lemma_boundaries_bound(p, encode_utf8(c));
            },
            None => {},
        }
        lemma_words_len(q);
        lemma_shared_bound(words(q), words(c));
        lemma_prefixed_bound(words(q), words(c));
        assert(0 <= subsequence_bonus(q, c) <= 60 + 14 * q.len());
        assert(0 <= token_bonus(q, c) <= 82 * q.len());
    }
}

/// The score of a pair with an empty side is `MIN_SCORE`.
pub proof fn lemma_score_empty(q: Seq<char>, c: Seq<char>)
    requires
        q.len() == 0 || c.len() == 0,
    ensures
        score(q, c) == MIN_SCORE,
{
}

/// The score of a non-empty text against itself is 500.
pub proof fn lemma_score_same(q: Seq<char>)
    requires
        q.len() > 0,
    ensures
        score(q, q) == 500,
{
}

/// The characters of each string of a list.
fn chars_of_all(list: &[String]) -> (out: Vec<Vec<char>>)
    ensures
        views(out@) == texts(list@),
{
    let mut out: Vec<Vec<char>> = Vec::new();
    let mut i: usize = 0;
    while i < list.len()
        invariant
            i <= list.len(),
            views(out@) == texts(list@.take(i as int)),
        decreases list.len() - i,
    {
        let chars = to_chars(list[i].as_str());
        proof {
            assert(list@.take(i + 1) == list@.take(i as int).push(list@[i as int]));
            assert(views(out@.push(chars)) == views(out@).push(chars@));
            assert(texts(list@.take(i + 1)) == texts(list@.take(i as int)).push(
                list@[i as int]@,
            ));
        }
        out.push(chars);
        i += 1;
    }
    proof {
        assert(list@.take(list.len() as int) == list@);
    }
    out
}

/// Whether `hay` begins with `prefix`.
fn starts_with(hay: &Vec<char>, prefix: &Vec<char>) -> (b: bool)
    ensures
        b == prefix@.is_prefix_of(hay@),
{
    if prefix.len() > hay.len() {
        return false;
    }
    let mut i: usize = 0;
    while i < prefix.len()
        invariant
            i <= prefix.len() <= hay.len(),
            prefix@.take(i as int) == hay@.take(i as int),
        decreases prefix.len() - i,
    {
        if prefix[i] != hay[i] {
            proof {
                assert(hay@.subrange(0, prefix.len() as int)[i as int] == hay@[i as int]);
            }
            return false;
        }
        proof {
            assert(prefix@.take(i + 1) == prefix@.take(i as int).push(prefix@[i as int]));
            assert(hay@.take(i + 1) == hay@.take(i as int).push(hay@[i as int]));
        }
        i += 1;
    }
    proof {
        assert(prefix@.take(prefix.len() as int) == prefix@);
    }
    true
}

/// Whether the characters of `needle` occur in `hay` in order.
fn chars_subsequence(needle: &Vec<char>, hay: &Vec<char>) -> (b: bool)
    ensures
        b == is_subseq(needle@, hay@),
{
    let mut i: usize = 0;
    let mut j: usize = 0;
    proof {
        assert(needle@.skip(0) == needle@);
        assert(hay@.skip(0) == hay@);
    }
    while i < needle.len() && j < hay.len()
        invariant
            i <= needle.len(),
            j <= hay.len(),
            is_subseq(needle@, hay@) == is_subseq(needle@.skip(i as int), hay@.skip(j as int)),
        decreases hay.len() - j,
    {
        proof {
            assert(needle@.skip(i as int).drop_first() == needle@.skip(i + 1));
            assert(hay@.skip(j as int).drop_first() == hay@.skip(j + 1));
        }
        if needle[i] == hay[j] {
            i += 1;
        }
        j += 1;
    }
    i == needle.len()
}

/// Whether the characters of `needle` occur in `hay` in order, not
/// necessarily next to each other.
pub fn is_subsequence(needle: &str, hay: &str) -> (b: bool)
    ensures
        b == is_subseq(needle@, hay@),
{
    let n = to_chars(needle);
    let h = to_chars(hay);
    chars_subsequence(&n, &h)
}

/// The words of a text.
pub fn tokenize(s: &str) -> (out: Vec<String>)
    ensures
        texts(out@) == words(s@),
        out.len() <= s@.len(),
{
    let chars = to_chars(s);
    let parts = split_words(&chars);
    let mut out: Vec<String> = Vec::new();
    let mut i: usize = 0;
    while i < parts.len()
        invariant
            i <= parts.len(),
            texts(out@) == views(parts@).take(i as int),
        decreases parts.len() - i,
    {
        let token = from_chars(&parts[i]);
        proof {
            assert(texts(out@.push(token)) == texts(out@).push(token@));
            assert(views(parts@).take(i + 1) == views(parts@).take(i as int).push(
                parts@[i as int]@,
            ));
        }
        out.push(token);
        i += 1;
    }
    proof {
        assert(views(parts@).take(parts.len() as int) == views(parts@));
        lemma_words_len(s@);
        assert(texts(out@).len() == out@.len());
    }
    out
}

/// Whether the list holds a string with the same text as `t`.
fn holds(list: &[String], t: &String) -> (b: bool)
    ensures
        b == texts(list@).contains(t@),
{
    let mut j: usize = 0;
    while j < list.len()
        invariant
            j <= list.len(),
            forall|k: int| 0 <= k < j ==> texts(list@)[k] != t@,
        decreases list.len() - j,
    {
        if list[j] == *t {
            proof {
                assert(texts(list@)[j as int] == t@);
            }
            return true;
        }
        j += 1;
    }
    false
}

/// Whether one of the first `upto` strings of the list has the same text as `t`.
fn holds_before(list: &[String], upto: usize, t: &String) -> (b: bool)
    requires
        upto <= list.len(),
    ensures
        b == texts(list@).take(upto as int).contains(t@),
{
    let mut j: usize = 0;
    while j < upto
        invariant
            j <= upto <= list.len(),
            forall|k: int| 0 <= k < j ==> texts(list@)[k] != t@,
        decreases upto - j,
    {
        if list[j] == *t {
            proof {
                assert(texts(list@).take(upto as int)[j as int] == t@);
            }
            return true;
        }
        j += 1;
    }
    false
}

/// Number of distinct tokens that both lists hold.
pub fn token_exact_matches(a: &[String], b: &[String]) -> (count: usize)
    ensures
        count == shared_tokens(texts(a@), texts(b@)),
        count <= a.len(),
{
    let mut count: usize = 0;
    let mut i: usize = 0;
    let ghost ta = texts(a@);
    let ghost tb = texts(b@);
    proof {
        assert(ta.take(0).to_set() == Set::<Seq<char>>::empty());
        assert(ta.take(0).to_set().intersect(tb.to_set()) == Set::<Seq<char>>::empty());
    }
    while i < a.len()
        invariant
            i <= a.len(),
            count <= i,
            ta == texts(a@),
            tb == texts(b@),
            count == ta.take(i as int).to_set().intersect(tb.to_set()).len(),
        decreases a.len() - i,
    {
        let seen = holds_before(a, i, &a[i]);
        let there = holds(b, &a[i]);
        proof {
            let t = ta[i as int];
            let before = ta.take(i as int);
            assert(ta.take(i + 1) == before.push(t));
            before.lemma_push_to_set_commute(t);
            vstd::seq_lib::seq_to_set_is_finite(before);
            let old_set = before.to_set().intersect(tb.to_set());
            let new_set = before.push(t).to_set().intersect(tb.to_set());
            if !seen && there {
                assert(new_set == old_set.insert(t));
                assert(!old_set.contains(t));
            } else {
                assert(new_set == old_set);
            }
        }
        if !seen && there {
            count += 1;
        }
        i += 1;
    }
    proof {
        assert(ta.take(a.len() as int) == ta);
    }
    count
}

/// Number of tokens of `a` that are a prefix of some token of `b`.
pub fn token_prefix_matches(a: &[String], b: &[String]) -> (count: usize)
    ensures
        count == count_prefixed(texts(a@), texts(b@)),
        count <= a.len(),
{
    let ac = chars_of_all(a);
    let bc = chars_of_all(b);
    let ghost ta = texts(a@);
    let ghost tb = texts(b@);
    let mut count: usize = 0;
    let mut i: usize = 0;
    proof {
        assert(views(ac@).len() == ac@.len());
        assert(ta.len() == a@.len());
        assert(ta.take(0) == Seq::<Seq<char>>::empty());
    }
    while i < ac.len()
        invariant
            i <= ac.len(),
            ac.len() == a.len(),
            count <= i,
            views(ac@) == ta,
            views(bc@) == tb,
            ta == texts(a@),
            tb == texts(b@),
            count == count_prefixed(ta.take(i as int), tb),
        decreases ac.len() - i,
    {
        let mut found = false;
        let mut j: usize = 0;
        while j < bc.len() && !found
            invariant
                j <= bc.len(),
                i < ac.len(),
                views(ac@) == ta,
                views(bc@) == tb,
                found ==> has_prefix_in(ta[i as int], tb),
                !found ==> forall|k: int| 0 <= k < j ==> !ta[i as int].is_prefix_of(#[trigger] tb[k]),
            decreases bc.len() - j,
        {
            proof {
                assert(views(ac@)[i as int] == ac@[i as int]@);
                assert(views(bc@)[j as int] == bc@[j as int]@);
            }
            if starts_with(&bc[j], &ac[i]) {
                found = true;
            }
            j += 1;
        }
        proof {
            assert(ta.take(i + 1).drop_last() == ta.take(i as int));
            assert(ta.take(i + 1).last() == ta[i as int]);
        }
        if found {
            count += 1;
        }
        i += 1;
    }
    proof {
        assert(ta.take(a.len() as int) == ta);
        assert(views(ac@).len() == ac@.len());
    }
    count
}

/// Number of tokens that both lists hold: the same count as
/// `token_exact_matches`, which the score takes in twice.
pub fn token_overlap_count(a: &[String], b: &[String]) -> (count: usize)
    ensures
        count == shared_tokens(texts(a@), texts(b@)),
        count <= a.len(),
{
    token_exact_matches(a, b)
}

/// Whether the query reads as an acronym of the candidate's tokens.
pub fn is_acronym_subsequence(query_norm: &str, c_tokens: &[String]) -> (b: bool)
    ensures
        b == is_acronym(query_norm@, texts(c_tokens@)),
{
    if c_tokens.len() == 0 || query_norm.as_bytes().len() > c_tokens.len() {
        return false;
    }
    let mut acronym: Vec<char> = Vec::new();
    let tokens = chars_of_all(c_tokens);
    let ghost tt = texts(c_tokens@);
    let mut i: usize = 0;
    while i < tokens.len()
        invariant
            i <= tokens.len(),
            views(tokens@) == tt,
            acronym@ == initials(tt.take(i as int)),
        decreases tokens.len() - i,
    {
        proof {
            assert(tt.take(i + 1).drop_last() == tt.take(i as int));
            assert(tt.take(i + 1).last() == tt[i as int]);
            assert(views(tokens@)[i as int] == tokens@[i as int]@);
        }
        if tokens[i].len() > 0 {
            acronym.push(tokens[i][0]);
        }
        i += 1;
    }
    proof {
        assert(tt.take(tokens.len() as int) == tt);
        assert(views(tokens@).len() == tokens@.len());
    }
    let query = to_chars(query_norm);
    chars_subsequence(&query, &acronym)
}

/// Whether each position is greater than the one before it.
fn strictly_increasing(positions: &Vec<usize>) -> (b: bool)
    ensures
        b == forall|k: int| 0 < k < positions.len() ==> positions@[k - 1] < #[trigger] positions@[k],
{
    let mut k: usize = 1;
    while k < positions.len()
        invariant
            1 <= k,
            forall|t: int| 0 < t < k && t < positions.len() ==> positions@[t - 1] < #[trigger] positions@[t],
        decreases positions.len() - k,
    {
        if positions[k - 1] >= positions[k] {
            return false;
        }
        k += 1;
    }
    true
}

/// Byte offsets in `hay` at which the characters of `needle` are matched,
/// each at its first occurrence after the match before it. `None` for an
/// empty needle and where some character finds no match.
pub fn subsequence_positions(needle: &str, hay: &str) -> (found: Option<Vec<usize>>)
    ensures
        match found {
            None => subsequence_at(needle@, hay@) is None,
            Some(v) => subsequence_at(needle@, hay@) == Some(ints(v@)) && v.len() == needle@.len(),
        },
{
    let n = to_chars(needle);
    let h = to_chars(hay);
    let total = hay.as_bytes().len();
    let mut positions: Vec<usize> = Vec::new();
    let ghost mut at: Seq<int> = Seq::empty();
    let mut last_idx: usize = 0;
    let mut k: usize = 0;
    let mut offset: usize = 0;
    let mut i: usize = 0;
    proof {
        assert(n@.skip(0) == n@);
        assert(h@.take(0) == Seq::<char>::empty());
        assert(encode_utf8(Seq::<char>::empty()).len() == 0);
        match greedy_match(n@, h@, 0) {
            None => {},
            Some(rest) => {
                assert(at + rest == rest);
            },
        }
    }
    while i < n.len()
        invariant
            i <= n.len(),
            k <= h.len(),
            n@ == needle@,
            h@ == hay@,
            total == utf8_len(h@),
            offset == utf8_len(h@.take(k as int)),
            offset <= total,
            greedy_match(n@, h@, 0) == glue(at, greedy_match(n@.skip(i as int), h@, k as int)),
            at.len() == i,
            positions@.len() == i,
            ints(positions@) == byte_offsets(h@, at),
            forall|t: int| 0 < t < i ==> positions@[t - 1] < #[trigger] positions@[t],
            i > 0 ==> positions@[i - 1] < offset,
        decreases n.len() - i,
    {
        let ch = n[i];
        let ghost from = k as int;
        let ghost floor = offset;
        let mut hit: Option<usize> = None;
        while hit.is_none() && k < h.len()
            invariant
                k <= h.len(),
                from <= k,
                i < n.len(),
                ch == n@[i as int],
                total == utf8_len(h@),
                offset == utf8_len(h@.take(k as int)),
                offset <= total,
                floor <= offset,
                match hit {
                    None => find_from(h@, ch, from) == find_from(h@, ch, k as int),
                    Some(p) => k > 0 && find_from(h@, ch, from) == k - 1 && p == utf8_len(
                        h@.take(k - 1),
                    ) && floor <= p < offset,
                },
            decreases h.len() - k + if hit.is_none() { 1int } else { 0int },
        {
            let c = h[k];
            let here = offset;
            proof {
                lemma_utf8_len_step(h@, k as int);
            }
            offset = offset + char_width(c);
            k += 1;
            if c == ch {
                hit = Some(here);
                last_idx = here;
            }
        }
        match hit {
            None => {
                proof {
                    assert(find_from(h@, ch, from) == h@.len());
                    assert(n@.skip(i as int)[0] == ch);
                    assert(greedy_match(n@.skip(i as int), h@, from) is None);
                }
                return None;
            },
            Some(p) => {
                proof {
                    let rest_needle = n@.skip(i as int);
                    assert(rest_needle[0] == ch);
                    assert(rest_needle.drop_first() == n@.skip(i + 1));
                    let idx = k - 1;
                    let new_at = at.push(idx);
                    match greedy_match(n@.skip(i + 1), h@, k as int) {
                        None => {},
                        Some(rest) => {
                            assert(at + (seq![idx] + rest) == new_at + rest);
                        },
                    }
                    let grown = ints(positions@.push(p));
                    let wanted = byte_offsets(h@, new_at);
                    assert forall|j: int| 0 <= j < grown.len() implies grown[j] == wanted[j] by {
                        if j < i {
                            assert(ints(positions@)[j] == byte_offsets(h@, at)[j]);
                        }
                    }
                    assert(grown == wanted);
                    at = new_at;
                }
                positions.push(p);
            },
        }
        i += 1;
    }
    proof {
        assert(n@.skip(n.len() as int) == Seq::<char>::empty());
        assert(at + Seq::<int>::empty() == at);
    }
    if positions.len() == 0 {
        None
    } else if strictly_increasing(&positions) {
        Some(positions)
    } else {
        Some(vec![last_idx])
    }
}

/// Length of the longest run of positions in which each is one more than the
/// one before; zero for no positions.
pub fn best_consecutive_streak(positions: &[usize]) -> (best: usize)
    ensures
        best == best_streak(ints(positions@)),
        best <= positions.len(),
{
    if positions.len() == 0 {
        return 0;
    }
    let ghost p = ints(positions@);
    let mut best: usize = 1;
    let mut cur: usize = 1;
    let mut k: usize = 1;
    proof {
        assert(best_run_before(p, 0) == 0);
        assert(best_run_before(p, 1) == max(0, run_ending_at(p, 0) as int));
    }
    while k < positions.len()
        invariant
            1 <= k <= positions.len(),
            p == ints(positions@),
            cur == run_ending_at(p, k - 1),
            best == best_run_before(p, k as int),
            cur <= k,
            best <= k,
        decreases positions.len() - k,
    {
        if positions[k] > positions[k - 1] && positions[k] - positions[k - 1] == 1 {
            cur += 1;
            if cur > best {
                best = cur;
            }
        } else {
            cur = 1;
        }
        proof {
            assert(p[k as int] == positions@[k as int]);
            assert(p[k - 1] == positions@[k - 1]);
        }
        k += 1;
    }
    best
}

/// Number of positions that are at the start of `hay` or directly after a
/// space.
pub fn boundary_hits(positions: &[usize], hay: &str) -> (hits: usize)
    ensures
        hits == count_boundaries(ints(positions@), encode_utf8(hay@)),
        hits <= positions.len(),
{
    let bytes = hay.as_bytes();
    let ghost p = ints(positions@);
    let mut hits: usize = 0;
    let mut k: usize = 0;
    proof {
        assert(p.take(0) == Seq::<int>::empty());
    }
    while k < positions.len()
        invariant
            k <= positions.len(),
            p == ints(positions@),
            bytes@ == encode_utf8(hay@),
            hits <= k,
            hits == count_boundaries(p.take(k as int), bytes@),
        decreases positions.len() - k,
    {
        let at = positions[k];
        proof {
            assert(p.take(k + 1).drop_last() == p.take(k as int));
            assert(p.take(k + 1).last() == at);
        }
        if at == 0 || (at < bytes.len() && bytes[at - 1] == 0x20) {
            hits += 1;
        }
        k += 1;
    }
    proof {
        assert(p.take(positions.len() as int) == p);
    }
    hits
}

/// The points for a candidate that begins with the query.
fn prefix_points(q: &Vec<char>, c: &Vec<char>) -> (points: i32)
    ensures
        points == prefix_bonus(q@, c@),
        0 <= points <= 120,
{
    if starts_with(c, q) {
        120
    } else {
        0
    }
}

/// The points for a query that is matched as a subsequence.
fn subsequence_points(query_norm: &str, candidate_norm: &str) -> (points: i32)
    requires
        query_norm@.len() <= MAX_QUERY_LEN,
    ensures
        points == subsequence_bonus(query_norm@, candidate_norm@),
        0 <= points <= 60 + 14 * query_norm@.len(),
{
    match subsequence_positions(query_norm, candidate_norm) {
        Some(positions) => {
            let streak = best_consecutive_streak(positions.as_slice());
            let hits = boundary_hits(positions.as_slice(), candidate_norm);
            60 + (streak as i32) * 6 + (hits as i32) * 8
        },
        None => 0,
    }
}

/// The points for tokens that the query and the candidate share.
fn token_points(q_tokens: &[String], c_tokens: &[String]) -> (points: i32)
    requires
        q_tokens.len() <= MAX_QUERY_LEN,
    ensures
        points == 40 * shared_tokens(texts(q_tokens@), texts(c_tokens@)) + 24 * count_prefixed(
            texts(q_tokens@),
            texts(c_tokens@),
        ) + 18 * shared_tokens(texts(q_tokens@), texts(c_tokens@)),
        0 <= points <= 82 * q_tokens.len(),
{
    if q_tokens.len() > 0 && c_tokens.len() > 0 {
        let exact = token_exact_matches(q_tokens, c_tokens);
        let prefixed = token_prefix_matches(q_tokens, c_tokens);
        let overlap = token_overlap_count(q_tokens, c_tokens);
        (exact as i32) * 40 + (prefixed as i32) * 24 + (overlap as i32) * 18
    } else {
        proof {
            let qt = texts(q_tokens@);
            let ct = texts(c_tokens@);
            assert(qt.len() == q_tokens@.len());
            assert(ct.len() == c_tokens@.len());
            if qt.len() == 0 {
                assert(qt.to_set() == Set::<Seq<char>>::empty());
            } else {
                assert(ct.to_set() == Set::<Seq<char>>::empty());
                lemma_none_prefixed(qt, ct);
            }
            assert(qt.to_set().intersect(ct.to_set()) == Set::<Seq<char>>::empty());
        }
        0
    }
}

/// The points for a query that reads as an acronym of the candidate's tokens.
fn acronym_points(query_norm: &str, c_tokens: &[String]) -> (points: i32)
    ensures
        points == if is_acronym(query_norm@, texts(c_tokens@)) {
            45int
        } else {
            0int
        },
        0 <= points <= 45,
{
    if is_acronym_subsequence(query_norm, c_tokens) {
        45
    } else {
        0
    }
}

/// The points taken off for the edits between the two texts.
fn distance_points(query_norm: &str, candidate_norm: &str) -> (points: i32)
    ensures
        points == distance_penalty(query_norm@, candidate_norm@),
        0 <= points <= 48,
{
    let distance = bounded_lev(query_norm, candidate_norm, DISTANCE_BOUND);
    (distance as i32) * 12
}

/// The points taken off for the difference in length.
fn length_points(query_norm: &str, candidate_norm: &str) -> (points: i32)
    ensures
        points == length_penalty(query_norm@, candidate_norm@),
        0 <= points <= 12,
{
    let q_len = query_norm.as_bytes().len();
    let c_len = candidate_norm.as_bytes().len();
    let gap = if c_len > q_len {
        c_len - q_len
    } else {
        q_len - c_len
    };
    if gap < 12 {
        gap as i32
    } else {
        12
    }
}

/// Scores a candidate against a query; both are taken as normalized.
pub fn score_normalized(query_norm: &str, candidate_norm: &str) -> (result: i32)
    requires
        query_norm@.len() <= MAX_QUERY_LEN,
    ensures
        result == score(query_norm@, candidate_norm@),
        query_norm@.len() == 0 || candidate_norm@.len() == 0 ==> result == MIN_SCORE,
        query_norm@.len() > 0 && query_norm@ == candidate_norm@ ==> result == EXACT_SCORE,
        query_norm@.len() > 0 && candidate_norm@.len() > 0 ==> result >= -60,
{
    let q = to_chars(query_norm);
    let c = to_chars(candidate_norm);
    if q.len() == 0 || c.len() == 0 {
        return MIN_SCORE;
    }
    if q.len() == c.len() && starts_with(&c, &q) {
        proof {
            assert(c@.subrange(0, q.len() as int) == c@);
        }
        return EXACT_SCORE;
    }
    proof {
        if q@ == c@ {
            assert(c@.subrange(0, q.len() as int) == c@);
        }
    }
    let q_tokens = tokenize(query_norm);
    let c_tokens = tokenize(candidate_norm);
    let mut total: i32 = prefix_points(&q, &c);
    total += subsequence_points(query_norm, candidate_norm);
    total += token_points(q_tokens.as_slice(), c_tokens.as_slice());
    total += acronym_points(query_norm, c_tokens.as_slice());
    total -= distance_points(query_norm, candidate_norm);
    total -= length_points(query_norm, candidate_norm);
    total
}

} // verus!
