//! Text handling: character classes, word splitting, normalization and display names.

pub mod chars;
pub mod words;

use vstd::prelude::*;
use crate::util::chars::{
    ascii_lower, ascii_upper, from_chars, is_ascii, is_ascii_digit, is_ascii_lower, is_space,
    to_ascii_lowercase, to_ascii_uppercase, to_chars, to_uppercase, unicode_upper, views,
};
use crate::util::words::{
    clean_words, fields, join, join_words, lemma_word_len, no_space, split_fields, split_words,
    word_len, words,
};

verus! {

/// What normalization makes of one character: the separators `_` and `:`
/// become a space, `A` to `Z` become `a` to `z`, every other character stays.
pub open spec fn fold_char(c: char) -> char {
    if c == '_' || c == ':' {
        ' '
    } else {
        ascii_lower(c)
    }
}

/// Every character of `s` folded.
pub open spec fn folded(s: Seq<char>) -> Seq<char> {
    Seq::new(s.len(), |i: int| fold_char(s[i]))
}

/// The normal form of a text: its characters folded, then its words joined
/// by single spaces.
pub open spec fn normalized(s: Seq<char>) -> Seq<char> {
    join(words(folded(s)), ' ')
}

/// A text is normalized when folding changes none of its characters and its
/// only whitespace is single spaces between words.
pub open spec fn is_normalized(t: Seq<char>) -> bool {
    &&& forall|i: int| 0 <= i < t.len() ==> fold_char(#[trigger] t[i]) == t[i]
    &&& forall|i: int|
        0 <= i < t.len() && is_space(#[trigger] t[i]) ==> t[i] == ' ' && 0 < i < t.len() - 1
            && !is_space(t[i + 1])
}

/// Every character of `s` satisfies `p`.
pub open spec fn all_chars(s: Seq<char>, p: spec_fn(char) -> bool) -> bool {
    forall|i: int| 0 <= i < s.len() ==> p(#[trigger] s[i])
}

/// Every character of `s` lowered.
pub open spec fn lowered(s: Seq<char>) -> Seq<char> {
    Seq::new(s.len(), |i: int| ascii_lower(s[i]))
}

/// The uppercase form of the first character of a word: ASCII's own for an
/// ASCII character, Unicode's mapping for any other.
pub open spec fn upper_first(c: char) -> Seq<char> {
    if is_ascii(c) {
        seq![ascii_upper(c)]
    } else {
        unicode_upper(c)
    }
}

/// A word with `A` to `Z` lowered and then its first character in uppercase.
pub open spec fn capitalized(word: Seq<char>) -> Seq<char> {
    if word.len() == 0 {
        Seq::empty()
    } else {
        upper_first(ascii_lower(word[0])) + lowered(word.drop_first())
    }
}

/// Every word capitalized.
pub open spec fn capitalized_all(ws: Seq<Seq<char>>) -> Seq<Seq<char>> {
    Seq::new(ws.len(), |k: int| capitalized(ws[k]))
}

/// The display name of a product id. The id's fields around `:` are taken;
/// the first is the base, whose words around `_` are capitalized and joined
/// by spaces; the second, where there is one and it is not empty, follows in
/// parentheses.
pub open spec fn pretty(id: Seq<char>) -> Seq<char> {
    let parts = fields(id, ':');
    let base = join(capitalized_all(fields(parts[0], '_')), ' ');
    if parts.len() > 1 && parts[1].len() > 0 {
        base + seq![' ', '('] + parts[1] + seq![')']
    } else {
        base
    }
}

/// The words of a text are non-empty, hold no whitespace, and hold only
/// characters with a property that all characters of the text have.
pub proof fn lemma_words_clean(s: Seq<char>, p: spec_fn(char) -> bool)
    requires
        all_chars(s, p),
    ensures
        clean_words(words(s)),
        forall|k: int| 0 <= k < words(s).len() ==> all_chars(#[trigger] words(s)[k], p),
        s.len() > 0 && !is_space(s[0]) ==> words(s).len() > 0,
    decreases s.len(),
{
    if s.len() == 0 {
    } else if is_space(s[0]) {
        let rest = s.drop_first();
        assert forall|i: int| 0 <= i < rest.len() implies p(#[trigger] rest[i]) by {
            assert(rest[i] == s[i + 1]);
        }
        lemma_words_clean(rest, p);
    } else {
        lemma_word_len(s);
        let n = word_len(s) as int;
        let rest = s.skip(n);
        assert forall|i: int| 0 <= i < rest.len() implies p(#[trigger] rest[i]) by {
            assert(rest[i] == s[i + n]);
        }
        lemma_words_clean(rest, p);
        let first = s.take(n);
        let ws = words(s);
        assert(ws == seq![first] + words(rest));
        assert forall|k: int| 0 <= k < ws.len() implies (#[trigger] ws[k]).len() > 0 && no_space(
            ws[k],
        ) && all_chars(ws[k], p) by {
            if k == 0 {
                assert(ws[0] == first);
                assert forall|i: int| 0 <= i < first.len() implies !is_space(#[trigger] first[i])
                    && p(first[i]) by {
                    assert(first[i] == s[i]);
                }
            } else {
                assert(ws[k] == words(rest)[k - 1]);
            }
        }
    }
}

/// Joined words hold only characters with a property that the separator and
/// all characters of the words have.
pub proof fn lemma_join_chars(ws: Seq<Seq<char>>, sep: char, p: spec_fn(char) -> bool)
    requires
        p(sep),
        forall|k: int| 0 <= k < ws.len() ==> all_chars(#[trigger] ws[k], p),
    ensures
        all_chars(join(ws, sep), p),
    decreases ws.len(),
{
    if ws.len() == 0 {
    } else if ws.len() == 1 {
    } else {
        let rest = ws.drop_first();
        assert forall|k: int| 0 <= k < rest.len() implies all_chars(#[trigger] rest[k], p) by {
            assert(rest[k] == ws[k + 1]);
        }
        lemma_join_chars(rest, sep, p);
        let t = join(ws, sep);
        let tail = join(rest, sep);
        assert(t == ws[0] + seq![sep] + tail);
        assert forall|i: int| 0 <= i < t.len() implies p(#[trigger] t[i]) by {
            if i < ws[0].len() {
                assert(t[i] == ws[0][i]);
            } else if i == ws[0].len() {
                assert(t[i] == sep);
            } else {
                assert(t[i] == tail[i - ws[0].len() - 1]);
            }
        }
    }
}

/// Clean words joined by single spaces: the text is not empty, begins and ends
/// without whitespace, and its only whitespace is single spaces.
pub proof fn lemma_join_shape(ws: Seq<Seq<char>>)
    requires
        clean_words(ws),
        ws.len() > 0,
    ensures
        join(ws, ' ').len() > 0,
        !is_space(join(ws, ' ')[0]),
        forall|i: int|
            0 <= i < join(ws, ' ').len() && is_space(#[trigger] join(ws, ' ')[i]) ==> join(
                ws,
                ' ',
            )[i] == ' ' && 0 < i < join(ws, ' ').len() - 1 && !is_space(join(ws, ' ')[i + 1]),
    decreases ws.len(),
{
    let t = join(ws, ' ');
    let first = ws[0];
    assert(first.len() > 0 && no_space(first));
    if ws.len() == 1 {
        assert(t == first);
    } else {
        let rest = ws.drop_first();
        assert forall|k: int| 0 <= k < rest.len() implies (#[trigger] rest[k]).len() > 0
            && no_space(rest[k]) by {
            assert(rest[k] == ws[k + 1]);
        }
        lemma_join_shape(rest);
        let tail = join(rest, ' ');
        let n = first.len() as int;
        assert(t == first + seq![' '] + tail);
        assert(t[0] == first[0]);
        assert forall|i: int| 0 <= i < t.len() && is_space(#[trigger] t[i]) implies t[i] == ' '
            && 0 < i < t.len() - 1 && !is_space(t[i + 1]) by {
            if i < n {
                assert(t[i] == first[i]);
            } else if i == n {
                assert(t[i + 1] == tail[0]);
            } else {
                assert(t[i] == tail[i - n - 1]);
                assert(t[i + 1] == tail[i - n]);
            }
        }
    }
}

/// The normal form of any text is normalized.
pub proof fn lemma_normalized_is_normalized(s: Seq<char>)
    ensures
        is_normalized(normalized(s)),
{
    let f = folded(s);
    let p = |c: char| fold_char(c) == c;
    assert(all_chars(f, p));
    lemma_words_clean(f, p);
    let ws = words(f);
    assert(p(' '));
    lemma_join_chars(ws, ' ', p);
    let t = join(ws, ' ');
    assert forall|i: int| 0 <= i < t.len() implies fold_char(#[trigger] t[i]) == t[i] by {
        assert(p(t[i]));
    }
    if ws.len() > 0 {
        lemma_join_shape(ws);
    }
}

/// The words of a normalized text, joined by single spaces, give the text back.
pub proof fn lemma_join_words_of_normalized(t: Seq<char>)
    requires
        is_normalized(t),
    ensures
        join(words(t), ' ') == t,
    decreases t.len(),
{
    if t.len() == 0 {
    } else {
        assert(!is_space(t[0]));
        lemma_word_len(t);
        let n = word_len(t) as int;
        let first = t.take(n);
        let rest = t.skip(n);
        assert(words(t) == seq![first] + words(rest));
        if n == t.len() {
            assert(first == t);
            assert(words(rest) == Seq::<Seq<char>>::empty());
            assert(words(t) == seq![first]);
        } else {
            assert(is_space(t[n]));
            let next = t.skip(n + 1);
            assert(rest.drop_first() == next);
            assert(rest[0] == t[n]);
            assert(words(rest) == words(next));
            assert(is_normalized(next)) by {
                assert forall|i: int| 0 <= i < next.len() implies fold_char(#[trigger] next[i])
                    == next[i] by {
                    assert(next[i] == t[i + n + 1]);
                }
                assert forall|i: int|
                    0 <= i < next.len() && is_space(#[trigger] next[i]) implies next[i] == ' ' && 0
                        < i < next.len() - 1 && !is_space(next[i + 1]) by {
                    assert(next[i] == t[i + n + 1]);
                    assert(next[0] == t[n + 1]);
                    assert(next[i + 1] == t[i + n + 2]);
                }
            }
            lemma_join_words_of_normalized(next);
            assert(next.len() > 0);
            assert(!is_space(next[0])) by {
                assert(next[0] == t[n + 1]);
            }
            lemma_words_clean(next, |c: char| true);
            let ws = words(t);
            assert(ws.len() >= 2);
            assert(ws.drop_first() == words(next));
            assert(ws[0] == first);
            assert(join(ws, ' ') == first + seq![' '] + next);
            assert(first + seq![' '] + next == t);
        }
    }
}

/// A normalized text is its own normal form.
pub proof fn lemma_normalized_fixed(t: Seq<char>)
    requires
        is_normalized(t),
    ensures
        normalized(t) == t,
{
    assert(folded(t) == t);
    lemma_join_words_of_normalized(t);
}

/// Normalizing twice gives what normalizing once gives.
pub proof fn lemma_normalize_idempotent(s: Seq<char>)
    ensures
        normalized(normalized(s)) == normalized(s),
{
    lemma_normalized_is_normalized(s);
    lemma_normalized_fixed(normalized(s));
}

/// True for `a` to `z`, `0` to `9` and the space.
pub open spec fn is_plain(c: char) -> bool {
    is_ascii_lower(c) || is_ascii_digit(c) || c == ' '
}

/// Where a text holds only ASCII letters, digits, `_`, `:` and whitespace, its
/// normal form holds only `a` to `z`, `0` to `9` and single spaces between words.
pub proof fn lemma_normalized_alphabet(s: Seq<char>)
    requires
        forall|i: int|
            0 <= i < s.len() ==> is_plain(fold_char(#[trigger] s[i])) || is_space(s[i]),
    ensures
        forall|i: int| 0 <= i < normalized(s).len() ==> is_plain(#[trigger] normalized(s)[i]),
        is_normalized(normalized(s)),
{
    let f = folded(s);
    let p = |c: char| is_plain(c) || is_space(c);
    assert(all_chars(f, p)) by {
        assert forall|i: int| 0 <= i < f.len() implies p(#[trigger] f[i]) by {
            assert(is_plain(fold_char(s[i])) || is_space(s[i]));
        }
    }
    lemma_words_clean(f, p);
    lemma_join_chars(words(f), ' ', p);
    lemma_normalized_is_normalized(s);
    let t = normalized(s);
    assert forall|i: int| 0 <= i < t.len() implies is_plain(#[trigger] t[i]) by {
        assert(p(t[i]));
    }
}

/// Joining the words of a text never gives more characters than the text has.
pub proof fn lemma_join_words_len(s: Seq<char>)
    ensures
        join(words(s), ' ').len() <= s.len(),
    decreases s.len(),
{
    if s.len() == 0 {
    } else if is_space(s[0]) {
        lemma_join_words_len(s.drop_first());
    } else {
        lemma_word_len(s);
        let n = word_len(s) as int;
        let first = s.take(n);
        let rest = s.skip(n);
        let ws = words(s);
        assert(ws == seq![first] + words(rest));
        if words(rest).len() == 0 {
            assert(ws == seq![first]);
        } else {
            assert(rest.len() > 0);
            assert(rest[0] == s[n]);
            let next = s.skip(n + 1);
            assert(rest.drop_first() == next);
            assert(words(rest) == words(next));
            lemma_join_words_len(next);
            assert(ws.drop_first() == words(next));
            assert(ws[0] == first);
            assert(join(ws, ' ') == first + seq![' '] + join(words(next), ' '));
        }
    }
}

/// A normal form is never longer than the text it was made from.
pub proof fn lemma_normalized_len(s: Seq<char>)
    ensures
        normalized(s).len() <= s.len(),
{
    lemma_join_words_len(folded(s));
}

/// Normalizes a text for matching and indexing.
pub fn normalize(s: &str) -> (out: String)
    ensures
        out@ == normalized(s@),
        is_normalized(out@),
        normalized(out@) == out@,
        out@.len() <= s@.len(),
{
    let chars = to_chars(s);
    let mut folded_chars: Vec<char> = Vec::new();
    let mut i: usize = 0;
    while i < chars.len()
        invariant
            i <= chars.len(),
            folded_chars@ == folded(chars@.take(i as int)),
        decreases chars.len() - i,
    {
        let c = chars[i];
        let f = if c == '_' || c == ':' {
            ' '
        } else {
            to_ascii_lowercase(c)
        };
        folded_chars.push(f);
        proof {
            assert(chars@.take(i + 1) == chars@.take(i as int).push(c));
            assert(folded_chars@ == folded(chars@.take(i + 1)));
        }
        i += 1;
    }
    proof {
        assert(chars@.take(chars.len() as int) == chars@);
        lemma_normalized_is_normalized(s@);
        lemma_normalize_idempotent(s@);
        lemma_normalized_len(s@);
    }
    let parts = split_words(&folded_chars);
    let joined = join_words(&parts, ' ');
    from_chars(&joined)
}

/// The uppercase form of the first character of a word.
pub fn uppercase_first(c: char) -> (out: Vec<char>)
    ensures
        out@ == upper_first(c),
{
    if (c as u32) < 0x80 {
        let mut one: Vec<char> = Vec::new();
        one.push(to_ascii_uppercase(c));
        one
    } else {
        to_uppercase(c)
    }
}

/// A word as it is displayed, given the uppercase form of its lowered
/// first character: that form, and behind it the rest of the word lowered.
pub fn capitalize_after(head: Vec<char>, word: &Vec<char>) -> (out: Vec<char>)
    ensures
        out@ == head@ + lowered(
            if word@.len() > 0 {
                word@.drop_first()
            } else {
                word@
            },
        ),
{
    let mut out = head;
    if word.len() == 0 {
        proof {
            assert(out@ == head@ + lowered(word@));
        }
        return out;
    }
    let mut i: usize = 1;
    proof {
        assert(out@ == head@ + lowered(word@.subrange(1, 1)));
    }
    while i < word.len()
        invariant
            1 <= i <= word.len(),
            out@ == head@ + lowered(word@.subrange(1, i as int)),
        decreases word.len() - i,
    {
        out.push(to_ascii_lowercase(word[i]));
        proof {
            assert(word@.subrange(1, i + 1) == word@.subrange(1, i as int).push(word@[i as int]));
            assert(out@ == head@ + lowered(word@.subrange(1, i + 1)));
        }
        i += 1;
    }
    proof {
        assert(word@.subrange(1, word.len() as int) == word@.drop_first());
    }
    out
}

/// One word of an id as it is displayed.
pub fn capitalize(word: &Vec<char>) -> (out: Vec<char>)
    ensures
        out@ == capitalized(word@),
{
    if word.len() == 0 {
        return Vec::new();
    }
    let head = uppercase_first(to_ascii_lowercase(word[0]));
    capitalize_after(head, word)
}

/// The display name of a product id.
pub fn pretty_name(id: &str) -> (out: String)
    ensures
        out@ == pretty(id@),
{
    let chars = to_chars(id);
    let parts = split_fields(&chars, ':');
    let base_words = split_fields(&parts[0], '_');
    let mut shown: Vec<Vec<char>> = Vec::new();
    let mut k: usize = 0;
    while k < base_words.len()
        invariant
            k <= base_words.len(),
            views(shown@) == capitalized_all(views(base_words@).take(k as int)),
        decreases base_words.len() - k,
    {
        let word = capitalize(&base_words[k]);
        proof {
            let before = views(base_words@).take(k as int);
            assert(views(base_words@).take(k + 1) == before.push(base_words@[k as int]@));
            assert(views(shown@.push(word)) == views(shown@).push(word@));
            assert(views(shown@).push(word@) == capitalized_all(views(base_words@).take(k + 1)));
        }
        shown.push(word);
        k += 1;
    }
    proof {
        assert(views(base_words@).take(base_words.len() as int) == views(base_words@));
        assert(views(parts@)[0] == parts@[0]@);
    }
    let mut name = join_words(&shown, ' ');
    if parts.len() > 1 && parts[1].len() > 0 {
        let ghost base = name@;
        let tail = &parts[1];
        name.push(' ');
        name.push('(');
        let ghost opened = name@;
        let mut j: usize = 0;
        while j < tail.len()
            invariant
                j <= tail.len(),
                name@ == opened + tail@.take(j as int),
            decreases tail.len() - j,
        {
            name.push(tail[j]);
            j += 1;
            proof {
                assert(tail@.take(j as int) == tail@.take(j - 1).push(tail@[j - 1]));
            }
        }
        name.push(')');
        proof {
            assert(tail@.take(tail.len() as int) == tail@);
            assert(views(parts@)[1] == tail@);
            assert(opened == base + seq![' ', '(']);
            assert(name@ == base + seq![' ', '('] + tail@ + seq![')']);
        }
    }
    from_chars(&name)
}

} // verus!
