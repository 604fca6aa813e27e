//! Splitting text into words and fields, and joining words again.

use vstd::prelude::*;
use crate::util::chars::{is_space, is_whitespace, views};

verus! {

/// Length of the longest prefix of `s` that holds no whitespace.
pub open spec fn word_len(s: Seq<char>) -> nat
    decreases s.len(),
{
    if s.len() == 0 || is_space(s[0]) {
        0
    } else {
        1 + word_len(s.drop_first())
    }
}

/// The maximal runs of characters that are not whitespace, in order.
pub open spec fn words(s: Seq<char>) -> Seq<Seq<char>>
    decreases s.len(),
{
    if s.len() == 0 {
        Seq::empty()
    } else if is_space(s[0]) {
        words(s.drop_first())
    } else {
        let n = word_len(s) as int;
        proof {
            lemma_word_len(s);
        }
        seq![s.take(n)] + words(s.skip(n))
    }
}

/// Length of the longest prefix of `s` that does not hold `sep`.
pub open spec fn field_len(s: Seq<char>, sep: char) -> nat
    decreases s.len(),
{
    if s.len() == 0 || s[0] == sep {
        0
    } else {
        1 + field_len(s.drop_first(), sep)
    }
}

/// The pieces of `s` between occurrences of `sep`: one more piece than there
/// are separators, empty pieces included.
pub open spec fn fields(s: Seq<char>, sep: char) -> Seq<Seq<char>>
    decreases s.len(),
{
    let n = field_len(s, sep) as int;
    if n >= s.len() {
        seq![s]
    } else {
        seq![s.take(n)] + fields(s.skip(n + 1), sep)
    }
}

/// The parts in order, with `sep` between each two neighbours.
pub open spec fn join(parts: Seq<Seq<char>>, sep: char) -> Seq<char>
    decreases parts.len(),
{
    if parts.len() == 0 {
        Seq::empty()
    } else if parts.len() == 1 {
        parts[0]
    } else {
        parts[0] + seq![sep] + join(parts.drop_first(), sep)
    }
}

/// No character of `s` is whitespace.
pub open spec fn no_space(s: Seq<char>) -> bool {
    forall|i: int| 0 <= i < s.len() ==> !is_space(#[trigger] s[i])
}

/// Every word is non-empty and free of whitespace.
pub open spec fn clean_words(ws: Seq<Seq<char>>) -> bool {
    forall|k: int| 0 <= k < ws.len() ==> (#[trigger] ws[k]).len() > 0 && no_space(ws[k])
}

/// The first word ends at the first whitespace or at the end of the text.
pub proof fn lemma_word_len(s: Seq<char>)
    ensures
        word_len(s) <= s.len(),
        forall|i: int| 0 <= i < word_len(s) ==> !is_space(#[trigger] s[i]),
        word_len(s) < s.len() ==> is_space(s[word_len(s) as int]),
        s.len() > 0 && !is_space(s[0]) ==> word_len(s) >= 1,
    decreases s.len(),
{
    if s.len() == 0 || is_space(s[0]) {
    } else {
        let rest = s.drop_first();
        lemma_word_len(rest);
        assert forall|i: int| 0 <= i < word_len(s) implies !is_space(#[trigger] s[i]) by {
            if i > 0 {
                assert(s[i] == rest[i - 1]);
            }
        }
        if word_len(s) < s.len() {
            assert(s[word_len(s) as int] == rest[word_len(rest) as int]);
        }
    }
}

/// A run of `k` characters without whitespace, ended by whitespace or by the
/// end of the text, is the first word.
pub proof fn lemma_word_len_is(s: Seq<char>, k: int)
    requires
        0 <= k <= s.len(),
        forall|i: int| 0 <= i < k ==> !is_space(#[trigger] s[i]),
        k < s.len() ==> is_space(s[k]),
    ensures
        word_len(s) == k,
    decreases k,
{
    if k > 0 {
        let rest = s.drop_first();
        assert forall|i: int| 0 <= i < k - 1 implies !is_space(#[trigger] rest[i]) by {
            assert(rest[i] == s[i + 1]);
        }
        lemma_word_len_is(rest, k - 1);
    }
}

/// The first field ends at the first separator or at the end of the text.
pub proof fn lemma_field_len(s: Seq<char>, sep: char)
    ensures
        field_len(s, sep) <= s.len(),
        forall|i: int| 0 <= i < field_len(s, sep) ==> #[trigger] s[i] != sep,
        field_len(s, sep) < s.len() ==> s[field_len(s, sep) as int] == sep,
    decreases s.len(),
{
    if s.len() == 0 || s[0] == sep {
    } else {
        let rest = s.drop_first();
        lemma_field_len(rest, sep);
        assert forall|i: int| 0 <= i < field_len(s, sep) implies #[trigger] s[i] != sep by {
            if i > 0 {
                assert(s[i] == rest[i - 1]);
            }
        }
        if field_len(s, sep) < s.len() {
            assert(s[field_len(s, sep) as int] == rest[field_len(rest, sep) as int]);
        }
    }
}

/// A run of `k` characters without the separator, ended by the separator or by
/// the end of the text, is the first field.
pub proof fn lemma_field_len_is(s: Seq<char>, sep: char, k: int)
    requires
        0 <= k <= s.len(),
        forall|i: int| 0 <= i < k ==> #[trigger] s[i] != sep,
        k < s.len() ==> s[k] == sep,
    ensures
        field_len(s, sep) == k,
    decreases k,
{
    if k > 0 {
        let rest = s.drop_first();
        assert forall|i: int| 0 <= i < k - 1 implies #[trigger] rest[i] != sep by {
            assert(rest[i] == s[i + 1]);
        }
        lemma_field_len_is(rest, sep, k - 1);
    }
}

/// Joining one more part appends the separator and the part.
pub proof fn lemma_join_push(parts: Seq<Seq<char>>, last: Seq<char>, sep: char)
    ensures
        join(parts.push(last), sep) == if parts.len() == 0 {
            last
        } else {
            join(parts, sep) + seq![sep] + last
        },
    decreases parts.len(),
{
    let all = parts.push(last);
    if parts.len() == 0 {
        assert(all[0] == last);
    } else if parts.len() == 1 {
        assert(all.drop_first() == seq![last]);
        assert(join(seq![last], sep) == last);
    } else {
        lemma_join_push(parts.drop_first(), last, sep);
        assert(all.drop_first() == parts.drop_first().push(last));
        assert(all[0] == parts[0]);
    }
}

/// The words of a text, each as a vector of its characters.
pub fn split_words(s: &Vec<char>) -> (out: Vec<Vec<char>>)
    ensures
        views(out@) == words(s@),
{
    let n = s.len();
    let mut out: Vec<Vec<char>> = Vec::new();
    let mut i: usize = 0;
    proof {
        assert(s@.skip(0) == s@);
        assert(views(out@) + words(s@) == words(s@));
    }
    while i < n
        invariant
            i <= n,
            n == s.len(),
            words(s@) == views(out@) + words(s@.skip(i as int)),
        decreases n - i,
    {
        let ghost rest = s@.skip(i as int);
        if is_whitespace(s[i]) {
            proof {
                assert(rest.drop_first() == s@.skip(i + 1));
            }
            i += 1;
        } else {
            let start = i;
            let mut word: Vec<char> = Vec::new();
            while i < n && !is_whitespace(s[i])
                invariant
                    start <= i <= n,
                    n == s.len(),
                    word@ == s@.subrange(start as int, i as int),
                    forall|k: int| start <= k < i ==> !is_space(#[trigger] s@[k]),
                decreases n - i,
            {
                word.push(s[i]);
                i += 1;
                proof {
                    assert(word@ == s@.subrange(start as int, i as int));
                }
            }
            proof {
                let k = i - start;
                assert forall|j: int| 0 <= j < k implies !is_space(#[trigger] rest[j]) by {
                    assert(rest[j] == s@[start + j]);
                }
                lemma_word_len_is(rest, k);
                assert(rest.take(k) == word@);
                assert(rest.skip(k) == s@.skip(i as int));
                assert(views(out@.push(word)) == views(out@).push(word@));
                assert(views(out@).push(word@) + words(s@.skip(i as int)) == views(out@) + (
                seq![word@] + words(s@.skip(i as int))));
            }
            out.push(word);
        }
    }
    proof {
        assert(words(s@.skip(n as int)) == Seq::<Seq<char>>::empty());
        assert(views(out@) + Seq::<Seq<char>>::empty() == views(out@));
    }
    out
}

/// The fields of a text around `sep`, each as a vector of its characters.
pub fn split_fields(s: &Vec<char>, sep: char) -> (out: Vec<Vec<char>>)
    ensures
        views(out@) == fields(s@, sep),
        out.len() >= 1,
{
    let n = s.len();
    let mut out: Vec<Vec<char>> = Vec::new();
    let mut start: usize = 0;
    proof {
        assert(s@.skip(0) == s@);
        assert(views(out@) + fields(s@, sep) == fields(s@, sep));
    }
    loop
        invariant
            start <= n,
            n == s.len(),
            fields(s@, sep) == views(out@) + fields(s@.skip(start as int), sep),
        decreases n - start,
    {
        let ghost rest = s@.skip(start as int);
        let mut i = start;
        let mut field: Vec<char> = Vec::new();
        while i < n && s[i] != sep
            invariant
                start <= i <= n,
                n == s.len(),
                field@ == s@.subrange(start as int, i as int),
                forall|k: int| start <= k < i ==> #[trigger] s@[k] != sep,
            decreases n - i,
        {
            field.push(s[i]);
            i += 1;
            proof {
                assert(field@ == s@.subrange(start as int, i as int));
            }
        }
        proof {
            let k = i - start;
            assert forall|j: int| 0 <= j < k implies #[trigger] rest[j] != sep by {
                assert(rest[j] == s@[start + j]);
            }
            lemma_field_len_is(rest, sep, k);
            assert(rest.take(k) == field@);
            assert(views(out@.push(field)) == views(out@).push(field@));
            if i < n {
                assert(rest.skip(k + 1) == s@.skip(i + 1));
                assert(views(out@).push(field@) + fields(s@.skip(i + 1), sep) == views(out@) + (
                seq![field@] + fields(s@.skip(i + 1), sep)));
            } else {
                assert(rest.take(k) == rest);
                assert(views(out@).push(field@) == views(out@) + seq![field@]);
            }
        }
        out.push(field);
        if i >= n {
            return out;
        }
        start = i + 1;
    }
}

/// The parts in order, with one `sep` between each two neighbours.
pub fn join_words(parts: &Vec<Vec<char>>, sep: char) -> (out: Vec<char>)
    ensures
        out@ == join(views(parts@), sep),
{
    let mut out: Vec<char> = Vec::new();
    let mut k: usize = 0;
    proof {
        assert(views(parts@).take(0) == Seq::<Seq<char>>::empty());
    }
    while k < parts.len()
        invariant
            k <= parts.len(),
            out@ == join(views(parts@).take(k as int), sep),
        decreases parts.len() - k,
    {
        let ghost before = out@;
        if k > 0 {
            out.push(sep);
        }
        let part = &parts[k];
        let ghost glued = out@;
        let mut j: usize = 0;
        while j < part.len()
            invariant
                j <= part.len(),
                out@ == glued + part@.take(j as int),
            decreases part.len() - j,
        {
            out.push(part[j]);
            j += 1;
            proof {
                assert(part@.take(j as int) == part@.take(j - 1).push(part@[j - 1]));
            }
        }
        proof {
            assert(part@.take(part.len() as int) == part@);
            let done = views(parts@).take(k as int);
            assert(views(parts@).take(k + 1) == done.push(part@));
            lemma_join_push(done, part@, sep);
            if k > 0 {
                assert(glued == before + seq![sep]);
            } else {
                assert(glued + part@ == part@);
            }
        }
        k += 1;
    }
    proof {
        assert(views(parts@).take(parts.len() as int) == views(parts@));
    }
    out
}

} // verus!
