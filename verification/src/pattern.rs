//! The pattern that stands for a list of stop words.
use crate::matcher::{escape, escaped, escaped_char, is_meta_character};
use crate::text::reverse;
use vstd::prelude::*;

verus! {

/// One stop word as it stands in the pattern: read backwards, every meta
/// character quoted.
pub open spec fn alternative(word: Seq<char>) -> Seq<char> {
    escaped(word.reverse())
}

/// The stop words as they stand in the pattern, each closed off from the next
/// by `)|(`.
pub open spec fn alternatives(words: Seq<Seq<char>>) -> Seq<char>
    decreases words.len(),
{
    if words.len() == 0 {
        Seq::empty()
    } else if words.len() == 1 {
        alternative(words[0])
    } else {
        alternatives(words.drop_last()) + ")|("@ + alternative(words.last())
    }
}

/// The pattern for a list of stop words. It is anchored at the very start of
/// the haystack and offers each word, read backwards, as one alternative: the
/// haystack is meant to be the decoded text read backwards.
pub open spec fn stop_pattern(words: Seq<Seq<char>>) -> Seq<char> {
    "(?m)\\A(("@ + alternatives(words) + "))"@
}

/// Writes out the pattern for a list of stop words.
pub fn build_stop_pattern(stop_words: &Vec<String>) -> (pattern: String)
    ensures
        pattern@ == stop_pattern(stop_words.deep_view()),
{
    let mut pattern = String::from_str("(?m)\\A((");
    let mut i: usize = 0;
    while i < stop_words.len()
        invariant
            i <= stop_words.len(),
            pattern@ == "(?m)\\A(("@ + alternatives(stop_words.deep_view().take(i as int)),
        decreases stop_words.len() - i,
    {
        if i > 0 {
            pattern.append(")|(");
        }
        let word = reverse(stop_words[i].as_str());
        let quoted = escape(word.as_str());
        pattern.append(quoted.as_str());
        proof {
            let words = stop_words.deep_view();
            assert(words.take(i + 1).drop_last() =~= words.take(i as int));
            assert(words.take(i + 1).last() == stop_words@[i as int]@);
            assert(words.take(i + 1)[0] == words[0]);
        }
        i += 1;
    }
    assert(stop_words.deep_view().take(i as int) =~= stop_words.deep_view());
    pattern.append("))");
    pattern
}

/// The stop words, each read backwards.
pub open spec fn backwards(words: Seq<Seq<char>>) -> Seq<Seq<char>> {
    words.map_values(|w: Seq<char>| w.reverse())
}

/// Reads the alternatives of a pattern back, from left to right: a backslash
/// quotes the character after it, a closing bracket that is not quoted ends
/// the alternative and begins the next one behind `)|(`. `current` is what has
/// been read of the alternative at hand, `done` holds those read before it.
pub open spec fn read_alternatives(body: Seq<char>, current: Seq<char>, done: Seq<Seq<char>>) -> Seq<
    Seq<char>,
>
    decreases body.len(),
{
    if body.len() == 0 {
        done.push(current)
    } else if body[0] == '\\' && body.len() >= 2 {
        read_alternatives(body.skip(2), current.push(body[1]), done)
    } else if body[0] == ')' && body.len() >= 3 {
        read_alternatives(body.skip(3), Seq::empty(), done.push(current))
    } else {
        read_alternatives(body.skip(1), current.push(body[0]), done)
    }
}

/// A quoted text begins with its first character, quoted.
proof fn lemma_escaped_from_the_left(text: Seq<char>)
    requires
        text.len() > 0,
    ensures
        escaped(text) == escaped_char(text[0]) + escaped(text.drop_first()),
{
    let quoted = text.map_values(|c: char| escaped_char(c));
    assert(quoted.drop_first() =~= text.drop_first().map_values(|c: char| escaped_char(c)));
}

/// Reading a quoted text back gives the text, whatever follows it.
proof fn lemma_read_quoted(text: Seq<char>, tail: Seq<char>, current: Seq<char>, done: Seq<Seq<char>>)
    ensures
        read_alternatives(escaped(text) + tail, current, done) == read_alternatives(
            tail,
            current + text,
            done,
        ),
    decreases text.len(),
{
    if text.len() == 0 {
        assert(escaped(text) =~= Seq::<char>::empty());
        assert(escaped(text) + tail =~= tail);
        assert(current + text =~= current);
    } else {
        let c = text[0];
        let rest = text.drop_first();
        lemma_escaped_from_the_left(text);
        let body = escaped(text) + tail;
        if is_meta_character(c) {
            assert(body[0] == '\\');
            assert(body[1] == c);
            assert(body.skip(2) =~= escaped(rest) + tail);
        } else {
            assert(body[0] == c);
            assert(body.skip(1) =~= escaped(rest) + tail);
        }
        lemma_read_quoted(rest, tail, current.push(c), done);
        assert(current.push(c) + rest =~= current + text);
    }
}

/// The alternatives of two or more words begin with the first word's, closed
/// off by `)|(` from those of the other words.
proof fn lemma_alternatives_from_the_left(words: Seq<Seq<char>>)
    requires
        words.len() >= 2,
    ensures
        alternatives(words) == alternative(words[0]) + ")|("@ + alternatives(words.drop_first()),
    decreases words.len(),
{
    if words.len() == 2 {
        assert(words.drop_last().len() == 1);
        assert(words.drop_first().len() == 1);
        assert(alternatives(words.drop_last()) == alternative(words[0]));
        assert(alternatives(words.drop_first()) == alternative(words[1]));
    } else {
        lemma_alternatives_from_the_left(words.drop_last());
        assert(words.drop_last().drop_first() =~= words.drop_first().drop_last());
        assert(words.drop_last()[0] == words[0]);
        assert(words.drop_first().last() == words.last());
        let first = alternative(words[0]);
        let middle = alternatives(words.drop_last().drop_first());
        let last = alternative(words.last());
        assert((first + ")|("@ + middle) + ")|("@ + last =~= first + ")|("@ + (middle + ")|("@ + last));
    }
}

/// Reading the alternatives of a list of words back gives the words, each
/// read backwards.
proof fn lemma_read_alternatives(words: Seq<Seq<char>>, done: Seq<Seq<char>>)
    requires
        words.len() >= 1,
    ensures
        read_alternatives(alternatives(words), Seq::empty(), done) == done + backwards(words),
    decreases words.len(),
{
    let first = words[0].reverse();
    let none = Seq::<char>::empty();
    assert(none + first =~= first);
    if words.len() == 1 {
        assert(alternatives(words) + none =~= alternatives(words));
        lemma_read_quoted(first, none, none, done);
        assert(done.push(first) =~= done + backwards(words));
    } else {
        let rest = words.drop_first();
        let tail = ")|("@ + alternatives(rest);
        lemma_alternatives_from_the_left(words);
        assert(alternatives(words) =~= escaped(first) + tail);
        lemma_read_quoted(first, tail, none, done);
        reveal_strlit(")|(");
        assert(tail[0] == ')');
        assert(tail.len() >= 3);
        assert(tail.skip(3) =~= alternatives(rest));
        lemma_read_alternatives(rest, done.push(first));
        assert(done.push(first) + backwards(rest) =~= done + backwards(words));
    }
}

/// Lists of words that are read backwards to the same texts are the same.
proof fn lemma_backwards_injective(words: Seq<Seq<char>>, others: Seq<Seq<char>>)
    requires
        backwards(words) == backwards(others),
    ensures
        words == others,
{
    assert(words.len() == backwards(words).len());
    assert(others.len() == backwards(others).len());
    assert forall|i: int| 0 <= i < words.len() implies words[i] == others[i] by {
        assert(backwards(words)[i] == words[i].reverse());
        assert(backwards(others)[i] == others[i].reverse());
        assert(words[i].reverse().reverse() =~= words[i]);
        assert(others[i].reverse().reverse() =~= others[i]);
    }
    assert(words =~= others);
}

/// The pattern tells the stop words: two lists of stop words, neither of them
/// empty, that differ in a word, in a length or in the order have different
/// patterns.
pub proof fn law_patterns_differ(words: Seq<Seq<char>>, others: Seq<Seq<char>>)
    requires
        words.len() > 0,
        others.len() > 0,
        words != others,
    ensures
        stop_pattern(words) != stop_pattern(others),
{
    if stop_pattern(words) == stop_pattern(others) {
        let head = "(?m)\\A(("@;
        let a = alternatives(words);
        let b = alternatives(others);
        assert((head + a + "))"@).len() == (head + b + "))"@).len());
        assert forall|i: int| 0 <= i < a.len() implies a[i] == b[i] by {
            assert((head + a + "))"@)[head.len() + i] == a[i]);
            assert((head + b + "))"@)[head.len() + i] == b[i]);
        }
        assert(a =~= b);
        let none = Seq::<Seq<char>>::empty();
        lemma_read_alternatives(words, none);
        lemma_read_alternatives(others, none);
        assert(none + backwards(words) =~= backwards(words));
        assert(none + backwards(others) =~= backwards(others));
        lemma_backwards_injective(words, others);
    }
}

} // verus!
