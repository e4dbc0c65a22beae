//! Between a sequence of text fragments and one text.
use vstd::prelude::*;

verus! {

/// The texts of a list of fragments.
pub open spec fn fragment_texts(fragments: Seq<String>) -> Seq<Seq<char>> {
    fragments.map_values(|s: String| s@)
}

/// The text that a sequence of fragments adds up to: all of them, in the
/// order in which they were delivered.
pub fn stream_to_string(fragments: Vec<String>) -> (text: String)
    ensures
        text@ == fragment_texts(fragments@).flatten(),
{
    let mut text = String::new();
    let mut i: usize = 0;
    assert(fragment_texts(fragments@).take(0) =~= Seq::<Seq<char>>::empty());
    while i < fragments.len()
        invariant
            i <= fragments.len(),
            text@ == fragment_texts(fragments@).take(i as int).flatten(),
        decreases fragments.len() - i,
    {
        text.append(fragments[i].as_str());
        proof {
            let texts = fragment_texts(fragments@);
            assert(texts.take(i + 1) =~= texts.take(i as int).push(fragments@[i as int]@));
            texts.take(i as int).lemma_flatten_push(fragments@[i as int]@);
        }
        i += 1;
    }
    assert(fragment_texts(fragments@).take(i as int) =~= fragment_texts(fragments@));
    text
}

/// A text as a sequence of fragments: the text itself, as the only one.
pub fn string_to_stream(s: String) -> (fragments: Vec<String>)
    ensures
        fragments@ == seq![s],
{
    let mut fragments: Vec<String> = Vec::new();
    fragments.push(s);
    assert(fragments@ =~= seq![s]);
    fragments
}

/// A text that is cut into one fragment and put together again is the text.
pub proof fn law_single_fragment(s: String)
    ensures
        fragment_texts(seq![s]).flatten() == s@,
{
    let texts = fragment_texts(seq![s]);
    assert(texts =~= Seq::<Seq<char>>::empty().push(s@));
    Seq::<Seq<char>>::empty().lemma_flatten_push(s@);
    assert(Seq::<Seq<char>>::empty().flatten() =~= Seq::<char>::empty());
    assert(Seq::<char>::empty() + s@ =~= s@);
}

/// Fragments that arrive in two runs add up to the text of the first run
/// followed by the text of the second.
pub proof fn law_fragments_in_two_runs(first: Seq<String>, second: Seq<String>)
    ensures
        fragment_texts(first + second).flatten() == fragment_texts(first).flatten() + fragment_texts(
            second,
        ).flatten(),
{
    assert(fragment_texts(first + second) =~= fragment_texts(first) + fragment_texts(second));
    vstd::seq_lib::lemma_flatten_concat(fragment_texts(first), fragment_texts(second));
}

} // verus!
