//! Stop conditions: when the decoding of one request has to end.
use crate::cache::{cache_entries, cache_get, cache_insert, cache_new, Matchers};
use crate::error::ServiceError;
use crate::matcher::{compile, is_match, regex_accepts, regex_compiles, regex_source, source_of};
use crate::pattern::{build_stop_pattern, law_patterns_differ, stop_pattern};
use crate::text::{lemma_reverse_concat, lemma_reverse_twice, reverse};
use dashmap::DashMap;
use regex::Regex;
use vstd::prelude::*;

verus! {

/// Compiles the matcher for a list of stop words. The engine decides whether
/// it takes the pattern; a pattern that it refuses makes the options invalid.
pub fn create_stop_regex(stop_words: Vec<String>) -> (r: Result<Regex, ServiceError>)
    ensures
        r is Ok <==> regex_compiles(stop_pattern(stop_words.deep_view())),
        r matches Ok(re) ==> regex_source(re) == stop_pattern(stop_words.deep_view()),
        r matches Err(e) ==> e == ServiceError::InvalidOptions,
{
    compile_stop_pattern(&stop_words)
}

/// As `create_stop_regex`, for a borrowed list.
fn compile_stop_pattern(stop_words: &Vec<String>) -> (r: Result<Regex, ServiceError>)
    ensures
        r is Ok <==> regex_compiles(stop_pattern(stop_words.deep_view())),
        r matches Ok(re) ==> regex_source(re) == stop_pattern(stop_words.deep_view()),
        r matches Err(e) ==> e == ServiceError::InvalidOptions,
{
    let pattern = build_stop_pattern(stop_words);
    match compile(pattern.as_str()) {
        Ok(re) => Ok(re),
        Err(_) => Err(ServiceError::InvalidOptions),
    }
}

/// Whether a matcher, if there is one, accepts a text. The matcher is shown
/// the text read backwards.
pub open spec fn accepts(matcher: Option<Regex>, text: Seq<char>) -> bool {
    match matcher {
        Some(re) => regex_accepts(re, text.reverse()),
        None => false,
    }
}

/// What a stop condition is, apart from how it is stored.
pub struct StopState {
    /// The compiled stop words; `None` where the request has none.
    pub matcher: Option<Regex>,
    /// The number of steps after which decoding ends whatever the text.
    pub budget: nat,
    /// All text seen so far, oldest character first.
    pub text: Seq<char>,
    /// The number of steps taken.
    pub steps: nat,
}

impl StopState {
    /// The state before the first step.
    pub open spec fn initial(matcher: Option<Regex>, budget: nat, text: Seq<char>) -> StopState {
        StopState { matcher, budget, text, steps: 0 }
    }

    /// The state once `delta` has been added to the text.
    pub open spec fn observe(self, delta: Seq<char>) -> StopState {
        StopState { text: self.text + delta, ..self }
    }

    /// The state once one more step has been counted.
    pub open spec fn count(self) -> StopState {
        StopState { steps: self.steps + 1, ..self }
    }

    /// The state after a step that brought `delta`.
    pub open spec fn next(self, delta: Seq<char>) -> StopState {
        self.observe(delta).count()
    }

    /// Whether the text ends in a way that the matcher accepts.
    pub open spec fn matched(self) -> bool {
        accepts(self.matcher, self.text)
    }

    /// Whether the budget is used up.
    pub open spec fn exhausted(self) -> bool {
        self.steps >= self.budget
    }

    /// The verdict of the step that led to this state.
    pub open spec fn stops(self) -> bool {
        self.matched() || self.exhausted()
    }

    /// The state after a run of steps, one for each of `deltas`, in their
    /// order.
    pub open spec fn after(self, deltas: Seq<Seq<char>>) -> StopState
        decreases deltas.len(),
    {
        if deltas.len() == 0 {
            self
        } else {
            self.after(deltas.drop_last()).next(deltas.last())
        }
    }
}

/// A run of steps adds its texts to the text, in their order, and counts one
/// step for each of them, empty or not; the matcher and the budget stay.
pub proof fn law_run_of_steps(s: StopState, deltas: Seq<Seq<char>>)
    ensures
        s.after(deltas).text == s.text + deltas.flatten(),
        s.after(deltas).steps == s.steps + deltas.len(),
        s.after(deltas).matcher == s.matcher,
        s.after(deltas).budget == s.budget,
    decreases deltas.len(),
{
    if deltas.len() == 0 {
        assert(deltas.flatten() =~= Seq::<char>::empty());
        assert(s.text + deltas.flatten() =~= s.text);
    } else {
        law_run_of_steps(s, deltas.drop_last());
        assert(deltas =~= deltas.drop_last().push(deltas.last()));
        deltas.drop_last().lemma_flatten_push(deltas.last());
        assert(s.text + (deltas.drop_last().flatten() + deltas.last()) =~= (s.text
            + deltas.drop_last().flatten()) + deltas.last());
    }
}

/// The verdict of the last step of a run: stop exactly when the matcher
/// accepts the text as it stands after that step, or the number of steps has
/// reached the budget. So the first step told to stop is the first after which
/// one of the two holds, and no earlier step is.
pub proof fn law_stop_exactly_when_due(s: StopState, deltas: Seq<Seq<char>>)
    ensures
        s.after(deltas).stops() <==> accepts(s.matcher, s.text + deltas.flatten()) || s.steps
            + deltas.len() >= s.budget,
{
    law_run_of_steps(s, deltas);
}

/// Stop on the first match, never earlier: where the matcher accepts the text
/// after step `k` of a run and after no earlier step, and no earlier step
/// reaches the budget, step `k` is told to stop and no earlier step is.
pub proof fn law_first_stop(s: StopState, deltas: Seq<Seq<char>>, k: int)
    requires
        0 < k <= deltas.len(),
        s.steps + k <= s.budget,
        accepts(s.matcher, s.text + deltas.take(k).flatten()),
        forall|j: int| 0 < j < k ==> !accepts(s.matcher, s.text + (#[trigger] deltas.take(j)).flatten()),
    ensures
        s.after(deltas.take(k)).stops(),
        forall|j: int| 0 < j < k ==> !(#[trigger] s.after(deltas.take(j))).stops(),
{
    law_stop_exactly_when_due(s, deltas.take(k));
    assert forall|j: int| 0 < j < k implies !(#[trigger] s.after(deltas.take(j))).stops() by {
        law_stop_exactly_when_due(s, deltas.take(j));
        assert(!accepts(s.matcher, s.text + deltas.take(j).flatten()));
    }
}

/// Once the number of steps has reached the budget the verdict is stop,
/// whatever the text and whatever the budget, 0 and 1 included.
pub proof fn law_stop_on_budget(s: StopState, deltas: Seq<Seq<char>>)
    requires
        s.steps + deltas.len() >= s.budget,
    ensures
        s.after(deltas).stops(),
{
    law_run_of_steps(s, deltas);
}

/// With a budget of 0 or 1 the first step stops.
pub proof fn law_stop_at_once(matcher: Option<Regex>, budget: nat, text: Seq<char>, delta: Seq<char>)
    requires
        budget <= 1,
    ensures
        StopState::initial(matcher, budget, text).next(delta).stops(),
{
}

/// Decides, step by step, when the decoding of one request ends: as soon as
/// the text ends with a stop word, or when the step budget is used up.
pub struct StopCondition {
    stop_re: Option<Regex>,
    max_decoding_length: usize,
    reversed_text: String,
    num_decoded: usize,
}

impl View for StopCondition {
    type V = StopState;

    closed spec fn view(&self) -> StopState {
        StopState {
            matcher: self.stop_re,
            budget: self.max_decoding_length as nat,
            text: self.reversed_text@.reverse(),
            steps: self.num_decoded as nat,
        }
    }
}

impl StopCondition {
    /// A stop condition that has taken no step yet. `text` is what precedes
    /// the decoded text, so that a stop word may begin in it.
    pub fn new(stop_re: Option<Regex>, max_decoding_length: usize, text: &str) -> (cond: Self)
        ensures
            cond@ == StopState::initial(stop_re, max_decoding_length as nat, text@),
    {
        proof {
            lemma_reverse_twice(text@);
        }
        Self { stop_re, max_decoding_length, reversed_text: reverse(text), num_decoded: 0 }
    }

    /// The budget and the step counter are machine numbers.
    pub proof fn lemma_budget_fits(&self)
        ensures
            self@.budget <= usize::MAX,
            self@.steps <= usize::MAX,
    {
    }

    /// The number of steps taken so far.
    pub fn num_decoded(&self) -> (n: usize)
        ensures
            n == self@.steps,
    {
        self.num_decoded
    }

    /// The step budget.
    pub fn max_decoding_length(&self) -> (n: usize)
        ensures
            n == self@.budget,
    {
        self.max_decoding_length
    }

    /// The pattern that the matcher was compiled from, if there is a matcher.
    pub fn pattern(&self) -> (r: Option<String>)
        ensures
            r is Some <==> self@.matcher is Some,
            r matches Some(pattern) ==> pattern@ == regex_source(self@.matcher->0),
    {
        match &self.stop_re {
            Some(re) => Some(source_of(re)),
            None => None,
        }
    }

    /// Adds `new_text` to the text seen so far.
    pub fn push_text(&mut self, new_text: &str)
        ensures
            final(self)@ == old(self)@.observe(new_text@),
    {
        if !new_text.is_empty() {
            let head = reverse(new_text);
            proof {
                lemma_reverse_concat(head@, self.reversed_text@);
                lemma_reverse_twice(new_text@);
            }
            self.reversed_text = head.concat(self.reversed_text.as_str());
        } else {
            assert(self@.text + new_text@ =~= self@.text);
        }
    }

    /// Asks the matcher, if there is one, about the text seen so far.
    pub fn text_matches(&self) -> (found: bool)
        ensures
            found == self@.matched(),
    {
        proof {
            lemma_reverse_twice(self.reversed_text@);
        }
        match &self.stop_re {
            Some(re) => is_match(re, self.reversed_text.as_str()),
            None => false,
        }
    }

    /// Counts one step and gives its verdict, `matched` being what the matcher
    /// said of the text: stop on a match, and stop when the budget is reached.
    pub fn record_step(&mut self, matched: bool) -> (stop: bool)
        requires
            old(self)@.steps < usize::MAX,
        ensures
            final(self)@ == old(self)@.count(),
            stop == (matched || final(self)@.exhausted()),
    {
        self.num_decoded = self.num_decoded + 1;
        matched || self.num_decoded >= self.max_decoding_length
    }

    /// Takes one step with the text that the engine produced in it, which may
    /// be empty, and says whether decoding has to end.
    pub fn should_stop(&mut self, new_text: &str) -> (stop: bool)
        requires
            old(self)@.steps < usize::MAX,
        ensures
            final(self)@ == old(self)@.next(new_text@),
            stop == final(self)@.stops(),
            !stop ==> final(self)@.steps < usize::MAX,
    {
        self.push_text(new_text);
        let matched = self.text_matches();
        self.record_step(matched)
    }
}

/// What one request for a matcher does to the cache: `before` and `after` are
/// the entries around it, `matcher` is what the request got. An empty list of
/// stop words gets no matcher; a list that has an entry gets that entry; any
/// other list gets a matcher compiled from its own pattern, which is then
/// entered under it.
pub open spec fn served(
    before: Matchers,
    words: Seq<Seq<char>>,
    after: Matchers,
    matcher: Option<Regex>,
) -> bool {
    if words.len() == 0 {
        matcher is None && after == before
    } else if before.contains_key(words) {
        matcher == Some(before[words]) && after == before
    } else {
        matcher matches Some(re) && regex_source(re) == stop_pattern(words) && after
            == before.insert(words, re)
    }
}

/// Whether a request for a matcher can be served from these entries.
pub open spec fn servable(before: Matchers, words: Seq<Seq<char>>) -> bool {
    words.len() == 0 || before.contains_key(words) || regex_compiles(stop_pattern(words))
}

/// Every entry was compiled from the pattern of the words it stands under.
pub open spec fn sound(entries: Matchers) -> bool {
    forall|words: Seq<Seq<char>>| #[trigger]
        entries.contains_key(words) ==> regex_source(entries[words]) == stop_pattern(words)
}

/// Makes stop conditions, and keeps the matcher of every list of stop words
/// that it has compiled, so that each list is compiled once.
pub struct StopConditionFactory {
    stop_regex_cache: DashMap<Vec<String>, Regex>,
}

impl StopConditionFactory {
    /// The matchers kept so far, by their stop words.
    pub closed spec fn entries(&self) -> Matchers {
        cache_entries(self.stop_regex_cache)
    }

    /// Every entry was compiled from the pattern of the words it stands under.
    pub open spec fn wf(&self) -> bool {
        sound(self.entries())
    }

    /// The matcher for a list of stop words: from the cache where the list has
    /// an entry, compiled and entered where it has none.
    pub fn get_or_build(&mut self, stop_words: Vec<String>) -> (r: Result<Option<Regex>, ServiceError>)
        requires
            old(self).wf(),
        ensures
            final(self).wf(),
            r is Ok <==> servable(old(self).entries(), stop_words.deep_view()),
            r matches Ok(matcher) ==> served(
                old(self).entries(),
                stop_words.deep_view(),
                final(self).entries(),
                matcher,
            ),
            r matches Ok(Some(re)) ==> regex_source(re) == stop_pattern(stop_words.deep_view()),
            r matches Err(e) ==> e == ServiceError::InvalidOptions && final(self).entries() == old(
                self,
            ).entries(),
    {
        if stop_words.len() == 0 {
            return Ok(None);
        }
        match cache_get(&self.stop_regex_cache, &stop_words) {
            Some(re) => Ok(Some(re)),
            None => match compile_stop_pattern(&stop_words) {
                Ok(re) => {
                    cache_insert(&mut self.stop_regex_cache, stop_words, re.clone());
                    Ok(Some(re))
                },
                Err(e) => Err(e),
            },
        }
    }

    /// A fresh stop condition for a request with these stop words and this
    /// step budget, `text` being what precedes the decoded text.
    pub fn create(&mut self, text: &str, max_decoding_length: usize, stop_words: Vec<String>) -> (r:
        Result<StopCondition, ServiceError>)
        requires
            old(self).wf(),
        ensures
            final(self).wf(),
            r is Ok <==> servable(old(self).entries(), stop_words.deep_view()),
            r matches Ok(cond) ==> served(
                old(self).entries(),
                stop_words.deep_view(),
                final(self).entries(),
                cond@.matcher,
            ) && cond@ == StopState::initial(cond@.matcher, max_decoding_length as nat, text@),
            r matches Err(e) ==> e == ServiceError::InvalidOptions && final(self).entries() == old(
                self,
            ).entries(),
    {
        match self.get_or_build(stop_words) {
            Ok(matcher) => Ok(StopCondition::new(matcher, max_decoding_length, text)),
            Err(e) => Err(e),
        }
    }
}

impl Default for StopConditionFactory {
    fn default() -> (factory: Self)
        ensures
            factory.wf(),
            factory.entries() == Matchers::empty(),
    {
        Self { stop_regex_cache: cache_new() }
    }
}

/// Two requests with the same stop words, one after the other: the second
/// gets the matcher that the first got, and leaves the cache as it found it.
pub proof fn law_same_words_same_matcher(
    c0: Matchers,
    c1: Matchers,
    c2: Matchers,
    words: Seq<Seq<char>>,
    first: Option<Regex>,
    second: Option<Regex>,
)
    requires
        served(c0, words, c1, first),
        served(c1, words, c2, second),
    ensures
        second == first,
        c2 == c1,
{
}

/// A request with other stop words than an earlier one, be it the same words
/// in another order: it gets a matcher compiled from the pattern of its own
/// words, which stands in the cache under them. That matcher is not the
/// earlier request's, whose entry stays as it is.
pub proof fn law_other_words_own_matcher(
    c0: Matchers,
    c1: Matchers,
    c2: Matchers,
    words: Seq<Seq<char>>,
    other: Seq<Seq<char>>,
    first: Option<Regex>,
    second: Option<Regex>,
)
    requires
        sound(c0),
        words.len() > 0,
        other.len() > 0,
        other != words,
        served(c0, words, c1, first),
        served(c1, other, c2, second),
    ensures
        second is Some,
        regex_source(second->0) == stop_pattern(other),
        second != first,
        c2.contains_key(other) && Some(c2[other]) == second,
        c2.contains_key(words) && Some(c2[words]) == first,
{
    law_patterns_differ(other, words);
    law_served_keeps_sound(c0, words, c1, first);
}

/// Serving a request keeps the cache sound.
pub proof fn law_served_keeps_sound(
    before: Matchers,
    words: Seq<Seq<char>>,
    after: Matchers,
    matcher: Option<Regex>,
)
    requires
        sound(before),
        served(before, words, after, matcher),
    ensures
        sound(after),
        matcher is Some <==> words.len() > 0,
        matcher matches Some(re) ==> regex_source(re) == stop_pattern(words),
{
}

} // verus!
