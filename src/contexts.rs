use vstd::prelude::*;
use vstd::string::StringExecFns;

verus! {

/// Number of diagnostic sentence templates.
pub const NUM_CONTEXTS: usize = 30;

/// Text before the word in the `i`-th template. The templates elicit, in
/// order: nouns, verbs, adjectives, adverbs, prepositions, determiners and
/// conjunctions.
pub open spec fn context_prefix(i: int) -> Seq<char> {
    if i == 0 { "The "@ }
    else if i == 1 { "A "@ }
    else if i == 2 { "This "@ }
    else if i == 3 { "Many "@ }
    else if i == 4 { "Some "@ }
    else if i == 5 { "Each "@ }
    else if i == 6 { "They "@ }
    else if i == 7 { "I "@ }
    else if i == 8 { "We "@ }
    else if i == 9 { "He "@ }
    else if i == 10 { "She "@ }
    else if i == 11 { "It "@ }
    else if i == 12 { "The "@ }
    else if i == 13 { "It is "@ }
    else if i == 14 { "A "@ }
    else if i == 15 { "Very "@ }
    else if i == 16 { "That seems "@ }
    else if i == 17 { "It looks "@ }
    else if i == 18 { "They are "@ }
    else if i == 19 { "They work "@ }
    else if i == 20 { "It runs "@ }
    else if i == 21 { "Very "@ }
    else if i == 22 { "It moves "@ }
    else if i == 23 { "They go "@ }
    else if i == 24 { "We work "@ }
    else if i == 25 { "It sits "@ }
    else if i == 26 { ""@ }
    else if i == 27 { ""@ }
    else if i == 28 { "This "@ }
    else { "Here "@ }
}

/// Text after the word in the `i`-th template.
pub open spec fn context_suffix(i: int) -> Seq<char> {
    if i == 0 { " works."@ }
    else if i == 1 { " helps."@ }
    else if i == 2 { " is good."@ }
    else if i == 3 { " help."@ }
    else if i == 4 { " work."@ }
    else if i == 5 { " helps."@ }
    else if i == 6 { " it."@ }
    else if i == 7 { " now."@ }
    else if i == 8 { " here."@ }
    else if i == 9 { " well."@ }
    else if i == 10 { " quickly."@ }
    else if i == 11 { " fast."@ }
    else if i == 12 { " thing works."@ }
    else if i == 13 { "."@ }
    else if i == 14 { " item helps."@ }
    else if i == 15 { " stuff."@ }
    else if i == 16 { "."@ }
    else if i == 17 { "."@ }
    else if i == 18 { "."@ }
    else if i == 19 { "."@ }
    else if i == 20 { "."@ }
    else if i == 21 { " done."@ }
    else if i == 22 { "."@ }
    else if i == 23 { " it."@ }
    else if i == 24 { " it."@ }
    else if i == 25 { " there."@ }
    else if i == 26 { " thing works."@ }
    else if i == 27 { " items help."@ }
    else if i == 28 { " that."@ }
    else { " there."@ }
}

/// The `i`-th diagnostic sentence for `word`.
pub open spec fn context_of(word: Seq<char>, i: int) -> Seq<char> {
    context_prefix(i) + word + context_suffix(i)
}

fn fill(before: &str, word: &str, after: &str) -> (r: String)
    ensures
        r@ == before@ + word@ + after@,
{
    let s = String::from_str(before);
    let s = s.concat(word);
    s.concat(after)
}

/// The fixed, ordered list of template sentences with `word` in each slot.
pub fn get_test_contexts(word: &str) -> (r: Vec<String>)
    ensures
        r@.len() == NUM_CONTEXTS,
        forall|i: int| 0 <= i < NUM_CONTEXTS ==> #[trigger] r@[i]@ == context_of(word@, i),
{
    let mut v: Vec<String> = Vec::new();
    v.push(fill("The ", word, " works."));
    v.push(fill("A ", word, " helps."));
    v.push(fill("This ", word, " is good."));
    v.push(fill("Many ", word, " help."));
    v.push(fill("Some ", word, " work."));
    v.push(fill("Each ", word, " helps."));
    v.push(fill("They ", word, " it."));
    v.push(fill("I ", word, " now."));
    v.push(fill("We ", word, " here."));
    v.push(fill("He ", word, " well."));
    v.push(fill("She ", word, " quickly."));
    v.push(fill("It ", word, " fast."));
    v.push(fill("The ", word, " thing works."));
    v.push(fill("It is ", word, "."));
    v.push(fill("A ", word, " item helps."));
    v.push(fill("Very ", word, " stuff."));
    v.push(fill("That seems ", word, "."));
    v.push(fill("It looks ", word, "."));
    v.push(fill("They are ", word, "."));
    v.push(fill("They work ", word, "."));
    v.push(fill("It runs ", word, "."));
    v.push(fill("Very ", word, " done."));
    v.push(fill("It moves ", word, "."));
    v.push(fill("They go ", word, " it."));
    v.push(fill("We work ", word, " it."));
    v.push(fill("It sits ", word, " there."));
    v.push(fill("", word, " thing works."));
    v.push(fill("", word, " items help."));
    v.push(fill("This ", word, " that."));
    v.push(fill("Here ", word, " there."));
    v
}

} // verus!
