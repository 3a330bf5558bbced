use vstd::prelude::*;
use crate::types::{Pos, same_text};

verus! {

/// The category that a Penn Treebank tag code maps to, if any.
pub open spec fn tag_category(t: Seq<char>) -> Option<Pos> {
    if t == "NN"@ || t == "NNS"@ || t == "NNP"@ || t == "NNPS"@ {
        Some(Pos::N)
    } else if t == "VB"@ || t == "VBD"@ || t == "VBG"@ || t == "VBN"@ || t == "VBP"@ || t == "VBZ"@ {
        Some(Pos::V)
    } else if t == "JJ"@ || t == "JJR"@ || t == "JJS"@ {
        Some(Pos::Adj)
    } else if t == "RB"@ || t == "RBR"@ || t == "RBS"@ {
        Some(Pos::Adv)
    } else if t == "IN"@ {
        Some(Pos::Prep)
    } else if t == "DT"@ {
        Some(Pos::Det)
    } else if t == "CC"@ {
        Some(Pos::Conj)
    } else if t == "PRP"@ || t == "PRP$"@ || t == "WP"@ || t == "WP$"@ {
        Some(Pos::Pron)
    } else if t == "UH"@ {
        Some(Pos::Intj)
    } else if t == "MD"@ {
        Some(Pos::Modal)
    } else {
        None
    }
}

/// True when `t` is one of `cands`.
fn one_of(t: &str, cands: &[&str]) -> (r: bool)
    ensures
        r == exists|i: int| 0 <= i < cands@.len() && cands@[i]@ == t@,
{
    let mut i: usize = 0;
    while i < cands.len()
        invariant
            forall|j: int| 0 <= j < i ==> cands@[j]@ != t@,
        decreases cands.len() - i,
    {
        if same_text(cands[i], t) {
            return true;
        }
        i = i + 1;
    }
    false
}

/// Maps a raw tagger code to the simplified taxonomy; codes without an
/// analogue there map to `None`.
pub fn normalize_nlprule_pos(nlprule_tag: &str) -> (r: Option<Pos>)
    ensures
        r == tag_category(nlprule_tag@),
{
    let t = nlprule_tag;
    if one_of(t, &["NN", "NNS", "NNP", "NNPS"]) {
        Some(Pos::N)
    } else if one_of(t, &["VB", "VBD", "VBG", "VBN", "VBP", "VBZ"]) {
        Some(Pos::V)
    } else if one_of(t, &["JJ", "JJR", "JJS"]) {
        Some(Pos::Adj)
    } else if one_of(t, &["RB", "RBR", "RBS"]) {
        Some(Pos::Adv)
    } else if one_of(t, &["IN"]) {
        Some(Pos::Prep)
    } else if one_of(t, &["DT"]) {
        Some(Pos::Det)
    } else if one_of(t, &["CC"]) {
        Some(Pos::Conj)
    } else if one_of(t, &["PRP", "PRP$", "WP", "WP$"]) {
        Some(Pos::Pron)
    } else if one_of(t, &["UH"]) {
        Some(Pos::Intj)
    } else if one_of(t, &["MD"]) {
        Some(Pos::Modal)
    } else {
        None
    }
}

} // verus!
