use vstd::prelude::*;
use crate::text::{alphabetic, char_is_alphabetic, decimal, usize_to_string};
use crate::worker::{split_tokens, tokens};

verus! {

/// User-supplied map and reduce logic.
pub trait ProcessPlugin {
    /// The key/value pairs of one input file.
    fn map(&self, file_name: String, contents: String) -> Vec<(String, String)>;

    /// The reduced value of one key.
    fn reduce(&self, key: String, values: Vec<String>) -> String;
}

/// Counts words: maximal runs of alphabetic characters.
#[derive(Debug, Default)]
pub struct WordCount {}

/// A character that separates words.
pub fn not_alphabetic(ch: char) -> (r: bool)
    ensures
        r == !alphabetic(ch),
{
    !char_is_alphabetic(ch)
}

/// One pair `(word, "1")` per word of `contents`, in order.
pub fn word_pairs(contents: &str) -> (r: Vec<(String, String)>)
    ensures
        r@.len() == tokens(contents@, true).len(),
        forall|i: int| 0 <= i < r@.len() ==> (#[trigger] r@[i]).0@ == tokens(contents@, true)[i] && r@[i].1@ == seq!['1'],
{
    let words = split_tokens(contents, true);
    let mut r: Vec<(String, String)> = Vec::new();
    let mut i: usize = 0;
    proof {
        reveal_strlit("1");
        assert(words@.len() == tokens(contents@, true).len());
    }
    while i < words.len()
        invariant
            i <= words@.len(),
            words@.map_values(|t: String| t@) == tokens(contents@, true),
            r@.len() == i,
            forall|k: int| 0 <= k < i ==> (#[trigger] r@[k]).0@ == tokens(contents@, true)[k] && r@[k].1@ == seq!['1'],
        decreases words.len() - i,
    {
        proof {
            reveal_strlit("1");
            assert("1"@ =~= seq!['1']);
            assert(words@.map_values(|t: String| t@)[i as int] == words@[i as int]@);
        }
        r.push((words[i].clone(), String::from_str("1")));
        i = i + 1;
    }
    r
}

/// The number of values, in decimal.
pub fn count_values(values: &Vec<String>) -> (r: String)
    ensures
        r@ == decimal(values@.len()),
{
    usize_to_string(values.len())
}

impl ProcessPlugin for WordCount {
    fn map(&self, file_name: String, contents: String) -> (r: Vec<(String, String)>)
        ensures
            r@.len() == tokens(contents@, true).len(),
            forall|i: int| 0 <= i < r@.len() ==> (#[trigger] r@[i]).0@ == tokens(contents@, true)[i] && r@[i].1@ == seq!['1'],
    {
        word_pairs(contents.as_str())
    }

    fn reduce(&self, key: String, values: Vec<String>) -> (r: String)
        ensures
            r@ == decimal(values@.len()),
    {
        count_values(&values)
    }
}

/// Reduces each group with `plugin`, pairing every key with its reduced value, in order.
pub fn reduce_groups<P: ProcessPlugin>(plugin: &P, groups: Vec<(String, Vec<String>)>) -> (r: Vec<(String, String)>)
    ensures
        r@.len() == groups@.len(),
        forall|i: int| 0 <= i < r@.len() ==> (#[trigger] r@[i]).0@ == groups@[i].0@,
{
    let ghost g = groups@;
    let mut rest = groups;
    let mut rev: Vec<(String, String)> = Vec::new();
    while rest.len() > 0
        invariant
            rest@.len() + rev@.len() == g.len(),
            rest@ == g.subrange(0, rest@.len() as int),
            forall|i: int| 0 <= i < rev@.len() ==> (#[trigger] rev@[i]).0@ == g[g.len() - 1 - i].0@,
        decreases rest.len(),
    {
        let (key, values) = rest.pop().unwrap();
        let k = key.clone();
        let v = plugin.reduce(key, values);
        rev.push((k, v));
        proof {
            assert(rest@ =~= g.subrange(0, rest@.len() as int));
        }
    }
    let mut r: Vec<(String, String)> = Vec::new();
    while rev.len() > 0
        invariant
            r@.len() + rev@.len() == g.len(),
            forall|i: int| 0 <= i < rev@.len() ==> (#[trigger] rev@[i]).0@ == g[g.len() - 1 - i].0@,
            forall|i: int| 0 <= i < r@.len() ==> (#[trigger] r@[i]).0@ == g[i].0@,
        decreases rev.len(),
    {
        let p = rev.pop().unwrap();
        r.push(p);
    }
    r
}

/// The word-count plugin.
pub fn _build_plugin() -> (r: WordCount)
    ensures
        r == (WordCount {}),
{
    WordCount {}
}

} // verus!
