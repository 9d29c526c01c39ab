//! The Norvig word-frequency dataset: one `<word>\t<count>` line per word.

use vstd::prelude::*;
use crate::datasets::Dataset;
use crate::datasets::text::{field_before_tab, first_field, lines_of, text_lines};

verus! {

/// The words of a word-frequency text: the first tab-separated field of
/// each line.
pub open spec fn norvig_words(s: Seq<char>) -> Seq<Seq<char>> {
    text_lines(s).map_values(|l: Seq<char>| first_field(l))
}

/// `n`, or `size` when that is smaller.
pub open spec fn at_most(n: int, size: int) -> int {
    if size < n { size } else { n }
}

/// The first `size` words of a word-frequency text (all of them when there
/// are fewer).
pub fn words(content: &str, size: usize) -> (r: Vec<String>)
    ensures
        r@.map_values(|w: String| w@) == norvig_words(content@).take(at_most(norvig_words(content@).len() as int, size as int)),
{
    let lines = lines_of(content);
    let ghost all = norvig_words(content@);
    let mut r: Vec<String> = Vec::new();
    let mut i: usize = 0;
    while i < lines.len() && r.len() < size
        invariant
            lines@.map_values(|l: &str| l@) == text_lines(content@),
            all == norvig_words(content@),
            all.len() == lines@.len(),
            i <= lines@.len(),
            r@.len() == i,
            i <= size,
            r@.map_values(|w: String| w@) == all.take(i as int),
        decreases lines@.len() - i,
    {
        let w = field_before_tab(lines[i]);
        proof {
            assert(lines@.map_values(|l: &str| l@)[i as int] == lines@[i as int]@);
        }
        r.push(w.to_string());
        i = i + 1;
        proof {
            assert(r@.map_values(|w: String| w@) =~= all.take(i as int));
        }
    }
    r
}

/// The Norvig dataset of a word-frequency text: its first `size` words,
/// shuffled with a generator seeded by `seed`.
pub fn from_text(content: &str, size: usize, seed: u64) -> (d: Dataset<String>)
    ensures
        d.name@ == "norvig"@,
        exists|ws: Seq<String>|
            ws.map_values(|w: String| w@) == norvig_words(content@).take(at_most(norvig_words(content@).len() as int, size as int))
                && d.keys@.to_multiset() == #[trigger] ws.to_multiset(),
{
    let keys = words(content, size);
    let ghost ws = keys@;
    let d = Dataset::from_keys("norvig".to_string(), keys, size, seed);
    proof {
        assert(ws.take(ws.len() as int) =~= ws);
    }
    d
}

} // verus!
