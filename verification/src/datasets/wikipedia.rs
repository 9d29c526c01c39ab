//! The Wikipedia title dataset: one title per line.

use vstd::prelude::*;
use crate::datasets::Dataset;
use crate::datasets::norvig::at_most;
use crate::datasets::text::{lines_of, text_lines, trim_chars, trim_str};

verus! {

/// The lines of a text, trimmed.
pub open spec fn trimmed_lines(s: Seq<char>) -> Seq<Seq<char>> {
    text_lines(s).map_values(|l: Seq<char>| trim_chars(l))
}

/// The titles of a title text: its lines, trimmed, the empty ones left out.
pub open spec fn wiki_titles(s: Seq<char>) -> Seq<Seq<char>> {
    trimmed_lines(s).filter(|t: Seq<char>| t.len() > 0)
}

/// The first `size` titles of a title text (all of them when there are
/// fewer).
pub fn titles(content: &str, size: usize) -> (r: Vec<String>)
    ensures
        r@.map_values(|t: String| t@) == wiki_titles(content@).take(at_most(wiki_titles(content@).len() as int, size as int)),
{
    let lines = lines_of(content);
    let ghost tl = trimmed_lines(content@);
    let ghost keep = |t: Seq<char>| t.len() > 0;
    let mut r: Vec<String> = Vec::new();
    let mut i: usize = 0;
    proof {
        assert(tl.take(0) =~= Seq::<Seq<char>>::empty());
    }
    while i < lines.len() && r.len() < size
        invariant
            lines@.map_values(|l: &str| l@) == text_lines(content@),
            tl == trimmed_lines(content@),
            keep == (|t: Seq<char>| t.len() > 0),
            tl.len() == lines@.len(),
            i <= lines@.len(),
            r@.len() <= size,
            r@.map_values(|t: String| t@) == tl.take(i as int).filter(keep),
        decreases lines@.len() - i,
    {
        let t = trim_str(lines[i]);
        proof {
            assert(lines@.map_values(|l: &str| l@)[i as int] == lines@[i as int]@);
            assert(tl.take(i as int + 1).drop_last() =~= tl.take(i as int));
            assert(tl.take(i as int + 1).last() == t@);
            reveal(Seq::filter);
            assert(tl.take(i as int + 1).filter(keep) == if t@.len() > 0 {
                tl.take(i as int).filter(keep).push(t@)
            } else {
                tl.take(i as int).filter(keep)
            });
        }
        if !t.is_empty() {
            r.push(t.to_string());
            proof {
                assert(r@.map_values(|t: String| t@) =~= tl.take(i as int).filter(keep).push(t@));
            }
        }
        i = i + 1;
    }
    proof {
        let all = tl.filter(keep);
        if i == lines@.len() {
            assert(tl.take(i as int) =~= tl);
            tl.lemma_filter_len(keep);
        } else {
            assert(tl =~= tl.take(i as int) + tl.skip(i as int));
            Seq::filter_distributes_over_add(tl.take(i as int), tl.skip(i as int), keep);
            assert(all.take(size as int) =~= tl.take(i as int).filter(keep));
        }
    }
    r
}

/// The Wikipedia dataset of a title text: its first `size` titles, shuffled
/// with a generator seeded by `seed`.
pub fn from_text(content: &str, size: usize, seed: u64) -> (d: Dataset<String>)
    ensures
        d.name@ == "wikipedia"@,
        exists|ts: Seq<String>|
            ts.map_values(|t: String| t@) == wiki_titles(content@).take(at_most(wiki_titles(content@).len() as int, size as int))
                && d.keys@.to_multiset() == #[trigger] ts.to_multiset(),
{
    let keys = titles(content, size);
    let ghost ts = keys@;
    let d = Dataset::from_keys("wikipedia".to_string(), keys, size, seed);
    proof {
        assert(ts.take(ts.len() as int) =~= ts);
    }
    d
}

} // verus!
