//! Helper library for a Codenames spymaster assistant: it parses free-text
//! clue suggestions coming back from a language-model chat API into validated
//! clue records, aggregates them across responses and orders them by
//! usefulness, and accounts for token usage. Reading files, prompting the
//! user and talking to the API happen outside; this crate holds the rules.

pub mod clue;
pub mod clue_collection;
pub mod config;
pub mod model_collection;
pub mod prompt;
pub mod responses;
mod table;
pub mod text;

use vstd::prelude::*;

use crate::text::{chars_of, lines_of, lines_spec, string_of, trim_chars, trim_spec};

verus! {

/// The command-line choices the program runs under. Paths are carried as
/// plain text here; opening them is the caller's business.
pub struct Args {
    /// Print all available language models.
    pub get: bool,
    /// Selected language models, with one `interactive` entry standing for a
    /// selection prompt.
    pub models: Option<Vec<String>>,
    /// An output file to write to instead of the screen.
    pub output: Option<String>,
    /// Print token usage information.
    pub token: bool,
    /// File containing the words to link together.
    pub to_link: Option<String>,
    /// File containing the words to avoid.
    pub to_avoid: Option<String>,
}

/// The words a file's text holds: each line trimmed, empty lines dropped, in
/// file order.
pub open spec fn words_of_lines(ls: Seq<Seq<char>>) -> Seq<Seq<char>>
    decreases ls.len(),
{
    if ls.len() == 0 {
        Seq::empty()
    } else {
        words_of_lines(ls.drop_last()) + if trim_spec(ls.last()).len() > 0 {
            seq![trim_spec(ls.last())]
        } else {
            Seq::empty()
        }
    }
}

/// Extract the words from a file's text, one per non-empty line, trimmed.
pub fn words_from_content(contents: &str) -> (r: Vec<String>)
    ensures
        r.deep_view() == words_of_lines(lines_spec(contents@)),
{
    let cs = chars_of(contents);
    let lines = lines_of(&cs);
    let n = lines.len();
    let mut r: Vec<String> = Vec::new();
    let mut i: usize = 0;
    proof {
        assert(r.deep_view() =~~= words_of_lines(lines_spec(contents@).take(0)));
    }
    while i < n
        invariant
            i <= n,
            n == lines@.len(),
            lines.deep_view() == lines_spec(contents@),
            r.deep_view() == words_of_lines(lines_spec(contents@).take(i as int)),
        decreases n - i,
    {
        let ghost spec_lines = lines_spec(contents@);
        let ghost prev = r.deep_view();
        let trimmed = trim_chars(&lines[i]);
        proof {
            assert(lines.deep_view()[i as int] =~= lines@[i as int]@);
            assert(trimmed@ == trim_spec(spec_lines[i as int]));
            assert(spec_lines.take(i as int + 1).drop_last() =~= spec_lines.take(i as int));
            assert(spec_lines.take(i as int + 1).last() == spec_lines[i as int]);
        }
        if trimmed.len() > 0 {
            r.push(string_of(&trimmed));
            proof {
                assert(r.deep_view() =~~= prev.push(trim_spec(spec_lines[i as int])));
                assert(prev.push(trim_spec(spec_lines[i as int])) =~= prev + seq![trim_spec(
                    spec_lines[i as int],
                )]);
            }
        } else {
            proof {
                assert(prev + Seq::<Seq<char>>::empty() =~= prev);
            }
        }
        i += 1;
    }
    proof {
        assert(lines_spec(contents@).take(n as int) =~= lines_spec(contents@));
    }
    r
}

} // verus!
