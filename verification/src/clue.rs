//! One candidate clue: a clue word, a claimed link count, the linked words,
//! and the source model that proposed it. Parsing a raw line of model output
//! either yields a fully validated clue or nothing at all.

use vstd::prelude::*;

use vstd::string::*;

use crate::text::{
    chars_of, comma_chunks, comma_sep, dec_chars, dec_str, is_valid_word, join_strings, join_with,
    lemma_chunks_of_joined, lemma_join_left, lemma_parse_of_dec_str, parse_count,
    parse_count_spec, split_comma_space, string_of, trim_chars, trim_spec, valid_word,
};

verus! {

/// The mathematical content of a clue.
#[verifier::ext_equal]
pub struct ClueModel {
    pub clue_word: Seq<char>,
    pub count: int,
    pub linked_words: Seq<Seq<char>>,
    pub source: Seq<char>,
}

/// A validated clue. Construction is all-or-nothing: a `Clue` exists only if
/// every check of `clue_of_line` passed.
pub struct Clue {
    pub clue_word: String,
    pub count: usize,
    pub linked_words: Vec<String>,
    pub source: String,
}

impl View for Clue {
    type V = ClueModel;

    open spec fn view(&self) -> ClueModel {
        ClueModel {
            clue_word: self.clue_word@,
            count: self.count as int,
            linked_words: self.linked_words.deep_view(),
            source: self.source@,
        }
    }
}

/// The chunks of a clue line: split on `", "`, then each chunk trimmed.
pub open spec fn line_chunks(line: Seq<char>) -> Seq<Seq<char>> {
    comma_chunks(line).map_values(|c: Seq<char>| trim_spec(c))
}

/// What a chunk must be to stand as a clue word or a linked word: non-empty,
/// and made of alphabetic characters and spaces alone.
pub open spec fn acceptable_word(s: Seq<char>) -> bool {
    s.len() > 0 && valid_word(s)
}

/// What parsing one clue line means. A line is accepted only when it has at
/// least four chunks, its second chunk is a non-negative count, the declared
/// count equals the number of trailing chunks, and the clue word and every
/// linked word are non-empty and consist of alphabetic characters and spaces
/// alone.
pub open spec fn clue_of_line(line: Seq<char>, source: Seq<char>) -> Option<ClueModel> {
    let chunks = line_chunks(line);
    if chunks.len() < 4 {
        None
    } else {
        match parse_count_spec(chunks[1]) {
            Option::None => None,
            Option::Some(count) => {
                let linked = chunks.skip(2);
                if linked.len() != count {
                    None
                } else if !acceptable_word(chunks[0]) {
                    None
                } else if exists|i: int|
                    0 <= i < linked.len() && !acceptable_word(#[trigger] linked[i]) {
                    None
                } else {
                    Some(
                        ClueModel {
                            clue_word: chunks[0],
                            count,
                            linked_words: linked,
                            source,
                        },
                    )
                }
            },
        }
    }
}

impl Clue {
    /// Parse a single line of model output into a validated clue, or reject
    /// it. Rejection is the expected path for malformed model text.
    pub fn new(clue_line: &str, source: String) -> (r: Option<Clue>)
        ensures
            match r {
                Some(c) => clue_of_line(clue_line@, source@) == Some(c@),
                None => clue_of_line(clue_line@, source@) is None,
            },
    {
        let cs = chars_of(clue_line);
        let raw = split_comma_space(&cs);
        let ghost spec_chunks = line_chunks(clue_line@);
        let mut chunks: Vec<Vec<char>> = Vec::new();
        let mut i: usize = 0;
        while i < raw.len()
            invariant
                i <= raw@.len(),
                raw.deep_view() == comma_chunks(cs@),
                cs@ == clue_line@,
                spec_chunks == line_chunks(clue_line@),
                chunks.deep_view() == raw.deep_view().take(i as int).map_values(
                    |c: Seq<char>| trim_spec(c),
                ),
            decreases raw@.len() - i,
        {
            let ghost prev = chunks.deep_view();
            let t = trim_chars(&raw[i]);
            chunks.push(t);
            i += 1;
            proof {
                assert(raw.deep_view()[i - 1] =~= raw@[i - 1]@);
                assert(t@ == trim_spec(raw.deep_view()[i - 1]));
                assert(chunks.deep_view() =~~= prev.push(trim_spec(raw.deep_view()[i - 1])));
                assert(raw.deep_view().take(i as int).map_values(|c: Seq<char>| trim_spec(c))
                    =~= raw.deep_view().take(i as int - 1).map_values(
                    |c: Seq<char>| trim_spec(c),
                ).push(trim_spec(raw.deep_view()[i - 1])));
            }
        }
        proof {
            assert(raw.deep_view().take(raw@.len() as int) =~= raw.deep_view());
            assert(chunks.deep_view() =~~= spec_chunks);
        }
        if chunks.len() < 4 {
            return None;
        }
        let count = match parse_count(&chunks[1]) {
            Some(c) => c,
            None => {
                proof {
                    assert(chunks.deep_view()[1] =~= chunks@[1]@);
                }
                return None;
            },
        };
        proof {
            assert(chunks.deep_view()[1] =~= chunks@[1]@);
            assert(parse_count_spec(spec_chunks[1]) == Some(count as int));
        }
        let ghost linked = spec_chunks.skip(2);
        if chunks.len() - 2 != count {
            return None;
        }
        if chunks[0].len() == 0 || !is_valid_word(&chunks[0]) {
            proof {
                assert(chunks.deep_view()[0] =~= chunks@[0]@);
                assert(!acceptable_word(spec_chunks[0]));
            }
            return None;
        }
        let mut linked_words: Vec<String> = Vec::new();
        let mut i: usize = 2;
        while i < chunks.len()
            invariant
                2 <= i <= chunks@.len(),
                spec_chunks == line_chunks(clue_line@),
                chunks.deep_view() == spec_chunks,
                spec_chunks.len() >= 4,
                parse_count_spec(spec_chunks[1]) == Some(count as int),
                count == spec_chunks.len() - 2,
                acceptable_word(spec_chunks[0]),
                linked == spec_chunks.skip(2),
                linked_words.deep_view() == linked.take(i - 2),
                forall|j: int| 0 <= j < i - 2 ==> acceptable_word(#[trigger] linked[j]),
            decreases chunks@.len() - i,
        {
            let ghost prev = linked_words.deep_view();
            if chunks[i].len() == 0 || !is_valid_word(&chunks[i]) {
                proof {
                    assert(chunks.deep_view()[i as int] =~= chunks@[i as int]@);
                    assert(linked[i - 2] == spec_chunks[i as int]);
                    assert(!acceptable_word(linked[i - 2]));
                }
                return None;
            }
            linked_words.push(string_of(&chunks[i]));
            i += 1;
            proof {
                assert(chunks.deep_view()[i - 1] =~= chunks@[i - 1]@);
                assert(linked[i - 3] == spec_chunks[i - 1]);
                assert(linked_words.deep_view() =~~= prev.push(linked[i - 3]));
                assert(linked.take(i - 2) =~= linked.take(i - 3).push(linked[i - 3]));
            }
        }
        let clue_word = string_of(&chunks[0]);
        let r = Clue { clue_word, count, linked_words, source };
        proof {
            assert(chunks.deep_view()[0] =~= chunks@[0]@);
            assert(linked.take(chunks@.len() - 2) =~= linked);
            assert(r@ =~= ClueModel {
                clue_word: spec_chunks[0],
                count: count as int,
                linked_words: linked,
                source: r.source@,
            });
        }
        Some(r)
    }
}

/// The canonical text of a clue, in the same shape the parser consumes:
/// `<clue word>, <count>, <linked word>, <linked word>, ...`.
pub open spec fn clue_line_text(c: ClueModel) -> Seq<char> {
    c.clue_word + comma_sep() + dec_str(c.count as nat) + comma_sep() + join_with(
        c.linked_words,
        comma_sep(),
    )
}

/// The conditions under which a clue survives a serialize-then-parse round
/// trip: the counts agree with at least two linked words, every word is
/// non-empty and made of alphabetic characters and spaces, no word carries a
/// comma, and no word has whitespace at its ends (the parser trims each
/// chunk, so a word padded with whitespace could not come back unchanged).
pub open spec fn round_trippable(c: ClueModel) -> bool {
    &&& c.linked_words.len() == c.count
    &&& 2 <= c.count <= usize::MAX
    &&& acceptable_word(c.clue_word)
    &&& trim_spec(c.clue_word) == c.clue_word
    &&& (forall|i: int| 0 <= i < c.clue_word.len() ==> #[trigger] c.clue_word[i] != ',')
    &&& (forall|k: int|
        0 <= k < c.linked_words.len() ==> acceptable_word(#[trigger] c.linked_words[k]))
    &&& (forall|k: int|
        0 <= k < c.linked_words.len() ==> trim_spec(#[trigger] c.linked_words[k])
            == c.linked_words[k])
    &&& (forall|k: int, i: int|
        0 <= k < c.linked_words.len() && 0 <= i < c.linked_words[k].len()
            ==> #[trigger] c.linked_words[k][i] != ',')
}

/// Writing a clue out as a line and parsing that line back yields an equal
/// clue, the source aside, which the line does not encode.
pub proof fn lemma_clue_line_round_trip(c: ClueModel, source: Seq<char>)
    requires
        round_trippable(c),
    ensures
        clue_of_line(clue_line_text(c), source) == Some(
            ClueModel { source, ..c },
        ),
{
    let line = clue_line_text(c);
    let num = dec_str(c.count as nat);
    let parts = seq![c.clue_word, num] + c.linked_words;
    lemma_parse_of_dec_str(c.count as nat);
    // The line is exactly the parts joined with the separator.
    assert(join_with(parts, comma_sep()) == line) by {
        lemma_join_left(parts, comma_sep());
        assert(parts.skip(1) =~= seq![num] + c.linked_words);
        lemma_join_left(seq![num] + c.linked_words, comma_sep());
        assert((seq![num] + c.linked_words)[0] == num);
        assert((seq![num] + c.linked_words).skip(1) =~= c.linked_words);
        assert(parts[0] + comma_sep() + (num + comma_sep() + join_with(
            c.linked_words,
            comma_sep(),
        )) =~= line);
    };
    // No part contains a comma, so splitting recovers the parts.
    assert(forall|k: int, i: int|
        0 <= k < parts.len() && 0 <= i < parts[k].len() ==> #[trigger] parts[k][i] != ',') by {
        assert(forall|i: int| 0 <= i < num.len() ==> #[trigger] num[i] != ',');
        assert(forall|k: int, i: int|
            2 <= k < parts.len() && 0 <= i < parts[k].len() ==> parts[k][i]
                == #[trigger] c.linked_words[k - 2][i]);
    };
    lemma_chunks_of_joined(parts);
    assert(comma_chunks(line) == parts);
    // Each part is already trimmed.
    assert(line_chunks(line) =~= parts) by {
        assert(forall|k: int|
            0 <= k < parts.len() ==> trim_spec(#[trigger] parts[k]) == parts[k]) by {
            assert(trim_spec(parts[0]) == parts[0]);
            assert(trim_spec(parts[1]) == parts[1]);
            assert(forall|k: int|
                2 <= k < parts.len() ==> trim_spec(#[trigger] parts[k]) == parts[k]);
        };
        assert(line_chunks(line) == comma_chunks(line).map_values(
            |ch: Seq<char>| trim_spec(ch),
        ));
    };
    let chunks = line_chunks(line);
    assert(chunks.len() == 2 + c.count >= 4);
    assert(chunks[1] == num);
    assert(parse_count_spec(chunks[1]) == Some(c.count));
    assert(chunks.skip(2) =~= c.linked_words);
    assert(chunks[0] == c.clue_word);
    assert(!(exists|i: int|
        0 <= i < c.linked_words.len() && !acceptable_word(#[trigger] c.linked_words[i])));
    assert(clue_of_line(line, source) == Some(
        ClueModel { clue_word: c.clue_word, count: c.count, linked_words: c.linked_words, source },
    ));
    assert(ClueModel {
        clue_word: c.clue_word,
        count: c.count,
        linked_words: c.linked_words,
        source,
    } =~~= ClueModel { source, ..c });
}

/// A line that does not split into at least four chunks is rejected.
pub proof fn lemma_rejects_few_chunks(line: Seq<char>, source: Seq<char>)
    requires
        line_chunks(line).len() < 4,
    ensures
        clue_of_line(line, source) is None,
{
}

/// A line whose declared count differs from the number of trailing chunks is
/// rejected.
pub proof fn lemma_rejects_count_mismatch(line: Seq<char>, source: Seq<char>)
    requires
        ({
            let chunks = line_chunks(line);
            chunks.len() >= 4 && match parse_count_spec(chunks[1]) {
                Option::Some(n) => chunks.len() - 2 != n,
                Option::None => true,
            }
        }),
    ensures
        clue_of_line(line, source) is None,
{
}

/// A line whose clue word or linked word holds any character that is neither
/// alphabetic nor a space - a digit, punctuation, a slash - is rejected.
pub proof fn lemma_rejects_invalid_word(line: Seq<char>, source: Seq<char>, k: int)
    requires
        ({
            let chunks = line_chunks(line);
            (k == 0 || 2 <= k < chunks.len()) && k < chunks.len() && !valid_word(chunks[k])
        }),
    ensures
        clue_of_line(line, source) is None,
{
    let chunks = line_chunks(line);
    if chunks.len() >= 4 && k >= 2 {
        assert(chunks.skip(2)[k - 2] == chunks[k]);
    }
}

/// A line whose clue word or any linked word is empty once trimmed is
/// rejected: a clue either satisfies every constraint or does not exist.
pub proof fn lemma_rejects_empty_word(line: Seq<char>, source: Seq<char>, k: int)
    requires
        ({
            let chunks = line_chunks(line);
            (k == 0 || 2 <= k < chunks.len()) && k < chunks.len() && chunks[k].len() == 0
        }),
    ensures
        clue_of_line(line, source) is None,
{
    let chunks = line_chunks(line);
    if chunks.len() >= 4 && k >= 2 {
        assert(chunks.skip(2)[k - 2] == chunks[k]);
    }
}

impl Clue {
    /// The clue written back out as a line in the shape the parser consumes.
    pub fn to_line(&self) -> (r: String)
        ensures
            r@ == clue_line_text(self@),
    {
        let mut r = self.clue_word.clone();
        r.append(", ");
        let num = string_of(&dec_chars(self.count));
        r.append(num.as_str());
        r.append(", ");
        let joined = join_strings(&self.linked_words, ", ");
        r.append(joined.as_str());
        proof {
            reveal_strlit(", ");
            assert(", "@ =~= comma_sep());
            assert(r@ =~= clue_line_text(self@));
        }
        r
    }
}

} // verus!
