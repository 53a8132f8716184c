//! The prompt text sent to the language model, and the clean-up pass for the
//! whitespace-separated clue format
//! (`<clue> <count> - <word> <word> ...`): lines whose word count does not
//! match their declared count are dropped, and the rest are ordered by the
//! count token, descending.

use vstd::prelude::*;
use vstd::string::*;

use crate::text::{
    chars_of, join_with, join_strings, lt_chars, parse_count, parse_count_spec,
    split_whitespace, str_le, str_lt, ws_words,
};

verus! {

/// The user prompt: the words to link, then the words to avoid, each group
/// under its heading, one word per line.
pub fn prompt_content(link_words: &Vec<String>, avoid_words: &Vec<String>) -> (r: String)
    ensures
        r@ == "To Link:\n"@ + join_with(link_words.deep_view(), seq!['\n']) + "\n\nTo Avoid:\n"@
            + join_with(avoid_words.deep_view(), seq!['\n']),
{
    let mut r = "To Link:\n".to_owned();
    let linked = join_strings(link_words, "\n");
    r.append(linked.as_str());
    r.append("\n\nTo Avoid:\n");
    let avoided = join_strings(avoid_words, "\n");
    r.append(avoided.as_str());
    proof {
        reveal_strlit("\n");
        assert("\n"@ =~= seq!['\n']);
        assert(r@ =~= "To Link:\n"@ + join_with(link_words.deep_view(), seq!['\n'])
            + "\n\nTo Avoid:\n"@ + join_with(avoid_words.deep_view(), seq!['\n']));
    }
    r
}

/// Whether a whitespace-format clue line is kept: more than four words, a
/// parseable count token in second position, and a total word count of the
/// declared count plus three.
pub open spec fn keeps_clue(s: Seq<char>) -> bool {
    let w = ws_words(s);
    w.len() > 4 && match parse_count_spec(w[1]) {
        Option::Some(n) => w.len() == n + 3,
        Option::None => false,
    }
}

/// The lines that survive the clean-up, in input order.
pub open spec fn retained(s: Seq<Seq<char>>) -> Seq<Seq<char>>
    decreases s.len(),
{
    if s.len() == 0 {
        Seq::empty()
    } else {
        retained(s.drop_last()) + if keeps_clue(s.last()) {
            seq![s.last()]
        } else {
            Seq::empty()
        }
    }
}

/// The token a kept line is ordered by: its second whitespace-separated
/// word, the declared count, compared as text.
pub open spec fn count_token(s: Seq<char>) -> Seq<char> {
    ws_words(s)[1]
}

/// Insertion into a run that descends by count token: `x` goes after every
/// line whose token is at least as large.
pub open spec fn insert_token_desc(s: Seq<Seq<char>>, x: Seq<char>) -> Seq<Seq<char>>
    decreases s.len(),
{
    if s.len() > 0 && str_le(count_token(x), count_token(s[0])) {
        seq![s[0]] + insert_token_desc(s.skip(1), x)
    } else {
        seq![x] + s
    }
}

/// Stable sorting of kept lines by count token, descending.
pub open spec fn sort_token_desc(s: Seq<Seq<char>>) -> Seq<Seq<char>>
    decreases s.len(),
{
    if s.len() == 0 {
        Seq::empty()
    } else {
        insert_token_desc(sort_token_desc(s.drop_last()), s.last())
    }
}

fn keeps_clue_exec(s: &String) -> (r: bool)
    ensures
        r == keeps_clue(s@),
{
    let words = split_whitespace(&chars_of(s.as_str()));
    if words.len() <= 4 {
        return false;
    }
    proof {
        assert(words.deep_view()[1] =~= words@[1]@);
    }
    match parse_count(&words[1]) {
        Some(n) => {
            if n <= usize::MAX - 3 {
                words.len() == n + 3
            } else {
                false
            }
        },
        None => false,
    }
}

/// The count token of a kept line, as characters.
fn count_token_exec(s: &String) -> (r: Vec<char>)
    requires
        ws_words(s@).len() >= 2,
    ensures
        r@ == count_token(s@),
{
    let mut words = split_whitespace(&chars_of(s.as_str()));
    proof {
        assert(words.deep_view()[1] =~= words@[1]@);
    }
    words.remove(1)
}

proof fn lemma_insert_token_at(s: Seq<Seq<char>>, x: Seq<char>, pos: int)
    requires
        0 <= pos <= s.len(),
        forall|k: int| 0 <= k < pos ==> str_le(count_token(x), count_token(#[trigger] s[k])),
        pos == s.len() || str_lt(count_token(s[pos]), count_token(x)),
    ensures
        insert_token_desc(s, x) == s.take(pos) + seq![x] + s.skip(pos),
    decreases s.len(),
{
    if s.len() > 0 && str_le(count_token(x), count_token(s[0])) {
        lemma_insert_token_at(s.skip(1), x, pos - 1);
        assert(s.skip(1).take(pos - 1) =~= s.take(pos).skip(1));
        assert(s.skip(1).skip(pos - 1) =~= s.skip(pos));
        assert(seq![s[0]] + (s.skip(1).take(pos - 1) + seq![x] + s.skip(1).skip(pos - 1))
            =~= s.take(pos) + seq![x] + s.skip(pos));
    } else {
        assert(pos == 0);
        assert(s.take(0) =~= Seq::<Seq<char>>::empty());
        assert(s.skip(0) =~= s);
        assert(seq![x] + s =~= s.take(0) + seq![x] + s.skip(0));
    }
}

proof fn lemma_insert_token_len(s: Seq<Seq<char>>, x: Seq<char>)
    ensures
        insert_token_desc(s, x).len() == s.len() + 1,
    decreases s.len(),
{
    if s.len() > 0 && str_le(count_token(x), count_token(s[0])) {
        lemma_insert_token_len(s.skip(1), x);
    }
}

proof fn lemma_sort_token_len(s: Seq<Seq<char>>)
    ensures
        sort_token_desc(s).len() == s.len(),
    decreases s.len(),
{
    if s.len() > 0 {
        lemma_sort_token_len(s.drop_last());
        lemma_insert_token_len(sort_token_desc(s.drop_last()), s.last());
    }
}

proof fn lemma_insert_token_keeps(s: Seq<Seq<char>>, x: Seq<char>)
    requires
        forall|k: int| 0 <= k < s.len() ==> keeps_clue(#[trigger] s[k]),
        keeps_clue(x),
    ensures
        forall|k: int|
            0 <= k < insert_token_desc(s, x).len() ==> keeps_clue(
                #[trigger] insert_token_desc(s, x)[k],
            ),
    decreases s.len(),
{
    if s.len() > 0 && str_le(count_token(x), count_token(s[0])) {
        assert(forall|k: int| 0 <= k < s.skip(1).len() ==> keeps_clue(#[trigger] s.skip(1)[k]));
        lemma_insert_token_keeps(s.skip(1), x);
        let r = insert_token_desc(s, x);
        assert forall|k: int| 0 <= k < r.len() implies keeps_clue(#[trigger] r[k]) by {
            if k == 0 {
                assert(r[k] == s[0]);
            } else {
                assert(r[k] == insert_token_desc(s.skip(1), x)[k - 1]);
            }
        }
    } else {
        let r = insert_token_desc(s, x);
        assert forall|k: int| 0 <= k < r.len() implies keeps_clue(#[trigger] r[k]) by {
            if k == 0 {
                assert(r[k] == x);
            } else {
                assert(r[k] == s[k - 1]);
            }
        }
    }
}

/// Remove the lines that fail the whitespace-format checks and order the
/// rest by their count token, descending and stable.
pub fn clean_up_clues(clues: &mut Vec<String>)
    ensures
        final(clues).deep_view() == sort_token_desc(retained(old(clues).deep_view())),
{
    // Keep only the valid lines.
    let mut kept: Vec<String> = Vec::new();
    let n = clues.len();
    let mut i: usize = 0;
    proof {
        assert(kept.deep_view() =~~= retained(clues.deep_view().take(0)));
    }
    while i < n
        invariant
            i <= n,
            n == clues@.len(),
            kept.deep_view() == retained(clues.deep_view().take(i as int)),
            forall|k: int|
                0 <= k < kept.deep_view().len() ==> keeps_clue(#[trigger] kept.deep_view()[k]),
        decreases n - i,
    {
        let ghost all = clues.deep_view();
        let ghost prev = kept.deep_view();
        proof {
            assert(all.take(i as int + 1).drop_last() =~= all.take(i as int));
            assert(all.take(i as int + 1).last() == all[i as int]);
            assert(clues.deep_view()[i as int] =~= clues@[i as int]@);
        }
        if keeps_clue_exec(&clues[i]) {
            kept.push(clues[i].clone());
            proof {
                assert(kept.deep_view() =~~= prev.push(all[i as int]));
                assert(prev.push(all[i as int]) =~= prev + seq![all[i as int]]);
            }
        } else {
            proof {
                assert(prev + Seq::<Seq<char>>::empty() =~= prev);
            }
        }
        i += 1;
    }
    proof {
        assert(clues.deep_view().take(n as int) =~= clues.deep_view());
    }
    // Sort the kept lines by count token, descending.
    let m = kept.len();
    let ghost orig = kept.deep_view();
    if m > 1 {
        let mut i: usize = 1;
        proof {
            assert(orig.take(1).drop_last() =~= Seq::<Seq<char>>::empty());
            assert(sort_token_desc(orig.take(1).drop_last()) == Seq::<Seq<char>>::empty());
            assert(sort_token_desc(orig.take(1)) == seq![orig.take(1).last()]
                + Seq::<Seq<char>>::empty());
            assert(orig.take(1).last() == orig[0]);
            assert(kept.deep_view() =~~= sort_token_desc(orig.take(1)) + orig.skip(1));
        }
        while i < m
            invariant
                1 <= i <= m,
                m == kept@.len(),
                orig.len() == m,
                forall|k: int| 0 <= k < orig.len() ==> keeps_clue(#[trigger] orig[k]),
                kept.deep_view() == sort_token_desc(orig.take(i as int)) + orig.skip(i as int),
            decreases m - i,
        {
            let ghost sorted = sort_token_desc(orig.take(i as int));
            proof {
                lemma_sort_token_len(orig.take(i as int));
                assert forall|k: int| 0 <= k < sorted.len() implies keeps_clue(
                    #[trigger] sorted[k],
                ) by {
                    lemma_sort_token_all_keep(orig.take(i as int));
                }
            }
            let ghost pre = kept@;
            let ghost pre_dv = kept.deep_view();
            let x = kept.remove(i);
            proof {
                assert forall|k: int| 0 <= k < kept@.len() implies kept.deep_view()[k] == (
                sorted + orig.skip(i as int + 1))[k] by {
                    assert(kept.deep_view()[k] == kept@[k]@);
                    if k < i {
                        assert(kept@[k] == pre[k]);
                        assert(pre_dv[k] == pre[k]@);
                        assert(pre_dv[k] == sorted[k]);
                    } else {
                        assert(kept@[k] == pre[k + 1]);
                        assert(pre_dv[k + 1] == pre[k + 1]@);
                        assert(pre_dv[k + 1] == orig.skip(i as int)[k + 1 - i]);
                        assert(orig.skip(i as int)[k + 1 - i] == orig[k + 1]);
                        assert(orig.skip(i as int + 1)[k - i] == orig[k + 1]);
                    }
                }
                assert(kept.deep_view() =~~= sorted + orig.skip(i as int + 1));
                assert(x == pre[i as int]);
                assert(pre_dv[i as int] == pre[i as int]@);
                assert(pre_dv[i as int] == orig.skip(i as int)[0]);
                assert(x@ == orig[i as int]);
                assert(keeps_clue(x@));
                assert(ws_words(x@).len() >= 2);
            }
            let x_key = count_token_exec(&x);
            let mut pos: usize = 0;
            proof {
                assert forall|k: int| 0 <= k < i implies ws_words((#[trigger] kept@[k])@).len()
                    >= 2 by {
                    assert(kept.deep_view()[k] == kept@[k]@);
                    assert(kept.deep_view()[k] == sorted[k]);
                }
            }
            while pos < i && !lt_chars(&count_token_exec(&kept[pos]), &x_key)
                invariant
                    forall|k: int| 0 <= k < i ==> ws_words((#[trigger] kept@[k])@).len() >= 2,
                    0 <= pos <= i < m,
                    m == kept@.len() + 1,
                    kept.deep_view() == sorted + orig.skip(i as int + 1),
                    sorted.len() == i,
                    forall|k: int| 0 <= k < sorted.len() ==> keeps_clue(#[trigger] sorted[k]),
                    x@ == orig[i as int],
                    x_key@ == count_token(x@),
                    forall|k: int|
                        0 <= k < pos ==> str_le(count_token(x@), count_token(
                            #[trigger] sorted[k],
                        )),
                decreases i - pos,
            {
                proof {
                    assert(kept.deep_view()[pos as int] == kept@[pos as int]@);
                    assert(kept.deep_view()[pos as int] == sorted[pos as int]);
                }
                pos += 1;
            }
            proof {
                if pos < i {
                    assert(kept.deep_view()[pos as int] == kept@[pos as int]@);
                    assert(kept.deep_view()[pos as int] == sorted[pos as int]);
                }
                assert(pos == sorted.len() || str_lt(count_token(sorted[pos as int]), count_token(
                    x@,
                )));
                lemma_insert_token_at(sorted, x@, pos as int);
            }
            let ghost pre2 = kept@;
            let ghost pre2_dv = kept.deep_view();
            kept.insert(pos, x);
            i += 1;
            proof {
                assert(orig.take(i as int).drop_last() =~= orig.take(i as int - 1));
                assert(orig.take(i as int).last() == orig[i as int - 1]);
                assert forall|k: int| 0 <= k < kept@.len() implies kept.deep_view()[k] == (
                sorted.take(pos as int) + seq![x@] + sorted.skip(pos as int) + orig.skip(
                    i as int,
                ))[k] by {
                    assert(kept.deep_view()[k] == kept@[k]@);
                    if k < pos {
                        assert(kept@[k] == pre2[k]);
                        assert(pre2_dv[k] == pre2[k]@);
                        assert(pre2_dv[k] == sorted[k]);
                    } else if k == pos {
                        assert(kept@[k] == x);
                    } else {
                        assert(kept@[k] == pre2[k - 1]);
                        assert(pre2_dv[k - 1] == pre2[k - 1]@);
                        if k - 1 < sorted.len() {
                            assert(pre2_dv[k - 1] == sorted[k - 1]);
                        } else {
                            assert(pre2_dv[k - 1] == orig.skip(i as int)[k - 1 - sorted.len()]);
                        }
                    }
                }
                assert(kept.deep_view() =~~= sorted.take(pos as int) + seq![x@] + sorted.skip(
                    pos as int,
                ) + orig.skip(i as int));
                assert(sort_token_desc(orig.take(i as int)) + orig.skip(i as int)
                    =~= kept.deep_view());
            }
        }
        proof {
            assert(orig.take(m as int) =~= orig);
            assert(orig.skip(m as int) =~= Seq::<Seq<char>>::empty());
            assert(kept.deep_view() =~~= sort_token_desc(orig));
        }
    } else {
        proof {
            if m == 0 {
                assert(orig =~= Seq::<Seq<char>>::empty());
                assert(kept.deep_view() =~~= sort_token_desc(orig));
            } else {
                assert(orig.drop_last() =~= Seq::<Seq<char>>::empty());
                assert(sort_token_desc(orig.drop_last()) == Seq::<Seq<char>>::empty());
                assert(sort_token_desc(orig) == seq![orig.last()] + Seq::<Seq<char>>::empty());
                assert(kept.deep_view() =~~= sort_token_desc(orig));
            }
        }
    }
    *clues = kept;
}

proof fn lemma_sort_token_all_keep(s: Seq<Seq<char>>)
    requires
        forall|k: int| 0 <= k < s.len() ==> keeps_clue(#[trigger] s[k]),
    ensures
        forall|k: int|
            0 <= k < sort_token_desc(s).len() ==> keeps_clue(#[trigger] sort_token_desc(s)[k]),
    decreases s.len(),
{
    if s.len() > 0 {
        assert(forall|k: int|
            0 <= k < s.drop_last().len() ==> keeps_clue(#[trigger] s.drop_last()[k]));
        lemma_sort_token_all_keep(s.drop_last());
        lemma_insert_token_keeps(sort_token_desc(s.drop_last()), s.last());
    }
}

} // verus!
