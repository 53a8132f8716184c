//! The aggregate result of one invocation: every clue parsed out of a batch
//! of responses, sorted by how many words each clue claims to link, together
//! with the summed token usage.

use vstd::prelude::*;

use crate::clue::{clue_of_line, Clue, ClueModel};
use crate::responses::{
    lemma_total_usage_prefix, ChatCompletionResponse, Choice, total_usage, Usage,
};
use crate::table::{
    cell_bold, cell_centered, cell_new, table_add_row, table_center_column, table_contents,
    table_framed, table_header, table_load_rounded_style, table_new, table_render,
    table_set_dynamic, table_set_header,
};
use crate::text::{
    chars_of, comma_sep, dec_chars, dec_str, join_strings, join_with, lines_of, lines_spec,
    string_of, trim_chars, trim_spec,
};
use vstd::string::*;

verus! {

/// The views of a sequence of clues.
pub open spec fn views_of(s: Seq<Clue>) -> Seq<ClueModel> {
    s.map_values(|c: Clue| c@)
}

/// The clues parsed out of a sequence of lines, in line order; lines that
/// fail validation contribute nothing.
pub open spec fn clues_of_lines(ls: Seq<Seq<char>>, source: Seq<char>) -> Seq<ClueModel>
    decreases ls.len(),
{
    if ls.len() == 0 {
        Seq::empty()
    } else {
        clues_of_lines(ls.drop_last(), source) + match clue_of_line(
            trim_spec(ls.last()),
            source,
        ) {
            Option::Some(c) => seq![c],
            Option::None => Seq::empty(),
        }
    }
}

/// The clues parsed out of the choices of one response, in choice order.
pub open spec fn clues_of_choices(cs: Seq<Choice>, source: Seq<char>) -> Seq<ClueModel>
    decreases cs.len(),
{
    if cs.len() == 0 {
        Seq::empty()
    } else {
        clues_of_choices(cs.drop_last(), source) + clues_of_lines(
            lines_spec(cs.last().message.content@),
            source,
        )
    }
}

/// Every clue parsed out of a batch of responses, in response, choice, then
/// line order.
pub open spec fn clues_of_responses(rs: Seq<ChatCompletionResponse>) -> Seq<ClueModel>
    decreases rs.len(),
{
    if rs.len() == 0 {
        Seq::empty()
    } else {
        clues_of_responses(rs.drop_last()) + clues_of_choices(
            rs.last().choices@,
            rs.last().model@,
        )
    }
}

/// Insertion into a descending run: `x` goes after every clue whose count is
/// at least as large, so clues of equal count keep their relative order.
pub open spec fn insert_desc(s: Seq<ClueModel>, x: ClueModel) -> Seq<ClueModel>
    decreases s.len(),
{
    if s.len() > 0 && s[0].count >= x.count {
        seq![s[0]] + insert_desc(s.skip(1), x)
    } else {
        seq![x] + s
    }
}

/// Stable sorting by count, descending: each clue in turn is inserted after
/// its equals.
pub open spec fn sort_desc(s: Seq<ClueModel>) -> Seq<ClueModel>
    decreases s.len(),
{
    if s.len() == 0 {
        Seq::empty()
    } else {
        insert_desc(sort_desc(s.drop_last()), s.last())
    }
}

pub open spec fn sorted_desc(s: Seq<ClueModel>) -> bool {
    forall|i: int, j: int| 0 <= i < j < s.len() ==> s[i].count >= s[j].count
}

/// The mathematical content of a clue collection.
#[verifier::ext_equal]
pub struct CollectionModel {
    pub clues: Seq<ClueModel>,
    pub prompt_tokens: int,
    pub completion_tokens: int,
    pub total_tokens: int,
}

/// The clues gathered from one batch of responses, sorted, plus the summed
/// token usage. Immutable once built.
pub struct ClueCollection {
    clues: Vec<Clue>,
    usage: Usage,
}

impl View for ClueCollection {
    type V = CollectionModel;

    closed spec fn view(&self) -> CollectionModel {
        CollectionModel {
            clues: views_of(self.clues@),
            prompt_tokens: self.usage.prompt_tokens as int,
            completion_tokens: self.usage.completion_tokens as int,
            total_tokens: self.usage.total_tokens as int,
        }
    }
}

/// Append to `clues` every clue parsed from the lines of one message body.
fn gather_from_content(content: &str, source: &String, clues: &mut Vec<Clue>)
    ensures
        views_of(final(clues)@) == views_of(old(clues)@) + clues_of_lines(
            lines_spec(content@),
            source@,
        ),
{
    let cs = chars_of(content);
    let lines = lines_of(&cs);
    let n = lines.len();
    let mut k: usize = 0;
    proof {
        assert(views_of(clues@) + clues_of_lines(lines_spec(content@).take(0), source@)
            =~= views_of(clues@));
    }
    while k < n
        invariant
            k <= n,
            n == lines@.len(),
            lines.deep_view() == lines_spec(content@),
            views_of(clues@) == views_of(old(clues)@) + clues_of_lines(
                lines_spec(content@).take(k as int),
                source@,
            ),
        decreases n - k,
    {
        let ghost prev = views_of(clues@);
        let ghost spec_lines = lines_spec(content@);
        let trimmed = trim_chars(&lines[k]);
        let line_str = string_of(&trimmed);
        proof {
            assert(lines.deep_view()[k as int] =~= lines@[k as int]@);
            assert(line_str@ == trim_spec(spec_lines[k as int]));
            assert(spec_lines.take(k as int + 1).drop_last() =~= spec_lines.take(k as int));
            assert(spec_lines.take(k as int + 1).last() == spec_lines[k as int]);
        }
        match Clue::new(line_str.as_str(), source.clone()) {
            Some(c) => {
                clues.push(c);
                proof {
                    assert(views_of(clues@) =~= prev.push(c@));
                    assert(prev.push(c@) =~= prev + seq![c@]);
                }
            },
            None => {
                proof {
                    assert(views_of(clues@) + Seq::<ClueModel>::empty() =~= views_of(clues@));
                }
            },
        }
        k += 1;
        proof {
            assert(views_of(old(clues)@) + clues_of_lines(spec_lines.take(k as int), source@)
                =~= views_of(clues@));
        }
    }
    proof {
        assert(lines_spec(content@).take(n as int) =~= lines_spec(content@));
    }
}

/// Append to `clues` every clue parsed from the choices of one response.
fn gather_from_response(response: &ChatCompletionResponse, clues: &mut Vec<Clue>)
    ensures
        views_of(final(clues)@) == views_of(old(clues)@) + clues_of_choices(
            response.choices@,
            response.model@,
        ),
{
    let m = response.choices.len();
    let mut j: usize = 0;
    proof {
        assert(views_of(clues@) + clues_of_choices(response.choices@.take(0), response.model@)
            =~= views_of(clues@));
    }
    while j < m
        invariant
            j <= m,
            m == response.choices@.len(),
            views_of(clues@) == views_of(old(clues)@) + clues_of_choices(
                response.choices@.take(j as int),
                response.model@,
            ),
        decreases m - j,
    {
        gather_from_content(response.choices[j].message.content.as_str(), &response.model, clues);
        j += 1;
        proof {
            assert(response.choices@.take(j as int).drop_last() =~= response.choices@.take(
                j as int - 1,
            ));
            assert(response.choices@.take(j as int).last() == response.choices@[j as int - 1]);
            assert(views_of(old(clues)@) + clues_of_choices(
                response.choices@.take(j as int),
                response.model@,
            ) =~= views_of(clues@));
        }
    }
    proof {
        assert(response.choices@.take(m as int) =~= response.choices@);
    }
}

/// Where `x` belongs in a descending run: `insert_desc` spelled out by the
/// position of the first strictly smaller count.
proof fn lemma_insert_desc_at(s: Seq<ClueModel>, x: ClueModel, pos: int)
    requires
        0 <= pos <= s.len(),
        forall|k: int| 0 <= k < pos ==> s[k].count >= x.count,
        pos == s.len() || s[pos].count < x.count,
    ensures
        insert_desc(s, x) == s.take(pos) + seq![x] + s.skip(pos),
    decreases s.len(),
{
    if s.len() > 0 && s[0].count >= x.count {
        lemma_insert_desc_at(s.skip(1), x, pos - 1);
        assert(s.skip(1).take(pos - 1) =~= s.take(pos).skip(1));
        assert(s.skip(1).skip(pos - 1) =~= s.skip(pos));
        assert(seq![s[0]] + (s.skip(1).take(pos - 1) + seq![x] + s.skip(1).skip(pos - 1))
            =~= s.take(pos) + seq![x] + s.skip(pos));
    } else {
        assert(pos == 0);
        assert(s.take(0) =~= Seq::<ClueModel>::empty());
        assert(s.skip(0) =~= s);
        assert(seq![x] + s =~= s.take(0) + seq![x] + s.skip(0));
    }
}

/// Stable insertion sort by count, descending.
fn sort_clues(clues: &mut Vec<Clue>)
    ensures
        views_of(final(clues)@) == sort_desc(views_of(old(clues)@)),
{
    let n = clues.len();
    let ghost orig = views_of(clues@);
    let mut i: usize = 1;
    proof {
        if n > 0 {
            assert(orig.take(1).drop_last() =~= Seq::<ClueModel>::empty());
            assert(sort_desc(orig.take(1)) =~= insert_desc(
                sort_desc(Seq::empty()),
                orig.take(1).last(),
            ));
            assert(insert_desc(Seq::empty(), orig[0]) =~= seq![orig[0]]);
            assert(views_of(clues@) =~= sort_desc(orig.take(1)) + orig.skip(1));
        }
    }
    if n <= 1 {
        proof {
            if n == 0 {
                assert(orig =~= Seq::<ClueModel>::empty());
                assert(views_of(clues@) =~= sort_desc(orig));
            } else {
                assert(orig.take(1) =~= orig);
                assert(orig.skip(1) =~= Seq::<ClueModel>::empty());
                assert(views_of(clues@) =~= sort_desc(orig));
            }
        }
        return ;
    }
    while i < n
        invariant
            1 <= i <= n,
            n == clues@.len(),
            orig.len() == n,
            views_of(clues@) == sort_desc(orig.take(i as int)) + orig.skip(i as int),
        decreases n - i,
    {
        let ghost sorted = sort_desc(orig.take(i as int));
        proof {
            assert(sorted.len() + orig.skip(i as int).len() == n) by {
                lemma_sort_desc_len(orig.take(i as int));
            };
        }
        let ghost pre = clues@;
        let x = clues.remove(i);
        proof {
            assert(clues@ =~= pre.subrange(0, i as int) + pre.subrange(
                i + 1,
                pre.len() as int,
            ));
            assert forall|k: int| 0 <= k < clues@.len() implies views_of(clues@)[k] == (sorted
                + orig.skip(i as int + 1))[k] by {
                if k < i {
                    assert(clues@[k] == pre[k]);
                    assert(views_of(pre)[k] == sorted[k]);
                } else {
                    assert(clues@[k] == pre[k + 1]);
                    assert(views_of(pre)[k + 1] == orig.skip(i as int)[k + 1 - i]);
                    assert(orig.skip(i as int)[k + 1 - i] == orig[k + 1]);
                    assert(orig.skip(i as int + 1)[k - i] == orig[k + 1]);
                }
            }
            assert(views_of(clues@) =~= sorted + orig.skip(i as int + 1));
            assert(x@ == views_of(pre)[i as int]);
            assert(views_of(pre)[i as int] == orig.skip(i as int)[0]);
            assert(x@ == orig[i as int]);
        }
        let mut pos: usize = 0;
        while pos < i && clues[pos].count >= x.count
            invariant
                0 <= pos <= i < n,
                n == clues@.len() + 1,
                views_of(clues@) == sorted + orig.skip(i as int + 1),
                sorted.len() == i,
                x@ == orig[i as int],
                forall|k: int| 0 <= k < pos ==> sorted[k].count >= x@.count,
            decreases i - pos,
        {
            proof {
                assert(views_of(clues@)[pos as int] == clues@[pos as int]@);
                assert(views_of(clues@)[pos as int] == sorted[pos as int]);
            }
            pos += 1;
        }
        proof {
            if pos < i {
                assert(views_of(clues@)[pos as int] == clues@[pos as int]@);
                assert(views_of(clues@)[pos as int] == sorted[pos as int]);
            }
            assert(pos == sorted.len() || sorted[pos as int].count < x@.count);
            lemma_insert_desc_at(sorted, x@, pos as int);
        }
        let ghost pre2 = clues@;
        clues.insert(pos, x);
        i += 1;
        proof {
            assert(orig.take(i as int).drop_last() =~= orig.take(i as int - 1));
            assert(orig.take(i as int).last() == orig[i as int - 1]);
            assert(clues@ =~= pre2.subrange(0, pos as int).push(x) + pre2.subrange(
                pos as int,
                pre2.len() as int,
            ));
            assert forall|k: int| 0 <= k < clues@.len() implies views_of(clues@)[k] == (
            sorted.take(pos as int) + seq![x@] + sorted.skip(pos as int) + orig.skip(
                i as int,
            ))[k] by {
                if k < pos {
                    assert(clues@[k] == pre2[k]);
                    assert(views_of(pre2)[k] == sorted[k]);
                } else if k == pos {
                    assert(clues@[k] == x);
                } else {
                    assert(clues@[k] == pre2[k - 1]);
                    if k - 1 < sorted.len() {
                        assert(views_of(pre2)[k - 1] == sorted[k - 1]);
                    } else {
                        assert(views_of(pre2)[k - 1] == orig.skip(i as int)[k - 1
                            - sorted.len()]);
                    }
                }
            }
            assert(views_of(clues@) =~= sorted.take(pos as int) + seq![x@] + sorted.skip(
                pos as int,
            ) + orig.skip(i as int));
            assert(sort_desc(orig.take(i as int)) + orig.skip(i as int) =~= views_of(clues@));
        }
    }
    proof {
        assert(orig.take(n as int) =~= orig);
        assert(orig.skip(n as int) =~= Seq::<ClueModel>::empty());
        assert(views_of(clues@) =~= sort_desc(orig));
    }
}

proof fn lemma_insert_desc_len(s: Seq<ClueModel>, x: ClueModel)
    ensures
        insert_desc(s, x).len() == s.len() + 1,
    decreases s.len(),
{
    if s.len() > 0 && s[0].count >= x.count {
        lemma_insert_desc_len(s.skip(1), x);
    }
}

proof fn lemma_sort_desc_len(s: Seq<ClueModel>)
    ensures
        sort_desc(s).len() == s.len(),
    decreases s.len(),
{
    if s.len() > 0 {
        lemma_sort_desc_len(s.drop_last());
        lemma_insert_desc_len(sort_desc(s.drop_last()), s.last());
    }
}

impl ClueCollection {
    /// Build the collection for one batch of responses: parse every line of
    /// every choice in input order, sum the three usage fields, and sort the
    /// clues by count, descending and stable.
    pub fn new(responses: Vec<ChatCompletionResponse>) -> (r: ClueCollection)
        requires
            total_usage(responses@).0 <= usize::MAX,
            total_usage(responses@).1 <= usize::MAX,
            total_usage(responses@).2 <= usize::MAX,
        ensures
            r@.clues == sort_desc(clues_of_responses(responses@)),
            r@.prompt_tokens == total_usage(responses@).0,
            r@.completion_tokens == total_usage(responses@).1,
            r@.total_tokens == total_usage(responses@).2,
    {
        let mut clues: Vec<Clue> = Vec::new();
        let mut usage = Usage { prompt_tokens: 0, completion_tokens: 0, total_tokens: 0 };
        let n = responses.len();
        let mut i: usize = 0;
        proof {
            assert(views_of(clues@) =~= Seq::<ClueModel>::empty());
            assert(clues_of_responses(responses@.take(0)) =~= Seq::<ClueModel>::empty());
            assert(views_of(clues@) =~= clues_of_responses(responses@.take(0)));
        }
        while i < n
            invariant
                i <= n,
                n == responses@.len(),
                total_usage(responses@).0 <= usize::MAX,
                total_usage(responses@).1 <= usize::MAX,
                total_usage(responses@).2 <= usize::MAX,
                views_of(clues@) == clues_of_responses(responses@.take(i as int)),
                usage.prompt_tokens == total_usage(responses@.take(i as int)).0,
                usage.completion_tokens == total_usage(responses@.take(i as int)).1,
                usage.total_tokens == total_usage(responses@.take(i as int)).2,
            decreases n - i,
        {
            let ghost prev = views_of(clues@);
            gather_from_response(&responses[i], &mut clues);
            proof {
                lemma_total_usage_prefix(responses@, i as int + 1);
                assert(responses@.take(i as int + 1).drop_last() =~= responses@.take(i as int));
                assert(responses@.take(i as int + 1).last() == responses@[i as int]);
            }
            usage = crate::responses::accumulate(usage, Usage {
                prompt_tokens: responses[i].usage.prompt_tokens,
                completion_tokens: responses[i].usage.completion_tokens,
                total_tokens: responses[i].usage.total_tokens,
            });
            i += 1;
            proof {
                assert(views_of(clues@) =~= clues_of_responses(responses@.take(i as int)));
            }
        }
        proof {
            assert(responses@.take(n as int) =~= responses@);
        }
        sort_clues(&mut clues);
        ClueCollection { clues, usage }
    }

    /// Whether no clue at all survived parsing.
    pub fn is_empty(&self) -> (r: bool)
        ensures
            r == (self@.clues.len() == 0),
    {
        self.clues.is_empty()
    }
}

/// The insertion point of `x` in a descending run: the index of the first
/// strictly smaller count.
proof fn lemma_insert_pos(s: Seq<ClueModel>, x: ClueModel) -> (pos: int)
    ensures
        0 <= pos <= s.len(),
        forall|k: int| 0 <= k < pos ==> s[k].count >= x.count,
        pos == s.len() || s[pos].count < x.count,
        insert_desc(s, x) == s.take(pos) + seq![x] + s.skip(pos),
    decreases s.len(),
{
    if s.len() > 0 && s[0].count >= x.count {
        let p = lemma_insert_pos(s.skip(1), x) + 1;
        assert(forall|k: int| 1 <= k < p ==> s[k].count == s.skip(1)[k - 1].count
            && s.skip(1)[k - 1].count >= x.count);
        assert(p == s.len() || s[p].count == s.skip(1)[p - 1].count);
        assert(s.skip(1).take(p - 1) =~= s.take(p).skip(1));
        assert(s.skip(1).skip(p - 1) =~= s.skip(p));
        assert(seq![s[0]] + (s.skip(1).take(p - 1) + seq![x] + s.skip(1).skip(p - 1))
            =~= s.take(p) + seq![x] + s.skip(p));
        p
    } else {
        assert(s.take(0) =~= Seq::<ClueModel>::empty());
        assert(s.skip(0) =~= s);
        assert(seq![x] + s =~= s.take(0) + seq![x] + s.skip(0));
        0
    }
}

/// Inserting into a descending run keeps it descending.
proof fn lemma_insert_desc_sorted(s: Seq<ClueModel>, x: ClueModel)
    requires
        sorted_desc(s),
    ensures
        sorted_desc(insert_desc(s, x)),
{
    let pos = lemma_insert_pos(s, x);
    let r = insert_desc(s, x);
    assert forall|i: int, j: int| 0 <= i < j < r.len() implies r[i].count >= r[j].count by {
        if i < pos {
            assert(r[i] == s[i]);
        } else if i == pos {
            assert(r[i] == x);
        } else {
            assert(r[i] == s[i - 1]);
        }
        if j < pos {
            assert(r[j] == s[j]);
        } else if j == pos {
            assert(r[j] == x);
        } else {
            assert(r[j] == s[j - 1]);
        }
    }
}

/// The result of the stable sort is in descending count order.
pub proof fn lemma_sort_desc_sorted(s: Seq<ClueModel>)
    ensures
        sorted_desc(sort_desc(s)),
    decreases s.len(),
{
    if s.len() > 0 {
        lemma_sort_desc_sorted(s.drop_last());
        lemma_insert_desc_sorted(sort_desc(s.drop_last()), s.last());
    }
}

/// The subsequence of clues with a given count, in order.
pub open spec fn with_count(s: Seq<ClueModel>, n: int) -> Seq<ClueModel>
    decreases s.len(),
{
    if s.len() == 0 {
        Seq::empty()
    } else {
        with_count(s.drop_last(), n) + if s.last().count == n {
            seq![s.last()]
        } else {
            Seq::empty()
        }
    }
}

proof fn lemma_with_count_concat(a: Seq<ClueModel>, b: Seq<ClueModel>, n: int)
    ensures
        with_count(a + b, n) == with_count(a, n) + with_count(b, n),
    decreases b.len(),
{
    if b.len() == 0 {
        assert(a + b =~= a);
        assert(with_count(a, n) + with_count(b, n) =~= with_count(a, n));
    } else {
        lemma_with_count_concat(a, b.drop_last(), n);
        assert((a + b).drop_last() =~= a + b.drop_last());
        assert((a + b).last() == b.last());
        assert(with_count(a, n) + (with_count(b.drop_last(), n) + if b.last().count == n {
            seq![b.last()]
        } else {
            Seq::empty()
        }) =~= (with_count(a, n) + with_count(b.drop_last(), n)) + if b.last().count == n {
            seq![b.last()]
        } else {
            Seq::empty()
        });
    }
}

proof fn lemma_with_count_none(s: Seq<ClueModel>, n: int)
    requires
        forall|k: int| 0 <= k < s.len() ==> #[trigger] s[k].count != n,
    ensures
        with_count(s, n) == Seq::<ClueModel>::empty(),
    decreases s.len(),
{
    if s.len() > 0 {
        assert(forall|k: int|
            0 <= k < s.len() - 1 ==> #[trigger] s.drop_last()[k].count == s[k].count);
        lemma_with_count_none(s.drop_last(), n);
        assert(s.last().count == s[s.len() - 1].count);
        assert(with_count(s.drop_last(), n) + Seq::<ClueModel>::empty()
            =~= Seq::<ClueModel>::empty());
    }
}

proof fn lemma_with_count_insert(s: Seq<ClueModel>, x: ClueModel, n: int)
    requires
        sorted_desc(s),
    ensures
        with_count(insert_desc(s, x), n) == with_count(s, n) + if x.count == n {
            seq![x]
        } else {
            Seq::<ClueModel>::empty()
        },
{
    let pos = lemma_insert_pos(s, x);
    let a = s.take(pos);
    let b = s.skip(pos);
    assert(insert_desc(s, x) == a + seq![x] + b);
    lemma_with_count_concat(a + seq![x], b, n);
    lemma_with_count_concat(a, seq![x], n);
    lemma_with_count_concat(a, b, n);
    assert(a + b =~= s);
    assert(with_count(seq![x], n) == with_count(Seq::<ClueModel>::empty(), n)
        + if x.count == n {
        seq![x]
    } else {
        Seq::<ClueModel>::empty()
    }) by {
        assert(seq![x].drop_last() =~= Seq::<ClueModel>::empty());
        assert(seq![x].last() == x);
    };
    if x.count == n {
        // Everything after the insertion point has a strictly smaller count,
        // so the run of count n is extended at its end.
        assert(forall|k: int| 0 <= k < b.len() ==> #[trigger] b[k].count != n) by {
            assert(forall|k: int|
                0 <= k < b.len() ==> #[trigger] b[k].count == s[pos + k].count);
            assert(forall|k: int| 0 <= k < b.len() ==> #[trigger] s[pos + k].count < x.count);
        };
        lemma_with_count_none(b, n);
        assert(with_count(insert_desc(s, x), n) =~= with_count(s, n) + seq![x]);
    } else {
        assert(with_count(insert_desc(s, x), n) =~= with_count(s, n));
    }
}

/// Stability: for every count, sorting preserves the subsequence of clues
/// with exactly that count, so equal counts keep their input order.
pub proof fn lemma_sort_desc_stable(s: Seq<ClueModel>, n: int)
    ensures
        with_count(sort_desc(s), n) == with_count(s, n),
    decreases s.len(),
{
    if s.len() > 0 {
        lemma_sort_desc_stable(s.drop_last(), n);
        lemma_sort_desc_sorted(s.drop_last());
        lemma_with_count_insert(sort_desc(s.drop_last()), s.last(), n);
    }
}

/// Lines that all fail validation contribute no clues.
proof fn lemma_no_clues_from_lines(ls: Seq<Seq<char>>, source: Seq<char>)
    requires
        forall|l: int|
            0 <= l < ls.len() ==> clue_of_line(trim_spec(#[trigger] ls[l]), source) is None,
    ensures
        clues_of_lines(ls, source) == Seq::<ClueModel>::empty(),
    decreases ls.len(),
{
    if ls.len() > 0 {
        assert(forall|l: int| 0 <= l < ls.len() - 1 ==> #[trigger] ls.drop_last()[l] == ls[l]);
        lemma_no_clues_from_lines(ls.drop_last(), source);
        assert(ls.last() == ls[ls.len() - 1]);
        assert(clues_of_lines(ls, source) =~= Seq::<ClueModel>::empty());
    }
}

proof fn lemma_no_clues_from_choices(cs: Seq<Choice>, source: Seq<char>)
    requires
        forall|j: int, l: int|
            0 <= j < cs.len() && 0 <= l < lines_spec(cs[j].message.content@).len()
                ==> clue_of_line(
                trim_spec(#[trigger] lines_spec(cs[j].message.content@)[l]),
                source,
            ) is None,
    ensures
        clues_of_choices(cs, source) == Seq::<ClueModel>::empty(),
    decreases cs.len(),
{
    if cs.len() > 0 {
        assert(forall|j: int| 0 <= j < cs.len() - 1 ==> #[trigger] cs.drop_last()[j] == cs[j]);
        lemma_no_clues_from_choices(cs.drop_last(), source);
        assert(cs.last() == cs[cs.len() - 1]);
        lemma_no_clues_from_lines(lines_spec(cs.last().message.content@), source);
        assert(clues_of_choices(cs, source) =~= Seq::<ClueModel>::empty());
    }
}

/// Responses whose message bodies contain no parseable clue line yield an
/// empty clue list; the builder still sums their token usage as always.
pub proof fn lemma_no_clues_from_responses(rs: Seq<ChatCompletionResponse>)
    requires
        forall|i: int, j: int, l: int|
            0 <= i < rs.len() && 0 <= j < rs[i].choices@.len() && 0 <= l < lines_spec(
                rs[i].choices@[j].message.content@,
            ).len() ==> clue_of_line(
                trim_spec(#[trigger] lines_spec(rs[i].choices@[j].message.content@)[l]),
                rs[i].model@,
            ) is None,
    ensures
        clues_of_responses(rs) == Seq::<ClueModel>::empty(),
        sort_desc(clues_of_responses(rs)) == Seq::<ClueModel>::empty(),
    decreases rs.len(),
{
    if rs.len() > 0 {
        assert(forall|i: int| 0 <= i < rs.len() - 1 ==> #[trigger] rs.drop_last()[i] == rs[i]);
        lemma_no_clues_from_responses(rs.drop_last());
        assert(rs.last() == rs[rs.len() - 1]);
        lemma_no_clues_from_choices(rs.last().choices@, rs.last().model@);
        assert(clues_of_responses(rs) =~= Seq::<ClueModel>::empty());
    }
    assert(sort_desc(Seq::<ClueModel>::empty()) == Seq::<ClueModel>::empty());
    assert(clues_of_responses(rs) =~= Seq::<ClueModel>::empty());
}

/// One line of the list form:
/// `<clue word> <count> - <linked word>, <linked word>, ...` and a newline.
pub open spec fn list_line_text(c: ClueModel) -> Seq<char> {
    c.clue_word + seq![' '] + dec_str(c.count as nat) + seq![' ', '-', ' '] + join_with(
        c.linked_words,
        comma_sep(),
    ) + seq!['\n']
}

/// The list form of a collection: one line per clue, in collection order.
pub open spec fn list_text(cs: Seq<ClueModel>) -> Seq<char>
    decreases cs.len(),
{
    if cs.len() == 0 {
        Seq::empty()
    } else {
        list_text(cs.drop_last()) + list_line_text(cs.last())
    }
}

/// One row of the tabular form: clue word, count, the linked words joined
/// with `", "`, and the source.
pub open spec fn table_row_text(c: ClueModel) -> Seq<Seq<char>> {
    seq![c.clue_word, dec_str(c.count as nat), join_with(c.linked_words, comma_sep()), c.source]
}

pub open spec fn table_rows_text(cs: Seq<ClueModel>) -> Seq<Seq<Seq<char>>>
    decreases cs.len(),
{
    if cs.len() == 0 {
        Seq::empty()
    } else {
        table_rows_text(cs.drop_last()).push(table_row_text(cs.last()))
    }
}

/// The token usage summary: three labeled integer lines.
pub open spec fn usage_text(prompt: nat, completion: nat, total: nat) -> Seq<char> {
    "\nToken Usage:\n----------------------\nPrompt Tokens: "@ + dec_str(prompt)
        + "\nCompletion Tokens: "@ + dec_str(completion)
        + "\n----------------------\nTotal Tokens: "@ + dec_str(total)
}

impl ClueCollection {
    /// The list form of the collection, one clue per line, in sorted order.
    pub fn generate_list(&self) -> (r: String)
        ensures
            r@ == list_text(self@.clues),
    {
        let mut r = String::new();
        let n = self.clues.len();
        let mut i: usize = 0;
        proof {
            assert(r@ =~= list_text(views_of(self.clues@).take(0)));
        }
        while i < n
            invariant
                i <= n,
                n == self.clues@.len(),
                r@ == list_text(views_of(self.clues@).take(i as int)),
            decreases n - i,
        {
            let ghost cs = views_of(self.clues@);
            let ghost prev = r@;
            let c = &self.clues[i];
            r.append(c.clue_word.as_str());
            r.append(" ");
            let num = string_of(&dec_chars(c.count));
            r.append(num.as_str());
            r.append(" - ");
            let joined = join_strings(&c.linked_words, ", ");
            r.append(joined.as_str());
            r.append("\n");
            i += 1;
            proof {
                reveal_strlit(" ");
                reveal_strlit(" - ");
                reveal_strlit(", ");
                reveal_strlit("\n");
                assert(" "@ =~= seq![' ']);
                assert(" - "@ =~= seq![' ', '-', ' ']);
                assert(", "@ =~= comma_sep());
                assert("\n"@ =~= seq!['\n']);
                assert(cs.take(i as int).drop_last() =~= cs.take(i as int - 1));
                assert(cs.take(i as int).last() == cs[i as int - 1]);
                assert(cs[i as int - 1] == c@);
                assert(r@ =~= prev + list_line_text(c@));
            }
        }
        proof {
            assert(views_of(self.clues@).take(n as int) =~= views_of(self.clues@));
        }
        r
    }

    /// The rows of the tabular form, in sorted order.
    pub fn table_rows(&self) -> (r: Vec<Vec<String>>)
        ensures
            r.deep_view() == table_rows_text(self@.clues),
    {
        let mut rows: Vec<Vec<String>> = Vec::new();
        let n = self.clues.len();
        let mut i: usize = 0;
        proof {
            assert(rows.deep_view() =~~= table_rows_text(views_of(self.clues@).take(0)));
        }
        while i < n
            invariant
                i <= n,
                n == self.clues@.len(),
                rows.deep_view() == table_rows_text(views_of(self.clues@).take(i as int)),
            decreases n - i,
        {
            let ghost cs = views_of(self.clues@);
            let ghost prev = rows.deep_view();
            let c = &self.clues[i];
            let mut row: Vec<String> = Vec::new();
            row.push(c.clue_word.clone());
            row.push(string_of(&dec_chars(c.count)));
            row.push(join_strings(&c.linked_words, ", "));
            row.push(c.source.clone());
            rows.push(row);
            i += 1;
            proof {
                reveal_strlit(", ");
                assert(", "@ =~= comma_sep());
                assert(cs.take(i as int).drop_last() =~= cs.take(i as int - 1));
                assert(cs.take(i as int).last() == cs[i as int - 1]);
                assert(cs[i as int - 1] == c@);
                assert(rows.deep_view() =~~= prev.push(table_row_text(c@)));
            }
        }
        proof {
            assert(views_of(self.clues@).take(n as int) =~= views_of(self.clues@));
        }
        rows
    }

    /// The tabular form, drawn by `comfy_table`: four columns - Clue, Count,
    /// Linked Words, Source - one row per clue, in sorted order. The drawn
    /// text itself is the table crate's business and carries no contract.
    /// Assemble the table: the four-column header - Clue, Count, Linked
    /// Words, Source - and one row per clue, in sorted order.
    pub fn build_table(&self) -> (t: comfy_table::Table)
        ensures
            table_header(t) == seq!["Clue"@, "Count"@, "Linked Words"@, "Source"@],
            table_contents(t) == table_rows_text(self@.clues),
            table_framed(t),
    {
        let mut table = table_new();
        let mut header: Vec<comfy_table::Cell> = Vec::new();
        header.push(cell_centered(cell_bold(cell_new("Clue"))));
        header.push(cell_centered(cell_bold(cell_new("Count"))));
        header.push(cell_centered(cell_bold(cell_new("Linked Words"))));
        header.push(cell_centered(cell_bold(cell_new("Source"))));
        table_set_header(&mut table, header);
        proof {
            assert(table_header(table) =~~= seq!["Clue"@, "Count"@, "Linked Words"@, "Source"@]);
        }
        table_set_dynamic(&mut table);
        table_load_rounded_style(&mut table);
        let rows = self.table_rows();
        let n = rows.len();
        let mut i: usize = 0;
        proof {
            assert(table_contents(table) =~~= rows.deep_view().take(0));
        }
        while i < n
            invariant
                i <= n,
                n == rows@.len(),
                rows.deep_view() == table_rows_text(self@.clues),
                table_header(table) == seq!["Clue"@, "Count"@, "Linked Words"@, "Source"@],
                table_contents(table) == rows.deep_view().take(i as int),
                table_framed(table),
            decreases n - i,
        {
            let mut row: Vec<String> = Vec::new();
            let mut j: usize = 0;
            let cells = &rows[i];
            while j < cells.len()
                invariant
                    j <= cells@.len(),
                    row@.len() == j,
                    forall|k: int| 0 <= k < j ==> #[trigger] row@[k]@ == cells@[k]@,
                decreases cells@.len() - j,
            {
                row.push(cells[j].clone());
                j += 1;
            }
            proof {
                assert forall|k: int| 0 <= k < row@.len() implies #[trigger] row.deep_view()[k]
                    == rows.deep_view()[i as int][k] by {
                    assert(row.deep_view()[k] == row@[k]@);
                    assert(rows.deep_view()[i as int] =~= rows@[i as int].deep_view());
                    assert(rows@[i as int].deep_view()[k] == rows@[i as int]@[k]@);
                }
                assert(row.deep_view() =~~= rows.deep_view()[i as int]);
            }
            table_add_row(&mut table, row);
            i += 1;
            proof {
                assert(rows.deep_view().take(i as int) =~= rows.deep_view().take(
                    i as int - 1,
                ).push(rows.deep_view()[i as int - 1]));
            }
        }
        table_center_column(&mut table, 1);
        proof {
            assert(rows.deep_view().take(n as int) =~= rows.deep_view());
        }
        table
    }

    /// The tabular form, drawn by `comfy_table` from the assembled table.
    /// What the drawing looks like depends on the terminal width; the
    /// contract of `build_table` pins what the table holds, and the drawn
    /// text of a framed table is never empty.
    pub fn generate_table(&self) -> (r: String)
        ensures
            r@.len() > 0,
    {
        let table = self.build_table();
        table_render(&table)
    }

    /// The token usage summary in its three labeled lines.
    pub fn usage_summary(&self) -> (r: String)
        ensures
            r@ == usage_text(
                self@.prompt_tokens as nat,
                self@.completion_tokens as nat,
                self@.total_tokens as nat,
            ),
    {
        let mut r = String::new();
        r.append("\nToken Usage:\n----------------------\nPrompt Tokens: ");
        let p = string_of(&dec_chars(self.usage.prompt_tokens));
        r.append(p.as_str());
        r.append("\nCompletion Tokens: ");
        let c = string_of(&dec_chars(self.usage.completion_tokens));
        r.append(c.as_str());
        r.append("\n----------------------\nTotal Tokens: ");
        let t = string_of(&dec_chars(self.usage.total_tokens));
        r.append(t.as_str());
        proof {
            assert(r@ =~= usage_text(
                self@.prompt_tokens as nat,
                self@.completion_tokens as nat,
                self@.total_tokens as nat,
            ));
        }
        r
    }
}

} // verus!
