//! The identifiers of the language models a provider offers, trimmed and
//! sorted, with validation of a user's choice against them.

use vstd::prelude::*;
use vstd::string::*;

use crate::text::{chars_of, join_with, join_strings, lt_chars, str_le, str_lt, string_of,
    trim_chars, trim_spec};

verus! {

/// One model entry of a provider's model listing.
pub struct Model {
    pub id: String,
}

/// A provider's model listing.
pub struct ModelsResponse {
    pub data: Vec<Model>,
}

/// The identifiers of a listing, each trimmed, in listing order.
pub open spec fn trimmed_ids(data: Seq<Model>) -> Seq<Seq<char>> {
    data.map_values(|m: Model| trim_spec(m.id@))
}

/// Insertion into an ascending run: `x` goes after every identifier that is
/// at most as large, so equal identifiers keep their relative order.
pub open spec fn insert_asc(s: Seq<Seq<char>>, x: Seq<char>) -> Seq<Seq<char>>
    decreases s.len(),
{
    if s.len() > 0 && str_le(s[0], x) {
        seq![s[0]] + insert_asc(s.skip(1), x)
    } else {
        seq![x] + s
    }
}

/// Stable sorting of identifiers, ascending and lexicographic.
pub open spec fn sort_asc(s: Seq<Seq<char>>) -> Seq<Seq<char>>
    decreases s.len(),
{
    if s.len() == 0 {
        Seq::empty()
    } else {
        insert_asc(sort_asc(s.drop_last()), s.last())
    }
}

/// The sorted identifiers of the models a provider offers.
pub struct ModelCollection {
    model_ids: Vec<String>,
}

impl View for ModelCollection {
    type V = Seq<Seq<char>>;

    closed spec fn view(&self) -> Seq<Seq<char>> {
        self.model_ids.deep_view()
    }
}

proof fn lemma_insert_asc_at(s: Seq<Seq<char>>, x: Seq<char>, pos: int)
    requires
        0 <= pos <= s.len(),
        forall|k: int| 0 <= k < pos ==> str_le(#[trigger] s[k], x),
        pos == s.len() || str_lt(x, s[pos]),
    ensures
        insert_asc(s, x) == s.take(pos) + seq![x] + s.skip(pos),
    decreases s.len(),
{
    if s.len() > 0 && str_le(s[0], x) {
        lemma_insert_asc_at(s.skip(1), x, pos - 1);
        assert(s.skip(1).take(pos - 1) =~= s.take(pos).skip(1));
        assert(s.skip(1).skip(pos - 1) =~= s.skip(pos));
        assert(seq![s[0]] + (s.skip(1).take(pos - 1) + seq![x] + s.skip(1).skip(pos - 1))
            =~= s.take(pos) + seq![x] + s.skip(pos));
    } else {
        assert(pos == 0);
        assert(s.take(0) =~= Seq::<Seq<char>>::empty());
        assert(s.skip(0) =~= s);
        assert(seq![x] + s =~= s.take(0) + seq![x] + s.skip(0));
    }
}

proof fn lemma_insert_asc_len(s: Seq<Seq<char>>, x: Seq<char>)
    ensures
        insert_asc(s, x).len() == s.len() + 1,
    decreases s.len(),
{
    if s.len() > 0 && str_le(s[0], x) {
        lemma_insert_asc_len(s.skip(1), x);
    }
}

proof fn lemma_sort_asc_len(s: Seq<Seq<char>>)
    ensures
        sort_asc(s).len() == s.len(),
    decreases s.len(),
{
    if s.len() > 0 {
        lemma_sort_asc_len(s.drop_last());
        lemma_insert_asc_len(sort_asc(s.drop_last()), s.last());
    }
}

/// Stable insertion sort of identifiers, ascending.
fn sort_ids(ids: &mut Vec<String>)
    ensures
        final(ids).deep_view() == sort_asc(old(ids).deep_view()),
{
    let n = ids.len();
    let ghost orig = ids.deep_view();
    if n <= 1 {
        proof {
            if n == 0 {
                assert(orig =~= Seq::<Seq<char>>::empty());
                assert(ids.deep_view() =~~= sort_asc(orig));
            } else {
                assert(orig.drop_last() =~= Seq::<Seq<char>>::empty());
                assert(sort_asc(orig) == insert_asc(sort_asc(orig.drop_last()), orig.last()));
                assert(sort_asc(orig.drop_last()) == Seq::<Seq<char>>::empty());
                assert(insert_asc(Seq::<Seq<char>>::empty(), orig.last()) == seq![orig.last()]
                    + Seq::<Seq<char>>::empty());
                assert(ids.deep_view() =~~= sort_asc(orig));
            }
        }
        return ;
    }
    let mut i: usize = 1;
    proof {
        assert(orig.take(1).drop_last() =~= Seq::<Seq<char>>::empty());
        assert(sort_asc(orig.take(1).drop_last()) == Seq::<Seq<char>>::empty());
        assert(sort_asc(orig.take(1)) == seq![orig.take(1).last()] + Seq::<Seq<char>>::empty());
        assert(orig.take(1).last() == orig[0]);
        assert(ids.deep_view() =~~= sort_asc(orig.take(1)) + orig.skip(1));
    }
    while i < n
        invariant
            1 <= i <= n,
            n == ids@.len(),
            orig.len() == n,
            ids.deep_view() == sort_asc(orig.take(i as int)) + orig.skip(i as int),
        decreases n - i,
    {
        let ghost sorted = sort_asc(orig.take(i as int));
        proof {
            lemma_sort_asc_len(orig.take(i as int));
        }
        let ghost pre = ids@;
        let ghost pre_dv = ids.deep_view();
        let x = ids.remove(i);
        proof {
            assert forall|k: int| 0 <= k < ids@.len() implies ids.deep_view()[k] == (sorted
                + orig.skip(i as int + 1))[k] by {
                assert(ids.deep_view()[k] == ids@[k]@);
                if k < i {
                    assert(ids@[k] == pre[k]);
                    assert(pre_dv[k] == pre[k]@);
                    assert(pre_dv[k] == sorted[k]);
                } else {
                    assert(ids@[k] == pre[k + 1]);
                    assert(pre_dv[k + 1] == pre[k + 1]@);
                    assert(pre_dv[k + 1] == orig.skip(i as int)[k + 1 - i]);
                    assert(orig.skip(i as int)[k + 1 - i] == orig[k + 1]);
                    assert(orig.skip(i as int + 1)[k - i] == orig[k + 1]);
                }
            }
            assert(ids.deep_view() =~~= sorted + orig.skip(i as int + 1));
            assert(x == pre[i as int]);
            assert(pre_dv[i as int] == pre[i as int]@);
            assert(pre_dv[i as int] == orig.skip(i as int)[0]);
            assert(x@ == orig[i as int]);
        }
        let x_chars = chars_of(x.as_str());
        let mut pos: usize = 0;
        while pos < i && !lt_chars(&x_chars, &chars_of(ids[pos].as_str()))
            invariant
                0 <= pos <= i < n,
                n == ids@.len() + 1,
                ids.deep_view() == sorted + orig.skip(i as int + 1),
                sorted.len() == i,
                x@ == orig[i as int],
                x_chars@ == x@,
                forall|k: int| 0 <= k < pos ==> str_le(#[trigger] sorted[k], x@),
            decreases i - pos,
        {
            proof {
                assert(ids.deep_view()[pos as int] == ids@[pos as int]@);
                assert(ids.deep_view()[pos as int] == sorted[pos as int]);
                assert(str_le(sorted[pos as int], x@));
            }
            pos += 1;
        }
        proof {
            if pos < i {
                assert(ids.deep_view()[pos as int] == ids@[pos as int]@);
                assert(ids.deep_view()[pos as int] == sorted[pos as int]);
            }
            assert(pos == sorted.len() || str_lt(x@, sorted[pos as int]));
            lemma_insert_asc_at(sorted, x@, pos as int);
        }
        let ghost pre2 = ids@;
        let ghost pre2_dv = ids.deep_view();
        ids.insert(pos, x);
        i += 1;
        proof {
            assert(orig.take(i as int).drop_last() =~= orig.take(i as int - 1));
            assert(orig.take(i as int).last() == orig[i as int - 1]);
            assert forall|k: int| 0 <= k < ids@.len() implies ids.deep_view()[k] == (
            sorted.take(pos as int) + seq![x@] + sorted.skip(pos as int) + orig.skip(
                i as int,
            ))[k] by {
                assert(ids.deep_view()[k] == ids@[k]@);
                if k < pos {
                    assert(ids@[k] == pre2[k]);
                    assert(pre2_dv[k] == pre2[k]@);
                    assert(pre2_dv[k] == sorted[k]);
                } else if k == pos {
                    assert(ids@[k] == x);
                } else {
                    assert(ids@[k] == pre2[k - 1]);
                    assert(pre2_dv[k - 1] == pre2[k - 1]@);
                    if k - 1 < sorted.len() {
                        assert(pre2_dv[k - 1] == sorted[k - 1]);
                    } else {
                        assert(pre2_dv[k - 1] == orig.skip(i as int)[k - 1 - sorted.len()]);
                    }
                }
            }
            assert(ids.deep_view() =~~= sorted.take(pos as int) + seq![x@] + sorted.skip(
                pos as int,
            ) + orig.skip(i as int));
            assert(sort_asc(orig.take(i as int)) + orig.skip(i as int) =~= ids.deep_view());
        }
    }
    proof {
        assert(orig.take(n as int) =~= orig);
        assert(orig.skip(n as int) =~= Seq::<Seq<char>>::empty());
        assert(ids.deep_view() =~~= sort_asc(orig));
    }
}

impl ModelCollection {
    /// Gather the model identifiers of a listing, trim each, and sort them.
    pub fn new(response: &ModelsResponse) -> (r: ModelCollection)
        ensures
            r@ == sort_asc(trimmed_ids(response.data@)),
    {
        let mut model_ids: Vec<String> = Vec::new();
        let n = response.data.len();
        let mut i: usize = 0;
        proof {
            assert(model_ids.deep_view() =~~= trimmed_ids(response.data@).take(0));
        }
        while i < n
            invariant
                i <= n,
                n == response.data@.len(),
                model_ids.deep_view() == trimmed_ids(response.data@).take(i as int),
            decreases n - i,
        {
            let ghost prev = model_ids.deep_view();
            let ghost all = trimmed_ids(response.data@);
            let id = string_of(&trim_chars(&chars_of(response.data[i].id.as_str())));
            model_ids.push(id);
            i += 1;
            proof {
                assert(model_ids.deep_view() =~~= prev.push(all[i as int - 1]));
                assert(all.take(i as int) =~= all.take(i as int - 1).push(all[i as int - 1]));
            }
        }
        proof {
            assert(trimmed_ids(response.data@).take(n as int) =~= trimmed_ids(response.data@));
        }
        sort_ids(&mut model_ids);
        ModelCollection { model_ids }
    }

    /// Accept a model identifier exactly when the provider offers it; the
    /// error carries the message shown to the user.
    pub fn validate_model_id(&self, model_id: &String) -> (r: Result<(), String>)
        ensures
            r is Ok <==> exists|i: int| 0 <= i < self@.len() && self@[i] == model_id@,
            r matches Err(m) ==> m@ == model_id@
                + " is not a valid language model from your provider"@,
    {
        let n = self.model_ids.len();
        let mut i: usize = 0;
        while i < n
            invariant
                i <= n,
                n == self.model_ids@.len(),
                forall|j: int| 0 <= j < i ==> self.model_ids.deep_view()[j] != model_id@,
            decreases n - i,
        {
            if self.model_ids[i].eq(model_id) {
                proof {
                    assert(self.model_ids.deep_view()[i as int] == self.model_ids@[i as int]@);
                    assert(self@[i as int] == model_id@);
                }
                return Ok(());
            }
            proof {
                assert(self.model_ids.deep_view()[i as int] == self.model_ids@[i as int]@);
            }
            i += 1;
        }
        let mut msg = model_id.clone();
        msg.append(" is not a valid language model from your provider");
        Err(msg)
    }

    /// The identifiers, in sorted order; what a selection prompt lists and
    /// the count its chosen indexes are bounded by.
    pub fn ids(&self) -> (r: Vec<String>)
        ensures
            r.deep_view() == self@,
    {
        let mut r: Vec<String> = Vec::new();
        let n = self.model_ids.len();
        let mut i: usize = 0;
        while i < n
            invariant
                i <= n,
                n == self.model_ids@.len(),
                self@.len() == n,
                r@.len() == i,
                forall|k: int| 0 <= k < i ==> #[trigger] r.deep_view()[k] == self@[k],
            decreases n - i,
        {
            let ghost prev = r@;
            let ghost prev_dv = r.deep_view();
            r.push(self.model_ids[i].clone());
            i += 1;
            proof {
                assert(self.model_ids.deep_view()[i - 1] == self.model_ids@[i - 1]@);
                assert forall|k: int| 0 <= k < i implies #[trigger] r.deep_view()[k]
                    == self@[k] by {
                    assert(r.deep_view()[k] == r@[k]@);
                    if k < i - 1 {
                        assert(r@[k] == prev[k]);
                        assert(prev_dv[k] == prev[k]@);
                        assert(prev_dv[k] == self@[k]);
                    }
                }
            }
        }
        proof {
            assert(r.deep_view() =~~= self@);
        }
        r
    }

    /// The identifiers at the chosen positions, in choice order.
    pub fn ids_at(&self, indexes: &Vec<usize>) -> (r: Vec<String>)
        requires
            forall|k: int| 0 <= k < indexes@.len() ==> #[trigger] indexes@[k] < self@.len(),
        ensures
            r.deep_view().len() == indexes@.len(),
            forall|k: int|
                0 <= k < indexes@.len() ==> r.deep_view()[k] == self@[indexes@[k] as int],
    {
        let mut r: Vec<String> = Vec::new();
        let n = indexes.len();
        let mut i: usize = 0;
        while i < n
            invariant
                i <= n,
                n == indexes@.len(),
                forall|k: int| 0 <= k < n ==> #[trigger] indexes@[k] < self@.len(),
                self@.len() == self.model_ids@.len(),
                r@.len() == i,
                forall|k: int|
                    0 <= k < i ==> r.deep_view()[k] == self@[indexes@[k] as int],
            decreases n - i,
        {
            let idx = indexes[i];
            let ghost prev = r@;
            let ghost prev_dv = r.deep_view();
            r.push(self.model_ids[idx].clone());
            i += 1;
            proof {
                assert(self.model_ids.deep_view()[idx as int] == self.model_ids@[idx as int]@);
                assert forall|k: int| 0 <= k < i implies r.deep_view()[k] == self@[indexes@[k]
                    as int] by {
                    assert(r.deep_view()[k] == r@[k]@);
                    if k < i - 1 {
                        assert(r@[k] == prev[k]);
                        assert(prev_dv[k] == prev[k]@);
                        assert(prev_dv[k] == self@[indexes@[k] as int]);
                    }
                }
            }
        }
        r
    }

    /// The identifiers joined with line breaks, the listing shown to the
    /// user.
    pub fn to_text(&self) -> (r: String)
        ensures
            r@ == join_with(self@, seq!['\n']),
    {
        let r = join_strings(&self.model_ids, "\n");
        proof {
            reveal_strlit("\n");
            assert("\n"@ =~= seq!['\n']);
        }
        r
    }
}

} // verus!
