//! The word-sequence specialization: chains whose tokens are text words,
//! fed from lines split on spaces and generated back as joined strings.

use crate::chain::{Chain, InfiniteChainIterator, SizedChainIterator};
use crate::model::{all_none, feed_effect, grand_total, key_index, possible_walk, seed_key};
use vstd::prelude::*;

verus! {

/// The index of the first space of `s`, or -1 if it has none.
pub open spec fn first_space(s: Seq<char>) -> int
    decreases s.len(),
{
    if s.len() == 0 {
        -1
    } else if s.first() == ' ' {
        0
    } else {
        let r = first_space(s.drop_first());
        if r < 0 {
            -1
        } else {
            r + 1
        }
    }
}

/// The fragments of `s` split on single spaces; empty fragments are kept,
/// and a string without spaces is one fragment.
pub open spec fn split_spaces(s: Seq<char>) -> Seq<Seq<char>>
    decreases s.len(),
{
    let i = first_space(s);
    if 0 <= i < s.len() {
        seq![s.take(i)] + split_spaces(s.skip(i + 1))
    } else {
        seq![s]
    }
}

/// The words joined with single spaces; no separator is added around an
/// empty list.
pub open spec fn join_words(ws: Seq<Seq<char>>) -> Seq<char>
    decreases ws.len(),
{
    if ws.len() == 0 {
        Seq::empty()
    } else if ws.len() == 1 {
        ws[0]
    } else {
        join_words(ws.drop_last()) + seq![' '] + ws.last()
    }
}

/// The string `out` is one that generation can yield for chain `c`: a
/// word sequence some weighted walk from the start context can produce,
/// joined with single spaces.
pub open spec fn joined_walk_output(c: Chain<String>, out: Seq<char>) -> bool {
    exists|w: Seq<Seq<char>>|
        possible_walk(c.rows(), all_none(c.order_spec()), w) && out == join_words(w)
}

/// What a space search means: a found index holds a space, no earlier
/// index does; a miss means there is no space.
pub proof fn lemma_first_space_spec(s: Seq<char>)
    ensures
        first_space(s) >= 0 ==> {
            &&& first_space(s) < s.len()
            &&& s[first_space(s)] == ' '
            &&& forall|j: int| 0 <= j < first_space(s) ==> s[j] != ' '
        },
        first_space(s) < 0 ==> forall|j: int| 0 <= j < s.len() ==> s[j] != ' ',
    decreases s.len(),
{
    if s.len() == 0 {
    } else if s.first() == ' ' {
    } else {
        let d = s.drop_first();
        lemma_first_space_spec(d);
        let r = first_space(d);
        if r >= 0 {
            assert(d[r] == s[r + 1]);
            assert forall|j: int| 0 <= j < r + 1 implies s[j] != ' ' by {
                if j > 0 {
                    assert(d[j - 1] == s[j]);
                }
            }
        } else {
            assert forall|j: int| 0 <= j < s.len() implies s[j] != ' ' by {
                if j > 0 {
                    assert(d[j - 1] == s[j]);
                }
            }
        }
    }
}

/// Splits a line on single spaces into its words.
fn split_string(s: &str) -> (r: Vec<String>)
    ensures
        r.deep_view() == split_spaces(s@),
{
    let n = s.unicode_len();
    let mut out: Vec<String> = Vec::new();
    let mut start: usize = 0;
    let mut i: usize = 0;
    proof {
        assert(s@.skip(0) =~= s@);
        assert(out.deep_view() =~= Seq::<Seq<char>>::empty());
        assert(Seq::<Seq<char>>::empty() + split_spaces(s@) =~= split_spaces(s@));
    }
    while i < n
        invariant
            start <= i <= n,
            n == s@.len(),
            out.deep_view() + split_spaces(s@.skip(start as int)) == split_spaces(s@),
            forall|j: int| start <= j < i ==> s@[j] != ' ',
        decreases n - i,
    {
        let c = s.get_char(i);
        if c == ' ' {
            let word = String::from_str(s.substring_char(start, i));
            let ghost out0 = out.deep_view();
            out.push(word);
            proof {
                let suf = s@.skip(start as int);
                lemma_first_space_spec(suf);
                assert forall|j: int| 0 <= j < suf.len() implies suf[j] == s@[start + j] by {}
                assert(suf[i - start] == ' ');
                assert(first_space(suf) == i - start) by {
                    let f = first_space(suf);
                    if f < 0 {
                        assert(suf[i - start] != ' ');
                        assert(false);
                    } else if f < i - start {
                        assert(s@[start + f] != ' ');
                        assert(false);
                    } else if f > i - start {
                        assert(suf[i - start] != ' ');
                        assert(false);
                    }
                }
                assert(suf.take(i - start) =~= s@.subrange(start as int, i as int));
                assert(suf.skip(i - start + 1) =~= s@.skip(i + 1));
                assert(split_spaces(suf) == seq![s@.subrange(start as int, i as int)]
                    + split_spaces(s@.skip(i + 1)));
                assert forall|y: int| 0 <= y < out@.len() implies out.deep_view()[y] == (out0
                    + seq![s@.subrange(start as int, i as int)])[y] by {
                    assert(out.deep_view()[y] == out@[y].deep_view());
                    if y < out@.len() - 1 {
                        assert(out@[y].deep_view() == out0[y]);
                    }
                }
                assert(out.deep_view() =~= out0 + seq![s@.subrange(start as int, i as int)]);
                assert((out0 + seq![s@.subrange(start as int, i as int)]) + split_spaces(
                    s@.skip(i + 1),
                ) =~= out0 + (seq![s@.subrange(start as int, i as int)] + split_spaces(
                    s@.skip(i + 1),
                )));
            }
            start = i + 1;
        }
        i += 1;
    }
    let word = String::from_str(s.substring_char(start, n));
    let ghost out0 = out.deep_view();
    out.push(word);
    proof {
        let suf = s@.skip(start as int);
        lemma_first_space_spec(suf);
        assert forall|j: int| 0 <= j < suf.len() implies suf[j] == s@[start + j] by {}
        assert(first_space(suf) < 0) by {
            let f = first_space(suf);
            if f >= 0 {
                assert(s@[start + f] != ' ');
                assert(false);
            }
        }
        assert(suf =~= s@.subrange(start as int, n as int));
        assert(split_spaces(suf) == seq![suf]);
        assert forall|y: int| 0 <= y < out@.len() implies out.deep_view()[y] == (out0
            + seq![suf])[y] by {
            assert(out.deep_view()[y] == out@[y].deep_view());
            if y < out@.len() - 1 {
                assert(out@[y].deep_view() == out0[y]);
            }
        }
        assert(out.deep_view() =~= out0 + seq![suf]);
    }
    out
}

/// Joins generated words with single spaces.
fn vec_to_string(vec: &Vec<String>) -> (r: String)
    ensures
        r@ == join_words(vec.deep_view()),
{
    let mut ret = String::new();
    let mut i: usize = 0;
    proof {
        assert(vec.deep_view().take(0) =~= Seq::<Seq<char>>::empty());
    }
    while i < vec.len()
        invariant
            i <= vec.len(),
            ret@ == join_words(vec.deep_view().take(i as int)),
        decreases vec.len() - i,
    {
        if i > 0 {
            ret.append(" ");
            proof {
                reveal_strlit(" ");
            }
        }
        ret.append(vec[i].as_str());
        i += 1;
        proof {
            let ws = vec.deep_view();
            assert(ws[i - 1] == vec@[i - 1].deep_view());
            assert(ws.take(i as int).drop_last() =~= ws.take(i - 1));
            assert(ws.take(i as int).last() == ws[i - 1]);
            if i == 1 {
                assert(join_words(ws.take(1)) == ws[0]);
                assert(ret@ =~= ws[0]);
            } else {
                assert(join_words(ws.take(i as int)) == join_words(ws.take(i - 1)) + seq![' ']
                    + ws[i - 1]);
                assert(ret@ =~= join_words(ws.take(i - 1)) + seq![' '] + ws[i - 1]);
            }
        }
    }
    proof {
        assert(vec.deep_view().take(vec@.len() as int) =~= vec.deep_view());
    }
    ret
}

impl Chain<String> {
    /// Feeds a line of text into the chain, split on single spaces.
    pub fn feed_str(&mut self, string: &str)
        requires
            old(self).wf(),
            grand_total(old(self).rows()) + split_spaces(string@).len() + 1 <= usize::MAX,
        ensures
            final(self).wf(),
            final(self).order_spec() == old(self).order_spec(),
            final(self).dist() == feed_effect(
                old(self).dist(),
                old(self).order_spec(),
                split_spaces(string@),
            ),
            !final(self).spec_is_empty(),
            grand_total(final(self).rows()) <= grand_total(old(self).rows()) + split_spaces(
                string@,
            ).len() + 1,
    {
        let words = split_string(string);
        proof {
            assert(split_spaces(string@).len() >= 1);
        }
        self.feed(words);
    }

    /// Generates a random string of text: a generated word sequence joined
    /// with single spaces.
    pub fn generate_str(&self) -> (r: String)
        requires
            self.wf(),
            !self.spec_is_empty(),
        ensures
            joined_walk_output(*self, r@),
    {
        let v = self.generate();
        let r = vec_to_string(&v);
        proof {
            assert(possible_walk(self.rows(), all_none(self.order_spec()), v.deep_view()) && r@
                == join_words(v.deep_view()));
        }
        r
    }

    /// Generates a random string of text starting with the given word.
    /// Returns an empty string if the word was never observed in starting
    /// position.
    pub fn generate_str_from_token(&self, string: &str) -> (r: String)
        requires
            self.wf(),
        ensures
            ({
                let skey = seed_key(self.order_spec(), string@);
                &&& key_index(self.rows(), skey) < 0 ==> r@ == Seq::<char>::empty()
                &&& key_index(self.rows(), skey) >= 0 ==> exists|w: Seq<Seq<char>>|
                    possible_walk(self.rows(), skey, w) && r@ == join_words(seq![string@] + w)
            }),
    {
        let token = String::from_str(string);
        let v = self.generate_from_token(token);
        let r = vec_to_string(&v);
        proof {
            let skey = seed_key(self.order_spec(), string@);
            if key_index(self.rows(), skey) < 0 {
                assert(v.deep_view() =~= Seq::<Seq<char>>::empty());
                assert(r@ =~= Seq::<char>::empty());
            } else {
                let w = choose|w: Seq<Seq<char>>|
                    possible_walk(self.rows(), skey, w) && v.deep_view() == seq![string@] + w;
                assert(possible_walk(self.rows(), skey, w) && r@ == join_words(seq![string@] + w));
            }
        }
        r
    }

    /// Produces an infinite iterator of generated strings.
    pub fn str_iter(&self) -> (r: InfiniteChainStringIterator<'_>)
        ensures
            r.chain_ref() == *self,
    {
        InfiniteChainStringIterator { inner: self.iter() }
    }

    /// Produces a sized iterator of generated strings.
    pub fn str_iter_for(&self, size: usize) -> (r: SizedChainStringIterator<'_>)
        ensures
            r.chain_ref() == *self,
            r.remaining() == size,
    {
        SizedChainStringIterator { inner: self.iter_for(size) }
    }
}

/// An infinite iterator over a Markov chain of strings: each step one
/// generated string, exhaustion never signalled.
pub struct InfiniteChainStringIterator<'a> {
    inner: InfiniteChainIterator<'a, String>,
}

impl<'a> InfiniteChainStringIterator<'a> {
    /// The chain being iterated.
    pub closed spec fn chain_ref(self) -> Chain<String> {
        self.inner.chain_ref()
    }

    /// Generates the next string; there always is one.
    pub fn next(&mut self) -> (r: Option<String>)
        requires
            old(self).chain_ref().wf(),
            !old(self).chain_ref().spec_is_empty(),
        ensures
            final(self).chain_ref() == old(self).chain_ref(),
            r is Some,
            joined_walk_output(old(self).chain_ref(), (r->0)@),
    {
        match self.inner.next() {
            Some(v) => {
                let r = vec_to_string(&v);
                proof {
                    assert(possible_walk(
                        self.chain_ref().rows(),
                        all_none(self.chain_ref().order_spec()),
                        v.deep_view(),
                    ) && r@ == join_words(v.deep_view()));
                }
                Some(r)
            },
            None => {
                proof {
                    assert(false);
                }
                None
            },
        }
    }

    /// The iterator never exhausts: no upper bound on what remains.
    pub fn size_hint(&self) -> (r: (usize, Option<usize>))
        ensures
            r.0 == 0,
            r.1 is None,
    {
        self.inner.size_hint()
    }
}

/// A sized iterator over a Markov chain of strings: exactly as many
/// generated strings as it was created for, then exhaustion.
pub struct SizedChainStringIterator<'a> {
    inner: SizedChainIterator<'a, String>,
}

impl<'a> SizedChainStringIterator<'a> {
    /// The chain being iterated.
    pub closed spec fn chain_ref(self) -> Chain<String> {
        self.inner.chain_ref()
    }

    /// How many strings remain to be generated.
    pub closed spec fn remaining(self) -> nat {
        self.inner.remaining()
    }

    /// Generates the next string while any remain, and signals exhaustion
    /// afterwards. Each yielded string is a generated word sequence joined
    /// with single spaces.
    pub fn next(&mut self) -> (r: Option<String>)
        requires
            old(self).remaining() > 0 ==> old(self).chain_ref().wf() && !old(
                self,
            ).chain_ref().spec_is_empty(),
        ensures
            final(self).chain_ref() == old(self).chain_ref(),
            old(self).remaining() == 0 ==> r is None && final(self).remaining() == 0,
            old(self).remaining() > 0 ==> {
                &&& r is Some
                &&& final(self).remaining() == old(self).remaining() - 1
                &&& joined_walk_output(old(self).chain_ref(), (r->0)@)
            },
    {
        match self.inner.next() {
            Some(v) => {
                let r = vec_to_string(&v);
                proof {
                    assert(possible_walk(
                        self.chain_ref().rows(),
                        all_none(self.chain_ref().order_spec()),
                        v.deep_view(),
                    ) && r@ == join_words(v.deep_view()));
                }
                Some(r)
            },
            None => None,
        }
    }

    /// How many strings remain: the exact count.
    pub fn size_hint(&self) -> (r: (usize, Option<usize>))
        ensures
            r.0 == self.remaining(),
            r.1 == Some(r.0),
    {
        self.inner.size_hint()
    }

    /// Generates all remaining strings at once: each one a generated word
    /// sequence joined with single spaces.
    pub fn collect(self) -> (r: Vec<String>)
        requires
            self.remaining() > 0 ==> self.chain_ref().wf() && !self.chain_ref().spec_is_empty(),
        ensures
            r.len() == self.remaining(),
            forall|i: int|
                0 <= i < r.len() ==> joined_walk_output(self.chain_ref(), (#[trigger] r@[i])@),
    {
        let ghost c = self.chain_ref();
        let SizedChainStringIterator { inner } = self;
        proof {
            assert(inner.chain_ref() == c);
        }
        let vs = inner.collect();
        let mut r: Vec<String> = Vec::new();
        let mut i: usize = 0;
        while i < vs.len()
            invariant
                i <= vs.len(),
                r.len() == i,
                forall|j: int|
                    0 <= j < vs@.len() ==> possible_walk(
                        c.rows(),
                        all_none(c.order_spec()),
                        (#[trigger] vs@[j]).deep_view(),
                    ),
                forall|j: int| 0 <= j < i ==> joined_walk_output(c, (#[trigger] r@[j])@),
            decreases vs.len() - i,
        {
            let out = vec_to_string(&vs[i]);
            proof {
                assert(possible_walk(c.rows(), all_none(c.order_spec()), vs@[i as int].deep_view())
                    && out@ == join_words(vs@[i as int].deep_view()));
            }
            r.push(out);
            i += 1;
        }
        proof {
            assert(c == self.chain_ref());
        }
        r
    }
}

} // verus!
