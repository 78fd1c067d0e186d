//! The sparse degree-to-coefficient mapping built by the expression
//! parser, the reducer that combines the two sides of an equation, and
//! the builder that turns the reduced mapping into a dense, trimmed
//! coefficient vector.

use vstd::prelude::*;
use vstd::pervasive::VecAdditionalExecFns;
use crate::coef::{ZERO_BITS, add_bits, sub_bits, is_zero_bits, coef_add, coef_sub, coef_is_zero};
use crate::term::{monomial_s, parse_monomial_chars};
use crate::text::{rewrite_minus_s, split_s, rewrite_minus, split_chars, seq_views};

verus! {

pub open spec fn key_at(s: Seq<(u32, u32)>, i: int) -> u32 {
    s[i].0
}

pub open spec fn val_at(s: Seq<(u32, u32)>, i: int) -> u32 {
    s[i].1
}

pub open spec fn has_key(s: Seq<(u32, u32)>, k: u32) -> bool {
    exists|i: int| 0 <= i < s.len() && key_at(s, i) == k
}

pub open spec fn distinct_keys(s: Seq<(u32, u32)>) -> bool {
    forall|i: int, j: int| 0 <= i < j < s.len() ==> key_at(s, i) != key_at(s, j)
}

/// The mapping denoted by a sequence of (degree, coefficient) entries;
/// a later entry for the same degree would win, though well-formed
/// mappings never hold two entries for one degree.
pub open spec fn entries_map(s: Seq<(u32, u32)>) -> Map<u32, u32>
    decreases s.len(),
{
    if s.len() == 0 {
        Map::empty()
    } else {
        entries_map(s.drop_last()).insert(s.last().0, s.last().1)
    }
}

pub proof fn lemma_entries_map_dom(s: Seq<(u32, u32)>)
    ensures
        forall|k: u32| #[trigger] entries_map(s).dom().contains(k) <==> has_key(s, k),
    decreases s.len(),
{
    if s.len() == 0 {
        assert(forall|k: u32| !has_key(s, k));
    } else {
        let t = s.drop_last();
        lemma_entries_map_dom(t);
        assert forall|k: u32| #[trigger] entries_map(s).dom().contains(k) <==> has_key(s, k) by {
            if entries_map(s).dom().contains(k) {
                if k == s.last().0 {
                    assert(key_at(s, s.len() - 1) == k);
                } else {
                    assert(entries_map(t).dom().contains(k));
                    assert(has_key(t, k));
                    let i = choose|i: int| 0 <= i < t.len() && key_at(t, i) == k;
                    assert(t[i] == s[i]);
                    assert(key_at(s, i) == k);
                }
            }
            if has_key(s, k) {
                let i = choose|i: int| 0 <= i < s.len() && key_at(s, i) == k;
                if i < s.len() - 1 {
                    assert(t[i] == s[i]);
                    assert(key_at(t, i) == k);
                    assert(has_key(t, k));
                    assert(entries_map(t).dom().contains(k));
                }
            }
        }
    }
}

pub proof fn lemma_entries_map_val(s: Seq<(u32, u32)>)
    requires
        distinct_keys(s),
    ensures
        forall|i: int|
            0 <= i < s.len() ==> entries_map(s)[#[trigger] key_at(s, i)] == val_at(s, i),
    decreases s.len(),
{
    if s.len() > 0 {
        let t = s.drop_last();
        assert(distinct_keys(t)) by {
            assert(forall|i: int, j: int|
                0 <= i < j < t.len() ==> key_at(t, i) == key_at(s, i) && key_at(t, j) == key_at(
                    s,
                    j,
                ));
        }
        lemma_entries_map_val(t);
        assert forall|i: int|
            0 <= i < s.len() implies entries_map(s)[#[trigger] key_at(s, i)] == val_at(s, i) by {
            if i < s.len() - 1 {
                assert(key_at(s, i) != key_at(s, s.len() - 1));
                assert(key_at(t, i) == key_at(s, i) && val_at(t, i) == val_at(s, i));
            }
        }
    }
}

/// A sparse polynomial mapping: at most one entry per degree.
pub struct TermMap {
    entries: Vec<(u32, u32)>,
}

impl View for TermMap {
    type V = Map<u32, u32>;

    closed spec fn view(&self) -> Map<u32, u32> {
        entries_map(self.entries@)
    }
}

impl TermMap {
    pub closed spec fn entries_seq(&self) -> Seq<(u32, u32)> {
        self.entries@
    }

    pub open spec fn wf(&self) -> bool {
        distinct_keys(self.entries_seq())
    }

    pub fn new() -> (r: TermMap)
        ensures
            r.wf(),
            r@ == Map::<u32, u32>::empty(),
            r.entries_seq() == Seq::<(u32, u32)>::empty(),
    {
        TermMap { entries: Vec::new() }
    }

    fn find_key(&self, d: u32) -> (r: Option<usize>)
        ensures
            match r {
                Some(i) => i < self.entries_seq().len() && key_at(self.entries_seq(), i as int)
                    == d,
                None => !has_key(self.entries_seq(), d),
            },
    {
        let mut i: usize = 0;
        while i < self.entries.len()
            invariant
                i <= self.entries_seq().len(),
                forall|j: int| 0 <= j < i ==> key_at(self.entries_seq(), j) != d,
            decreases self.entries_seq().len() - i,
        {
            if self.entries[i].0 == d {
                return Some(i);
            }
            i = i + 1;
        }
        None
    }

    /// The coefficient stored at a degree, if any.
    pub fn get_bits(&self, d: u32) -> (r: Option<u32>)
        requires
            self.wf(),
        ensures
            r == (if self@.dom().contains(d) {
                Some(self@[d])
            } else {
                None::<u32>
            }),
    {
        proof {
            lemma_entries_map_dom(self.entries_seq());
            lemma_entries_map_val(self.entries_seq());
        }
        match self.find_key(d) {
            Some(i) => Some(self.entries[i].1),
            None => None,
        }
    }

    /// Stores a coefficient at a degree, replacing any entry there.
    pub fn set_bits(&mut self, d: u32, c: u32)
        requires
            old(self).wf(),
        ensures
            final(self).wf(),
            final(self)@ == old(self)@.insert(d, c),
    {
        proof {
            lemma_entries_map_dom(old(self).entries_seq());
            lemma_entries_map_val(old(self).entries_seq());
        }
        match self.find_key(d) {
            Some(i) => {
                let ghost olds = self.entries@;
                self.entries.set(i, (d, c));
                proof {
                    let news = self.entries@;
                    assert(forall|j: int|
                        0 <= j < news.len() && j != i ==> news[j] == olds[j] && key_at(news, j)
                            == key_at(olds, j) && val_at(news, j) == val_at(olds, j));
                    assert(key_at(news, i as int) == key_at(olds, i as int));
                    assert(distinct_keys(news));
                    lemma_entries_map_dom(news);
                    lemma_entries_map_val(news);
                    assert forall|k: u32| #[trigger]
                        entries_map(news).dom().contains(k)
                            == entries_map(olds).insert(d, c).dom().contains(k) by {
                        if has_key(news, k) {
                            let j = choose|j: int| 0 <= j < news.len() && key_at(news, j) == k;
                            assert(key_at(olds, j) == k);
                        }
                        if has_key(olds, k) {
                            let j = choose|j: int| 0 <= j < olds.len() && key_at(olds, j) == k;
                            assert(key_at(news, j) == k);
                        }
                    }
                    assert forall|k: u32|
                        entries_map(news).dom().contains(k) implies #[trigger] entries_map(
                        news,
                    )[k] == entries_map(olds).insert(d, c)[k] by {
                        let j = choose|j: int| 0 <= j < news.len() && key_at(news, j) == k;
                        if k == d {
                            assert(j == i) by {
                                if j != i {
                                    assert(key_at(news, j) == key_at(olds, j));
                                    assert(key_at(olds, i as int) == d);
                                }
                            }
                            assert(entries_map(news)[k] == c);
                        } else {
                            assert(j != i);
                            assert(entries_map(news)[k] == val_at(news, j));
                            assert(entries_map(olds)[key_at(olds, j)] == val_at(olds, j));
                        }
                    }
                    assert(entries_map(news) =~= entries_map(olds).insert(d, c));
                }
            },
            None => {
                let ghost olds = self.entries@;
                self.entries.push((d, c));
                proof {
                    let news = self.entries@;
                    assert(news.drop_last() =~= olds);
                    assert(news.last() == (d, c));
                    assert(distinct_keys(news)) by {
                        assert(forall|j: int|
                            0 <= j < olds.len() ==> key_at(news, j) == key_at(olds, j));
                    }
                }
            },
        }
    }

    /// Number of stored entries.
    pub fn len(&self) -> (r: usize)
        ensures
            r == self.entries_seq().len(),
    {
        self.entries.len()
    }

    /// The entry at a position, as a (degree, coefficient) pair.
    pub fn entry_at(&self, i: usize) -> (r: (u32, u32))
        requires
            i < self.entries_seq().len(),
        ensures
            r == self.entries_seq()[i as int],
    {
        self.entries[i]
    }
}

/// Spec model of the expression parser's accumulation: terms are folded
/// left to right into the mapping, a repeated degree adding its new
/// coefficient onto the stored one; one malformed term spoils the whole
/// expression.
pub open spec fn accum_terms(toks: Seq<Seq<char>>) -> Option<Map<u32, u32>>
    decreases toks.len(),
{
    if toks.len() == 0 {
        Some(Map::empty())
    } else {
        match accum_terms(toks.drop_last()) {
            None => None,
            Some(m) => match monomial_s(toks.last()) {
                None => None,
                Some(cd) => Some(
                    m.insert(
                        cd.1,
                        if m.dom().contains(cd.1) {
                            add_bits(cd.0, m[cd.1])
                        } else {
                            cd.0
                        },
                    ),
                ),
            },
        }
    }
}

/// Spec model of parsing one whole side: rewrite signs, split on `+`,
/// accumulate the terms.
pub open spec fn eq_map_s(s: Seq<char>) -> Option<Map<u32, u32>> {
    accum_terms(split_s(rewrite_minus_s(s), '+'))
}

/// Once a prefix of the token list is malformed, the whole list is.
proof fn lemma_accum_none_extends(toks: Seq<Seq<char>>, i: int)
    requires
        0 <= i <= toks.len(),
        accum_terms(toks.subrange(0, i)) is None,
    ensures
        accum_terms(toks) is None,
    decreases toks.len() - i,
{
    if i < toks.len() {
        assert(toks.subrange(0, i + 1).drop_last() =~= toks.subrange(0, i));
        lemma_accum_none_extends(toks, i + 1);
    } else {
        assert(toks.subrange(0, i) =~= toks);
    }
}

/// Folds a list of term tokens into a mapping, left to right.
pub fn accumulate_terms(toks: &Vec<Vec<char>>) -> (r: Option<TermMap>)
    ensures
        match r {
            Some(m) => m.wf() && accum_terms(seq_views(toks@)) == Some(m@),
            None => accum_terms(seq_views(toks@)) is None,
        },
{
    let ghost tv = seq_views(toks@);
    let mut m = TermMap::new();
    let mut i: usize = 0;
    proof {
        assert(tv.subrange(0, 0) =~= Seq::<Seq<char>>::empty());
    }
    while i < toks.len()
        invariant
            i <= tv.len(),
            tv == seq_views(toks@),
            m.wf(),
            accum_terms(tv.subrange(0, i as int)) == Some(m@),
        decreases tv.len() - i,
    {
        proof {
            assert(tv.subrange(0, i as int + 1).drop_last() =~= tv.subrange(0, i as int));
            assert(tv.subrange(0, i as int + 1).last() == tv[i as int]);
            assert(tv[i as int] == toks@[i as int]@);
        }
        match parse_monomial_chars(&toks[i]) {
            None => {
                proof {
                    lemma_accum_none_extends(tv, i as int + 1);
                }
                return None;
            },
            Some(cd) => {
                let cur = m.get_bits(cd.1);
                match cur {
                    Some(old_c) => m.set_bits(cd.1, coef_add(cd.0, old_c)),
                    None => m.set_bits(cd.1, cd.0),
                }
            },
        }
        i = i + 1;
    }
    proof {
        assert(tv.subrange(0, tv.len() as int) =~= tv);
    }
    Some(m)
}

/// Parses one side of the equation (spaces already removed) into its
/// sparse mapping.
pub fn parse_equation_chars(side: &Vec<char>) -> (r: Option<TermMap>)
    ensures
        match r {
            Some(m) => m.wf() && eq_map_s(side@) == Some(m@),
            None => eq_map_s(side@) is None,
        },
{
    let rw = rewrite_minus(side);
    let toks = split_chars(&rw, '+');
    accumulate_terms(&toks)
}

/// Spec model of the reducer: the mapping of `left - right`, with a
/// missing left entry read as zero wherever the right side has one.
pub open spec fn reduce_s(l: Map<u32, u32>, r: Map<u32, u32>) -> Map<u32, u32> {
    Map::new(
        |k: u32| l.dom().contains(k) || r.dom().contains(k),
        |k: u32|
            if r.dom().contains(k) {
                sub_bits(
                    if l.dom().contains(k) {
                        l[k]
                    } else {
                        ZERO_BITS
                    },
                    r[k],
                )
            } else {
                l[k]
            },
    )
}

/// Combines the two sides into the mapping of `left - right`.
pub fn simplify_equations(left: TermMap, right: &TermMap) -> (r: TermMap)
    requires
        left.wf(),
        right.wf(),
    ensures
        r.wf(),
        r@ == reduce_s(left@, right@),
{
    proof {
        lemma_entries_map_dom(right.entries_seq());
        lemma_entries_map_val(right.entries_seq());
    }
    let ghost rs = right.entries_seq();
    let mut acc = left;
    let mut i: usize = 0;
    proof {
        assert(entries_map(rs.subrange(0, 0)) =~= Map::<u32, u32>::empty());
        assert(acc@ =~= reduce_s(left@, entries_map(rs.subrange(0, 0))));
    }
    while i < right.len()
        invariant
            i <= rs.len(),
            rs == right.entries_seq(),
            right.wf(),
            acc.wf(),
            acc@ == reduce_s(left@, entries_map(rs.subrange(0, i as int))),
        decreases rs.len() - i,
    {
        let e = right.entry_at(i);
        let ghost pre = entries_map(rs.subrange(0, i as int));
        proof {
            lemma_entries_map_dom(rs.subrange(0, i as int));
            assert(rs.subrange(0, i as int + 1).drop_last() =~= rs.subrange(0, i as int));
            assert(rs.subrange(0, i as int + 1).last() == rs[i as int]);
            // the degree at position i was not seen among the earlier entries
            assert(!has_key(rs.subrange(0, i as int), e.0)) by {
                if has_key(rs.subrange(0, i as int), e.0) {
                    let j = choose|j: int|
                        0 <= j < i && key_at(rs.subrange(0, i as int), j) == e.0;
                    assert(key_at(rs, j) == key_at(rs, i as int));
                }
            }
        }
        let base = match acc.get_bits(e.0) {
            Some(c) => c,
            None => ZERO_BITS,
        };
        acc.set_bits(e.0, coef_sub(base, e.1));
        proof {
            assert(acc@ =~= reduce_s(left@, pre.insert(e.0, e.1)));
            assert(entries_map(rs.subrange(0, i as int + 1)) == pre.insert(e.0, e.1));
        }
        i = i + 1;
    }
    proof {
        assert(rs.subrange(0, rs.len() as int) =~= rs);
        assert(entries_map(rs) == right@);
    }
    acc
}

/// The dense coefficient sequence of the first `n` degrees, a missing
/// degree read as zero.
pub open spec fn dense_upto(m: Map<u32, u32>, n: nat) -> Seq<u32> {
    Seq::new(
        n,
        |i: int|
            if m.dom().contains(i as u32) {
                m[i as u32]
            } else {
                ZERO_BITS
            },
    )
}

pub open spec fn is_max_key(m: Map<u32, u32>, k: u32) -> bool {
    m.dom().contains(k) && forall|j: u32| #[trigger] m.dom().contains(j) ==> j <= k
}

/// The dense coefficient sequence of a mapping: up through its highest
/// degree, or empty when the mapping is empty.
pub open spec fn dense_s(m: Map<u32, u32>) -> Seq<u32> {
    if exists|k: u32| is_max_key(m, k) {
        dense_upto(m, (choose|k: u32| is_max_key(m, k)) as nat + 1)
    } else {
        Seq::empty()
    }
}

/// Removal of trailing zero coefficients.
pub open spec fn trim_s(s: Seq<u32>) -> Seq<u32>
    decreases s.len(),
{
    if s.len() > 0 && is_zero_bits(s.last()) {
        trim_s(s.drop_last())
    } else {
        s
    }
}

/// Re-running the trim step on an already-trimmed vector is a no-op.
pub proof fn lemma_trim_idempotent(s: Seq<u32>)
    ensures
        trim_s(trim_s(s)) == trim_s(s),
    decreases s.len(),
{
    if s.len() > 0 && is_zero_bits(s.last()) {
        lemma_trim_idempotent(s.drop_last());
    }
}

/// A trimmed vector is empty or ends in a nonzero coefficient.
pub proof fn lemma_trim_last_nonzero(s: Seq<u32>)
    ensures
        trim_s(s).len() > 0 ==> !is_zero_bits(trim_s(s).last()),
    decreases s.len(),
{
    if s.len() > 0 && is_zero_bits(s.last()) {
        lemma_trim_last_nonzero(s.drop_last());
    }
}

/// The trim step of the polynomial builder: removes trailing zero
/// coefficients, leaving a vector that is empty or ends in a nonzero one.
pub fn trim_trailing_zeros(v: Vec<u32>) -> (r: Vec<u32>)
    ensures
        r@ == trim_s(v@),
{
    let mut out = v;
    let ghost full = out@;
    loop
        invariant
            trim_s(out@) == trim_s(full),
        ensures
            trim_s(out@) == trim_s(full),
            out@.len() == 0 || !is_zero_bits(out@.last()),
        decreases out@.len(),
    {
        if out.len() == 0 {
            break ;
        }
        let lastc = out[out.len() - 1];
        if !coef_is_zero(lastc) {
            break ;
        }
        let ghost pre = out@;
        out.pop();
        proof {
            assert(out@ =~= pre.drop_last());
        }
    }
    out
}

/// Builds the dense coefficient vector of a mapping: degrees from zero
/// through the highest present, gaps filled with zero, then trailing
/// zero coefficients removed.
pub fn map2vec(map: TermMap) -> (r: Vec<u32>)
    requires
        map.wf(),
    ensures
        r@ == trim_s(dense_s(map@)),
{
    proof {
        lemma_entries_map_dom(map.entries_seq());
        lemma_entries_map_val(map.entries_seq());
    }
    let n = map.len();
    if n == 0 {
        proof {
            assert(forall|k: u32| !has_key(map.entries_seq(), k));
            assert(!(exists|k: u32| is_max_key(map@, k)));
            assert(trim_s(dense_s(map@)) =~= Seq::<u32>::empty());
        }
        return Vec::new();
    }
    // highest degree present
    let mut mx: u32 = map.entry_at(0).0;
    let mut i: usize = 1;
    proof {
        assert(has_key(map.entries_seq(), mx)) by {
            assert(key_at(map.entries_seq(), 0) == mx);
        }
    }
    while i < n
        invariant
            1 <= i <= map.entries_seq().len(),
            n == map.entries_seq().len(),
            map.wf(),
            has_key(map.entries_seq(), mx),
            forall|j: int| 0 <= j < i ==> key_at(map.entries_seq(), j) <= mx,
        decreases map.entries_seq().len() - i,
    {
        let e = map.entry_at(i);
        if e.0 > mx {
            mx = e.0;
            proof {
                assert(key_at(map.entries_seq(), i as int) == mx);
            }
        }
        i = i + 1;
    }
    proof {
        assert(is_max_key(map@, mx)) by {
            assert forall|j: u32| #[trigger] map@.dom().contains(j) implies j <= mx by {
                let jj = choose|jj: int|
                    0 <= jj < map.entries_seq().len() && key_at(map.entries_seq(), jj) == j;
                assert(key_at(map.entries_seq(), jj) <= mx);
            }
        }
        let k0 = choose|k: u32| is_max_key(map@, k);
        assert(k0 <= mx && mx <= k0);
        assert(dense_s(map@) == dense_upto(map@, mx as nat + 1));
    }
    // dense vector, degree by degree
    let mut out: Vec<u32> = Vec::new();
    let mut d: u64 = 0;
    while d <= mx as u64
        invariant
            d <= mx as u64 + 1,
            map.wf(),
            out@ == dense_upto(map@, d as nat),
        decreases mx as u64 + 1 - d,
    {
        let c = match map.get_bits(d as u32) {
            Some(c) => c,
            None => ZERO_BITS,
        };
        out.push(c);
        d = d + 1;
        proof {
            assert(out@ =~= dense_upto(map@, d as nat));
        }
    }
    trim_trailing_zeros(out)
}

} // verus!
