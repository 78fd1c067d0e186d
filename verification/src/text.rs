//! Character-level text operations used by the equation parser: space
//! removal, the `-` to `+-` sign rewrite, and splitting on a separator.
//! Each executable operation is proved equal to a recursive spec model.

use vstd::prelude::*;
use vstd::string::StrSliceExecFns;

verus! {

/// Spec model of space removal: the input without its space characters.
pub open spec fn strip_spaces_s(s: Seq<char>) -> Seq<char>
    decreases s.len(),
{
    if s.len() == 0 {
        Seq::empty()
    } else if s[0] == ' ' {
        strip_spaces_s(s.skip(1))
    } else {
        seq![s[0]].add(strip_spaces_s(s.skip(1)))
    }
}

/// Spec model of the sign rewrite: every `-` becomes `+-`, so that a
/// later split on `+` turns subtraction into addition of negated terms.
pub open spec fn rewrite_minus_s(s: Seq<char>) -> Seq<char>
    decreases s.len(),
{
    if s.len() == 0 {
        Seq::empty()
    } else if s[0] == '-' {
        seq!['+', '-'].add(rewrite_minus_s(s.skip(1)))
    } else {
        seq![s[0]].add(rewrite_minus_s(s.skip(1)))
    }
}

/// Spec model of splitting on a separator character.  The result always
/// holds one more segment than there are separators; an empty input
/// yields one empty segment.
pub open spec fn split_s(s: Seq<char>, sep: char) -> Seq<Seq<char>>
    decreases s.len(),
{
    if s.len() == 0 {
        seq![Seq::<char>::empty()]
    } else if s[0] == sep {
        seq![Seq::<char>::empty()].add(split_s(s.skip(1), sep))
    } else {
        let rest = split_s(s.skip(1), sep);
        rest.update(0, seq![s[0]].add(rest[0]))
    }
}

/// Number of occurrences of a character.
pub open spec fn count_c(s: Seq<char>, c0: char) -> nat
    decreases s.len(),
{
    if s.len() == 0 {
        0
    } else {
        (if s[0] == c0 {
            1nat
        } else {
            0nat
        }) + count_c(s.skip(1), c0)
    }
}

/// The views of a sequence of character vectors.
pub open spec fn seq_views(vs: Seq<Vec<char>>) -> Seq<Seq<char>> {
    vs.map_values(|v: Vec<char>| v@)
}

/// Splitting yields exactly one segment per separator occurrence, plus one.
pub proof fn lemma_split_len(s: Seq<char>, sep: char)
    ensures
        split_s(s, sep).len() == count_c(s, sep) + 1,
    decreases s.len(),
{
    if s.len() > 0 {
        lemma_split_len(s.skip(1), sep);
    }
}

/// Removing spaces does not change the count of any other character.
pub proof fn lemma_count_strip_spaces(s: Seq<char>, c0: char)
    requires
        c0 != ' ',
    ensures
        count_c(strip_spaces_s(s), c0) == count_c(s, c0),
    decreases s.len(),
{
    if s.len() > 0 {
        lemma_count_strip_spaces(s.skip(1), c0);
        if s[0] != ' ' {
            let t = seq![s[0]].add(strip_spaces_s(s.skip(1)));
            assert(t.skip(1) =~= strip_spaces_s(s.skip(1)));
        }
    }
}

/// The characters of a string slice, in order.
pub fn chars_of(s: &str) -> (r: Vec<char>)
    ensures
        r@ == s@,
{
    let n: usize = s.unicode_len();
    let mut r: Vec<char> = Vec::new();
    let mut i: usize = 0;
    while i < n
        invariant
            i <= n,
            n == s@.len(),
            r@ == s@.subrange(0, i as int),
        decreases n - i,
    {
        r.push(s.get_char(i));
        i = i + 1;
        proof {
            assert(r@ =~= s@.subrange(0, i as int));
        }
    }
    proof {
        assert(s@.subrange(0, n as int) =~= s@);
    }
    r
}

/// Removes every space character.
pub fn strip_spaces(s: &Vec<char>) -> (r: Vec<char>)
    ensures
        r@ == strip_spaces_s(s@),
{
    let mut out: Vec<char> = Vec::new();
    let mut i: usize = 0;
    proof {
        assert(s@.skip(0) =~= s@);
        assert(out@.add(strip_spaces_s(s@)) =~= strip_spaces_s(s@));
    }
    while i < s.len()
        invariant
            i <= s@.len(),
            out@.add(strip_spaces_s(s@.skip(i as int))) == strip_spaces_s(s@),
        decreases s@.len() - i,
    {
        let ghost t = s@.skip(i as int);
        proof {
            assert(t.skip(1) =~= s@.skip(i as int + 1));
        }
        let c = s[i];
        if c != ' ' {
            out.push(c);
        }
        i = i + 1;
        proof {
            assert(out@.add(strip_spaces_s(s@.skip(i as int))) =~= strip_spaces_s(s@));
        }
    }
    proof {
        assert(s@.skip(s@.len() as int) =~= Seq::<char>::empty());
        assert(out@.add(Seq::empty()) =~= out@);
    }
    out
}

/// Rewrites every `-` to `+-`.
pub fn rewrite_minus(s: &Vec<char>) -> (r: Vec<char>)
    ensures
        r@ == rewrite_minus_s(s@),
{
    let mut out: Vec<char> = Vec::new();
    let mut i: usize = 0;
    proof {
        assert(s@.skip(0) =~= s@);
        assert(out@.add(rewrite_minus_s(s@)) =~= rewrite_minus_s(s@));
    }
    while i < s.len()
        invariant
            i <= s@.len(),
            out@.add(rewrite_minus_s(s@.skip(i as int))) == rewrite_minus_s(s@),
        decreases s@.len() - i,
    {
        let ghost t = s@.skip(i as int);
        proof {
            assert(t.skip(1) =~= s@.skip(i as int + 1));
        }
        let c = s[i];
        if c == '-' {
            out.push('+');
            out.push('-');
        } else {
            out.push(c);
        }
        i = i + 1;
        proof {
            assert(out@.add(rewrite_minus_s(s@.skip(i as int))) =~= rewrite_minus_s(s@));
        }
    }
    proof {
        assert(s@.skip(s@.len() as int) =~= Seq::<char>::empty());
        assert(out@.add(Seq::empty()) =~= out@);
    }
    out
}

/// Splits on a separator character; the result always holds at least
/// one segment.
pub fn split_chars(s: &Vec<char>, sep: char) -> (r: Vec<Vec<char>>)
    ensures
        seq_views(r@) == split_s(s@, sep),
        r@.len() >= 1,
{
    let mut r: Vec<Vec<char>> = Vec::new();
    r.push(Vec::new());
    let mut i: usize = s.len();
    proof {
        assert(s@.skip(i as int) =~= Seq::<char>::empty());
        assert(seq_views(r@) =~= split_s(s@.skip(i as int), sep));
    }
    while i > 0
        invariant
            i <= s@.len(),
            r@.len() >= 1,
            seq_views(r@) == split_s(s@.skip(i as int), sep),
        decreases i,
    {
        i = i - 1;
        let ghost t = s@.skip(i as int);
        proof {
            assert(t.len() > 0 && t[0] == s@[i as int]);
            assert(t.skip(1) =~= s@.skip(i as int + 1));
        }
        let c = s[i];
        if c == sep {
            r.insert(0, Vec::new());
            proof {
                assert(seq_views(r@) =~= split_s(t, sep));
            }
        } else {
            let ghost old_r = r@;
            let ghost rr = split_s(s@.skip(i as int + 1), sep);
            let mut first = r.remove(0);
            let ghost old_first = first@;
            first.insert(0, c);
            proof {
                assert(old_first == rr[0]);
                assert(first@ =~= seq![c].add(old_first));
            }
            r.insert(0, first);
            proof {
                assert(seq_views(r@) =~~= rr.update(0, seq![t[0]].add(rr[0])));
                assert(seq_views(r@) == split_s(t, sep));
            }
        }
    }
    proof {
        assert(s@.skip(0) =~= s@);
    }
    r
}

} // verus!
