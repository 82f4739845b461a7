//! Parsing of problem text. The first line holds the grid dimensions as
//! `W;H`; every further line holds one pin pair as `r0;c0;r1;c1`. Fields
//! are separated by semicolons and may carry surrounding blanks; anything
//! else is a fatal load error.

use vstd::prelude::*;

verus! {

/// ASCII blanks that may surround a field: space, tab, carriage return.
pub open spec fn is_blank(b: u8) -> bool {
    b == 32 || b == 9 || b == 13
}

/// ASCII decimal digits.
pub open spec fn is_digit(b: u8) -> bool {
    48 <= b <= 57
}

/// Split on a separator, reading the input from the right: the final
/// piece grows until a separator is met. Splitting always yields at
/// least one (possibly empty) piece.
pub open spec fn split_spec(s: Seq<u8>, sep: u8) -> Seq<Seq<u8>>
    decreases s.len(),
{
    if s.len() == 0 {
        seq![Seq::empty()]
    } else if s.last() == sep {
        split_spec(s.drop_last(), sep).push(Seq::empty())
    } else {
        let r = split_spec(s.drop_last(), sep);
        r.update(r.len() - 1, r.last().push(s.last()))
    }
}

pub proof fn lemma_split_len(s: Seq<u8>, sep: u8)
    ensures
        split_spec(s, sep).len() >= 1,
    decreases s.len(),
{
    if s.len() > 0 {
        lemma_split_len(s.drop_last(), sep);
    }
}

/// The lines of the input: pieces split on newline, with the trailing
/// empty piece of a newline-terminated text dropped.
pub open spec fn lines_spec(s: Seq<u8>) -> Seq<Seq<u8>> {
    let p = split_spec(s, 10);
    if p.last().len() == 0 {
        p.drop_last()
    } else {
        p
    }
}

/// Blanks stripped from the front.
pub open spec fn trim_front(s: Seq<u8>) -> Seq<u8>
    decreases s.len(),
{
    if s.len() > 0 && is_blank(s.first()) {
        trim_front(s.drop_first())
    } else {
        s
    }
}

/// Blanks stripped from the back.
pub open spec fn trim_back(s: Seq<u8>) -> Seq<u8>
    decreases s.len(),
{
    if s.len() > 0 && is_blank(s.last()) {
        trim_back(s.drop_last())
    } else {
        s
    }
}

/// Blanks stripped from both ends.
pub open spec fn trim_spec(s: Seq<u8>) -> Seq<u8> {
    trim_back(trim_front(s))
}

/// The numeric value of a digit string, most significant digit first.
pub open spec fn digits_val(s: Seq<u8>) -> int
    decreases s.len(),
{
    if s.len() == 0 {
        0
    } else {
        digits_val(s.drop_last()) * 10 + (s.last() - 48)
    }
}

pub open spec fn all_digits(s: Seq<u8>) -> bool {
    forall|i: int| 0 <= i < s.len() ==> is_digit(#[trigger] s[i])
}

/// What one field denotes: its trimmed text must be a non-empty run of
/// digits whose value fits in u32.
pub open spec fn field_val(f: Seq<u8>) -> Option<u32> {
    let t = trim_spec(f);
    if t.len() >= 1 && all_digits(t) && digits_val(t) <= u32::MAX {
        Some(digits_val(t) as u32)
    } else {
        None
    }
}

proof fn lemma_digits_val_nonneg(s: Seq<u8>)
    requires
        all_digits(s),
    ensures
        digits_val(s) >= 0,
    decreases s.len(),
{
    if s.len() > 0 {
        assert(forall|i: int| 0 <= i < s.drop_last().len() ==> s.drop_last()[i] == s[i]);
        lemma_digits_val_nonneg(s.drop_last());
        assert(is_digit(s[s.len() - 1]));
    }
}

/// A digit string is worth at least any of its prefixes.
proof fn lemma_digits_val_monotone(s: Seq<u8>, i: int)
    requires
        all_digits(s),
        0 <= i <= s.len(),
    ensures
        digits_val(s.take(i)) <= digits_val(s),
    decreases s.len() - i,
{
    if i == s.len() {
        assert(s.take(i) =~= s);
    } else {
        lemma_digits_val_monotone(s, i + 1);
        assert(s.take(i + 1).drop_last() =~= s.take(i));
        assert(s.take(i + 1).last() == s[i]);
        assert(forall|k: int| 0 <= k < s.take(i).len() ==> s.take(i)[k] == s[k]);
        lemma_digits_val_nonneg(s.take(i));
        assert(is_digit(s[i]));
    }
}

/// Split a byte string on a separator.
#[verifier::loop_isolation(false)]
pub fn split_on(v: &[u8], sep: u8) -> (r: Vec<Vec<u8>>)
    ensures
        r@.len() == split_spec(v@, sep).len(),
        forall|i: int| 0 <= i < r@.len() ==> (#[trigger] r@[i])@ == split_spec(v@, sep)[i],
{
    let n = v.len();
    let mut done: Vec<Vec<u8>> = Vec::new();
    let mut cur: Vec<u8> = Vec::new();
    let mut i: usize = 0;
    proof {
        assert(v@.take(0) =~= Seq::<u8>::empty());
    }
    while i < n
        invariant
            i <= n,
            split_spec(v@.take(i as int), sep).len() == done@.len() + 1,
            forall|k: int|
                0 <= k < done@.len() ==> (#[trigger] done@[k])@ == split_spec(
                    v@.take(i as int),
                    sep,
                )[k],
            cur@ == split_spec(v@.take(i as int), sep).last(),
        decreases n - i,
    {
        proof {
            assert(v@.take(i + 1).drop_last() =~= v@.take(i as int));
            assert(v@.take(i + 1).last() == v@[i as int]);
            lemma_split_len(v@.take(i as int), sep);
        }
        let b = v[i];
        if b == sep {
            done.push(cur);
            cur = Vec::new();
        } else {
            cur.push(b);
        }
        i = i + 1;
    }
    proof {
        assert(v@.take(n as int) =~= v@);
        lemma_split_len(v@, sep);
    }
    done.push(cur);
    done
}

proof fn lemma_trim_front_skip(s: Seq<u8>, i: int)
    requires
        0 <= i <= s.len(),
        forall|k: int| 0 <= k < i ==> is_blank(#[trigger] s[k]),
    ensures
        trim_front(s) == trim_front(s.skip(i)),
    decreases i,
{
    if i > 0 {
        assert(is_blank(s[0]));
        assert(s.drop_first().skip(i - 1) =~= s.skip(i));
        assert(forall|k: int| 0 <= k < i - 1 ==> s.drop_first()[k] == s[k + 1]);
        lemma_trim_front_skip(s.drop_first(), i - 1);
    } else {
        assert(s.skip(0) =~= s);
    }
}

proof fn lemma_trim_back_take(s: Seq<u8>, i: int)
    requires
        0 <= i <= s.len(),
        forall|k: int| i <= k < s.len() ==> is_blank(#[trigger] s[k]),
    ensures
        trim_back(s) == trim_back(s.take(i)),
    decreases s.len() - i,
{
    if i < s.len() {
        assert(is_blank(s[s.len() - 1]));
        assert(s.drop_last() =~= s.take(s.len() - 1));
        assert(forall|k: int| 0 <= k < s.len() - 1 ==> s.drop_last()[k] == s[k]);
        lemma_trim_back_take(s.drop_last(), i);
        assert(s.drop_last().take(i) =~= s.take(i));
    } else {
        assert(s.take(i) =~= s);
    }
}

/// Strip blanks from both ends of a byte string.
#[verifier::loop_isolation(false)]
pub fn trim(v: &[u8]) -> (r: Vec<u8>)
    ensures
        r@ == trim_spec(v@),
{
    let n = v.len();
    let mut lo: usize = 0;
    while lo < n && (v[lo] == 32 || v[lo] == 9 || v[lo] == 13)
        invariant
            lo <= n,
            forall|k: int| 0 <= k < lo ==> is_blank(#[trigger] v@[k]),
        decreases n - lo,
    {
        lo = lo + 1;
    }
    let mut hi: usize = n;
    while hi > lo && (v[hi - 1] == 32 || v[hi - 1] == 9 || v[hi - 1] == 13)
        invariant
            lo <= hi <= n,
            forall|k: int| hi <= k < n ==> is_blank(#[trigger] v@[k]),
        decreases hi,
    {
        hi = hi - 1;
    }
    let mut r: Vec<u8> = Vec::new();
    let mut j: usize = lo;
    proof {
        assert(v@.subrange(lo as int, lo as int) =~= Seq::<u8>::empty());
    }
    while j < hi
        invariant
            lo <= j <= hi <= n,
            r@ == v@.subrange(lo as int, j as int),
        decreases hi - j,
    {
        r.push(v[j]);
        proof {
            assert(r@ =~= v@.subrange(lo as int, j + 1));
        }
        j = j + 1;
    }
    proof {
        lemma_trim_front_skip(v@, lo as int);
        let u = v@.skip(lo as int);
        assert(trim_front(u) == u);
        assert(forall|k: int|
            hi - lo <= k < u.len() ==> is_blank(#[trigger] u[k]) == is_blank(v@[k + lo]));
        assert forall|k: int| hi - lo <= k < u.len() implies is_blank(#[trigger] u[k]) by {
            assert(u[k] == v@[k + lo]);
        }
        lemma_trim_back_take(u, hi - lo);
        assert(u.take(hi - lo) =~= v@.subrange(lo as int, hi as int));
        if hi > lo {
            assert(v@.subrange(lo as int, hi as int).last() == v@[hi - 1]);
        }
        assert(trim_back(u.take(hi - lo)) == u.take(hi - lo));
        assert(r@ == trim_spec(v@));
    }
    r
}

/// Parse one numeric field: blanks stripped, then a non-empty run of
/// decimal digits whose value fits in u32; anything else is `None`.
#[verifier::loop_isolation(false)]
pub fn parse_u32_field(f: &[u8]) -> (r: Option<u32>)
    ensures
        r == field_val(f@),
{
    let t = trim(f);
    let n = t.len();
    if n == 0 {
        return None;
    }
    let mut acc: u64 = 0;
    let mut i: usize = 0;
    proof {
        assert(t@.take(0) =~= Seq::<u8>::empty());
    }
    while i < n
        invariant
            i <= n,
            all_digits(t@.take(i as int)),
            acc == digits_val(t@.take(i as int)),
            acc <= u32::MAX,
        decreases n - i,
    {
        let b = t[i];
        proof {
            assert(t@.take(i + 1).drop_last() =~= t@.take(i as int));
            assert(t@.take(i + 1).last() == t@[i as int]);
        }
        if !(b >= 48 && b <= 57) {
            proof {
                assert(!is_digit(t@[i as int]));
            }
            return None;
        }
        proof {
            assert forall|k: int| 0 <= k < t@.take(i + 1).len() implies is_digit(
                #[trigger] t@.take(i + 1)[k],
            ) by {
                if k < i {
                    assert(t@.take(i + 1)[k] == t@.take(i as int)[k]);
                }
            }
        }
        let acc2: u64 = acc * 10 + (b - 48) as u64;
        if acc2 > 0xFFFF_FFFF {
            proof {
                if all_digits(t@) {
                    lemma_digits_val_monotone(t@, i + 1);
                    assert(t@.take(i + 1) =~= t@.take(i + 1));
                    assert(digits_val(t@) >= digits_val(t@.take(i + 1)));
                }
            }
            return None;
        }
        acc = acc2;
        i = i + 1;
    }
    proof {
        assert(t@.take(n as int) =~= t@);
    }
    Some(acc as u32)
}

} // verus!
