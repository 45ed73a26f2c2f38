//! Reading plain-text records: characters of a string, trimming whitespace,
//! splitting on a separator and reading unsigned decimal numbers.
use vstd::prelude::*;

verus! {

/// Unicode white space, as `char::is_whitespace` and `str::trim` use it.
pub open spec fn is_ws(c: char) -> bool {
    let u = c as u32;
    (9 <= u <= 13) || u == 32 || u == 0x85 || u == 0xa0 || u == 0x1680 || (0x2000 <= u <= 0x200a) || u == 0x2028
        || u == 0x2029 || u == 0x202f || u == 0x205f || u == 0x3000
}

/// `s` without its leading and trailing white space.
pub open spec fn trimmed(s: Seq<char>) -> Seq<char>
    decreases s.len(),
{
    if s.len() > 0 && is_ws(s[0]) {
        trimmed(s.drop_first())
    } else if s.len() > 0 && is_ws(s.last()) {
        trimmed(s.drop_last())
    } else {
        s
    }
}

/// The pieces of `s` between occurrences of `d`; one piece more than there are
/// occurrences.
pub open spec fn split_on(s: Seq<char>, d: char) -> Seq<Seq<char>>
    decreases s.len(),
{
    if s.len() == 0 {
        seq![Seq::empty()]
    } else {
        let f = split_on(s.drop_last(), d);
        if s.last() == d {
            f.push(Seq::empty())
        } else {
            f.update(f.len() - 1, f.last().push(s.last()))
        }
    }
}

/// The pieces of `s` between occurrences of `p`, matched from left to right
/// without overlap, as `str::split` finds them.
pub open spec fn split_pat(s: Seq<char>, p: Seq<char>) -> Seq<Seq<char>>
    decreases s.len(),
{
    if p.len() == 0 || s.len() < p.len() {
        seq![s]
    } else if s.take(p.len() as int) == p {
        seq![Seq::empty()] + split_pat(s.skip(p.len() as int), p)
    } else {
        let r = split_pat(s.drop_first(), p);
        r.update(0, seq![s[0]] + r[0])
    }
}

pub proof fn lemma_split_pat_nonempty(s: Seq<char>, p: Seq<char>)
    ensures
        split_pat(s, p).len() >= 1,
    decreases s.len(),
{
    if p.len() > 0 && s.len() >= p.len() {
        if s.take(p.len() as int) == p {
            lemma_split_pat_nonempty(s.skip(p.len() as int), p);
        } else {
            lemma_split_pat_nonempty(s.drop_first(), p);
        }
    }
}

/// `s` read as a `bool`, as `bool::from_str` reads it.
pub open spec fn bool_of(s: Seq<char>) -> Option<bool> {
    if s == "true"@ {
        Some(true)
    } else if s == "false"@ {
        Some(false)
    } else {
        None
    }
}

/// `s` read as a `u8`, as `u8::from_str` reads it.
pub open spec fn u8_of(s: Seq<char>) -> Option<u8> {
    match u32_of(s) {
        Some(v) => if v <= 255 {
            Some(v as u8)
        } else {
            None
        },
        None => None,
    }
}

pub open spec fn is_digit(c: char) -> bool {
    '0' <= c <= '9'
}

pub open spec fn all_digits(t: Seq<char>) -> bool {
    forall|i: int| 0 <= i < t.len() ==> is_digit(#[trigger] t[i])
}

/// `s` without one leading `+`.
pub open spec fn unsigned_part(s: Seq<char>) -> Seq<char> {
    if s.len() > 0 && s[0] == '+' {
        s.drop_first()
    } else {
        s
    }
}

/// Value of a string of decimal digits.
pub open spec fn digits_value(s: Seq<char>) -> int
    decreases s.len(),
{
    if s.len() == 0 {
        0
    } else {
        10 * digits_value(s.drop_last()) + (s.last() as u32 - '0' as u32)
    }
}

/// `s` read as a `u32`, as `u32::from_str` reads it: an optional `+`, then one
/// or more decimal digits whose value fits.
pub open spec fn u32_of(s: Seq<char>) -> Option<u32> {
    let t = unsigned_part(s);
    if t.len() > 0 && all_digits(t) && digits_value(t) <= u32::MAX {
        Some(digits_value(t) as u32)
    } else {
        None
    }
}

pub proof fn lemma_split_on_nonempty(s: Seq<char>, d: char)
    ensures
        split_on(s, d).len() >= 1,
    decreases s.len(),
{
    if s.len() > 0 {
        lemma_split_on_nonempty(s.drop_last(), d);
    }
}

proof fn lemma_digits_prefix(t: Seq<char>, k: int, j: int)
    requires
        0 <= k <= j <= t.len(),
        forall|i: int| 0 <= i < t.len() ==> is_digit(#[trigger] t[i]),
    ensures
        digits_value(t.subrange(0, k)) <= digits_value(t.subrange(0, j)),
        digits_value(t.subrange(0, j)) >= 0,
    decreases j,
{
    if j > 0 {
        assert(t.subrange(0, j).drop_last() =~= t.subrange(0, j - 1));
        assert(is_digit(t[j - 1]));
        if k < j {
            lemma_digits_prefix(t, k, j - 1);
        } else {
            lemma_digits_prefix(t, j - 1, j - 1);
        }
    }
}

/// The characters of `s`, one by one.
pub fn chars_of(s: &str) -> (r: Vec<char>)
    ensures
        r@ == s@,
{
    let n = s.unicode_len();
    let mut out: Vec<char> = Vec::new();
    let mut i: usize = 0;
    while i < n
        invariant
            n == s@.len(),
            i <= n,
            out@ == s@.subrange(0, i as int),
        decreases n - i,
    {
        out.push(s.get_char(i));
        i += 1;
    }
    proof {
        assert(s@.subrange(0, n as int) =~= s@);
    }
    out
}

/// Bounds of `c[lo..hi]` with its leading and trailing white space left out.
pub fn trim_bounds(c: &Vec<char>, lo: usize, hi: usize) -> (r: (usize, usize))
    requires
        lo <= hi <= c@.len(),
    ensures
        lo <= r.0 <= r.1 <= hi,
        c@.subrange(r.0 as int, r.1 as int) == trimmed(c@.subrange(lo as int, hi as int)),
{
    let ghost whole = c@.subrange(lo as int, hi as int);
    let mut a: usize = lo;
    while a < hi && is_space(c[a])
        invariant
            lo <= a <= hi <= c@.len(),
            trimmed(whole) == trimmed(c@.subrange(a as int, hi as int)),
        decreases hi - a,
    {
        proof {
            assert(c@.subrange(a as int, hi as int).drop_first() =~= c@.subrange(a + 1, hi as int));
        }
        a += 1;
    }
    let mut b: usize = hi;
    while a < b && is_space(c[b - 1])
        invariant
            lo <= a <= b <= hi <= c@.len(),
            a < b ==> !is_ws(c@[a as int]),
            trimmed(whole) == trimmed(c@.subrange(a as int, b as int)),
        decreases b - a,
    {
        proof {
            assert(c@.subrange(a as int, b as int).drop_last() =~= c@.subrange(a as int, b - 1));
        }
        b -= 1;
    }
    proof {
        if a == b {
            assert(c@.subrange(a as int, b as int) =~= Seq::<char>::empty());
        }
    }
    (a, b)
}

fn is_space(ch: char) -> (r: bool)
    ensures
        r == is_ws(ch),
{
    let u = ch as u32;
    (9 <= u && u <= 13) || u == 32 || u == 0x85 || u == 0xa0 || u == 0x1680 || (0x2000 <= u && u <= 0x200a) || u
        == 0x2028 || u == 0x2029 || u == 0x202f || u == 0x205f || u == 0x3000
}

/// Bounds of the pieces of `c[lo..hi]` between occurrences of `d`.
pub fn split_bounds(c: &Vec<char>, lo: usize, hi: usize, d: char) -> (r: Vec<(usize, usize)>)
    requires
        lo <= hi <= c@.len(),
    ensures
        r@.len() == split_on(c@.subrange(lo as int, hi as int), d).len(),
        forall|k: int|
            0 <= k < r@.len() ==> lo <= (#[trigger] r@[k]).0 <= r@[k].1 <= hi && c@.subrange(
                r@[k].0 as int,
                r@[k].1 as int,
            ) == split_on(c@.subrange(lo as int, hi as int), d)[k],
{
    let mut done: Vec<(usize, usize)> = Vec::new();
    let mut st: usize = lo;
    let mut i: usize = lo;
    proof {
        assert(c@.subrange(lo as int, lo as int) =~= Seq::<char>::empty());
    }
    while i < hi
        invariant
            lo <= st <= i <= hi <= c@.len(),
            split_on(c@.subrange(lo as int, i as int), d).len() == done@.len() + 1,
            split_on(c@.subrange(lo as int, i as int), d).last() == c@.subrange(st as int, i as int),
            forall|k: int|
                0 <= k < done@.len() ==> lo <= (#[trigger] done@[k]).0 <= done@[k].1 <= i && c@.subrange(
                    done@[k].0 as int,
                    done@[k].1 as int,
                ) == split_on(c@.subrange(lo as int, i as int), d)[k],
        decreases hi - i,
    {
        proof {
            let s = c@.subrange(lo as int, i + 1);
            assert(s.drop_last() =~= c@.subrange(lo as int, i as int));
            assert(s.last() == c@[i as int]);
            lemma_split_on_nonempty(c@.subrange(lo as int, i as int), d);
            if c@[i as int] != d {
                assert(c@.subrange(st as int, i as int).push(c@[i as int]) =~= c@.subrange(st as int, i + 1));
            } else {
                assert(c@.subrange(i + 1, i + 1) =~= Seq::<char>::empty());
            }
        }
        if c[i] == d {
            done.push((st, i));
            st = i + 1;
        }
        i += 1;
    }
    done.push((st, hi));
    done
}

/// `c[lo..hi]` read as a `u32`, as `u32::from_str` reads it.
pub fn parse_u32(c: &Vec<char>, lo: usize, hi: usize) -> (r: Option<u32>)
    requires
        lo <= hi <= c@.len(),
    ensures
        r == u32_of(c@.subrange(lo as int, hi as int)),
{
    let ghost s = c@.subrange(lo as int, hi as int);
    let mut i: usize = lo;
    if i < hi && c[i] == '+' {
        i += 1;
    }
    let ghost t = unsigned_part(s);
    proof {
        assert(t =~= c@.subrange(i as int, hi as int));
    }
    if i == hi {
        return None;
    }
    let start = i;
    let mut v: u64 = 0;
    proof {
        assert(t.subrange(0, 0) =~= Seq::<char>::empty());
    }
    while i < hi
        invariant
            lo <= start <= i <= hi <= c@.len(),
            t == c@.subrange(start as int, hi as int),
            s == c@.subrange(lo as int, hi as int),
            t == unsigned_part(s),
            t.len() > 0,
            forall|k: int| 0 <= k < i - start ==> is_digit(#[trigger] t[k]),
            v as int == digits_value(t.subrange(0, i - start)),
            v <= u32::MAX,
        decreases hi - i,
    {
        let ch = c[i];
        if !('0' <= ch && ch <= '9') {
            proof {
                assert(!is_digit(t[i - start]));
                assert(!all_digits(t));
                assert(u32_of(s) is None);
            }
            return None;
        }
        proof {
            assert(t.subrange(0, i - start + 1).drop_last() =~= t.subrange(0, i - start));
        }
        v = v * 10 + (ch as u32 - '0' as u32) as u64;
        if v > u32::MAX as u64 {
            proof {
                let head = t.subrange(0, i - start + 1);
                assert(head.last() == ch);
                assert(digits_value(head) == 10 * digits_value(t.subrange(0, i - start)) + (ch as u32 - '0' as u32));
                assert(digits_value(head) > u32::MAX);
                if all_digits(t) {
                    lemma_digits_prefix(t, i - start + 1, t.len() as int);
                    assert(t.subrange(0, t.len() as int) =~= t);
                }
                assert(u32_of(s) is None);
            }
            return None;
        }
        i += 1;
    }
    proof {
        assert(t.subrange(0, t.len() as int) =~= t);
    }
    Some(v as u32)
}

/// `c[lo..hi]` holds exactly the characters of `lit`.
pub fn text_equals(c: &Vec<char>, lo: usize, hi: usize, lit: &str) -> (r: bool)
    requires
        lo <= hi <= c@.len(),
    ensures
        r == (c@.subrange(lo as int, hi as int) == lit@),
{
    let n = lit.unicode_len();
    if hi - lo != n {
        return false;
    }
    let mut i: usize = 0;
    while i < n
        invariant
            n == lit@.len(),
            hi - lo == n,
            lo <= hi <= c@.len(),
            i <= n,
            forall|k: int| 0 <= k < i ==> c@[lo + k] == lit@[k],
        decreases n - i,
    {
        if c[lo + i] != lit.get_char(i) {
            proof {
                assert(c@.subrange(lo as int, hi as int)[i as int] != lit@[i as int]);
            }
            return false;
        }
        i += 1;
    }
    proof {
        assert(c@.subrange(lo as int, hi as int) =~= lit@);
    }
    true
}

/// `c[i..]` starts with `p`.
fn starts_at(c: &Vec<char>, i: usize, hi: usize, p: &Vec<char>) -> (r: bool)
    requires
        i <= hi <= c@.len(),
        hi - i >= p@.len(),
    ensures
        r == (c@.subrange(i as int, hi as int).take(p@.len() as int) == p@),
{
    let mut k: usize = 0;
    while k < p.len()
        invariant
            i <= hi <= c@.len(),
            hi - i >= p@.len(),
            k <= p@.len(),
            forall|m: int| 0 <= m < k ==> c@[i + m] == p@[m],
        decreases p@.len() - k,
    {
        if c[i + k] != p[k] {
            proof {
                assert(c@.subrange(i as int, hi as int).take(p@.len() as int)[k as int] != p@[k as int]);
            }
            return false;
        }
        k += 1;
    }
    proof {
        assert(c@.subrange(i as int, hi as int).take(p@.len() as int) =~= p@);
    }
    true
}

/// Bounds of the pieces of `c[lo..hi]` between occurrences of `p`, matched
/// from left to right without overlap.
pub fn split_pattern_bounds(c: &Vec<char>, lo: usize, hi: usize, p: &Vec<char>) -> (r: Vec<(usize, usize)>)
    requires
        lo <= hi <= c@.len(),
        p@.len() > 0,
    ensures
        r@.len() == split_pat(c@.subrange(lo as int, hi as int), p@).len(),
        forall|k: int|
            0 <= k < r@.len() ==> lo <= (#[trigger] r@[k]).0 <= r@[k].1 <= hi && c@.subrange(
                r@[k].0 as int,
                r@[k].1 as int,
            ) == split_pat(c@.subrange(lo as int, hi as int), p@)[k],
{
    let ghost w = split_pat(c@.subrange(lo as int, hi as int), p@);
    let pl = p.len();
    let mut done: Vec<(usize, usize)> = Vec::new();
    let mut st: usize = lo;
    let mut i: usize = lo;
    proof {
        lemma_split_pat_nonempty(c@.subrange(lo as int, hi as int), p@);
        assert(c@.subrange(lo as int, lo as int) =~= Seq::<char>::empty());
        assert(Seq::<char>::empty() + w[0] =~= w[0]);
    }
    while hi - i >= pl
        invariant
            lo <= st <= i <= hi <= c@.len(),
            pl == p@.len(),
            pl > 0,
            w == split_pat(c@.subrange(lo as int, hi as int), p@),
            w.len() == done@.len() + split_pat(c@.subrange(i as int, hi as int), p@).len(),
            split_pat(c@.subrange(i as int, hi as int), p@).len() >= 1,
            forall|k: int|
                0 <= k < done@.len() ==> lo <= (#[trigger] done@[k]).0 <= done@[k].1 <= hi && c@.subrange(
                    done@[k].0 as int,
                    done@[k].1 as int,
                ) == w[k],
            w[done@.len() as int] == c@.subrange(st as int, i as int) + split_pat(c@.subrange(i as int, hi as int), p@)[0],
            forall|k: int|
                1 <= k < split_pat(c@.subrange(i as int, hi as int), p@).len() ==> w[done@.len() + k]
                    == split_pat(c@.subrange(i as int, hi as int), p@)[k],
        decreases hi - i,
    {
        let ghost s = c@.subrange(i as int, hi as int);
        if starts_at(c, i, hi, p) {
            proof {
                assert(s.skip(pl as int) =~= c@.subrange(i + pl, hi as int));
                let r = split_pat(s.skip(pl as int), p@);
                lemma_split_pat_nonempty(s.skip(pl as int), p@);
                assert(split_pat(s, p@) == seq![Seq::<char>::empty()] + r);
                assert(c@.subrange(st as int, i as int) + Seq::<char>::empty() =~= c@.subrange(st as int, i as int));
                assert(c@.subrange(i + pl, i + pl) =~= Seq::<char>::empty());
                assert(Seq::<char>::empty() + r[0] =~= r[0]);
                assert forall|k: int| 1 <= k < r.len() implies w[done@.len() + 1 + k] == r[k] by {
                    assert(split_pat(s, p@)[k + 1] == r[k]);
                }
                assert(w[(done@.len() + 1) as int] == split_pat(s, p@)[1]);
            }
            done.push((st, i));
            st = i + pl;
            i = i + pl;
        } else {
            proof {
                assert(s.drop_first() =~= c@.subrange(i + 1, hi as int));
                let r = split_pat(s.drop_first(), p@);
                lemma_split_pat_nonempty(s.drop_first(), p@);
                assert(split_pat(s, p@) == r.update(0, seq![s[0]] + r[0]));
                assert(c@.subrange(st as int, i as int) + (seq![s[0]] + r[0]) =~= c@.subrange(st as int, i + 1) + r[0]);
                assert forall|k: int| 1 <= k < r.len() implies w[done@.len() + k] == r[k] by {
                    assert(split_pat(s, p@)[k] == r[k]);
                }
            }
            i = i + 1;
        }
    }
    proof {
        let s = c@.subrange(i as int, hi as int);
        assert(split_pat(s, p@) == seq![s]);
        assert(c@.subrange(st as int, i as int) + s =~= c@.subrange(st as int, hi as int));
    }
    done.push((st, hi));
    done
}

} // verus!
