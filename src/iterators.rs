//! Sequence transformations: sums of squares, bounded absolute values, leading
//! even values, squares of whole numbers and the Fibonacci sequence.
use vstd::prelude::*;

verus! {

/// Sum of the squares of the elements of `s`.
pub open spec fn sum_sq(s: Seq<u32>) -> int
    decreases s.len(),
{
    if s.len() == 0 {
        0
    } else {
        sum_sq(s.drop_last()) + s.last() as int * s.last() as int
    }
}

proof fn lemma_sum_sq_prefix(s: Seq<u32>, i: int, j: int)
    requires
        0 <= i <= j <= s.len(),
    ensures
        sum_sq(s.subrange(0, i)) <= sum_sq(s.subrange(0, j)),
    decreases j - i,
{
    if i < j {
        assert(s.subrange(0, j).drop_last() =~= s.subrange(0, j - 1));
        assert(s[j - 1] as int * s[j - 1] as int >= 0) by (nonlinear_arith);
        lemma_sum_sq_prefix(s, i, j - 1);
    }
}

/// Squares each value and returns the sum of the squares; the sum must fit in `u32`.
pub fn sum_of_squares(vals: &[u32]) -> (r: u32)
    requires
        sum_sq(vals@) <= u32::MAX,
    ensures
        r as int == sum_sq(vals@),
{
    let mut sum: u32 = 0;
    let mut i: usize = 0;
    while i < vals.len()
        invariant
            i <= vals@.len(),
            sum_sq(vals@) <= u32::MAX,
            sum as int == sum_sq(vals@.subrange(0, i as int)),
        decreases vals@.len() - i,
    {
        let val = vals[i];
        proof {
            assert(vals@.subrange(0, i + 1).drop_last() =~= vals@.subrange(0, i as int));
            lemma_sum_sq_prefix(vals@, i + 1, vals@.len() as int);
            assert(vals@.subrange(0, vals@.len() as int) =~= vals@);
            assert(sum as int + val as int * val as int <= u32::MAX);
            assert(0 <= val as int * val as int) by (nonlinear_arith);
        }
        sum = sum + val * val;
        i += 1;
    }
    proof {
        assert(vals@.subrange(0, vals@.len() as int) =~= vals@);
    }
    sum
}

/// Absolute value.
pub open spec fn abs_of(x: i32) -> int {
    if x < 0 {
        -x
    } else {
        x as int
    }
}

/// Absolute values of the elements of `s`, in order, leaving out those over 100.
pub open spec fn bounded_abs(s: Seq<i32>) -> Seq<u32>
    decreases s.len(),
{
    if s.len() == 0 {
        Seq::empty()
    } else if abs_of(s.last()) <= 100 {
        bounded_abs(s.drop_last()).push(abs_of(s.last()) as u32)
    } else {
        bounded_abs(s.drop_last())
    }
}

/// The absolute value of each value, keeping only those that are at most 100.
pub fn bounded_absolute_values(vals: &[i32]) -> (r: Vec<u32>)
    ensures
        r@ == bounded_abs(vals@),
{
    let mut out: Vec<u32> = Vec::new();
    let mut i: usize = 0;
    while i < vals.len()
        invariant
            i <= vals@.len(),
            out@ == bounded_abs(vals@.subrange(0, i as int)),
        decreases vals@.len() - i,
    {
        let x = vals[i];
        let a: u32 = if x < 0 { (0i64 - x as i64) as u32 } else { x as u32 };
        proof {
            assert(vals@.subrange(0, i + 1).drop_last() =~= vals@.subrange(0, i as int));
        }
        if a <= 100 {
            out.push(a);
        }
        i += 1;
    }
    proof {
        assert(vals@.subrange(0, vals@.len() as int) =~= vals@);
    }
    out
}

/// The even elements of `s`, in order.
pub open spec fn evens(s: Seq<u32>) -> Seq<u32>
    decreases s.len(),
{
    if s.len() == 0 {
        Seq::empty()
    } else if s.last() % 2 == 0 {
        evens(s.drop_last()).push(s.last())
    } else {
        evens(s.drop_last())
    }
}

/// The first `n` even elements of `s`, or all of them where there are fewer.
pub open spec fn first_evens(s: Seq<u32>, n: int) -> Seq<u32> {
    if evens(s).len() <= n {
        evens(s)
    } else {
        evens(s).take(n)
    }
}

/// The first value of `vals` is a count `n`; returns the first `n` even values
/// among the rest (as many as there are, where fewer), or `None` where `vals` is empty.
pub fn first_n_even(vals: &[u32]) -> (r: Option<Vec<u32>>)
    ensures
        vals@.len() == 0 <==> r is None,
        r matches Some(v) ==> v@ == first_evens(vals@.drop_first(), vals@[0] as int),
{
    if vals.len() == 0 {
        return None;
    }
    let n = vals[0];
    let mut out: Vec<u32> = Vec::new();
    let mut i: usize = 1;
    proof {
        assert(vals@.subrange(1, 1) =~= Seq::<u32>::empty());
    }
    while i < vals.len()
        invariant
            1 <= i <= vals@.len(),
            n == vals@[0],
            out@ == first_evens(vals@.subrange(1, i as int), n as int),
        decreases vals@.len() - i,
    {
        let x = vals[i];
        proof {
            let s = vals@.subrange(1, i as int);
            assert(vals@.subrange(1, i + 1) =~= s.push(x));
            assert(s.push(x).drop_last() =~= s);
            let e = evens(s);
            if x % 2 == 0 {
                assert(evens(s.push(x)) == e.push(x));
                if e.len() >= n {
                    assert(e.push(x).take(n as int) =~= first_evens(s, n as int));
                } else {
                    assert(out@.push(x) =~= e.push(x));
                }
            }
        }
        if x % 2 == 0 && out.len() < n as usize {
            out.push(x);
        }
        i += 1;
    }
    proof {
        assert(vals@.subrange(1, vals@.len() as int) =~= vals@.drop_first());
    }
    Some(out)
}

/// The squares of the whole numbers below `count`: 0, 1, 4, 9, ...; every
/// square below 65536 squared fits in `u32`.
pub fn square_whole_numbers(count: u32) -> (r: Vec<u32>)
    requires
        count <= 65536,
    ensures
        r@.len() == count,
        forall|i: int| 0 <= i < count ==> r@[i] as int == i * i,
{
    let mut out: Vec<u32> = Vec::new();
    let mut x: u32 = 0;
    while x < count
        invariant
            x <= count <= 65536,
            out@.len() == x,
            forall|i: int| 0 <= i < x ==> out@[i] as int == i * i,
        decreases count - x,
    {
        assert(x as int * x as int <= 65535 * 65535) by (nonlinear_arith)
            requires
                x < 65536,
        ;
        out.push(x * x);
        x += 1;
    }
    out
}

/// The Fibonacci numbers: 0, 1, 1, 2, 3, 5, ...
pub open spec fn fib(n: nat) -> nat
    decreases n,
{
    if n == 0 {
        0
    } else if n == 1 {
        1
    } else {
        fib((n - 2) as nat) + fib((n - 1) as nat)
    }
}

/// Yields the Fibonacci sequence, one number per call of `next`, as long as
/// the numbers fit in `u32`.
pub struct Fibonacci {
    /// The most recent value yielded
    prev: Option<u32>,
    /// The second most recent value yielded
    prev_prev: Option<u32>,
    /// How many values have been yielded
    yielded: Ghost<nat>,
}

impl Fibonacci {
    /// How many values have been yielded so far.
    pub closed spec fn count(&self) -> nat {
        self.yielded@
    }

    /// The remembered values are the last two that were yielded.
    pub closed spec fn wf(&self) -> bool {
        let k = self.yielded@;
        if k == 0 {
            self.prev is None && self.prev_prev is None
        } else if k == 1 {
            self.prev == Some(0u32) && self.prev_prev is None
        } else {
            self.prev matches Some(p) && self.prev_prev matches Some(pp) && p as nat == fib((k - 1) as nat)
                && pp as nat == fib((k - 2) as nat)
        }
    }

    /// A generator that has yielded nothing yet.
    pub fn new() -> (f: Fibonacci)
        ensures
            f.wf(),
            f.count() == 0,
    {
        Fibonacci { prev: None, prev_prev: None, yielded: Ghost(0) }
    }

    /// The next Fibonacci number, or `None` once it no longer fits in `u32`.
    pub fn next(&mut self) -> (r: Option<u32>)
        requires
            old(self).wf(),
        ensures
            final(self).wf(),
            fib(old(self).count()) <= u32::MAX ==> r == Some(fib(old(self).count()) as u32) && final(self).count()
                == old(self).count() + 1,
            fib(old(self).count()) > u32::MAX ==> r is None && final(self).count() == old(self).count(),
    {
        let ghost k = self.yielded@;
        match (self.prev_prev, self.prev) {
            (Some(prev_prev), Some(prev)) => {
                if prev_prev as u64 + prev as u64 > u32::MAX as u64 {
                    return None;
                }
                let result = prev_prev + prev;
                self.prev_prev = self.prev;
                self.prev = Some(result);
                self.yielded = Ghost(k + 1);
                Some(result)
            },
            (None, Some(prev)) => {
                self.prev_prev = Some(prev);
                self.prev = Some(1);
                self.yielded = Ghost(k + 1);
                proof {
                    assert(fib(1) == 1);
                }
                Some(1)
            },
            (_, None) => {
                self.prev = Some(0);
                self.prev_prev = None;
                self.yielded = Ghost(k + 1);
                Some(0)
            },
        }
    }
}

impl Default for Fibonacci {
    fn default() -> (f: Fibonacci)
        ensures
            f.wf(),
            f.count() == 0,
    {
        Fibonacci::new()
    }
}

} // verus!
