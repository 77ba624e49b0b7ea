//! Manifolds, Betti numbers and Euler characteristics.

use vstd::prelude::*;

verus! {

/// The `k`-th term of an alternating sum of counts: the count is read as an
/// `i64` (as a cast does) and carries the sign of `(-1)^k`.
pub open spec fn euler_term(k: int, b: usize) -> int {
    if k % 2 == 0 { (b as i64) as int } else { -((b as i64) as int) }
}

/// `Σ_k (-1)^k s[k]`, each count read as an `i64`.
pub open spec fn euler_sum(s: Seq<usize>) -> int
    decreases s.len(),
{
    if s.len() == 0 {
        0
    } else {
        euler_sum(s.drop_last()) + euler_term(s.len() - 1, s.last())
    }
}

/// Every running total of `euler_sum(s)`, and every negated odd term, fits in
/// an `i64`: the alternating sum can be computed without overflow.
pub open spec fn euler_sum_fits(s: Seq<usize>) -> bool {
    &&& forall|m: int|
        0 <= m <= s.len() ==> i64::MIN <= #[trigger] euler_sum(s.take(m)) <= i64::MAX
    &&& forall|k: int| 0 <= k < s.len() && k % 2 == 1 ==> (#[trigger] s[k] as i64) != i64::MIN
}

/// The character of the decimal digit `d` (for `0 <= d < 10`).
pub open spec fn digit_char(d: int) -> char {
    if d == 0 { '0' }
    else if d == 1 { '1' }
    else if d == 2 { '2' }
    else if d == 3 { '3' }
    else if d == 4 { '4' }
    else if d == 5 { '5' }
    else if d == 6 { '6' }
    else if d == 7 { '7' }
    else if d == 8 { '8' }
    else { '9' }
}

/// The decimal numeral of `n`, without leading zeros.
pub open spec fn decimal(n: nat) -> Seq<char>
    decreases n,
{
    if n < 10 {
        seq![digit_char(n as int)]
    } else {
        decimal(n / 10) + seq![digit_char((n % 10) as int)]
    }
}

fn digit_str(d: usize) -> (s: &'static str)
    requires
        d < 10,
    ensures
        s@ == seq![digit_char(d as int)],
{
    proof {
        reveal_strlit("0");
        reveal_strlit("1");
        reveal_strlit("2");
        reveal_strlit("3");
        reveal_strlit("4");
        reveal_strlit("5");
        reveal_strlit("6");
        reveal_strlit("7");
        reveal_strlit("8");
        reveal_strlit("9");
    }
    match d {
        0 => "0",
        1 => "1",
        2 => "2",
        3 => "3",
        4 => "4",
        5 => "5",
        6 => "6",
        7 => "7",
        8 => "8",
        _ => "9",
    }
}

/// Appends the decimal numeral of `n` to `s`.
fn push_decimal(s: &mut String, n: usize)
    ensures
        final(s)@ == old(s)@ + decimal(n as nat),
    decreases n,
{
    if n >= 10 {
        push_decimal(s, n / 10);
    }
    s.append(digit_str(n % 10));
    proof {
        if n >= 10 {
            assert(decimal(n as nat) == decimal((n / 10) as nat) + seq![digit_char((n % 10) as int)]);
        }
    }
    assert(final(s)@ =~= old(s)@ + decimal(n as nat));
}

/// The name `prefix` followed by `^` and the decimal numeral of `n`.
pub open spec fn exponent_name(prefix: char, n: nat) -> Seq<char> {
    seq![prefix, '^'] + decimal(n)
}

/// A differentiable manifold, known by its dimension and a name.
pub struct Manifold {
    /// Embedding dimension.
    pub dimension: usize,
    /// Optional name for identification.
    pub name: String,
}

impl Manifold {
    /// Create a new manifold of the given dimension, with an empty name.
    pub fn new(dimension: usize) -> (m: Self)
        ensures
            m.dimension == dimension,
            m.name@ == Seq::<char>::empty(),
    {
        Manifold { dimension, name: String::new() }
    }

    /// Create a named manifold.
    pub fn named(dimension: usize, name: &str) -> (m: Self)
        ensures
            m.dimension == dimension,
            m.name@ == name@,
    {
        Manifold { dimension, name: String::from_str(name) }
    }

    fn with_exponent_name(n: usize, prefix: &str, c: Ghost<char>) -> (m: Self)
        requires
            prefix@ == seq![c@, '^'],
        ensures
            m.dimension == n,
            m.name@ == exponent_name(c@, n as nat),
    {
        let mut name = String::from_str(prefix);
        push_decimal(&mut name, n);
        Manifold { dimension: n, name }
    }

    /// The n-sphere, named `S^n`.
    pub fn sphere(n: usize) -> (m: Self)
        ensures
            m.dimension == n,
            m.name@ == exponent_name('S', n as nat),
    {
        proof {
            reveal_strlit("S^");
            assert("S^"@ =~= seq!['S', '^']);
        }
        Self::with_exponent_name(n, "S^", Ghost('S'))
    }

    /// The n-torus, named `T^n`.
    pub fn torus(n: usize) -> (m: Self)
        ensures
            m.dimension == n,
            m.name@ == exponent_name('T', n as nat),
    {
        proof {
            reveal_strlit("T^");
            assert("T^"@ =~= seq!['T', '^']);
        }
        Self::with_exponent_name(n, "T^", Ghost('T'))
    }

    /// Euclidean space R^n as a manifold, named `R^n`.
    pub fn euclidean(n: usize) -> (m: Self)
        ensures
            m.dimension == n,
            m.name@ == exponent_name('R', n as nat),
    {
        proof {
            reveal_strlit("R^");
            assert("R^"@ =~= seq!['R', '^']);
        }
        Self::with_exponent_name(n, "R^", Ghost('R'))
    }

    /// Euler characteristic from Betti numbers: `Σ_k (-1)^k b_k`.
    pub fn euler_characteristic(betti: &[usize]) -> (chi: i64)
        requires
            euler_sum_fits(betti@),
        ensures
            chi == euler_sum(betti@),
    {
        let mut acc: i64 = 0;
        let mut k: usize = 0;
        while k < betti.len()
            invariant
                k <= betti.len(),
                euler_sum_fits(betti@),
                acc == euler_sum(betti@.take(k as int)),
            decreases betti.len() - k,
        {
            let b: i64 = betti[k] as i64;
            assert(betti@.take(k + 1).drop_last() =~= betti@.take(k as int));
            assert(euler_sum(betti@.take(k + 1)) == acc + euler_term(k as int, betti@[k as int]));
            assert(i64::MIN <= euler_sum(betti@.take(k + 1)) <= i64::MAX);
            let term: i64 = if k % 2 == 0 {
                b
            } else {
                assert((betti@[k as int] as i64) != i64::MIN);
                -b
            };
            assert(term == euler_term(k as int, betti@[k as int]));
            acc = acc + term;
            k = k + 1;
        }
        assert(betti@.take(betti.len() as int) =~= betti@);
        acc
    }
}

/// Σ of all the entries of `s`.
pub open spec fn seq_sum(s: Seq<usize>) -> int
    decreases s.len(),
{
    if s.len() == 0 {
        0
    } else {
        seq_sum(s.drop_last()) + s.last()
    }
}

/// Betti numbers of a topological space: `numbers[k]` is `b_k`.
pub struct BettiNumbers {
    pub numbers: Vec<usize>,
}

impl BettiNumbers {
    pub fn new(numbers: Vec<usize>) -> (b: Self)
        ensures
            b.numbers@ == numbers@,
    {
        BettiNumbers { numbers }
    }

    /// The Euler characteristic `Σ_k (-1)^k b_k`.
    pub fn euler_characteristic(&self) -> (chi: i64)
        requires
            euler_sum_fits(self.numbers@),
        ensures
            chi == euler_sum(self.numbers@),
    {
        Manifold::euler_characteristic(self.numbers.as_slice())
    }

    /// `b_k`, which is 0 beyond the stored numbers.
    pub fn get(&self, k: usize) -> (b: usize)
        ensures
            k < self.numbers.len() ==> b == self.numbers@[k as int],
            k >= self.numbers.len() ==> b == 0,
    {
        if k < self.numbers.len() {
            self.numbers[k]
        } else {
            0
        }
    }

    /// Total rank: the sum of all Betti numbers.
    pub fn total_rank(&self) -> (r: usize)
        requires
            seq_sum(self.numbers@) <= usize::MAX,
        ensures
            r == seq_sum(self.numbers@),
    {
        let mut acc: usize = 0;
        let mut k: usize = 0;
        while k < self.numbers.len()
            invariant
                k <= self.numbers.len(),
                seq_sum(self.numbers@) <= usize::MAX,
                acc == seq_sum(self.numbers@.take(k as int)),
            decreases self.numbers.len() - k,
        {
            assert(self.numbers@.take(k + 1).drop_last() =~= self.numbers@.take(k as int));
            proof {
                lemma_seq_sum_prefix_le(self.numbers@, k + 1);
            }
            acc = acc + self.numbers[k];
            k = k + 1;
        }
        assert(self.numbers@.take(self.numbers.len() as int) =~= self.numbers@);
        acc
    }
}

/// A prefix never sums to more than the whole sequence.
pub proof fn lemma_seq_sum_prefix_le(s: Seq<usize>, m: int)
    requires
        0 <= m <= s.len(),
    ensures
        seq_sum(s.take(m)) <= seq_sum(s),
    decreases s.len(),
{
    if m < s.len() {
        assert(s.drop_last().take(m) =~= s.take(m));
        lemma_seq_sum_prefix_le(s.drop_last(), m);
    } else {
        assert(s.take(m) =~= s);
    }
}

/// The Euler characteristic of two sequences of counts joined end to end is
/// that of the first plus that of the second, whose signs flip when the
/// first has odd length: `χ(a ++ b) = χ(a) + (-1)^|a| χ(b)`.
pub proof fn law_euler_of_concatenation(a: Seq<usize>, b: Seq<usize>)
    ensures
        euler_sum(a + b) == euler_sum(a) + if a.len() % 2 == 0 { euler_sum(b) } else { -euler_sum(b) },
    decreases b.len(),
{
    if b.len() == 0 {
        assert(a + b =~= a);
    } else {
        law_euler_of_concatenation(a, b.drop_last());
        assert((a + b).drop_last() =~= a + b.drop_last());
        assert((a + b).last() == b.last());
    }
}

} // verus!
