use vstd::prelude::*;

verus! {

/// Dot product of two integer sequences over the first `n` positions.
pub open spec fn dot_prefix(a: Seq<int>, b: Seq<int>, n: int) -> int
    decreases n,
{
    if n <= 0 {
        0
    } else {
        dot_prefix(a, b, n - 1) + a[n - 1] * b[n - 1]
    }
}

/// Dot product of two integer sequences of equal length.
pub open spec fn dot(a: Seq<int>, b: Seq<int>) -> int {
    dot_prefix(a, b, a.len() as int)
}

pub open spec fn int_seq_u16(s: Seq<u16>) -> Seq<int> {
    s.map_values(|x: u16| x as int)
}

pub open spec fn int_seq_i16(s: Seq<i16>) -> Seq<int> {
    s.map_values(|x: i16| x as int)
}

pub open spec fn int_seq_i8(s: Seq<i8>) -> Seq<int> {
    s.map_values(|x: i8| x as int)
}

/// The elementwise difference of two equally long sequences of signed bytes.
pub open spec fn diff_seq(a: Seq<i8>, b: Seq<i8>) -> Seq<int> {
    Seq::new(a.len(), |i: int| a[i] - b[i])
}

pub open spec fn int_seq_i64(s: Seq<i64>) -> Seq<int> {
    s.map_values(|x: i64| x as int)
}

/// The elementwise difference of two equally long integer sequences.
pub open spec fn sub_seqs(a: Seq<int>, b: Seq<int>) -> Seq<int> {
    Seq::new(a.len(), |i: int| a[i] - b[i])
}

/// The dot product distributes over an elementwise difference.
pub proof fn lemma_dot_prefix_sub(k: Seq<int>, a: Seq<int>, b: Seq<int>, n: int)
    requires
        0 <= n <= k.len(),
        a.len() == k.len(),
        b.len() == k.len(),
    ensures
        dot_prefix(k, sub_seqs(a, b), n) == dot_prefix(k, a, n) - dot_prefix(k, b, n),
    decreases n,
{
    if n > 0 {
        lemma_dot_prefix_sub(k, a, b, n - 1);
        assert(k[n - 1] * (a[n - 1] - b[n - 1]) == k[n - 1] * a[n - 1] - k[n - 1] * b[n - 1])
            by (nonlinear_arith);
    }
}

/// The dot product of `k` with a vector whose entries are
/// `b[i] * c1 - k[i] * c2` equals `c1` times the dot product with `b`
/// minus `c2` times the dot product of `k` with itself.
pub proof fn lemma_dot_prefix_affine(
    k: Seq<int>,
    e: Seq<int>,
    b: Seq<int>,
    c1: int,
    c2: int,
    n: int,
)
    requires
        0 <= n <= k.len(),
        e.len() == k.len(),
        b.len() == k.len(),
        forall|i: int| 0 <= i < n ==> #[trigger] e[i] == b[i] * c1 - k[i] * c2,
    ensures
        dot_prefix(k, e, n) == c1 * dot_prefix(k, b, n) - c2 * dot_prefix(k, k, n),
    decreases n,
{
    if n > 0 {
        lemma_dot_prefix_affine(k, e, b, c1, c2, n - 1);
        assert(dot_prefix(k, e, n) == c1 * dot_prefix(k, b, n) - c2 * dot_prefix(k, k, n))
            by (nonlinear_arith)
            requires
                dot_prefix(k, e, n) == dot_prefix(k, e, n - 1) + k[n - 1] * e[n - 1],
                dot_prefix(k, b, n) == dot_prefix(k, b, n - 1) + k[n - 1] * b[n - 1],
                dot_prefix(k, k, n) == dot_prefix(k, k, n - 1) + k[n - 1] * k[n - 1],
                e[n - 1] == b[n - 1] * c1 - k[n - 1] * c2,
                dot_prefix(k, e, n - 1) == c1 * dot_prefix(k, b, n - 1) - c2 * dot_prefix(
                    k,
                    k,
                    n - 1,
                ),
        ;
    }
}

/// The dot product of a vector of entries at least 2 with itself is at
/// least four times its length.
pub proof fn lemma_dot_prefix_sq_pos(k: Seq<int>, n: int)
    requires
        0 <= n <= k.len(),
        forall|i: int| 0 <= i < n ==> 2 <= #[trigger] k[i],
    ensures
        dot_prefix(k, k, n) >= 4 * n,
    decreases n,
{
    if n > 0 {
        lemma_dot_prefix_sq_pos(k, n - 1);
        assert(k[n - 1] * k[n - 1] >= 4) by (nonlinear_arith)
            requires
                k[n - 1] >= 2,
        ;
    }
}

/// Whether the two vectors' dot product is zero, accumulated in 64 bits.
pub fn are_orthogonal(vector1: &[u16], vector2: &[i16]) -> (r: bool)
    requires
        vector1@.len() == vector2@.len(),
        vector1@.len() <= 0x1000_0000,
    ensures
        r == (dot(int_seq_u16(vector1@), int_seq_i16(vector2@)) == 0),
{
    let ghost a = int_seq_u16(vector1@);
    let ghost b = int_seq_i16(vector2@);
    let n = vector1.len();
    let mut acc: i64 = 0;
    let mut k: usize = 0;
    while k < n
        invariant
            0 <= k <= n,
            n == vector1@.len() == vector2@.len(),
            n <= 0x1000_0000,
            a == int_seq_u16(vector1@),
            b == int_seq_i16(vector2@),
            acc == dot_prefix(a, b, k as int),
            -(k as int) * 0x8000_0000 <= acc <= (k as int) * 0x8000_0000,
        decreases n - k,
    {
        let e1 = vector1[k];
        let e2 = vector2[k];
        assert(-0x8000_0000 <= (e1 as int) * (e2 as int) <= 0x8000_0000) by (nonlinear_arith)
            requires
                0 <= e1 < 0x10000,
                -0x8000 <= e2 < 0x8000,
        ;
        let term: i64 = (e1 as i64) * (e2 as i64);
        assert(a[k as int] == e1 as int && b[k as int] == e2 as int);
        assert((k as int) * 0x8000_0000 + 0x8000_0000 == (k + 1) as int * 0x8000_0000)
            by (nonlinear_arith);
        acc = acc + term;
        k = k + 1;
    }
    acc == 0
}

/// Writes the elementwise difference of the two vectors into `output`.
pub fn vector_difference(vector1: &[i8], vector2: &[i8], output: &mut Vec<i16>)
    requires
        vector1@.len() == vector2@.len(),
        old(output)@.len() == vector1@.len(),
    ensures
        final(output)@.len() == vector1@.len(),
        forall|i: int|
            0 <= i < vector1@.len() ==> #[trigger] final(output)@[i] == vector1@[i] - vector2@[i],
{
    let vector_size = vector1.len();
    let mut i: usize = 0;
    while i < vector_size
        invariant
            0 <= i <= vector_size,
            vector_size == vector1@.len() == vector2@.len(),
            output@.len() == vector_size,
            forall|j: int| 0 <= j < i ==> #[trigger] output@[j] == vector1@[j] - vector2@[j],
        decreases vector_size - i,
    {
        let d: i16 = (vector1[i] as i16) - (vector2[i] as i16);
        output.set(i, d);
        i = i + 1;
    }
}

} // verus!
