use vstd::prelude::*;

use crate::read::{lemma_skip_skip, ReadError, Readable, Usize};
use crate::source::Source;

verus! {

/// A kind that reads no token and always gives itself: a field kept only for its place.
#[derive(Debug, Clone, Copy, PartialEq, Eq, Structural)]
pub struct Marker;

impl Readable for Marker {
    type Output = Marker;

    open spec fn error(&self, toks: Seq<Seq<u8>>) -> Option<ReadError> {
        None
    }

    open spec fn used(&self, toks: Seq<Seq<u8>>) -> nat {
        0
    }

    open spec fn value(&self, toks: Seq<Seq<u8>>, out: Marker) -> bool {
        out == Marker
    }

    proof fn lemma_used_fits(&self, toks: Seq<Seq<u8>>) {
    }

    fn read<S: Source>(&self, source: &mut S) -> (r: Result<Marker, ReadError>) {
        assert(source.tokens().skip(0) =~= source.tokens());
        Ok(Marker)
    }
}

/// Two kinds read one after the other.
impl<A: Readable, B: Readable> Readable for (A, B) {
    type Output = (A::Output, B::Output);

    open spec fn error(&self, toks: Seq<Seq<u8>>) -> Option<ReadError> {
        match self.0.error(toks) {
            Some(e) => Some(e),
            None => self.1.error(toks.skip(self.0.used(toks) as int)),
        }
    }

    open spec fn used(&self, toks: Seq<Seq<u8>>) -> nat {
        self.0.used(toks) + self.1.used(toks.skip(self.0.used(toks) as int))
    }

    open spec fn value(&self, toks: Seq<Seq<u8>>, out: (A::Output, B::Output)) -> bool {
        self.0.value(toks, out.0) && self.1.value(toks.skip(self.0.used(toks) as int), out.1)
    }

    proof fn lemma_used_fits(&self, toks: Seq<Seq<u8>>) {
        self.0.lemma_used_fits(toks);
        self.1.lemma_used_fits(toks.skip(self.0.used(toks) as int));
    }

    fn read<S: Source>(&self, source: &mut S) -> (r: Result<(A::Output, B::Output), ReadError>) {
        let ghost t = source.tokens();
        let a = self.0.read(source)?;
        let ghost ua = self.0.used(t) as int;
        let b = self.1.read(source)?;
        proof {
            lemma_skip_skip(t, ua, self.1.used(t.skip(ua)) as int);
        }
        Ok((a, b))
    }
}

/// Three kinds read one after the other.
impl<A: Readable, B: Readable, C: Readable> Readable for (A, B, C) {
    type Output = (A::Output, B::Output, C::Output);

    open spec fn error(&self, toks: Seq<Seq<u8>>) -> Option<ReadError> {
        (self.0, (self.1, self.2)).error(toks)
    }

    open spec fn used(&self, toks: Seq<Seq<u8>>) -> nat {
        (self.0, (self.1, self.2)).used(toks)
    }

    open spec fn value(&self, toks: Seq<Seq<u8>>, out: (A::Output, B::Output, C::Output)) -> bool {
        (self.0, (self.1, self.2)).value(toks, (out.0, (out.1, out.2)))
    }

    proof fn lemma_used_fits(&self, toks: Seq<Seq<u8>>) {
        (self.0, (self.1, self.2)).lemma_used_fits(toks);
    }

    fn read<S: Source>(&self, source: &mut S) -> (r: Result<
        (A::Output, B::Output, C::Output),
        ReadError,
    >) {
        let ghost t = source.tokens();
        let a = self.0.read(source)?;
        let ghost ua = self.0.used(t) as int;
        let ghost t1 = t.skip(ua);
        let b = self.1.read(source)?;
        let ghost ub = self.1.used(t1) as int;
        let c = self.2.read(source)?;
        proof {
            let uc = self.2.used(t1.skip(ub)) as int;
            lemma_skip_skip(t1, ub, uc);
            lemma_skip_skip(t, ua, ub + uc);
        }
        Ok((a, b, c))
    }
}

/// Four kinds read one after the other.
impl<A: Readable, B: Readable, C: Readable, D: Readable> Readable for (A, B, C, D) {
    type Output = (A::Output, B::Output, C::Output, D::Output);

    open spec fn error(&self, toks: Seq<Seq<u8>>) -> Option<ReadError> {
        (self.0, (self.1, (self.2, self.3))).error(toks)
    }

    open spec fn used(&self, toks: Seq<Seq<u8>>) -> nat {
        (self.0, (self.1, (self.2, self.3))).used(toks)
    }

    open spec fn value(
        &self,
        toks: Seq<Seq<u8>>,
        out: (A::Output, B::Output, C::Output, D::Output),
    ) -> bool {
        (self.0, (self.1, (self.2, self.3))).value(toks, (out.0, (out.1, (out.2, out.3))))
    }

    proof fn lemma_used_fits(&self, toks: Seq<Seq<u8>>) {
        (self.0, (self.1, (self.2, self.3))).lemma_used_fits(toks);
    }

    fn read<S: Source>(&self, source: &mut S) -> (r: Result<
        (A::Output, B::Output, C::Output, D::Output),
        ReadError,
    >) {
        let ghost t = source.tokens();
        let a = self.0.read(source)?;
        let ghost ua = self.0.used(t) as int;
        let ghost t1 = t.skip(ua);
        let b = self.1.read(source)?;
        let ghost ub = self.1.used(t1) as int;
        let ghost t2 = t1.skip(ub);
        let c = self.2.read(source)?;
        let ghost uc = self.2.used(t2) as int;
        let d = self.3.read(source)?;
        proof {
            let ud = self.3.used(t2.skip(uc)) as int;
            lemma_skip_skip(t2, uc, ud);
            lemma_skip_skip(t1, ub, uc + ud);
            lemma_skip_skip(t, ua, ub + uc + ud);
        }
        Ok((a, b, c, d))
    }
}

/// Five kinds read one after the other.
impl<A: Readable, B: Readable, C: Readable, D: Readable, E: Readable> Readable for (A, B, C, D, E) {
    type Output = (A::Output, B::Output, C::Output, D::Output, E::Output);

    open spec fn error(&self, toks: Seq<Seq<u8>>) -> Option<ReadError> {
        (self.0, (self.1, (self.2, (self.3, self.4)))).error(toks)
    }

    open spec fn used(&self, toks: Seq<Seq<u8>>) -> nat {
        (self.0, (self.1, (self.2, (self.3, self.4)))).used(toks)
    }

    open spec fn value(
        &self,
        toks: Seq<Seq<u8>>,
        out: (A::Output, B::Output, C::Output, D::Output, E::Output),
    ) -> bool {
        (self.0, (self.1, (self.2, (self.3, self.4)))).value(
            toks,
            (out.0, (out.1, (out.2, (out.3, out.4)))),
        )
    }

    proof fn lemma_used_fits(&self, toks: Seq<Seq<u8>>) {
        (self.0, (self.1, (self.2, (self.3, self.4)))).lemma_used_fits(toks);
    }

    fn read<S: Source>(&self, source: &mut S) -> (r: Result<
        (A::Output, B::Output, C::Output, D::Output, E::Output),
        ReadError,
    >) {
        let ghost t = source.tokens();
        let a = self.0.read(source)?;
        let ghost ua = self.0.used(t) as int;
        let ghost t1 = t.skip(ua);
        let b = self.1.read(source)?;
        let ghost ub = self.1.used(t1) as int;
        let ghost t2 = t1.skip(ub);
        let c = self.2.read(source)?;
        let ghost uc = self.2.used(t2) as int;
        let ghost t3 = t2.skip(uc);
        let d = self.3.read(source)?;
        let ghost ud = self.3.used(t3) as int;
        let e = self.4.read(source)?;
        proof {
            let ue = self.4.used(t3.skip(ud)) as int;
            lemma_skip_skip(t3, ud, ue);
            lemma_skip_skip(t2, uc, ud + ue);
            lemma_skip_skip(t1, ub, uc + ud + ue);
            lemma_skip_skip(t, ua, ub + uc + ud + ue);
        }
        Ok((a, b, c, d, e))
    }
}

/// `len` values of `kind`, read one after the other.
pub struct Sequence<K> {
    pub kind: K,
    pub len: usize,
}

/// Tokens taken by the first `n` values of kind `k` read from `t`.
pub open spec fn seq_used<K: Readable>(k: K, t: Seq<Seq<u8>>, n: nat) -> nat
    decreases n,
{
    if n == 0 {
        0
    } else {
        let u = seq_used(k, t, (n - 1) as nat);
        u + k.used(t.skip(u as int))
    }
}

/// The error, if any, that reading `n` values of kind `k` from `t` ends with.
pub open spec fn seq_error<K: Readable>(k: K, t: Seq<Seq<u8>>, n: nat) -> Option<ReadError>
    decreases n,
{
    if n == 0 {
        None
    } else {
        match seq_error(k, t, (n - 1) as nat) {
            Some(e) => Some(e),
            None => k.error(t.skip(seq_used(k, t, (n - 1) as nat) as int)),
        }
    }
}

/// The `i`-th value is read from where the first `i` values ended.
pub open spec fn seq_value<K: Readable>(k: K, t: Seq<Seq<u8>>, n: nat, s: Seq<K::Output>) -> bool {
    s.len() == n && forall|i: int|
        0 <= i < n ==> k.value(t.skip(seq_used(k, t, i as nat) as int), #[trigger] s[i])
}

/// Once reading a sequence has failed, reading a longer one fails the same way.
pub proof fn lemma_seq_error_stays<K: Readable>(k: K, t: Seq<Seq<u8>>, m: nat, n: nat)
    requires
        m <= n,
        seq_error(k, t, m) is Some,
    ensures
        seq_error(k, t, n) == seq_error(k, t, m),
    decreases n - m,
{
    if m < n {
        lemma_seq_error_stays(k, t, m, (n - 1) as nat);
    }
}

/// Where reading `n` values succeeds, so does reading each of them, and the tokens they take
/// are all there.
pub proof fn lemma_seq_prefix<K: Readable>(k: K, t: Seq<Seq<u8>>, n: nat)
    requires
        seq_error(k, t, n) is None,
    ensures
        seq_used(k, t, n) <= t.len(),
        forall|i: nat| i < n ==> (#[trigger] seq_error(k, t, i)) is None,
        forall|i: nat|
            i < n ==> k.error(t.skip(#[trigger] seq_used(k, t, i) as int)) is None,
    decreases n,
{
    if n > 0 {
        let m = (n - 1) as nat;
        if seq_error(k, t, m) is Some {
            lemma_seq_error_stays(k, t, m, n);
        }
        lemma_seq_prefix(k, t, m);
        let u = seq_used(k, t, m);
        k.lemma_used_fits(t.skip(u as int));
    }
}

impl<K: Readable> Readable for Sequence<K> {
    type Output = Vec<K::Output>;

    open spec fn error(&self, toks: Seq<Seq<u8>>) -> Option<ReadError> {
        seq_error(self.kind, toks, self.len as nat)
    }

    open spec fn used(&self, toks: Seq<Seq<u8>>) -> nat {
        seq_used(self.kind, toks, self.len as nat)
    }

    open spec fn value(&self, toks: Seq<Seq<u8>>, out: Vec<K::Output>) -> bool {
        seq_value(self.kind, toks, self.len as nat, out@)
    }

    proof fn lemma_used_fits(&self, toks: Seq<Seq<u8>>) {
        if seq_error(self.kind, toks, self.len as nat) is None {
            lemma_seq_prefix(self.kind, toks, self.len as nat);
        }
    }

    fn read<S: Source>(&self, source: &mut S) -> (r: Result<Vec<K::Output>, ReadError>) {
        let ghost t = source.tokens();
        let ghost k = self.kind;
        let mut out: Vec<K::Output> = Vec::new();
        let mut i: usize = 0;
        assert(t.skip(0) =~= t);
        while i < self.len
            invariant
                i <= self.len,
                k == self.kind,
                t == old(source).tokens(),
                seq_error(k, t, i as nat) is None,
                seq_used(k, t, i as nat) <= t.len(),
                source.tokens() == t.skip(seq_used(k, t, i as nat) as int),
                out@.len() == i,
                forall|j: int|
                    0 <= j < i ==> k.value(t.skip(seq_used(k, t, j as nat) as int), #[trigger] out@[j]),
            decreases self.len - i,
        {
            let ghost u = seq_used(k, t, i as nat);
            match self.kind.read(source) {
                Ok(x) => {
                    proof {
                        lemma_skip_skip(t, u as int, k.used(t.skip(u as int)) as int);
                    }
                    out.push(x);
                    i = i + 1;
                },
                Err(e) => {
                    proof {
                        assert(seq_error(k, t, (i + 1) as nat) == Some(e));
                        lemma_seq_error_stays(k, t, (i + 1) as nat, self.len as nat);
                    }
                    return Err(e);
                },
            }
        }
        Ok(out)
    }
}

/// Reading `x` with `a` and then `y` with `b`, as two requests on one source, is reading the
/// pair `(a, b)` as one request: the second request starts at the token right after the last
/// one the first took, so no token is read twice and none is skipped.
pub proof fn lemma_two_requests<A: Readable, B: Readable>(
    a: A,
    b: B,
    t: Seq<Seq<u8>>,
    x: A::Output,
    y: B::Output,
)
    requires
        a.error(t) is None,
        a.value(t, x),
        b.error(t.skip(a.used(t) as int)) is None,
        b.value(t.skip(a.used(t) as int), y),
    ensures
        (a, b).error(t) is None,
        (a, b).value(t, (x, y)),
        (a, b).used(t) <= t.len(),
        t.skip(a.used(t) as int).skip(b.used(t.skip(a.used(t) as int)) as int) == t.skip(
            (a, b).used(t) as int,
        ),
{
    let ua = a.used(t) as int;
    a.lemma_used_fits(t);
    b.lemma_used_fits(t.skip(ua));
    lemma_skip_skip(t, ua, b.used(t.skip(ua)) as int);
}

/// Where each successful read of `k` takes `w` tokens, the first `i` of `n` values take `i * w`.
pub proof fn lemma_uniform_seq_used<K: Readable>(k: K, t: Seq<Seq<u8>>, n: nat, w: nat)
    requires
        forall|u: Seq<Seq<u8>>| #[trigger] k.error(u) is None ==> k.used(u) == w,
        seq_error(k, t, n) is None,
    ensures
        forall|i: nat| i <= n ==> #[trigger] seq_used(k, t, i) == i * w,
    decreases n,
{
    if n > 0 {
        let m = (n - 1) as nat;
        lemma_seq_prefix(k, t, n);
        lemma_uniform_seq_used(k, t, m, w);
        assert(k.error(t.skip(seq_used(k, t, m) as int)) is None);
        assert(m * w + w == n * w) by (nonlinear_arith)
            requires
                m + 1 == n,
        ;
        assert forall|i: nat| i <= n implies #[trigger] seq_used(k, t, i) == i * w by {
            if i < n {
                assert(i <= m);
            }
        }
    } else {
        assert forall|i: nat| i <= n implies #[trigger] seq_used(k, t, i) == i * w by {
            assert(i == 0);
        }
    }
}

/// Reading a count `n` and then `n` values of a one-token kind takes exactly `n + 1` tokens,
/// and the values keep the order of the tokens: the `i`-th comes from token `i + 1`.
pub proof fn lemma_count_then_values<K: Readable>(
    k: K,
    t: Seq<Seq<u8>>,
    n: usize,
    s: Vec<K::Output>,
)
    requires
        forall|u: Seq<Seq<u8>>| #[trigger] k.error(u) is None ==> k.used(u) == 1,
        Usize.error(t) is None,
        Usize.value(t, n),
        (Sequence { kind: k, len: n }).error(t.skip(1)) is None,
        (Sequence { kind: k, len: n }).value(t.skip(1), s),
    ensures
        Usize.used(t) + (Sequence { kind: k, len: n }).used(t.skip(1)) == n + 1,
        forall|i: int| 0 <= i < n ==> k.value(t.skip(i + 1), #[trigger] s@[i]),
{
    let rest = t.skip(1);
    lemma_uniform_seq_used(k, rest, n as nat, 1);
    lemma_seq_prefix(k, rest, n as nat);
    assert forall|i: int| 0 <= i < n implies k.value(t.skip(i + 1), #[trigger] s@[i]) by {
        assert(seq_used(k, rest, i as nat) == i * 1);
        lemma_skip_skip(t, 1, i);
    }
}

/// Reading an `m`-row, `n`-column matrix of a one-token kind goes row by row: the value at
/// row `i`, column `j` comes from token `i * n + j`.
pub proof fn lemma_row_major<K: Readable>(
    k: K,
    t: Seq<Seq<u8>>,
    m: usize,
    n: usize,
    s: Vec<Vec<K::Output>>,
)
    requires
        forall|u: Seq<Seq<u8>>| #[trigger] k.error(u) is None ==> k.used(u) == 1,
        (Sequence { kind: Sequence { kind: k, len: n }, len: m }).error(t) is None,
        (Sequence { kind: Sequence { kind: k, len: n }, len: m }).value(t, s),
    ensures
        s@.len() == m,
        forall|i: int| 0 <= i < m ==> (#[trigger] s@[i])@.len() == n,
        forall|i: int, j: int|
            0 <= i < m && 0 <= j < n ==> k.value(t.skip(i * n + j), #[trigger] s@[i]@[j]),
{
    let row = Sequence { kind: k, len: n };
    assert forall|u: Seq<Seq<u8>>| #[trigger] row.error(u) is None implies row.used(u) == n by {
        lemma_uniform_seq_used(k, u, n as nat, 1);
    }
    lemma_uniform_seq_used(row, t, m as nat, n as nat);
    lemma_seq_prefix(row, t, m as nat);
    assert forall|i: int, j: int| 0 <= i < m && 0 <= j < n implies k.value(
        t.skip(i * n + j),
        #[trigger] s@[i]@[j],
    ) by {
        let start = seq_used(row, t, i as nat) as int;
        assert(start == i * n);
        assert(row.error(t.skip(start)) is None);
        assert(row.value(t.skip(start), s@[i]));
        let r = t.skip(start);
        lemma_uniform_seq_used(k, r, n as nat, 1);
        assert(seq_used(k, r, j as nat) == j * 1);
        assert(i * n + n <= m * n) by (nonlinear_arith)
            requires
                0 <= i < m,
                0 <= n,
        ;
        assert(seq_used(row, t, m as nat) == m * n);
        lemma_skip_skip(t, start, j);
    }
    assert forall|i: int| 0 <= i < m implies (#[trigger] s@[i])@.len() == n by {
        let start = seq_used(row, t, i as nat) as int;
        assert(row.value(t.skip(start), s@[i]));
    }
}

} // verus!
