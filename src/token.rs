use vstd::prelude::*;

verus! {

/// Whitespace bytes that separate tokens: space, tab, carriage return, line feed.
pub open spec fn is_ws(b: u8) -> bool {
    b == 0x20u8 || b == 0x09u8 || b == 0x0du8 || b == 0x0au8
}

/// Tests a byte against the token separators.
pub fn is_whitespace(b: u8) -> (r: bool)
    ensures
        r == is_ws(b),
{
    b == 0x20u8 || b == 0x09u8 || b == 0x0du8 || b == 0x0au8
}

/// Length of the run of non-whitespace bytes at the front of `s`.
pub open spec fn token_len(s: Seq<u8>) -> nat
    decreases s.len(),
{
    if s.len() == 0 || is_ws(s[0]) {
        0
    } else {
        1 + token_len(s.drop_first())
    }
}

/// The tokens of `s`: its maximal runs of non-whitespace bytes, in order.
pub open spec fn tokens(s: Seq<u8>) -> Seq<Seq<u8>>
    decreases s.len(),
    via tokens_decreases
{
    if s.len() == 0 {
        seq![]
    } else if is_ws(s[0]) {
        tokens(s.drop_first())
    } else {
        seq![s.take(token_len(s) as int)] + tokens(s.skip(token_len(s) as int))
    }
}

#[via_fn]
proof fn tokens_decreases(s: Seq<u8>) {
    if s.len() != 0 && !is_ws(s[0]) {
        lemma_token_len_bounds(s);
    }
}

/// A token: non-empty, with no whitespace in it.
pub open spec fn is_token(t: Seq<u8>) -> bool {
    t.len() > 0 && forall|i: int| 0 <= i < t.len() ==> !is_ws(#[trigger] t[i])
}

/// Whitespace only (possibly empty).
pub open spec fn all_ws(s: Seq<u8>) -> bool {
    forall|i: int| 0 <= i < s.len() ==> is_ws(#[trigger] s[i])
}

pub proof fn lemma_token_len_bounds(s: Seq<u8>)
    ensures
        token_len(s) <= s.len(),
        forall|i: int| 0 <= i < token_len(s) ==> !is_ws(#[trigger] s[i]),
        token_len(s) < s.len() ==> is_ws(s[token_len(s) as int]),
        s.len() > 0 && !is_ws(s[0]) ==> token_len(s) >= 1,
    decreases s.len(),
{
    if s.len() != 0 && !is_ws(s[0]) {
        lemma_token_len_bounds(s.drop_first());
        assert forall|i: int| 0 <= i < token_len(s) implies !is_ws(#[trigger] s[i]) by {
            if i > 0 {
                assert(s[i] == s.drop_first()[i - 1]);
            }
        }
    }
}

/// A run of `e` non-whitespace bytes ended by whitespace or by the end is the first token's length.
pub proof fn lemma_token_len_exact(s: Seq<u8>, e: int)
    requires
        0 <= e <= s.len(),
        forall|i: int| 0 <= i < e ==> !is_ws(#[trigger] s[i]),
        e == s.len() || is_ws(s[e]),
    ensures
        token_len(s) == e,
    decreases e,
{
    if e > 0 {
        let r = s.drop_first();
        assert forall|i: int| 0 <= i < e - 1 implies !is_ws(#[trigger] r[i]) by {
            assert(r[i] == s[i + 1]);
        }
        if e < s.len() {
            assert(r[e - 1] == s[e]);
        }
        lemma_token_len_exact(r, e - 1);
    }
}

/// Leading whitespace does not change the tokens.
pub proof fn lemma_skip_ws(s: Seq<u8>, k: int)
    requires
        0 <= k <= s.len(),
        forall|i: int| 0 <= i < k ==> is_ws(#[trigger] s[i]),
    ensures
        tokens(s) == tokens(s.skip(k)),
    decreases k,
{
    if k > 0 {
        let r = s.drop_first();
        assert forall|i: int| 0 <= i < k - 1 implies is_ws(#[trigger] r[i]) by {
            assert(r[i] == s[i + 1]);
        }
        lemma_skip_ws(r, k - 1);
        assert(r.skip(k - 1) =~= s.skip(k));
        assert(is_ws(s[0]));
        assert(tokens(s) == tokens(r));
    } else {
        assert(s.skip(0) =~= s);
    }
}

/// The first token is the run of `e` non-whitespace bytes at the front.
pub proof fn lemma_first_token(s: Seq<u8>, e: int)
    requires
        0 < e <= s.len(),
        forall|i: int| 0 <= i < e ==> !is_ws(#[trigger] s[i]),
        e == s.len() || is_ws(s[e]),
    ensures
        tokens(s) == seq![s.take(e)] + tokens(s.skip(e)),
{
    lemma_token_len_exact(s, e);
}

/// A sequence of whitespace holds no token.
pub proof fn lemma_all_ws_no_tokens(s: Seq<u8>)
    requires
        all_ws(s),
    ensures
        tokens(s) == Seq::<Seq<u8>>::empty(),
{
    lemma_skip_ws(s, s.len() as int);
    assert(s.skip(s.len() as int).len() == 0);
}

/// A single token alone is tokenized as itself.
pub proof fn lemma_single_token(t: Seq<u8>)
    requires
        is_token(t),
    ensures
        tokens(t) == seq![t],
{
    lemma_first_token(t, t.len() as int);
    assert(t.take(t.len() as int) =~= t);
    assert(t.skip(t.len() as int).len() == 0);
}

/// Tokens of a concatenation split where the two parts meet at a whitespace boundary.
pub proof fn lemma_tokens_concat(a: Seq<u8>, b: Seq<u8>)
    requires
        a.len() == 0 || b.len() == 0 || is_ws(a.last()) || is_ws(b[0]),
    ensures
        tokens(a + b) == tokens(a) + tokens(b),
    decreases a.len(),
{
    let ab = a + b;
    if a.len() == 0 {
        assert(ab =~= b);
        assert(tokens(a) =~= Seq::<Seq<u8>>::empty());
        assert(tokens(a) + tokens(b) =~= tokens(b));
    } else if is_ws(a[0]) {
        assert(ab.drop_first() =~= a.drop_first() + b);
        if a.len() > 1 {
            assert(a.drop_first().last() == a.last());
        }
        lemma_tokens_concat(a.drop_first(), b);
    } else {
        lemma_token_len_bounds(a);
        let e = token_len(a) as int;
        assert forall|i: int| 0 <= i < e implies !is_ws(#[trigger] ab[i]) by {
            assert(ab[i] == a[i]);
        }
        if e < a.len() {
            assert(ab[e] == a[e]);
        } else if b.len() > 0 {
            assert(ab[e] == b[0]);
            assert(a.last() == a[e - 1]);
        } else {
            assert(ab =~= a);
        }
        lemma_token_len_exact(ab, e);
        assert(ab.take(e) =~= a.take(e));
        assert(ab.skip(e) =~= a.skip(e) + b);
        if e < a.len() {
            assert(a.skip(e).last() == a.last());
        }
        lemma_tokens_concat(a.skip(e), b);
        assert(tokens(ab) =~= tokens(a) + tokens(b));
    }
}

/// The text made of the tokens `ts`, each followed by its separator in `seps`.
pub open spec fn joined(ts: Seq<Seq<u8>>, seps: Seq<Seq<u8>>) -> Seq<u8>
    decreases ts.len(),
{
    if ts.len() == 0 || seps.len() == 0 {
        seq![]
    } else {
        ts[0] + seps[0] + joined(ts.drop_first(), seps.drop_first())
    }
}

/// Tokens separated by any non-empty whitespace runs, with any whitespace in front, are
/// tokenized back into exactly themselves; in particular the result is the same as when
/// each separator is a single space.
pub proof fn lemma_whitespace_runs(lead: Seq<u8>, ts: Seq<Seq<u8>>, seps: Seq<Seq<u8>>)
    requires
        all_ws(lead),
        seps.len() == ts.len(),
        forall|i: int| 0 <= i < ts.len() ==> is_token(#[trigger] ts[i]),
        forall|i: int| 0 <= i < seps.len() ==> (#[trigger] seps[i]).len() > 0 && all_ws(seps[i]),
    ensures
        tokens(lead + joined(ts, seps)) == ts,
        tokens(lead + joined(ts, seps)) == tokens(
            joined(ts, Seq::new(ts.len(), |i: int| seq![0x20u8])),
        ),
{
    lemma_joined_tokens(ts, seps);
    let spaces = Seq::new(ts.len(), |i: int| seq![0x20u8]);
    assert forall|i: int| 0 <= i < spaces.len() implies (#[trigger] spaces[i]).len() > 0 && all_ws(
        spaces[i],
    ) by {
        assert(spaces[i] == seq![0x20u8]);
    }
    lemma_joined_tokens(ts, spaces);
    let j = joined(ts, seps);
    if lead.len() > 0 && j.len() > 0 {
        lemma_joined_start(ts, seps);
    }
    lemma_all_ws_no_tokens(lead);
    lemma_tokens_concat(lead, j);
    assert(tokens(lead) + tokens(j) =~= tokens(j));
}

proof fn lemma_joined_start(ts: Seq<Seq<u8>>, seps: Seq<Seq<u8>>)
    requires
        joined(ts, seps).len() > 0,
        ts.len() > 0 ==> is_token(ts[0]),
    ensures
        !is_ws(joined(ts, seps)[0]),
{
    assert(ts.len() > 0 && seps.len() > 0);
    assert(joined(ts, seps)[0] == ts[0][0]);
}

proof fn lemma_joined_tokens(ts: Seq<Seq<u8>>, seps: Seq<Seq<u8>>)
    requires
        seps.len() == ts.len(),
        forall|i: int| 0 <= i < ts.len() ==> is_token(#[trigger] ts[i]),
        forall|i: int| 0 <= i < seps.len() ==> (#[trigger] seps[i]).len() > 0 && all_ws(seps[i]),
    ensures
        tokens(joined(ts, seps)) == ts,
    decreases ts.len(),
{
    if ts.len() == 0 {
        assert(tokens(joined(ts, seps)) =~= ts);
    } else {
        let t = ts[0];
        let w = seps[0];
        let rest = joined(ts.drop_first(), seps.drop_first());
        assert(is_token(t));
        assert(w.len() > 0 && all_ws(w));
        assert forall|i: int| 0 <= i < ts.len() - 1 implies is_token(#[trigger] ts.drop_first()[i]) by {
            assert(ts.drop_first()[i] == ts[i + 1]);
        }
        assert forall|i: int| 0 <= i < seps.len() - 1 implies (
        #[trigger] seps.drop_first()[i]).len() > 0 && all_ws(seps.drop_first()[i]) by {
            assert(seps.drop_first()[i] == seps[i + 1]);
        }
        lemma_joined_tokens(ts.drop_first(), seps.drop_first());
        lemma_single_token(t);
        lemma_all_ws_no_tokens(w);
        assert(is_ws(w[0]));
        lemma_tokens_concat(t, w);
        assert(is_ws((t + w).last()));
        lemma_tokens_concat(t + w, rest);
        assert(joined(ts, seps) == t + w + rest);
        assert(tokens(joined(ts, seps)) =~= ts);
    }
}

} // verus!
