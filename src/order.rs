//! Lexicographic order on byte strings, and sets of byte strings listed in
//! that order. Listing a set in order gives it one canonical sequence.
use vstd::prelude::*;

verus! {

/// `a` comes strictly before `b` in lexicographic order.
pub open spec fn lex_lt(a: Seq<u8>, b: Seq<u8>) -> bool
    decreases a.len(),
{
    if a.len() == 0 {
        b.len() > 0
    } else if b.len() == 0 {
        false
    } else if a[0] != b[0] {
        a[0] < b[0]
    } else {
        lex_lt(a.drop_first(), b.drop_first())
    }
}

/// Each string of `s` comes strictly before every later one.
pub open spec fn strictly_sorted(s: Seq<Seq<u8>>) -> bool {
    forall|i: int, j: int| 0 <= i < j < s.len() ==> lex_lt(#[trigger] s[i], #[trigger] s[j])
}

/// The strings of `s`, each once, in lexicographic order.
pub open spec fn in_order(s: Set<Seq<u8>>) -> Seq<Seq<u8>> {
    choose|t: Seq<Seq<u8>>| strictly_sorted(t) && t.to_set() == s
}

/// The byte strings that a list of buffers holds.
pub open spec fn views(v: Seq<Vec<u8>>) -> Seq<Seq<u8>> {
    v.map_values(|b: Vec<u8>| b@)
}

/// No string comes before itself.
pub proof fn lemma_lex_irreflexive(a: Seq<u8>)
    ensures
        !lex_lt(a, a),
    decreases a.len(),
{
    if a.len() > 0 {
        lemma_lex_irreflexive(a.drop_first());
    }
}

/// Of two different strings, one comes first.
pub proof fn lemma_lex_total(a: Seq<u8>, b: Seq<u8>)
    ensures
        a == b || lex_lt(a, b) || lex_lt(b, a),
    decreases a.len(),
{
    if a.len() == 0 && b.len() == 0 {
        assert(a =~= b);
    }
    if a.len() > 0 && b.len() > 0 && a[0] == b[0] {
        lemma_lex_total(a.drop_first(), b.drop_first());
        if a.drop_first() == b.drop_first() {
            assert(a =~= seq![a[0]] + a.drop_first());
            assert(b =~= seq![b[0]] + b.drop_first());
        }
    }
}

/// The order is transitive.
pub proof fn lemma_lex_transitive(a: Seq<u8>, b: Seq<u8>, c: Seq<u8>)
    requires
        lex_lt(a, b),
        lex_lt(b, c),
    ensures
        lex_lt(a, c),
    decreases a.len(),
{
    if a.len() > 0 && b.len() > 0 && c.len() > 0 && a[0] == b[0] && b[0] == c[0] {
        lemma_lex_transitive(a.drop_first(), b.drop_first(), c.drop_first());
    }
}

/// Two strictly sorted sequences that hold the same strings are equal.
pub proof fn lemma_sorted_unique(t1: Seq<Seq<u8>>, t2: Seq<Seq<u8>>)
    requires
        strictly_sorted(t1),
        strictly_sorted(t2),
        t1.to_set() == t2.to_set(),
    ensures
        t1 == t2,
    decreases t1.len(),
{
    if t1.len() == 0 {
        if t2.len() > 0 {
            assert(t2.to_set().contains(t2[0]));
        }
        assert(t1 =~= t2);
    } else {
        assert(t1.to_set().contains(t1[0]));
        assert(t2.contains(t1[0]));
        let j = choose|j: int| 0 <= j < t2.len() && t2[j] == t1[0];
        assert(t2.to_set().contains(t2[0]));
        assert(t1.contains(t2[0]));
        let k = choose|k: int| 0 <= k < t1.len() && t1[k] == t2[0];
        if j > 0 && k > 0 {
            assert(lex_lt(t2[0], t2[j]));
            assert(lex_lt(t1[0], t1[k]));
            lemma_lex_transitive(t1[0], t2[0], t1[0]);
            lemma_lex_irreflexive(t1[0]);
        }
        assert(t1[0] == t2[0]);
        let r1 = t1.drop_first();
        let r2 = t2.drop_first();
        assert forall|e: Seq<u8>| r1.contains(e) implies r2.contains(e) by {
            let m = choose|m: int| 0 <= m < r1.len() && r1[m] == e;
            assert(lex_lt(t1[0], t1[m + 1]));
            lemma_lex_irreflexive(e);
            assert(t1.contains(e));
            assert(t2.to_set().contains(e));
            let n = choose|n: int| 0 <= n < t2.len() && t2[n] == e;
            assert(r2[n - 1] == e);
        }
        assert forall|e: Seq<u8>| r2.contains(e) implies r1.contains(e) by {
            let m = choose|m: int| 0 <= m < r2.len() && r2[m] == e;
            assert(lex_lt(t2[0], t2[m + 1]));
            lemma_lex_irreflexive(e);
            assert(t2.contains(e));
            assert(t1.to_set().contains(e));
            let n = choose|n: int| 0 <= n < t1.len() && t1[n] == e;
            assert(r1[n - 1] == e);
        }
        assert(r1.to_set() =~= r2.to_set());
        lemma_sorted_unique(r1, r2);
        assert forall|i: int| 0 <= i < t1.len() implies t1[i] == t2[i] by {
            if i > 0 {
                assert(t1[i] == r1[i - 1]);
                assert(t2[i] == r2[i - 1]);
            }
        }
        assert(t1 =~= t2);
    }
}

/// A strictly sorted sequence of a set's strings is the set in order.
pub proof fn lemma_in_order(t: Seq<Seq<u8>>)
    requires
        strictly_sorted(t),
    ensures
        in_order(t.to_set()) == t,
{
    let s = t.to_set();
    assert(strictly_sorted(t) && t.to_set() == s);
    let c = in_order(s);
    lemma_sorted_unique(c, t);
}

/// Tests whether `a` comes strictly before `b`.
pub fn lex_less(a: &Vec<u8>, b: &Vec<u8>) -> (r: bool)
    ensures
        r == lex_lt(a@, b@),
{
    let mut i: usize = 0;
    assert(a@.skip(0) =~= a@);
    assert(b@.skip(0) =~= b@);
    while i < a.len() && i < b.len()
        invariant
            0 <= i <= a@.len(),
            i <= b@.len(),
            lex_lt(a@, b@) == lex_lt(a@.skip(i as int), b@.skip(i as int)),
        decreases a@.len() - i,
    {
        if a[i] != b[i] {
            assert(a@.skip(i as int)[0] == a@[i as int]);
            assert(b@.skip(i as int)[0] == b@[i as int]);
            return a[i] < b[i];
        }
        assert(a@.skip(i as int).drop_first() =~= a@.skip(i + 1));
        assert(b@.skip(i as int).drop_first() =~= b@.skip(i + 1));
        i += 1;
    }
    a.len() < b.len()
}

/// Inserting a string into a strictly sorted sequence, before every string
/// it precedes and after every other, keeps it sorted.
proof fn lemma_insert_keeps_order(s: Seq<Seq<u8>>, p: int, e: Seq<u8>)
    requires
        strictly_sorted(s),
        0 <= p <= s.len(),
        forall|q: int| 0 <= q < p ==> lex_lt(#[trigger] s[q], e),
        forall|q: int| p <= q < s.len() ==> lex_lt(e, #[trigger] s[q]),
    ensures
        strictly_sorted(s.insert(p, e)),
        s.insert(p, e).to_set() == s.to_set().insert(e),
{
    let t = s.insert(p, e);
    s.insert_ensures(p, e);
    assert forall|i: int, j: int| 0 <= i < j < t.len() implies lex_lt(#[trigger] t[i], #[trigger] t[j]) by {
        if j < p {
            assert(t[i] == s[i] && t[j] == s[j]);
        } else if j == p {
            assert(t[i] == s[i]);
        } else if i < p {
            assert(t[i] == s[i] && t[j] == s[j - 1]);
        } else if i == p {
            assert(t[j] == s[j - 1]);
        } else {
            assert(t[i] == s[i - 1] && t[j] == s[j - 1]);
        }
    }
    assert forall|x: Seq<u8>| t.contains(x) implies s.to_set().insert(e).contains(x) by {
        let m = choose|m: int| 0 <= m < t.len() && t[m] == x;
        if m < p {
            assert(s[m] == x);
        } else if m > p {
            assert(s[m - 1] == x);
        }
    }
    assert forall|x: Seq<u8>| s.to_set().insert(e).contains(x) implies t.contains(x) by {
        if x == e {
            assert(t[p] == e);
        } else {
            let m = choose|m: int| 0 <= m < s.len() && s[m] == x;
            if m < p {
                assert(t[m] == x);
            } else {
                assert(t[m + 1] == x);
            }
        }
    }
    assert(t.to_set() =~= s.to_set().insert(e));
}

/// Adds `e` to a strictly sorted list of strings, unless it is there.
pub fn insert_sorted(out: &mut Vec<Vec<u8>>, e: Vec<u8>)
    requires
        strictly_sorted(views(old(out)@)),
    ensures
        strictly_sorted(views(final(out)@)),
        views(final(out)@).to_set() == views(old(out)@).to_set().insert(e@),
{
    let ghost s = views(out@);
    let mut p: usize = 0;
    let mut more = true;
    while more && p < out.len()
        invariant
            s == views(out@),
            0 <= p <= out@.len(),
            forall|q: int| 0 <= q < p ==> lex_lt(#[trigger] s[q], e@),
            !more ==> p < out@.len() && !lex_lt(s[p as int], e@),
        decreases (out@.len() - p) * 2 + if more { 1int } else { 0int },
    {
        if lex_less(&out[p], &e) {
            p += 1;
        } else {
            more = false;
        }
    }
    if p < out.len() && !lex_less(&e, &out[p]) {
        proof {
            lemma_lex_total(s[p as int], e@);
            assert(s.to_set().insert(e@) =~= s.to_set());
        }
        return;
    }
    proof {
        assert forall|q: int| p <= q < s.len() implies lex_lt(e@, #[trigger] s[q]) by {
            if q > p {
                lemma_lex_transitive(e@, s[p as int], s[q]);
            }
        }
        lemma_insert_keeps_order(s, p as int, e@);
    }
    let ghost old_out = out@;
    out.insert(p, e);
    proof {
        old_out.insert_ensures(p as int, e);
        s.insert_ensures(p as int, e@);
        assert(views(out@) =~= s.insert(p as int, e@));
    }
}

} // verus!
