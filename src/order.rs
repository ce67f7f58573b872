//! Lexicographic order on texts, and ordered selection of keys.

use vstd::prelude::*;

verus! {

/// `a` comes strictly before `b` in lexicographic order of code points.
pub open spec fn text_lt(a: Seq<char>, b: Seq<char>) -> bool
    decreases a.len(),
{
    if a.len() == 0 {
        b.len() > 0
    } else if b.len() == 0 {
        false
    } else if a[0] != b[0] {
        a[0] < b[0]
    } else {
        text_lt(a.drop_first(), b.drop_first())
    }
}

/// `a` comes strictly before `b`: in ascending order, or in descending order
/// when `desc` holds.
pub open spec fn precedes(a: Seq<char>, b: Seq<char>, desc: bool) -> bool {
    if desc {
        text_lt(b, a)
    } else {
        text_lt(a, b)
    }
}

pub proof fn lemma_text_lt_irreflexive(a: Seq<char>)
    ensures
        !text_lt(a, a),
    decreases a.len(),
{
    if a.len() > 0 {
        lemma_text_lt_irreflexive(a.drop_first());
    }
}

pub proof fn lemma_text_lt_transitive(a: Seq<char>, b: Seq<char>, c: Seq<char>)
    requires
        text_lt(a, b),
        text_lt(b, c),
    ensures
        text_lt(a, c),
    decreases a.len(),
{
    if a.len() > 0 && b.len() > 0 && c.len() > 0 && a[0] == b[0] && b[0] == c[0] {
        lemma_text_lt_transitive(a.drop_first(), b.drop_first(), c.drop_first());
    }
}

pub proof fn lemma_text_lt_total(a: Seq<char>, b: Seq<char>)
    requires
        a != b,
    ensures
        text_lt(a, b) || text_lt(b, a),
    decreases a.len(),
{
    if a.len() > 0 && b.len() > 0 && a[0] == b[0] {
        if a.drop_first() == b.drop_first() {
            assert(a =~= seq![a[0]] + a.drop_first());
            assert(b =~= seq![b[0]] + b.drop_first());
        }
        lemma_text_lt_total(a.drop_first(), b.drop_first());
    } else if a.len() > 0 && b.len() > 0 {
    } else if a.len() == 0 && b.len() == 0 {
        assert(a =~= b);
    }
}

pub proof fn lemma_precedes_facts(desc: bool)
    ensures
        forall|a: Seq<char>| !#[trigger] precedes(a, a, desc),
        forall|a: Seq<char>, b: Seq<char>, c: Seq<char>|
            #[trigger] precedes(a, b, desc) && #[trigger] precedes(b, c, desc) ==> precedes(
                a,
                c,
                desc,
            ),
        forall|a: Seq<char>, b: Seq<char>|
            a != b ==> #[trigger] precedes(a, b, desc) || #[trigger] precedes(b, a, desc),
{
    assert forall|a: Seq<char>| !#[trigger] precedes(a, a, desc) by {
        lemma_text_lt_irreflexive(a);
    }
    assert forall|a: Seq<char>, b: Seq<char>, c: Seq<char>|
        #[trigger] precedes(a, b, desc) && #[trigger] precedes(b, c, desc) implies precedes(
        a,
        c,
        desc,
    ) by {
        if desc {
            lemma_text_lt_transitive(c, b, a);
        } else {
            lemma_text_lt_transitive(a, b, c);
        }
    }
    assert forall|a: Seq<char>, b: Seq<char>| a != b implies #[trigger] precedes(a, b, desc)
        || #[trigger] precedes(b, a, desc) by {
        lemma_text_lt_total(a, b);
    }
}

/// Whether `a` comes strictly before `b` in lexicographic order.
pub fn text_less(a: &Vec<char>, b: &Vec<char>) -> (r: bool)
    ensures
        r == text_lt(a@, b@),
{
    let mut i: usize = 0;
    assert(a@.skip(0) =~= a@);
    assert(b@.skip(0) =~= b@);
    loop
        invariant
            i <= a@.len(),
            i <= b@.len(),
            text_lt(a@, b@) == text_lt(a@.skip(i as int), b@.skip(i as int)),
        decreases a@.len() - i,
    {
        if i == a.len() {
            return i < b.len();
        }
        if i == b.len() {
            return false;
        }
        if a[i] != b[i] {
            return a[i] < b[i];
        }
        assert(a@.skip(i as int).drop_first() =~= a@.skip(i + 1 as int));
        assert(b@.skip(i as int).drop_first() =~= b@.skip(i + 1 as int));
        i += 1;
    }
}

/// Whether `a` comes strictly before `b` in the order chosen by `desc`.
pub fn comes_before(a: &Vec<char>, b: &Vec<char>, desc: bool) -> (r: bool)
    ensures
        r == precedes(a@, b@, desc),
{
    if desc {
        text_less(b, a)
    } else {
        text_less(a, b)
    }
}

/// The texts of `keys`.
pub open spec fn texts(keys: Seq<Vec<char>>) -> Seq<Seq<char>> {
    keys.map_values(|k: Vec<char>| k@)
}

/// No two of `ks` are equal.
pub open spec fn all_distinct(ks: Seq<Seq<char>>) -> bool {
    forall|i: int, j: int| 0 <= i < ks.len() && 0 <= j < ks.len() && i != j ==> ks[i] != ks[j]
}

/// `k` comes after `last`, if there is a last.
pub open spec fn comes_after(k: Seq<char>, last: Option<Seq<char>>, desc: bool) -> bool {
    match last {
        Some(l) => precedes(l, k, desc),
        None => true,
    }
}

/// The key of the last index of `out`.
pub open spec fn last_key(ks: Seq<Seq<char>>, out: Seq<usize>) -> Option<Seq<char>> {
    if out.len() == 0 {
        None
    } else {
        Some(ks[out.last() as int])
    }
}

/// How many of `ks` come after `last`.
pub open spec fn count_after(ks: Seq<Seq<char>>, last: Option<Seq<char>>, desc: bool) -> nat
    decreases ks.len(),
{
    if ks.len() == 0 {
        0
    } else {
        count_after(ks.drop_last(), last, desc) + if comes_after(ks.last(), last, desc) {
            1nat
        } else {
            0nat
        }
    }
}

proof fn lemma_count_after_shrinks(
    ks: Seq<Seq<char>>,
    l1: Option<Seq<char>>,
    l2: Option<Seq<char>>,
    desc: bool,
    w: int,
)
    requires
        forall|t: int| 0 <= t < ks.len() && comes_after(ks[t], l2, desc) ==> comes_after(ks[t], l1, desc),
    ensures
        count_after(ks, l2, desc) <= count_after(ks, l1, desc),
        0 <= w < ks.len() && comes_after(ks[w], l1, desc) && !comes_after(ks[w], l2, desc)
            ==> count_after(ks, l2, desc) < count_after(ks, l1, desc),
    decreases ks.len(),
{
    if ks.len() > 0 {
        let ks2 = ks.drop_last();
        assert forall|t: int| 0 <= t < ks2.len() && comes_after(ks2[t], l2, desc) implies comes_after(
            ks2[t],
            l1,
            desc,
        ) by {
            assert(ks2[t] == ks[t]);
        }
        lemma_count_after_shrinks(ks2, l1, l2, desc, w);
        assert(ks.last() == ks[ks.len() - 1]);
    }
}

/// The positions of `keys` in the order chosen by `desc`, up to `limit` of
/// them: each comes strictly before the next, and every key that comes no
/// later than the last one chosen is among them (every key at all when the
/// limit is not reached).
pub fn order_keys(keys: &Vec<Vec<char>>, desc: bool, limit: Option<usize>) -> (out: Vec<usize>)
    requires
        all_distinct(texts(keys@)),
    ensures
        forall|i: int| 0 <= i < out@.len() ==> out@[i] < keys@.len(),
        forall|i: int, k: int|
            0 <= i < k < out@.len() ==> precedes(
                texts(keys@)[out@[i] as int],
                texts(keys@)[out@[k] as int],
                desc,
            ),
        forall|t: usize|
            t < keys@.len() && !comes_after(texts(keys@)[t as int], last_key(texts(keys@), out@), desc)
                ==> out@.contains(t),
        (match limit {
            Some(l) => out@.len() < l,
            None => true,
        }) ==> forall|t: usize| t < keys@.len() ==> out@.contains(t),
        limit matches Some(l) ==> out@.len() <= l,
{
    let ghost ks = texts(keys@);
    let n = keys.len();
    proof {
        lemma_precedes_facts(desc);
    }
    let mut out: Vec<usize> = Vec::new();
    loop
        invariant
            n == keys@.len(),
            ks == texts(keys@),
            all_distinct(ks),
            forall|a: Seq<char>| !#[trigger] precedes(a, a, desc),
            forall|a: Seq<char>, b: Seq<char>, c: Seq<char>|
                #[trigger] precedes(a, b, desc) && #[trigger] precedes(b, c, desc) ==> precedes(
                    a,
                    c,
                    desc,
                ),
            forall|a: Seq<char>, b: Seq<char>|
                a != b ==> #[trigger] precedes(a, b, desc) || #[trigger] precedes(b, a, desc),
            forall|i: int| 0 <= i < out@.len() ==> out@[i] < n,
            forall|i: int, k: int|
                0 <= i < k < out@.len() ==> precedes(ks[out@[i] as int], ks[out@[k] as int], desc),
            forall|t: usize|
                t < n && !comes_after(ks[t as int], last_key(ks, out@), desc) ==> out@.contains(t),
            limit matches Some(l) ==> out@.len() <= l,
        ensures
            n == keys@.len(),
            ks == texts(keys@),
            forall|i: int| 0 <= i < out@.len() ==> out@[i] < n,
            forall|i: int, k: int|
                0 <= i < k < out@.len() ==> precedes(ks[out@[i] as int], ks[out@[k] as int], desc),
            forall|t: usize|
                t < n && !comes_after(ks[t as int], last_key(ks, out@), desc) ==> out@.contains(t),
            (match limit {
                Some(l) => out@.len() < l,
                None => true,
            }) ==> forall|t: usize| t < n ==> out@.contains(t),
            limit matches Some(l) ==> out@.len() <= l,
        decreases count_after(ks, last_key(ks, out@), desc),
    {
        match limit {
            Some(l) => {
                if out.len() >= l {
                    break ;
                }
            },
            None => {},
        }
        let ghost lk = last_key(ks, out@);
        let mut best: Option<usize> = None;
        let mut t: usize = 0;
        while t < n
            invariant
                n == keys@.len(),
                ks == texts(keys@),
                lk == last_key(ks, out@),
                forall|i: int| 0 <= i < out@.len() ==> out@[i] < n,
                t <= n,
                match best {
                    Some(b) => b < n && comes_after(ks[b as int], lk, desc) && forall|t2: int|
                        0 <= t2 < t && comes_after(ks[t2], lk, desc) ==> !precedes(
                            ks[t2],
                            ks[b as int],
                            desc,
                        ),
                    None => forall|t2: int| 0 <= t2 < t ==> !comes_after(ks[t2], lk, desc),
                },
                forall|a: Seq<char>, b: Seq<char>, c: Seq<char>|
                    #[trigger] precedes(a, b, desc) && #[trigger] precedes(b, c, desc) ==> precedes(
                        a,
                        c,
                        desc,
                    ),
                forall|a: Seq<char>| !#[trigger] precedes(a, a, desc),
            decreases n - t,
        {
            let eligible = if out.len() == 0 {
                true
            } else {
                comes_before(&keys[out[out.len() - 1]], &keys[t], desc)
            };
            if eligible {
                match best {
                    None => {
                        best = Some(t);
                    },
                    Some(b) => {
                        if comes_before(&keys[t], &keys[b], desc) {
                            best = Some(t);
                        }
                    },
                }
            }
            t += 1;
        }
        match best {
            None => {
                assert forall|t2: usize| t2 < n implies out@.contains(t2) by {
                    assert(!comes_after(ks[t2 as int], lk, desc));
                }
                break ;
            },
            Some(b) => {
                let ghost old_out = out@;
                out.push(b);
                proof {
                    let nk = Some(ks[b as int]);
                    assert(last_key(ks, out@) == nk);
                    assert forall|i: int, k: int| 0 <= i < k < out@.len() implies precedes(
                        ks[out@[i] as int],
                        ks[out@[k] as int],
                        desc,
                    ) by {
                        if k == out@.len() - 1 && i < k {
                            if i < old_out.len() - 1 {
                                assert(precedes(
                                    ks[old_out[i] as int],
                                    ks[old_out.last() as int],
                                    desc,
                                ));
                            }
                        }
                    }
                    assert forall|t2: usize|
                        t2 < n && !comes_after(ks[t2 as int], nk, desc) implies out@.contains(t2) by {
                        if t2 == b {
                            assert(out@[old_out.len() as int] == b);
                        } else {
                            assert(ks[t2 as int] != ks[b as int]);
                            assert(precedes(ks[t2 as int], ks[b as int], desc));
                            assert(!comes_after(ks[t2 as int], lk, desc));
                            assert(old_out.contains(t2));
                            let x = choose|x: int| 0 <= x < old_out.len() && old_out[x] == t2;
                            assert(out@[x] == t2);
                        }
                    }
                    assert forall|t2: int| 0 <= t2 < ks.len() && comes_after(ks[t2], nk, desc) implies comes_after(
                        ks[t2],
                        lk,
                        desc,
                    ) by {
                        if lk is Some {
                            assert(precedes(lk->0, ks[b as int], desc));
                        }
                    }
                    lemma_count_after_shrinks(ks, lk, nk, desc, b as int);
                }
            },
        }
    }
    out
}

} // verus!
