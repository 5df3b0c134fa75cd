use vstd::prelude::*;
use crate::rewrite::{Pass, rw, is_punct};
use crate::symbol::is_symbol;
use crate::token::{Delimiter, TokenView};

verus! {

/// `x` is one of `fresh[lo]`, ..., `fresh[hi - 1]`.
pub open spec fn drawn(fresh: Seq<Seq<char>>, lo: int, hi: int, x: Seq<char>) -> bool {
    exists|j: int| lo <= j < hi && fresh[j] == x
}

/// What every pass keeps: it takes supplied identifiers in order, keeps the
/// bindings it started with, binds new names only to supplied identifiers,
/// emits for each complete named marker the identifier its table binds, and
/// emits for anonymous markers supplied identifiers taken one by one.
pub open spec fn pass_facts(
    p: Pass,
    tab: Map<Seq<char>, Seq<char>>,
    fresh: Seq<Seq<char>>,
    k: nat,
) -> bool {
    &&& k <= p.next
    &&& forall|x: Seq<char>| #[trigger]
        tab.contains_key(x) ==> p.table.contains_key(x) && p.table[x] == tab[x]
    &&& forall|x: Seq<char>| #[trigger]
        p.table.contains_key(x) ==> tab.contains_key(x) || drawn(fresh, k as int, p.next as int, p.table[x])
    &&& forall|j: int| 0 <= j < p.named.len() ==> {
        &&& p.table.contains_key(#[trigger] p.named[j].0)
        &&& p.table[p.named[j].0] == p.named[j].1
    }
    &&& forall|j: int| 0 <= j < p.anon.len() ==> drawn(fresh, k as int, p.next as int, #[trigger] p.anon[j])
    &&& (fresh.no_duplicates() && p.next <= fresh.len()) ==> p.anon.no_duplicates()
}

proof fn lemma_seq_concat_no_dup(
    a: Seq<Seq<char>>,
    b: Seq<Seq<char>>,
    fresh: Seq<Seq<char>>,
    k: int,
    m: int,
    n: int,
)
    requires
        fresh.no_duplicates(),
        0 <= k <= m <= n <= fresh.len(),
        a.no_duplicates(),
        b.no_duplicates(),
        forall|j: int| 0 <= j < a.len() ==> drawn(fresh, k, m, #[trigger] a[j]),
        forall|j: int| 0 <= j < b.len() ==> drawn(fresh, m, n, #[trigger] b[j]),
    ensures
        (a + b).no_duplicates(),
{
    let c = a + b;
    assert forall|x: int, y: int| 0 <= x < c.len() && 0 <= y < c.len() && x != y implies c[x]
        != c[y] by {
        if x < a.len() && y < a.len() {
            assert(c[x] == a[x] && c[y] == a[y]);
        } else if x >= a.len() && y >= a.len() {
            assert(c[x] == b[x - a.len()] && c[y] == b[y - a.len()]);
        } else {
            let (u, v) = if x < a.len() { (x, y) } else { (y, x) };
            assert(drawn(fresh, k, m, a[u]));
            assert(drawn(fresh, m, n, b[v - a.len()]));
            let ju = choose|j: int| k <= j < m && fresh[j] == a[u];
            let jv = choose|j: int| m <= j < n && fresh[j] == b[v - a.len()];
            assert(fresh[ju] != fresh[jv]);
        }
    }
}

proof fn lemma_drawn_widen(fresh: Seq<Seq<char>>, lo: int, hi: int, lo2: int, hi2: int, x: Seq<char>)
    requires
        drawn(fresh, lo, hi, x),
        lo2 <= lo,
        hi <= hi2,
    ensures
        drawn(fresh, lo2, hi2, x),
{
    let j = choose|j: int| lo <= j < hi && fresh[j] == x;
    assert(lo2 <= j < hi2 && fresh[j] == x);
}

/// Every pass has [`pass_facts`].
pub proof fn lemma_pass(
    ts: Seq<TokenView>,
    i: int,
    tab: Map<Seq<char>, Seq<char>>,
    fresh: Seq<Seq<char>>,
    k: nat,
)
    ensures
        pass_facts(rw(ts, i, tab, fresh, k), tab, fresh, k),
    decreases ts, ts.len() - i,
{
    let p = rw(ts, i, tab, fresh, k);
    if i < 0 || i >= ts.len() {
        assert(p.anon =~= Seq::<Seq<char>>::empty());
    } else {
        match ts[i] {
            TokenView::Group(d, inner) => {
                let a = rw(inner, 0, tab, fresh, k);
                let b = rw(ts, i + 1, a.table, fresh, a.next);
                lemma_pass(inner, 0, tab, fresh, k);
                lemma_pass(ts, i + 1, a.table, fresh, a.next);
                assert forall|x: Seq<char>| #[trigger]
                    p.table.contains_key(x) implies tab.contains_key(x) || drawn(
                    fresh,
                    k as int,
                    p.next as int,
                    p.table[x],
                ) by {
                    if a.table.contains_key(x) {
                        if !tab.contains_key(x) {
                            lemma_drawn_widen(fresh, k as int, a.next as int, k as int, p.next as int, a.table[x]);
                        }
                    } else {
                        lemma_drawn_widen(fresh, a.next as int, b.next as int, k as int, p.next as int, b.table[x]);
                    }
                }
                assert forall|j: int| 0 <= j < p.named.len() implies {
                    &&& p.table.contains_key(#[trigger] p.named[j].0)
                    &&& p.table[p.named[j].0] == p.named[j].1
                } by {
                    if j < a.named.len() {
                        assert(p.named[j] == a.named[j]);
                    } else {
                        assert(p.named[j] == b.named[j - a.named.len()]);
                    }
                }
                assert forall|j: int| 0 <= j < p.anon.len() implies drawn(
                    fresh,
                    k as int,
                    p.next as int,
                    #[trigger] p.anon[j],
                ) by {
                    if j < a.anon.len() {
                        assert(p.anon[j] == a.anon[j]);
                        lemma_drawn_widen(fresh, k as int, a.next as int, k as int, p.next as int, a.anon[j]);
                    } else {
                        assert(p.anon[j] == b.anon[j - a.anon.len()]);
                        lemma_drawn_widen(fresh, a.next as int, b.next as int, k as int, p.next as int, p.anon[j]);
                    }
                }
                if fresh.no_duplicates() && p.next <= fresh.len() {
                    lemma_seq_concat_no_dup(a.anon, b.anon, fresh, k as int, a.next as int, b.next as int);
                }
            },
            _ => {
                if !is_punct(ts[i], '/') || i + 1 >= ts.len() || !is_punct(ts[i + 1], '?') {
                    lemma_pass(ts, i + 1, tab, fresh, k);
                } else if i + 2 < ts.len() && is_punct(ts[i + 2], '/') {
                    let q = rw(ts, i + 3, tab, fresh, k + 1);
                    lemma_pass(ts, i + 3, tab, fresh, k + 1);
                    assert(drawn(fresh, k as int, (k + 1) as int, fresh[k as int]));
                    assert forall|x: Seq<char>| #[trigger]
                        p.table.contains_key(x) implies tab.contains_key(x) || drawn(
                        fresh,
                        k as int,
                        p.next as int,
                        p.table[x],
                    ) by {
                        if !tab.contains_key(x) {
                            lemma_drawn_widen(fresh, (k + 1) as int, q.next as int, k as int, p.next as int, p.table[x]);
                        }
                    }
                    assert forall|j: int| 0 <= j < p.anon.len() implies drawn(
                        fresh,
                        k as int,
                        p.next as int,
                        #[trigger] p.anon[j],
                    ) by {
                        if j == 0 {
                            lemma_drawn_widen(fresh, k as int, (k + 1) as int, k as int, p.next as int, p.anon[j]);
                        } else {
                            assert(p.anon[j] == q.anon[j - 1]);
                            lemma_drawn_widen(fresh, (k + 1) as int, q.next as int, k as int, p.next as int, p.anon[j]);
                        }
                    }
                    if fresh.no_duplicates() && p.next <= fresh.len() {
                        assert(seq![fresh[k as int]].no_duplicates());
                        lemma_seq_concat_no_dup(seq![fresh[k as int]], q.anon, fresh, k as int, (k + 1) as int, q.next as int);
                    }
                } else if i + 2 < ts.len() && is_punct(ts[i + 2], '@') {
                    if i + 3 < ts.len() {
                        match ts[i + 3] {
                            TokenView::Ident(name) => {
                                let bound = tab.contains_key(name);
                                let sym = if bound { tab[name] } else { fresh[k as int] };
                                let tab1 = if bound { tab } else { tab.insert(name, sym) };
                                let k1: nat = if bound { k } else { k + 1 };
                                assert(drawn(fresh, k as int, (k + 1) as int, fresh[k as int]));
                                if i + 4 < ts.len() {
                                    let q = rw(ts, i + 5, tab1, fresh, k1);
                                    lemma_pass(ts, i + 5, tab1, fresh, k1);
                                    assert forall|x: Seq<char>| #[trigger]
                                        tab.contains_key(x) implies p.table.contains_key(x) && p.table[x] == tab[x] by {
                                        assert(tab1.contains_key(x) && tab1[x] == tab[x]);
                                    }
                                    assert forall|x: Seq<char>| #[trigger]
                                        p.table.contains_key(x) implies tab.contains_key(x) || drawn(
                                        fresh,
                                        k as int,
                                        p.next as int,
                                        p.table[x],
                                    ) by {
                                        if !tab.contains_key(x) {
                                            if tab1.contains_key(x) {
                                                lemma_drawn_widen(fresh, k as int, (k + 1) as int, k as int, p.next as int, p.table[x]);
                                            } else {
                                                lemma_drawn_widen(fresh, k1 as int, q.next as int, k as int, p.next as int, p.table[x]);
                                            }
                                        }
                                    }
                                    if is_punct(ts[i + 4], '/') {
                                        assert forall|j: int| 0 <= j < p.named.len() implies {
                                            &&& p.table.contains_key(#[trigger] p.named[j].0)
                                            &&& p.table[p.named[j].0] == p.named[j].1
                                        } by {
                                            if j > 0 {
                                                assert(p.named[j] == q.named[j - 1]);
                                            } else {
                                                assert(tab1.contains_key(name) && tab1[name] == sym);
                                                assert(p.named[0] == (name, sym));
                                            }
                                        }
                                        assert forall|j: int| 0 <= j < p.anon.len() implies drawn(
                                            fresh,
                                            k as int,
                                            p.next as int,
                                            #[trigger] p.anon[j],
                                        ) by {
                                            lemma_drawn_widen(fresh, k1 as int, q.next as int, k as int, p.next as int, p.anon[j]);
                                        }
                                    } else {
                                        assert forall|j: int| 0 <= j < p.anon.len() implies drawn(
                                            fresh,
                                            k as int,
                                            p.next as int,
                                            #[trigger] p.anon[j],
                                        ) by {
                                            lemma_drawn_widen(fresh, k1 as int, q.next as int, k as int, p.next as int, p.anon[j]);
                                        }
                                    }
                                } else {
                                    assert(p.anon =~= Seq::<Seq<char>>::empty());
                                    assert forall|x: Seq<char>| #[trigger]
                                        p.table.contains_key(x) implies tab.contains_key(x) || drawn(
                                        fresh,
                                        k as int,
                                        p.next as int,
                                        p.table[x],
                                    ) by {
                                        if !tab.contains_key(x) {
                                            assert(x == name);
                                        }
                                    }
                                }
                            },
                            _ => {
                                lemma_pass(ts, i + 4, tab, fresh, k);
                            },
                        }
                    } else {
                        assert(p.anon =~= Seq::<Seq<char>>::empty());
                    }
                } else {
                    lemma_pass(ts, i + 2, tab, fresh, k);
                }
            },
        }
    }
}

/// No `/` punctuation anywhere in `ts`, nested groups included.
pub open spec fn slash_free(ts: Seq<TokenView>) -> bool
    decreases ts,
{
    forall|j: int|
        0 <= j < ts.len() ==> match #[trigger] ts[j] {
            TokenView::Punct { ch, .. } => ch != '/',
            TokenView::Group(_, inner) => slash_free(inner),
            _ => true,
        }
}

proof fn lemma_pass_through_from(
    ts: Seq<TokenView>,
    i: int,
    tab: Map<Seq<char>, Seq<char>>,
    fresh: Seq<Seq<char>>,
    k: nat,
)
    requires
        slash_free(ts),
        0 <= i <= ts.len(),
    ensures
        rw(ts, i, tab, fresh, k).out == ts.subrange(i, ts.len() as int),
        rw(ts, i, tab, fresh, k).table == tab,
        rw(ts, i, tab, fresh, k).next == k,
    decreases ts, ts.len() - i,
{
    if i < ts.len() {
        let t = ts[i];
        match t {
            TokenView::Group(d, inner) => {
                lemma_pass_through_from(inner, 0, tab, fresh, k);
                lemma_pass_through_from(ts, i + 1, tab, fresh, k);
                assert(inner.subrange(0, inner.len() as int) =~= inner);
            },
            _ => {
                lemma_pass_through_from(ts, i + 1, tab, fresh, k);
            },
        }
        assert(ts.subrange(i, ts.len() as int) =~= seq![t] + ts.subrange(i + 1, ts.len() as int));
    } else {
        assert(ts.subrange(i, ts.len() as int) =~= Seq::<TokenView>::empty());
    }
}

/// A stream with no `/` in it comes back unchanged, and the table and the
/// supply are left as they were.
pub proof fn law_pass_through(
    ts: Seq<TokenView>,
    tab: Map<Seq<char>, Seq<char>>,
    fresh: Seq<Seq<char>>,
    k: nat,
)
    requires
        slash_free(ts),
    ensures
        rw(ts, 0, tab, fresh, k).out == ts,
        rw(ts, 0, tab, fresh, k).table == tab,
        rw(ts, 0, tab, fresh, k).next == k,
{
    lemma_pass_through_from(ts, 0, tab, fresh, k);
    assert(ts.subrange(0, ts.len() as int) =~= ts);
}

/// Anonymous markers get pairwise distinct identifiers, provided the supplied
/// identifiers are pairwise distinct.
pub proof fn law_anonymous_distinct(
    ts: Seq<TokenView>,
    tab: Map<Seq<char>, Seq<char>>,
    fresh: Seq<Seq<char>>,
    k: nat,
)
    requires
        fresh.no_duplicates(),
        rw(ts, 0, tab, fresh, k).next <= fresh.len(),
    ensures
        rw(ts, 0, tab, fresh, k).anon.no_duplicates(),
{
    lemma_pass(ts, 0, tab, fresh, k);
}

/// All named markers with the same name get the same identifier: the one the
/// table binds the name to at the end.
pub proof fn law_binding_consistency(
    ts: Seq<TokenView>,
    tab: Map<Seq<char>, Seq<char>>,
    fresh: Seq<Seq<char>>,
    k: nat,
)
    ensures
        forall|a: int, b: int|
            0 <= a < rw(ts, 0, tab, fresh, k).named.len() && 0 <= b < rw(ts, 0, tab, fresh, k).named.len()
                && (#[trigger] rw(ts, 0, tab, fresh, k).named[a]).0 == (#[trigger] rw(ts, 0, tab, fresh, k).named[b]).0
                ==> rw(ts, 0, tab, fresh, k).named[a].1 == rw(ts, 0, tab, fresh, k).named[b].1,
        forall|a: int|
            0 <= a < rw(ts, 0, tab, fresh, k).named.len() ==> rw(ts, 0, tab, fresh, k).table[(
            #[trigger] rw(ts, 0, tab, fresh, k).named[a]).0] == rw(ts, 0, tab, fresh, k).named[a].1,
{
    lemma_pass(ts, 0, tab, fresh, k);
}

/// Two rewrites, each starting from an empty table and drawing from supplies
/// with no identifier in common, bind no name to the same identifier.
pub proof fn law_isolation(
    ts1: Seq<TokenView>,
    f1: Seq<Seq<char>>,
    ts2: Seq<TokenView>,
    f2: Seq<Seq<char>>,
)
    requires
        forall|a: int, b: int| 0 <= a < f1.len() && 0 <= b < f2.len() ==> #[trigger] f1[a] != #[trigger] f2[b],
        rw(ts1, 0, Map::empty(), f1, 0).next <= f1.len(),
        rw(ts2, 0, Map::empty(), f2, 0).next <= f2.len(),
    ensures
        forall|x: Seq<char>|
            #[trigger] rw(ts1, 0, Map::empty(), f1, 0).table.contains_key(x)
                && #[trigger] rw(ts2, 0, Map::empty(), f2, 0).table.contains_key(x)
                ==> rw(ts1, 0, Map::empty(), f1, 0).table[x] != rw(ts2, 0, Map::empty(), f2, 0).table[x],
{
    let first = rw(ts1, 0, Map::empty(), f1, 0);
    let second = rw(ts2, 0, Map::empty(), f2, 0);
    lemma_pass(ts1, 0, Map::empty(), f1, 0);
    lemma_pass(ts2, 0, Map::empty(), f2, 0);
    assert forall|x: Seq<char>| first.table.contains_key(x) && second.table.contains_key(x) implies first.table[x]
        != second.table[x] by {
        let a = choose|j: int| 0 <= j < first.next && f1[j] == first.table[x];
        let b = choose|j: int| 0 <= j < second.next && f2[j] == second.table[x];
        assert(f1[a] != f2[b]);
    }
}

/// A name bound inside a group and used again after it, in the same stream,
/// gets the same identifier in both places.
pub proof fn law_nested_propagation(
    d: Delimiter,
    inner: Seq<TokenView>,
    rest: Seq<TokenView>,
    tab: Map<Seq<char>, Seq<char>>,
    fresh: Seq<Seq<char>>,
    k: nat,
)
    ensures
        ({
            let ts = seq![TokenView::Group(d, inner)] + rest;
            let a = rw(inner, 0, tab, fresh, k);
            let b = rw(ts, 1, a.table, fresh, a.next);
            forall|x: int, y: int|
                0 <= x < a.named.len() && 0 <= y < b.named.len() && (#[trigger] a.named[x]).0 == (
                #[trigger] b.named[y]).0 ==> a.named[x].1 == b.named[y].1
        }),
{
    let ts = seq![TokenView::Group(d, inner)] + rest;
    let a = rw(inner, 0, tab, fresh, k);
    let b = rw(ts, 1, a.table, fresh, a.next);
    let whole = rw(ts, 0, tab, fresh, k);
    assert(ts[0] == TokenView::Group(d, inner));
    assert(whole.named == a.named + b.named);
    law_binding_consistency(ts, tab, fresh, k);
    assert forall|x: int, y: int|
        0 <= x < a.named.len() && 0 <= y < b.named.len() && (#[trigger] a.named[x]).0 == (
        #[trigger] b.named[y]).0 implies a.named[x].1 == b.named[y].1 by {
        assert(whole.named[x] == a.named[x]);
        assert(whole.named[a.named.len() + y] == b.named[y]);
    }
}

/// Given well-formed identifiers in the table and in the supply, every
/// identifier a rewrite puts in place of a marker or binds is well formed.
pub proof fn law_format(
    ts: Seq<TokenView>,
    tab: Map<Seq<char>, Seq<char>>,
    fresh: Seq<Seq<char>>,
    k: nat,
)
    requires
        forall|x: Seq<char>| #[trigger] tab.contains_key(x) ==> is_symbol(tab[x]),
        forall|j: int| k <= j < fresh.len() ==> is_symbol(#[trigger] fresh[j]),
        rw(ts, 0, tab, fresh, k).next <= fresh.len(),
    ensures
        forall|j: int|
            0 <= j < rw(ts, 0, tab, fresh, k).anon.len() ==> is_symbol(
                #[trigger] rw(ts, 0, tab, fresh, k).anon[j],
            ),
        forall|j: int|
            0 <= j < rw(ts, 0, tab, fresh, k).named.len() ==> is_symbol(
                (#[trigger] rw(ts, 0, tab, fresh, k).named[j]).1,
            ),
        forall|x: Seq<char>| #[trigger]
            rw(ts, 0, tab, fresh, k).table.contains_key(x) ==> is_symbol(rw(ts, 0, tab, fresh, k).table[x]),
{
    let p = rw(ts, 0, tab, fresh, k);
    lemma_pass(ts, 0, tab, fresh, k);
    assert forall|x: Seq<char>| #[trigger] p.table.contains_key(x) implies is_symbol(p.table[x]) by {
        if !tab.contains_key(x) {
            let j = choose|j: int| k <= j < p.next && fresh[j] == p.table[x];
        }
    }
    assert forall|j: int| 0 <= j < p.anon.len() implies is_symbol(#[trigger] p.anon[j]) by {
        let m = choose|m: int| k <= m < p.next && fresh[m] == p.anon[j];
    }
    assert forall|j: int| 0 <= j < p.named.len() implies is_symbol((#[trigger] p.named[j]).1) by {
        assert(p.table.contains_key(p.named[j].0));
    }
}

} // verus!
