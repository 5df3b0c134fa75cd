use vstd::prelude::*;
use crate::names::NameTable;
use crate::symbol::{SymbolSupply, is_symbol};
use crate::token::{Token, TokenView, Delimiter, token_view, stream_view, lemma_group_view};

verus! {

/// What one pass over a token stream produces: the rewritten stream, the name
/// table after it, how many supplied identifiers it has taken, and, in order,
/// the identifiers it put in place of anonymous markers and of complete named
/// markers (with their names).
pub ghost struct Pass {
    pub out: Seq<TokenView>,
    pub table: Map<Seq<char>, Seq<char>>,
    pub next: nat,
    pub anon: Seq<Seq<char>>,
    pub named: Seq<(Seq<char>, Seq<char>)>,
}

/// A punctuation token with character `c`.
pub open spec fn is_punct(t: TokenView, c: char) -> bool {
    match t {
        TokenView::Punct { ch, .. } => ch == c,
        _ => false,
    }
}

/// The pass that ends here, with nothing more emitted.
pub open spec fn finished(tab: Map<Seq<char>, Seq<char>>, k: nat) -> Pass {
    Pass { out: Seq::empty(), table: tab, next: k, anon: Seq::empty(), named: Seq::empty() }
}

/// `t` emitted in front of what `p` emits.
pub open spec fn emit(t: TokenView, p: Pass) -> Pass {
    Pass { out: seq![t] + p.out, table: p.table, next: p.next, anon: p.anon, named: p.named }
}

/// The rewrite of `ts` from position `i` on, with name table `tab`, taking
/// identifiers for new symbols from `fresh`, starting at index `k`.
///
/// Markers are `/ ? /` (a new identifier each time) and `/ ? @ name /` (the
/// identifier bound to `name`, bound on first sight). Groups are rewritten
/// inside with the same table. A `/ ?` followed by neither form leaves only the
/// token that failed to complete the marker (`?` itself, or the token after `@`
/// or after the name); a stream that ends after `/ ?`, `/ ? @` or `/ ? @ name`
/// ends the rewrite of that stream.
pub open spec fn rw(
    ts: Seq<TokenView>,
    i: int,
    tab: Map<Seq<char>, Seq<char>>,
    fresh: Seq<Seq<char>>,
    k: nat,
) -> Pass
    decreases ts, ts.len() - i,
{
    if i < 0 || i >= ts.len() {
        finished(tab, k)
    } else {
        match ts[i] {
            TokenView::Group(d, inner) => {
                let a = rw(inner, 0, tab, fresh, k);
                let b = rw(ts, i + 1, a.table, fresh, a.next);
                Pass {
                    out: seq![TokenView::Group(d, a.out)] + b.out,
                    table: b.table,
                    next: b.next,
                    anon: a.anon + b.anon,
                    named: a.named + b.named,
                }
            },
            _ => {
                if !is_punct(ts[i], '/') || i + 1 >= ts.len() || !is_punct(ts[i + 1], '?') {
                    emit(ts[i], rw(ts, i + 1, tab, fresh, k))
                } else if i + 2 < ts.len() && is_punct(ts[i + 2], '/') {
                    let sym = fresh[k as int];
                    let p = rw(ts, i + 3, tab, fresh, k + 1);
                    Pass {
                        out: seq![TokenView::Ident(sym)] + p.out,
                        table: p.table,
                        next: p.next,
                        anon: seq![sym] + p.anon,
                        named: p.named,
                    }
                } else if i + 2 < ts.len() && is_punct(ts[i + 2], '@') {
                    if i + 3 >= ts.len() {
                        finished(tab, k)
                    } else {
                        match ts[i + 3] {
                            TokenView::Ident(name) => {
                                let bound = tab.contains_key(name);
                                let sym = if bound { tab[name] } else { fresh[k as int] };
                                let tab1 = if bound { tab } else { tab.insert(name, sym) };
                                let k1 = if bound { k } else { k + 1 };
                                if i + 4 >= ts.len() {
                                    finished(tab1, k1)
                                } else if is_punct(ts[i + 4], '/') {
                                    let p = rw(ts, i + 5, tab1, fresh, k1);
                                    Pass {
                                        out: seq![TokenView::Ident(sym)] + p.out,
                                        table: p.table,
                                        next: p.next,
                                        anon: p.anon,
                                        named: seq![(name, sym)] + p.named,
                                    }
                                } else {
                                    emit(ts[i + 4], rw(ts, i + 5, tab1, fresh, k1))
                                }
                            },
                            _ => emit(ts[i + 3], rw(ts, i + 4, tab, fresh, k)),
                        }
                    }
                } else if i + 2 >= ts.len() {
                    finished(tab, k)
                } else {
                    emit(ts[i + 1], rw(ts, i + 2, tab, fresh, k))
                }
            },
        }
    }
}

/// `p` emits `e` and then what `q` emits, and leaves the table and the supply
/// index where `q` leaves them.
pub open spec fn continues(p: Pass, e: Seq<TokenView>, q: Pass) -> bool {
    &&& p.out == e + q.out
    &&& p.table == q.table
    &&& p.next == q.next
}

proof fn lemma_continues_trans(a: Pass, e1: Seq<TokenView>, b: Pass, e2: Seq<TokenView>, c: Pass)
    requires
        continues(a, e1, b),
        continues(b, e2, c),
    ensures
        continues(a, e1 + e2, c),
{
    assert(e1 + (e2 + c.out) =~= (e1 + e2) + c.out);
}

proof fn lemma_prefix_trans(a: Seq<Seq<char>>, b: Seq<Seq<char>>, c: Seq<Seq<char>>)
    requires
        a.is_prefix_of(b),
        b.is_prefix_of(c),
    ensures
        a.is_prefix_of(c),
{
    assert(a =~= c.subrange(0, a.len() as int));
}

proof fn lemma_stream_push(v: Seq<Token>, t: Token)
    ensures
        stream_view(v.push(t)) == stream_view(v) + seq![token_view(t)],
{
    assert(stream_view(v.push(t)) =~= stream_view(v) + seq![token_view(t)]);
}

/// One step of the rewrite, checked against every continuation `f` of the
/// supply after the step (`sup`), holds for each such `f` once it holds where
/// `f` agrees with `sup` on the index the step may have drawn.
proof fn lemma_step(
    ts: Seq<TokenView>,
    i0: int,
    tab0: Map<Seq<char>, Seq<char>>,
    k0: nat,
    sup0: Seq<Seq<char>>,
    sup: Seq<Seq<char>>,
    emitted: Seq<TokenView>,
    i: int,
    tab: Map<Seq<char>, Seq<char>>,
    k: nat,
)
    requires
        sup0.is_prefix_of(sup),
        k <= sup.len(),
        forall|f: Seq<Seq<char>>|
            (#[trigger] sup.is_prefix_of(f)) && (k0 < sup.len() ==> f[k0 as int] == sup[k0 as int])
                ==> continues(rw(ts, i0, tab0, f, k0), emitted, rw(ts, i, tab, f, k)),
    ensures
        forall|f: Seq<Seq<char>>|
            sup.is_prefix_of(f) ==> sup0.is_prefix_of(f) && continues(
                #[trigger] rw(ts, i0, tab0, f, k0),
                emitted,
                rw(ts, i, tab, f, k),
            ),
{
    assert forall|f: Seq<Seq<char>>| sup.is_prefix_of(f) implies sup0.is_prefix_of(f) && continues(
        #[trigger] rw(ts, i0, tab0, f, k0),
        emitted,
        rw(ts, i, tab, f, k),
    ) by {
        lemma_prefix_trans(sup0, sup, f);
        if k0 < sup.len() {
            assert(f[k0 as int] == sup[k0 as int]);
        }
    }
}

fn is_punct_token(t: &Token, c: char) -> (r: bool)
    ensures
        r == is_punct(token_view(*t), c),
{
    match t {
        Token::Punct { ch, .. } => *ch == c,
        _ => false,
    }
}

/// Rewrites `tokens`, binding names in `names` and taking new identifiers from
/// `supply`. The result is [`rw`] of the stream, over the identifiers that the
/// supply holds afterwards; identifiers it had to generate are well formed.
pub fn replace_syms(tokens: &Vec<Token>, names: &mut NameTable, supply: &mut SymbolSupply) -> (out:
    Vec<Token>)
    requires
        old(supply).wf(),
    ensures
        final(supply).wf(),
        old(supply).symbols().is_prefix_of(final(supply).symbols()),
        old(supply).used() <= final(supply).used(),
        final(supply).symbols().len() == if final(supply).used() <= old(supply).symbols().len() {
            old(supply).symbols().len()
        } else {
            final(supply).used()
        },
        forall|j: int|
            old(supply).symbols().len() <= j < final(supply).symbols().len() ==> is_symbol(
                #[trigger] final(supply).symbols()[j],
            ),
        forall|f: Seq<Seq<char>>|
            final(supply).symbols().is_prefix_of(f) ==> continues(
                #[trigger] rw(stream_view(tokens@), 0, old(names)@, f, old(supply).used()),
                stream_view(out@),
                finished(final(names)@, final(supply).used()),
            ),
    decreases tokens,
{
    let ghost ts = stream_view(tokens@);
    let ghost tab0 = names@;
    let ghost k0 = supply.used();
    let ghost sup0 = supply.symbols();
    let mut out: Vec<Token> = Vec::new();
    let n = tokens.len();
    let mut i: usize = 0;
    proof {
        assert(sup0.is_prefix_of(sup0));
        assert forall|f: Seq<Seq<char>>| supply.symbols().is_prefix_of(f) implies continues(
            #[trigger] rw(ts, 0, tab0, f, k0),
            stream_view(out@),
            rw(ts, 0, names@, f, supply.used()),
        ) by {
            assert(stream_view(out@) + rw(ts, 0, names@, f, supply.used()).out =~= rw(ts, 0, names@, f, supply.used()).out);
        }
    }
    while i < n
        invariant
            n == tokens@.len(),
            i <= n,
            ts == stream_view(tokens@),
            supply.wf(),
            sup0 == old(supply).symbols(),
            tab0 == old(names)@,
            k0 == old(supply).used(),
            sup0.is_prefix_of(supply.symbols()),
            k0 <= supply.used(),
            supply.symbols().len() == if supply.used() <= sup0.len() {
                sup0.len()
            } else {
                supply.used()
            },
            forall|j: int|
                sup0.len() <= j < supply.symbols().len() ==> is_symbol(#[trigger] supply.symbols()[j]),
            forall|f: Seq<Seq<char>>|
                supply.symbols().is_prefix_of(f) ==> continues(
                    #[trigger] rw(ts, 0, tab0, f, k0),
                    stream_view(out@),
                    rw(ts, i as int, names@, f, supply.used()),
                ),
        decreases n - i,
    {
        let ghost i0 = i as int;
        let ghost tab_i = names@;
        let ghost k_i = supply.used();
        let ghost sup_i = supply.symbols();
        let ghost out0 = out@;
        let ghost mut emitted: Seq<TokenView> = Seq::empty();
        assert(forall|f: Seq<Seq<char>>|
            sup_i.is_prefix_of(f) ==> continues(
                #[trigger] rw(ts, 0, tab0, f, k0),
                stream_view(out0),
                rw(ts, i0, tab_i, f, k_i),
            ));
        let t = &tokens[i];
        match t {
            Token::Group(d, inner) => {
                proof {
                    assert(decreases_to!(*tokens => tokens@));
                    assert(decreases_to!(tokens@ => tokens@[i as int]));
                    assert(decreases_to!(tokens@[i as int] => tokens@[i as int]->Group_1));
                }
                let r = replace_syms(inner, names, supply);
                out.push(Token::Group(*d, r));
                i = i + 1;
                proof {
                    lemma_group_view(*d, r);
                    lemma_group_view(*d, *inner);
                    lemma_stream_push(out0, Token::Group(*d, r));
                    emitted = seq![token_view(Token::Group(*d, r))];
                    assert forall|f: Seq<Seq<char>>| supply.symbols().is_prefix_of(f) implies continues(
                        #[trigger] rw(ts, i0, tab_i, f, k_i),
                        emitted,
                        rw(ts, i as int, names@, f, supply.used()),
                    ) by {
                        let a = rw(stream_view(inner@), 0, tab_i, f, k_i);
                        assert(a.out =~= stream_view(r@) + Seq::<TokenView>::empty());
                    }
                }
            },
            _ => {
                proof {
                    assert(ts[i0] == token_view(tokens@[i0]));
                    if i0 + 1 < n {
                        assert(ts[i0 + 1] == token_view(tokens@[i0 + 1]));
                    }
                    if i0 + 2 < n {
                        assert(ts[i0 + 2] == token_view(tokens@[i0 + 2]));
                    }
                    if i0 + 3 < n {
                        assert(ts[i0 + 3] == token_view(tokens@[i0 + 3]));
                    }
                    if i0 + 4 < n {
                        assert(ts[i0 + 4] == token_view(tokens@[i0 + 4]));
                    }
                }
                if !is_punct_token(t, '/') || i + 1 >= n || !is_punct_token(&tokens[i + 1], '?') {
                    out.push(t.deep_copy());
                    i = i + 1;
                    proof {
                        emitted = seq![ts[i0]];
                    }
                } else if i + 2 < n && is_punct_token(&tokens[i + 2], '/') {
                    let s = supply.take();
                    proof {
                        emitted = seq![TokenView::Ident(s@)];
                    }
                    out.push(Token::Ident(s));
                    i = i + 3;
                } else if i + 2 < n && is_punct_token(&tokens[i + 2], '@') {
                    if i + 3 >= n {
                        i = n;
                    } else {
                        match &tokens[i + 3] {
                            Token::Ident(name) => {
                                let sym = match names.get(name) {
                                    Some(s) => s,
                                    None => {
                                        let s = supply.take();
                                        names.insert(name.clone(), s.clone());
                                        s
                                    },
                                };
                                if i + 4 >= n {
                                    i = n;
                                } else if is_punct_token(&tokens[i + 4], '/') {
                                    proof {
                                        emitted = seq![TokenView::Ident(sym@)];
                                    }
                                    out.push(Token::Ident(sym));
                                    i = i + 5;
                                } else {
                                    out.push(tokens[i + 4].deep_copy());
                                    i = i + 5;
                                    proof {
                                        emitted = seq![ts[i0 + 4]];
                                    }
                                }
                            },
                            other => {
                                out.push(other.deep_copy());
                                i = i + 4;
                                proof {
                                    emitted = seq![ts[i0 + 3]];
                                }
                            },
                        }
                    }
                } else if i + 2 >= n {
                    i = n;
                } else {
                    out.push(tokens[i + 1].deep_copy());
                    i = i + 2;
                    proof {
                        emitted = seq![ts[i0 + 1]];
                    }
                }
                proof {
                    assert(stream_view(out@) =~= stream_view(out0) + emitted);
                    lemma_step(ts, i0, tab_i, k_i, sup_i, supply.symbols(), emitted, i as int, names@, supply.used());
                }
            },
        }
        proof {
            assert forall|f: Seq<Seq<char>>| supply.symbols().is_prefix_of(f) implies continues(
                #[trigger] rw(ts, 0, tab0, f, k0),
                stream_view(out@),
                rw(ts, i as int, names@, f, supply.used()),
            ) by {
                lemma_prefix_trans(sup_i, supply.symbols(), f);
                lemma_continues_trans(
                    rw(ts, 0, tab0, f, k0),
                    stream_view(out0),
                    rw(ts, i0, tab_i, f, k_i),
                    emitted,
                    rw(ts, i as int, names@, f, supply.used()),
                );
            }
            lemma_prefix_trans(sup0, sup_i, supply.symbols());
            assert forall|j: int| sup0.len() <= j < supply.symbols().len() implies is_symbol(
                #[trigger] supply.symbols()[j],
            ) by {
                if j < sup_i.len() {
                    assert(supply.symbols()[j] == sup_i[j]);
                }
            }
        }
    }
    out
}

/// Rewrites one whole token stream with a fresh name table, generating every
/// identifier it needs and no other: the result is [`rw`] of the input over
/// some sequence of well-formed identifiers, all of which the rewrite takes.
pub fn randsym(input: Vec<Token>) -> (out: Vec<Token>)
    ensures
        exists|f: Seq<Seq<char>>|
            {
                &&& forall|j: int| 0 <= j < f.len() ==> is_symbol(#[trigger] f[j])
                &&& rw(stream_view(input@), 0, Map::empty(), f, 0).out == stream_view(out@)
                &&& rw(stream_view(input@), 0, Map::empty(), f, 0).next == f.len()
            },
{
    let mut names = NameTable::new();
    let mut supply = SymbolSupply::new();
    let out = replace_syms(&input, &mut names, &mut supply);
    proof {
        let f = supply.symbols();
        assert(f.is_prefix_of(f));
        let p = rw(stream_view(input@), 0, Map::empty(), f, 0);
        assert(p.out == stream_view(out@) + Seq::<TokenView>::empty());
        assert(p.out =~= stream_view(out@));
    }
    out
}

} // verus!
