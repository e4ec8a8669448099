use vstd::prelude::*;
use crate::ordem::{ordem_total, menor_igual, menor, equivalentes, lema_preordem_total};
use crate::especificacao::{ordenada, ordenacao_estavel, classe, lema_classe_concat, lema_classe_vazia};
use crate::pim_kernel::{particao_le, particao_lt, ponto_le, ponto_lt};

verus! {

/// The contents of the slices.
pub open spec fn vistas<T>(runs: Seq<&[T]>) -> Seq<Seq<T>> {
    Seq::new(runs.len(), |i: int| runs[i]@)
}

/// The runs laid end to end.
pub open spec fn concatena<T>(s: Seq<Seq<T>>) -> Seq<T>
    decreases s.len(),
{
    if s.len() == 0 {
        Seq::empty()
    } else {
        concatena(s.drop_last()) + s.last()
    }
}

/// Every run is sorted.
pub open spec fn todas_ordenadas<T: Ord>(s: Seq<Seq<T>>) -> bool {
    forall|i: int| 0 <= i < s.len() ==> #[trigger] ordenada(s[i])
}

/// The sum of the entries.
pub open spec fn soma(c: Seq<int>) -> int
    decreases c.len(),
{
    if c.len() == 0 {
        0
    } else {
        soma(c.drop_last()) + c.last()
    }
}

/// The lengths of the runs.
pub open spec fn tamanhos<T>(s: Seq<Seq<T>>) -> Seq<int> {
    Seq::new(s.len(), |i: int| s[i].len() as int)
}

/// The entries of `c` as integers.
pub open spec fn inteiros(c: Seq<usize>) -> Seq<int> {
    Seq::new(c.len(), |i: int| c[i] as int)
}

/// In the stable merge of the runs, `x` of run `i` comes before `y` of run
/// `j`: ties go to the earlier run.
pub open spec fn precede<T: Ord>(i: int, x: T, j: int, y: T) -> bool {
    if i <= j {
        menor_igual(x, y)
    } else {
        menor(x, y)
    }
}

/// Taking the first `c[i]` elements of each run `i` takes exactly the first
/// `soma(c)` elements of the stable merge of the runs: the last element
/// taken from any run comes before the first one left in any run.
pub open spec fn corte_multi<T: Ord>(s: Seq<Seq<T>>, c: Seq<int>) -> bool {
    &&& c.len() == s.len()
    &&& forall|i: int| 0 <= i < s.len() ==> 0 <= #[trigger] c[i] <= s[i].len()
    &&& forall|i: int, j: int|
        #![trigger c[i], c[j]]
        0 <= i < s.len() && 0 <= j < s.len() && 0 < c[i] && c[j] < s[j].len() ==> precede(
            i,
            s[i][c[i] - 1],
            j,
            s[j][c[j]],
        )
}

/// The first `c[i]` elements of each run.
pub open spec fn prefixos<T>(s: Seq<Seq<T>>, c: Seq<int>) -> Seq<Seq<T>> {
    Seq::new(s.len(), |i: int| s[i].take(c[i]))
}

/// What each run keeps after its first `c[i]` elements.
pub open spec fn sufixos<T>(s: Seq<Seq<T>>, c: Seq<int>) -> Seq<Seq<T>> {
    Seq::new(s.len(), |i: int| s[i].skip(c[i]))
}

/// The elements `lo[i]..hi[i]` of each run.
pub open spec fn fatias<T>(s: Seq<Seq<T>>, lo: Seq<int>, hi: Seq<int>) -> Seq<Seq<T>> {
    Seq::new(s.len(), |i: int| s[i].subrange(lo[i], hi[i]))
}

pub proof fn lema_concatena_len<T>(s: Seq<Seq<T>>)
    ensures
        concatena(s).len() == soma(tamanhos(s)),
    decreases s.len(),
{
    if s.len() > 0 {
        lema_concatena_len(s.drop_last());
        assert(tamanhos(s).drop_last() =~= tamanhos(s.drop_last()));
    }
}

/// Every element of the concatenation is an element of one of the runs.
pub proof fn lema_concatena_contem<T>(s: Seq<Seq<T>>, e: T)
    requires
        concatena(s).contains(e),
    ensures
        exists|i: int, q: int| 0 <= i < s.len() && 0 <= q < s[i].len() && #[trigger] s[i][q] == e,
    decreases s.len(),
{
    let k = (choose|k: int| 0 <= k < concatena(s).len() && concatena(s)[k] == e);
    let ant = concatena(s.drop_last());
    if k < ant.len() {
        assert(ant[k] == e);
        lema_concatena_contem(s.drop_last(), e);
        let (i, q) = choose|i: int, q: int| 0 <= i < s.drop_last().len() && 0 <= q < s.drop_last()[i].len() && #[trigger] s.drop_last()[i][q] == e;
        assert(s[i][q] == e);
    } else {
        assert(s[s.len() - 1][k - ant.len()] == e);
    }
}

/// Runs that are all empty concatenate to nothing.
pub proof fn lema_concatena_vazia<T>(s: Seq<Seq<T>>)
    requires
        forall|i: int| 0 <= i < s.len() ==> #[trigger] s[i].len() == 0,
    ensures
        concatena(s) == Seq::<T>::empty(),
    decreases s.len(),
{
    if s.len() > 0 {
        lema_concatena_vazia(s.drop_last());
        assert(concatena(s) =~= Seq::<T>::empty());
    }
}

/// Pieces `f[i] + g[i]` concatenate to all the `f` then all the `g` when
/// no nonempty `g[i]` is followed by a nonempty `f[j]`.
pub proof fn lema_concatena_troca<T>(f: Seq<Seq<T>>, g: Seq<Seq<T>>)
    requires
        f.len() == g.len(),
        forall|i: int, j: int|
            #![trigger g[i], f[j]]
            0 <= i < j < f.len() && g[i].len() > 0 ==> f[j].len() == 0,
    ensures
        concatena(Seq::new(f.len(), |i: int| f[i] + g[i])) == concatena(f) + concatena(g),
    decreases f.len(),
{
    let k = f.len();
    let h = Seq::new(k, |i: int| f[i] + g[i]);
    if k == 0 {
        assert(concatena(h) =~= concatena(f) + concatena(g));
    } else {
        let f2 = f.drop_last();
        let g2 = g.drop_last();
        lema_concatena_troca(f2, g2);
        assert(h.drop_last() =~= Seq::new(f2.len(), |i: int| f2[i] + g2[i]));
        if f[k - 1].len() > 0 {
            assert forall|i: int| 0 <= i < g2.len() implies #[trigger] g2[i].len() == 0 by {
                assert(g[i] == g2[i]);
                if g[i].len() > 0 {
                    assert(f[k - 1].len() == 0);
                }
            }
            lema_concatena_vazia(g2);
            assert(concatena(h) =~= concatena(f) + concatena(g));
        } else {
            assert(f[k - 1] =~= Seq::<T>::empty());
            assert(concatena(h) =~= concatena(f) + concatena(g));
        }
    }
}

/// The elements of a key in the concatenation are those of each run in turn.
pub proof fn lema_classe_concatena<T: Ord>(s: Seq<Seq<T>>, x: T)
    ensures
        classe(concatena(s), x) == concatena(Seq::new(s.len(), |i: int| classe(s[i], x))),
    decreases s.len(),
{
    let cs = Seq::new(s.len(), |i: int| classe(s[i], x));
    if s.len() == 0 {
        lema_classe_vazia(concatena(s), x);
    } else {
        lema_classe_concatena(s.drop_last(), x);
        lema_classe_concat(concatena(s.drop_last()), s.last(), x);
        assert(cs.drop_last() =~= Seq::new(s.drop_last().len(), |i: int| classe(s.drop_last()[i], x)));
    }
}

/// Sums add up entry by entry.
pub proof fn lema_soma_soma(a: Seq<int>, b: Seq<int>)
    requires
        a.len() == b.len(),
    ensures
        soma(Seq::new(a.len(), |i: int| a[i] + b[i])) == soma(a) + soma(b),
    decreases a.len(),
{
    if a.len() > 0 {
        lema_soma_soma(a.drop_last(), b.drop_last());
        assert(Seq::new(a.len(), |i: int| a[i] + b[i]).drop_last() =~= Seq::new(
            a.drop_last().len(),
            |i: int| a.drop_last()[i] + b.drop_last()[i],
        ));
    }
}

/// An element of a stable sort is an element of what was sorted.
pub proof fn lema_membro<T: Ord>(o: Seq<T>, r: Seq<T>, q: int)
    requires
        ordem_total::<T>(),
        ordenacao_estavel(o, r),
        0 <= q < r.len(),
    ensures
        o.contains(r[q]),
{
    lema_preordem_total::<T>();
    let x = r[q];
    let pred = |y: T| equivalentes(y, x);
    assert(pred(r[q]));
    r.lemma_filter_contains(pred, q);
    assert(classe(r, x) == classe(o, x));
    o.lemma_filter_contains_rev(pred, x);
}

/// Every element taken by a cut comes before every element that it leaves.
pub proof fn lema_corte_geral<T: Ord>(s: Seq<Seq<T>>, c: Seq<int>, i: int, p: int, j: int, q: int)
    requires
        ordem_total::<T>(),
        todas_ordenadas(s),
        corte_multi(s, c),
        0 <= i < s.len(),
        0 <= j < s.len(),
        0 <= p < c[i],
        c[j] <= q < s[j].len(),
    ensures
        precede(i, s[i][p], j, s[j][q]),
{
    lema_preordem_total::<T>();
    assert(ordenada(s[i]));
    assert(ordenada(s[j]));
    let x1 = s[i][c[i] - 1];
    let y1 = s[j][c[j]];
    assert(precede(i, x1, j, y1));
    if p < c[i] - 1 {
        assert(menor_igual(s[i][p], x1));
    }
    if q > c[j] {
        assert(menor_igual(y1, s[j][q]));
    }
}

/// Stable sorts of what a cut takes and of what it leaves, put one after
/// the other, stably sort the runs.
pub proof fn lema_corte_divide<T: Ord>(s: Seq<Seq<T>>, c: Seq<int>, l: Seq<T>, r: Seq<T>)
    requires
        ordem_total::<T>(),
        todas_ordenadas(s),
        corte_multi(s, c),
        ordenacao_estavel(concatena(prefixos(s, c)), l),
        ordenacao_estavel(concatena(sufixos(s, c)), r),
    ensures
        ordenacao_estavel(concatena(s), l + r),
{
    lema_preordem_total::<T>();
    let k = s.len();
    let pre = prefixos(s, c);
    let suf = sufixos(s, c);
    // lengths
    lema_concatena_len(s);
    lema_concatena_len(pre);
    lema_concatena_len(suf);
    lema_soma_soma(tamanhos(pre), tamanhos(suf));
    assert(Seq::new(k, |i: int| tamanhos(pre)[i] + tamanhos(suf)[i]) =~= tamanhos(s));
    // classes
    assert forall|x: T| #[trigger] classe(l + r, x) == classe(concatena(s), x) by {
        let f = Seq::new(k, |i: int| classe(pre[i], x));
        let g = Seq::new(k, |i: int| classe(suf[i], x));
        assert forall|i: int, j: int| #![trigger g[i], f[j]] 0 <= i < j < k && g[i].len() > 0 implies f[j].len() == 0 by {
            if f[j].len() > 0 {
                let pred = |y: T| equivalentes(y, x);
                let z = f[j][0];
                let y = g[i][0];
                suf[i].lemma_filter_pred(pred, 0);
                pre[j].lemma_filter_pred(pred, 0);
                assert(f[j].contains(z));
                assert(g[i].contains(y));
                pre[j].lemma_filter_contains_rev(pred, z);
                suf[i].lemma_filter_contains_rev(pred, y);
                let pz = choose|pz: int| 0 <= pz < pre[j].len() && pre[j][pz] == z;
                let qy = choose|qy: int| 0 <= qy < suf[i].len() && suf[i][qy] == y;
                assert(s[j][pz] == z);
                assert(s[i][qy + c[i]] == y);
                lema_corte_geral(s, c, j, pz, i, qy + c[i]);
            }
        }
        lema_concatena_troca(f, g);
        assert forall|i: int| 0 <= i < k implies #[trigger] classe(s[i], x) == f[i] + g[i] by {
            assert(s[i] =~= pre[i] + suf[i]);
            lema_classe_concat(pre[i], suf[i], x);
        }
        assert(Seq::new(k, |i: int| f[i] + g[i]) =~= Seq::new(s.len(), |i: int| classe(s[i], x)));
        lema_classe_concatena(s, x);
        lema_classe_concatena(pre, x);
        lema_classe_concatena(suf, x);
        lema_classe_concat(l, r, x);
    }
    // order
    assert forall|p: int, q: int| 0 <= p < q < (l + r).len() implies #[trigger] menor_igual((l + r)[p], (l + r)[q]) by {
        if q < l.len() {
        } else if p >= l.len() {
            assert(menor_igual(r[p - l.len()], r[q - l.len()]));
        } else {
            let x = l[p];
            let y = r[q - l.len()];
            lema_membro(concatena(pre), l, p);
            lema_membro(concatena(suf), r, q - l.len());
            lema_concatena_contem(pre, x);
            lema_concatena_contem(suf, y);
            let (i, pp) = choose|i: int, pp: int| 0 <= i < pre.len() && 0 <= pp < pre[i].len() && #[trigger] pre[i][pp] == x;
            let (j, qq) = choose|j: int, qq: int| 0 <= j < suf.len() && 0 <= qq < suf[j].len() && #[trigger] suf[j][qq] == y;
            assert(s[i][pp] == x);
            assert(s[j][qq + c[j]] == y);
            lema_corte_geral(s, c, i, pp, j, qq + c[j]);
        }
    }
}

pub proof fn lema_soma_update(c: Seq<int>, p: int, v: int)
    requires
        0 <= p < c.len(),
    ensures
        soma(c.update(p, v)) == soma(c) - c[p] + v,
    decreases c.len(),
{
    if p < c.len() - 1 {
        lema_soma_update(c.drop_last(), p, v);
        assert(c.update(p, v).drop_last() =~= c.drop_last().update(p, v));
    } else {
        assert(c.update(p, v).drop_last() =~= c.drop_last());
    }
}

pub proof fn lema_soma_zeros(k: nat)
    ensures
        soma(Seq::new(k, |i: int| 0int)) == 0,
    decreases k,
{
    if k > 0 {
        lema_soma_zeros((k - 1) as nat);
        assert(Seq::new(k, |i: int| 0int).drop_last() =~= Seq::new((k - 1) as nat, |i: int| 0int));
    }
}

/// Entries bounded one by one bound the sum; equal sums then mean equal
/// entries.
pub proof fn lema_soma_menor(c: Seq<int>, d: Seq<int>)
    requires
        c.len() == d.len(),
        forall|i: int| 0 <= i < c.len() ==> #[trigger] c[i] <= d[i],
    ensures
        soma(c) <= soma(d),
        soma(c) == soma(d) ==> c == d,
    decreases c.len(),
{
    if c.len() > 0 {
        lema_soma_menor(c.drop_last(), d.drop_last());
        if soma(c) == soma(d) {
            assert(soma(c.drop_last()) == soma(d.drop_last()));
            assert(c.drop_last() == d.drop_last());
            assert(c.last() == d.last());
            assert forall|i: int| 0 <= i < c.len() implies c[i] == d[i] by {
                if i < c.len() - 1 {
                    assert(c[i] == c.drop_last()[i]);
                    assert(d[i] == d.drop_last()[i]);
                }
            }
            assert(c =~= d);
        }
    }
}

/// A nonnegative entry does not exceed a sum of nonnegative entries.
pub proof fn lema_soma_entrada(c: Seq<int>, i: int)
    requires
        0 <= i < c.len(),
        forall|j: int| 0 <= j < c.len() ==> 0 <= #[trigger] c[j],
    ensures
        0 <= c[i] <= soma(c),
    decreases c.len(),
{
    if i < c.len() - 1 {
        lema_soma_entrada(c.drop_last(), i);
        lema_soma_nao_negativa(c.drop_last());
    } else {
        lema_soma_nao_negativa(c.drop_last());
    }
}

pub proof fn lema_soma_nao_negativa(c: Seq<int>)
    requires
        forall|j: int| 0 <= j < c.len() ==> 0 <= #[trigger] c[j],
    ensures
        0 <= soma(c),
    decreases c.len(),
{
    if c.len() > 0 {
        lema_soma_nao_negativa(c.drop_last());
    }
}

/// Among the first `k` runs, the one whose next element comes first in the
/// stable merge (the earliest run on ties), or `-1` when they are spent.
pub open spec fn proximo<T: Ord>(s: Seq<Seq<T>>, c: Seq<int>, k: int) -> int
    decreases k,
{
    if k <= 0 {
        -1
    } else {
        let p = proximo(s, c, k - 1);
        let i = k - 1;
        if c[i] >= s[i].len() {
            p
        } else if p < 0 {
            i
        } else if menor(s[i][c[i]], s[p][c[p]]) {
            i
        } else {
            p
        }
    }
}

pub proof fn lema_proximo<T: Ord>(s: Seq<Seq<T>>, c: Seq<int>, k: int)
    requires
        ordem_total::<T>(),
        c.len() == s.len(),
        0 <= k <= s.len(),
        forall|i: int| 0 <= i < s.len() ==> 0 <= #[trigger] c[i] <= s[i].len(),
    ensures
        proximo(s, c, k) == -1 <==> forall|i: int| 0 <= i < k ==> #[trigger] c[i] == s[i].len(),
        proximo(s, c, k) != -1 ==> {
            let p = proximo(s, c, k);
            &&& 0 <= p < k
            &&& c[p] < s[p].len()
            &&& forall|i: int| 0 <= i < k && c[i] < s[i].len() ==> precede(p, s[p][c[p]], i, #[trigger] s[i][c[i]])
        },
    decreases k,
{
    lema_preordem_total::<T>();
    if k > 0 {
        lema_proximo(s, c, k - 1);
        let p = proximo(s, c, k - 1);
        let i = k - 1;
        if c[i] < s[i].len() && p >= 0 && menor(s[i][c[i]], s[p][c[p]]) {
            assert forall|j: int| 0 <= j < k && c[j] < s[j].len() implies precede(i, s[i][c[i]], j, #[trigger] s[j][c[j]]) by {
                if j < i {
                    assert(precede(p, s[p][c[p]], j, s[j][c[j]]));
                }
            }
        }
    }
}

/// Taking the next element of the merge extends a cut by one.
pub proof fn lema_corte_passo<T: Ord>(s: Seq<Seq<T>>, c: Seq<int>)
    requires
        ordem_total::<T>(),
        todas_ordenadas(s),
        corte_multi(s, c),
        proximo(s, c, s.len() as int) != -1,
    ensures
        corte_multi(s, c.update(proximo(s, c, s.len() as int), c[proximo(s, c, s.len() as int)] + 1)),
{
    lema_preordem_total::<T>();
    let k = s.len() as int;
    lema_proximo(s, c, k);
    let p = proximo(s, c, k);
    let d = c.update(p, c[p] + 1);
    assert forall|i: int, j: int|
        #![trigger d[i], d[j]]
        0 <= i < s.len() && 0 <= j < s.len() && 0 < d[i] && d[j] < s[j].len() implies precede(
            i,
            s[i][d[i] - 1],
            j,
            s[j][d[j]],
        ) by {
        assert(ordenada(s[p]));
        if i == p && j == p {
            assert(menor_igual(s[p][c[p]], s[p][c[p] + 1]));
        } else if i == p {
            assert(precede(p, s[p][c[p]], j, s[j][c[j]]));
        } else if j == p {
            assert(precede(i, s[i][c[i] - 1], p, s[p][c[p]]));
            assert(menor_igual(s[p][c[p]], s[p][c[p] + 1]));
        } else {
            assert(precede(i, s[i][c[i] - 1], j, s[j][c[j]]));
        }
    }
}

/// Every rank of the merge has a cut.
pub proof fn lema_corte_existe<T: Ord>(s: Seq<Seq<T>>, r: int)
    requires
        ordem_total::<T>(),
        todas_ordenadas(s),
        0 <= r <= soma(tamanhos(s)),
    ensures
        exists|c: Seq<int>| #[trigger] corte_multi(s, c) && soma(c) == r,
    decreases r,
{
    if r == 0 {
        let c = Seq::new(s.len(), |i: int| 0int);
        lema_soma_zeros(s.len());
        assert(corte_multi(s, c));
    } else {
        lema_corte_existe(s, r - 1);
        let c = choose|c: Seq<int>| #[trigger] corte_multi(s, c) && soma(c) == r - 1;
        let k = s.len() as int;
        lema_proximo(s, c, k);
        if proximo(s, c, k) == -1 {
            lema_soma_menor(c, tamanhos(s));
            assert(c =~= tamanhos(s));
        }
        let p = proximo(s, c, k);
        lema_corte_passo(s, c);
        lema_soma_update(c, p, c[p] + 1);
        assert(corte_multi(s, c.update(p, c[p] + 1)));
    }
}

/// A cut still cuts the runs cut short at a later cut, and what it takes
/// and leaves there are the prefixes and the slices between the two cuts.
pub proof fn lema_corte_restrito<T: Ord>(s: Seq<Seq<T>>, c: Seq<int>, d: Seq<int>)
    requires
        ordem_total::<T>(),
        todas_ordenadas(s),
        corte_multi(s, c),
        d.len() == s.len(),
        forall|i: int| 0 <= i < s.len() ==> c[i] <= #[trigger] d[i] <= s[i].len(),
    ensures
        todas_ordenadas(prefixos(s, d)),
        corte_multi(prefixos(s, d), c),
        prefixos(prefixos(s, d), c) == prefixos(s, c),
        sufixos(prefixos(s, d), c) == fatias(s, c, d),
{
    let t = prefixos(s, d);
    assert forall|i: int| 0 <= i < t.len() implies #[trigger] ordenada(t[i]) by {
        assert(ordenada(s[i]));
        crate::especificacao::lema_fatia_ordenada(s[i], 0, d[i]);
        assert(t[i] =~= s[i].subrange(0, d[i]));
    }
    assert forall|i: int, j: int|
        #![trigger c[i], c[j]]
        0 <= i < t.len() && 0 <= j < t.len() && 0 < c[i] && c[j] < t[j].len() implies precede(
            i,
            t[i][c[i] - 1],
            j,
            t[j][c[j]],
        ) by {
        assert(precede(i, s[i][c[i] - 1], j, s[j][c[j]]));
    }
    assert(prefixos(t, c) =~= prefixos(s, c)) by {
        assert forall|i: int| 0 <= i < s.len() implies #[trigger] prefixos(t, c)[i] == prefixos(s, c)[i] by {
            assert(prefixos(t, c)[i] =~= prefixos(s, c)[i]);
        }
    }
    assert(sufixos(t, c) =~= fatias(s, c, d)) by {
        assert forall|i: int| 0 <= i < s.len() implies #[trigger] sufixos(t, c)[i] == fatias(s, c, d)[i] by {
            assert(sufixos(t, c)[i] =~= fatias(s, c, d)[i]);
        }
    }
}

/// A cut of windows of `want` elements taken after a cut of the runs, with
/// `want` elements in all, extends that cut.
pub proof fn lema_corte_janela<T: Ord>(s: Seq<Seq<T>>, cur: Seq<int>, w: Seq<int>, cut: Seq<int>, want: int)
    requires
        ordem_total::<T>(),
        todas_ordenadas(s),
        corte_multi(s, cur),
        w.len() == s.len(),
        forall|i: int| 0 <= i < s.len() ==> 0 <= #[trigger] w[i] && cur[i] + w[i] <= s[i].len(),
        forall|i: int| 0 <= i < s.len() && #[trigger] w[i] < want ==> cur[i] + w[i] == s[i].len(),
        corte_multi(fatias(s, cur, Seq::new(s.len(), |i: int| cur[i] + w[i])), cut),
        soma(cut) == want,
    ensures
        corte_multi(s, Seq::new(s.len(), |i: int| cur[i] + cut[i])),
{
    lema_preordem_total::<T>();
    let k = s.len();
    let hi = Seq::new(k, |i: int| cur[i] + w[i]);
    let win = fatias(s, cur, hi);
    let d = Seq::new(k, |i: int| cur[i] + cut[i]);
    assert forall|i: int| 0 <= i < k implies 0 <= #[trigger] d[i] <= s[i].len() by {
        assert(0 <= cut[i] <= win[i].len());
    }
    assert forall|i: int, j: int|
        #![trigger d[i], d[j]]
        0 <= i < k && 0 <= j < k && 0 < d[i] && d[j] < s[j].len() implies precede(
            i,
            s[i][d[i] - 1],
            j,
            s[j][d[j]],
        ) by {
        assert(0 <= cut[i] <= win[i].len());
        assert(0 <= cut[j] <= win[j].len());
        if cut[i] > 0 {
            if cut[j] < w[j] {
                assert(precede(i, win[i][cut[i] - 1], j, win[j][cut[j]]));
                assert(win[i][cut[i] - 1] == s[i][d[i] - 1]);
                assert(win[j][cut[j]] == s[j][d[j]]);
            } else {
                // window `j` was cut short at `want` and taken whole: it is all
                // that was taken.
                assert(w[j] >= want);
                assert forall|t: int| 0 <= t < k implies 0 <= #[trigger] cut[t] by {
                    assert(0 <= cut[t] <= win[t].len());
                }
                if i != j {
                    lema_soma_update(cut, j, 0);
                    assert forall|t: int| 0 <= t < k implies 0 <= #[trigger] cut.update(j, 0)[t] by {
                        assert(0 <= cut[t] <= win[t].len());
                    }
                    lema_soma_entrada(cut.update(j, 0), i);
                }
                assert(ordenada(s[j]));
                assert(menor_igual(s[j][d[j] - 1], s[j][d[j]]));
            }
        } else {
            lema_corte_geral(s, cur, i, cur[i] - 1, j, d[j]);
        }
    }
}

/// A prefix of nonnegative entries sums to no more than all of them.
pub proof fn lema_soma_prefixo(c: Seq<int>, i: int)
    requires
        0 <= i <= c.len(),
        forall|j: int| 0 <= j < c.len() ==> 0 <= #[trigger] c[j],
    ensures
        soma(c.take(i)) <= soma(c),
    decreases c.len(),
{
    if i == c.len() {
        assert(c.take(i) =~= c);
    } else {
        lema_soma_prefixo(c.drop_last(), i);
        assert(c.drop_last().take(i) =~= c.take(i));
    }
}

/// Most runs that one k-way merge takes.
pub const KWAY_FANOUT: usize = 8;

/// The widths `hi[i] - lo[i]`.
pub open spec fn larguras(lo: Seq<usize>, hi: Seq<usize>) -> Seq<int> {
    Seq::new(lo.len(), |i: int| hi[i] - lo[i])
}

/// Narrowing the ranges, one of them strictly, lowers the total width.
proof fn lema_larguras_descem(lo: Seq<usize>, hi: Seq<usize>, lo2: Seq<usize>, hi2: Seq<usize>, m: int)
    requires
        lo.len() == hi.len() == lo2.len() == hi2.len(),
        0 <= m < lo.len(),
        forall|i: int| 0 <= i < lo.len() ==> lo[i] <= #[trigger] lo2[i] <= hi2[i] <= hi[i],
        hi2[m] - lo2[m] < hi[m] - lo[m],
    ensures
        0 <= soma(larguras(lo2, hi2)) < soma(larguras(lo, hi)),
{
    let w = larguras(lo, hi);
    let w2 = larguras(lo2, hi2);
    let v = w.update(m, w2[m]);
    lema_soma_menor(w2, v);
    lema_soma_update(w, m, w2[m]);
    lema_soma_nao_negativa(w2);
}

/// Multi-sequence selection: cuts the sorted runs `seq` at rank `rank` of
/// their stable merge, writing into `out` how many elements of each run
/// the first `rank` elements of the merge take. The widest of the ranges
/// still open is split at its middle element `p`: when the elements below
/// `p` are more than `rank`, every range is cut down to them; when the
/// elements up to `p` are fewer, every range starts after them; otherwise
/// the elements below `p` are taken, and the ties of `p` from the earliest
/// runs up to `rank`.
#[verifier::spinoff_prover]
#[verifier::rlimit(50)]
pub fn multiseq_partition<T: Ord + Copy>(seq: &[&[T]], rank: usize, out: &mut [usize])
    requires
        ordem_total::<T>(),
        seq@.len() <= KWAY_FANOUT,
        old(out)@.len() == seq@.len(),
        todas_ordenadas(vistas(seq@)),
        rank <= soma(tamanhos(vistas(seq@))),
        soma(tamanhos(vistas(seq@))) <= usize::MAX,
    ensures
        final(out)@.len() == seq@.len(),
        corte_multi(vistas(seq@), inteiros(final(out)@)),
        soma(inteiros(final(out)@)) == rank,
{
    let ghost s = vistas(seq@);
    let ns = seq.len();
    proof {
        lema_corte_existe(s, rank as int);
    }
    let ghost c = choose|c: Seq<int>| #[trigger] corte_multi(s, c) && soma(c) == rank;
    let mut lo: Vec<usize> = Vec::new();
    let mut hi: Vec<usize> = Vec::new();
    let mut i: usize = 0;
    while i < ns
        invariant
            ns == seq@.len(),
            s == vistas(seq@),
            corte_multi(s, c),
            i <= ns,
            lo@.len() == i,
            hi@.len() == i,
            forall|j: int| 0 <= j < i ==> #[trigger] lo@[j] == 0,
            forall|j: int| 0 <= j < i ==> #[trigger] hi@[j] == s[j].len(),
        decreases ns - i,
    {
        let n_i = seq[i].len();
        proof {
            assert(s[i as int] == seq@[i as int]@);
        }
        lo.push(0);
        hi.push(n_i);
        i = i + 1;
    }
    proof {
        assert forall|j: int| 0 <= j < ns implies #[trigger] lo@[j] <= c[j] <= hi@[j] && hi@[j] <= s[j].len() by {
            assert(lo@[j] == 0);
            assert(hi@[j] == s[j].len());
            assert(0 <= c[j] <= s[j].len());
        }
    }
    loop
        invariant
            ordem_total::<T>(),
            ns == seq@.len(),
            ns <= KWAY_FANOUT,
            s == vistas(seq@),
            todas_ordenadas(s),
            soma(tamanhos(s)) <= usize::MAX,
            out@.len() == ns,
            corte_multi(s, c),
            soma(c) == rank,
            lo@.len() == ns,
            hi@.len() == ns,
            forall|j: int| 0 <= j < ns ==> #[trigger] lo@[j] <= c[j] <= hi@[j] && hi@[j] <= s[j].len(),
        decreases soma(larguras(lo@, hi@)),
    {
        // the widest open range
        let mut m: usize = usize::MAX;
        let mut w: usize = 0;
        let mut i: usize = 0;
        while i < ns
            invariant
                ns == lo@.len(),
                ns == hi@.len(),
                i <= ns,
                forall|j: int| 0 <= j < ns ==> #[trigger] lo@[j] <= hi@[j],
                m == usize::MAX <==> w == 0,
                m == usize::MAX ==> forall|j: int| 0 <= j < i ==> #[trigger] lo@[j] == hi@[j],
                m != usize::MAX ==> m < i && w == hi@[m as int] - lo@[m as int],
            decreases ns - i,
        {
            if hi[i] - lo[i] > w {
                w = hi[i] - lo[i];
                m = i;
            }
            i = i + 1;
        }
        if m == usize::MAX {
            let mut i: usize = 0;
            while i < ns
                invariant
                    ns == lo@.len(),
                    ns == out@.len(),
                    i <= ns,
                    forall|j: int| 0 <= j < i ==> #[trigger] out@[j] == lo@[j],
                decreases ns - i,
            {
                out[i] = lo[i];
                i = i + 1;
            }
            proof {
                assert(inteiros(out@) =~= c);
            }
            return;
        }
        let p = seq[m][lo[m] + (hi[m] - lo[m]) / 2];
        let ghost q = lo@[m as int] + (hi@[m as int] - lo@[m as int]) / 2;
        proof {
            assert(s[m as int][q] == p);
        }
        let mut plt: Vec<usize> = Vec::new();
        let mut ple: Vec<usize> = Vec::new();
        let mut lt: usize = 0;
        let mut le: usize = 0;
        let ghost mut gplt: Seq<int> = Seq::empty();
        let ghost mut gple: Seq<int> = Seq::empty();
        let ghost mut gtam: Seq<int> = Seq::empty();
        let mut i: usize = 0;
        while i < ns
            invariant
                ordem_total::<T>(),
                ns == seq@.len(),
                s == vistas(seq@),
                todas_ordenadas(s),
                soma(tamanhos(s)) <= usize::MAX,
                i <= ns,
                plt@.len() == i,
                ple@.len() == i,
                gplt.len() == i,
                gple.len() == i,
                gtam == tamanhos(s).take(i as int),
                forall|j: int| 0 <= j < i ==> #[trigger] gplt[j] == plt@[j],
                forall|j: int| 0 <= j < i ==> #[trigger] gple[j] == ple@[j],
                forall|j: int| 0 <= j < i ==> ponto_lt(s[j], p, #[trigger] plt@[j] as int),
                forall|j: int| 0 <= j < i ==> ponto_le(s[j], p, #[trigger] ple@[j] as int),
                lt == soma(gplt),
                le == soma(gple),
                soma(gplt) <= soma(gtam),
                soma(gple) <= soma(gtam),
            decreases ns - i,
        {
            assert(ordenada(s[i as int]));
            let a = particao_lt(seq[i], &p);
            let b = particao_le(seq[i], &p);
            proof {
                assert(tamanhos(s).take(i + 1).drop_last() =~= gtam);
                lema_soma_prefixo(tamanhos(s), i + 1);
                assert(gplt.push(a as int).drop_last() =~= gplt);
                assert(gple.push(b as int).drop_last() =~= gple);
                gplt = gplt.push(a as int);
                gple = gple.push(b as int);
                gtam = tamanhos(s).take(i + 1);
            }
            lt = lt + a;
            le = le + b;
            plt.push(a);
            ple.push(b);
            i = i + 1;
        }
        proof {
            assert(gtam =~= tamanhos(s));
            assert(gplt =~= inteiros(plt@));
            assert(gple =~= inteiros(ple@));
        }
        if lt <= rank && rank <= le {
            let mut need = rank - lt;
            let ghost mut gout: Seq<int> = Seq::empty();
            let mut i: usize = 0;
            while i < ns
                invariant
                    ordem_total::<T>(),
                    ns == seq@.len(),
                    ns == out@.len(),
                    s == vistas(seq@),
                    plt@.len() == ns,
                    ple@.len() == ns,
                    gple == inteiros(ple@),
                    gplt == inteiros(plt@),
                    forall|j: int| 0 <= j < ns ==> ponto_lt(s[j], p, #[trigger] plt@[j] as int),
                    forall|j: int| 0 <= j < ns ==> ponto_le(s[j], p, #[trigger] ple@[j] as int),
                    lt == soma(gplt),
                    le == soma(gple),
                    i <= ns,
                    gout.len() == i,
                    forall|j: int| 0 <= j < i ==> #[trigger] gout[j] == out@[j],
                    forall|j: int| 0 <= j < i ==> plt@[j] <= #[trigger] out@[j] <= ple@[j],
                    soma(gout) + need == soma(gplt.take(i as int)) + rank - lt,
                    need > 0 ==> forall|j: int| 0 <= j < i ==> #[trigger] out@[j] == ple@[j],
                    forall|t: int| 0 <= t < i && #[trigger] out@[t] > plt@[t] ==> forall|j: int| 0 <= j < t ==> out@[j] == ple@[j],
                decreases ns - i,
            {
                proof {
                    assert(0 <= plt@[i as int] <= ple@[i as int]) by {
                        lema_preordem_total::<T>();
                        if plt@[i as int] > ple@[i as int] {
                            assert(menor(s[i as int][ple@[i as int] as int], p));
                        }
                    }
                }
                let livres = ple[i] - plt[i];
                let take = if livres < need { livres } else { need };
                out[i] = plt[i] + take;
                need = need - take;
                proof {
                    assert(gplt.take(i + 1).drop_last() =~= gplt.take(i as int));
                    assert(gout.push(out@[i as int] as int).drop_last() =~= gout);
                    gout = gout.push(out@[i as int] as int);
                }
                i = i + 1;
            }
            proof {
                assert(gplt.take(ns as int) =~= gplt);
                assert(gple.take(ns as int) =~= gple);
                assert(gout =~= inteiros(out@));
                lema_preordem_total::<T>();
                if need > 0 {
                    assert(gout =~= gple);
                }
                assert forall|a: int, b: int|
                    #![trigger inteiros(out@)[a], inteiros(out@)[b]]
                    0 <= a < ns && 0 <= b < ns && 0 < inteiros(out@)[a] && inteiros(out@)[b] < s[b].len() implies precede(
                        a,
                        s[a][inteiros(out@)[a] - 1],
                        b,
                        s[b][inteiros(out@)[b]],
                    ) by {
                    let x = s[a][out@[a] - 1];
                    let y = s[b][out@[b] as int];
                    assert(menor_igual(x, p)) by {
                        if out@[a] - 1 < plt@[a] {
                            assert(menor(x, p));
                        }
                    }
                    assert(!menor(y, p));
                    if a > b {
                        if out@[a] - 1 >= plt@[a] {
                            assert(out@[b] == ple@[b]);
                            assert(!menor_igual(y, p));
                        } else {
                            assert(menor(x, p));
                        }
                    }
                }
            }
            return;
        }
        let ghost lo0 = lo@;
        let ghost hi0 = hi@;
        assert forall|j: int| 0 <= j < ns implies #[trigger] lo0[j] <= c[j] <= hi0[j] && hi0[j] <= s[j].len() by {
            assert(lo@[j] <= c[j] <= hi@[j] && hi@[j] <= s[j].len());
        }
        if lt > rank {
            proof {
                // no run gives more than its elements below `p`
                assert forall|j: int| 0 <= j < ns implies #[trigger] c[j] <= plt@[j] by {
                    if c[j] > plt@[j] {
                        lema_preordem_total::<T>();
                        if forall|t: int| 0 <= t < ns ==> #[trigger] c[t] >= inteiros(plt@)[t] {
                            lema_soma_menor(inteiros(plt@), c);
                        }
                        let t = choose|t: int| 0 <= t < ns && #[trigger] c[t] < inteiros(plt@)[t];
                        assert(menor(s[t][c[t]], p));
                        assert(!menor(s[j][c[j] - 1], p));
                        assert(precede(j, s[j][c[j] - 1], t, s[t][c[t]]));
                    }
                }
            }
            let mut i: usize = 0;
            while i < ns
                invariant
                    ns == lo@.len(),
                    ns == hi@.len(),
                    ns == plt@.len(),
                    lo@ == lo0,
                    i <= ns,
                    forall|j: int| 0 <= j < ns ==> #[trigger] c[j] <= plt@[j],
                    forall|j: int| 0 <= j < i ==> #[trigger] hi@[j] == (if plt@[j] < hi0[j] { plt@[j] } else { hi0[j] }),
                    forall|j: int| i <= j < ns ==> #[trigger] hi@[j] == hi0[j],
                decreases ns - i,
            {
                if plt[i] < hi[i] {
                    hi.set(i, plt[i]);
                }
                i = i + 1;
            }
            proof {
                assert forall|j: int| 0 <= j < ns implies #[trigger] lo@[j] <= c[j] <= hi@[j] && hi@[j] <= s[j].len() by {
                    assert(hi@[j] == (if plt@[j] < hi0[j] { plt@[j] } else { hi0[j] }));
                    assert(lo0[j] <= c[j] <= hi0[j] && hi0[j] <= s[j].len());
                }
                assert(plt@[m as int] <= q) by {
                    lema_preordem_total::<T>();
                    assert(!menor(s[m as int][q], p));
                }
                lema_larguras_descem(lo0, hi0, lo@, hi@, m as int);
            }
        } else {
            proof {
                // every run gives at least its elements up to `p`
                assert forall|j: int| 0 <= j < ns implies #[trigger] c[j] >= ple@[j] by {
                    if c[j] < ple@[j] {
                        lema_preordem_total::<T>();
                        if forall|t: int| 0 <= t < ns ==> #[trigger] c[t] <= inteiros(ple@)[t] {
                            lema_soma_menor(c, inteiros(ple@));
                        }
                        let t = choose|t: int| 0 <= t < ns && #[trigger] c[t] > inteiros(ple@)[t];
                        assert(!menor_igual(s[t][c[t] - 1], p));
                        assert(menor_igual(s[j][c[j]], p));
                        assert(precede(t, s[t][c[t] - 1], j, s[j][c[j]]));
                    }
                }
            }
            let mut i: usize = 0;
            while i < ns
                invariant
                    ns == lo@.len(),
                    ns == hi@.len(),
                    ns == ple@.len(),
                    hi@ == hi0,
                    i <= ns,
                    forall|j: int| 0 <= j < ns ==> #[trigger] c[j] >= ple@[j],
                    forall|j: int| 0 <= j < i ==> #[trigger] lo@[j] == (if ple@[j] > lo0[j] { ple@[j] } else { lo0[j] }),
                    forall|j: int| i <= j < ns ==> #[trigger] lo@[j] == lo0[j],
                decreases ns - i,
            {
                if ple[i] > lo[i] {
                    lo.set(i, ple[i]);
                }
                i = i + 1;
            }
            proof {
                assert forall|j: int| 0 <= j < ns implies #[trigger] lo@[j] <= c[j] <= hi@[j] && hi@[j] <= s[j].len() by {
                    assert(lo@[j] == (if ple@[j] > lo0[j] { ple@[j] } else { lo0[j] }));
                    assert(lo0[j] <= c[j] <= hi0[j] && hi0[j] <= s[j].len());
                }
                assert(ple@[m as int] > q) by {
                    lema_preordem_total::<T>();
                    assert(menor_igual(s[m as int][q], p));
                }
                lema_larguras_descem(lo0, hi0, lo@, hi@, m as int);
            }
        }
    }
}

} // verus!
