use vstd::prelude::*;
use crate::ordem::{ordem_total, menor_igual, menor, lema_preordem_total};
use crate::especificacao::{run_crescente, run_decrescente};
use crate::metadata::{
    fim_crescente, fim_decrescente, lema_fim_crescente, lema_fim_decrescente, runs_gulosos, metadata_valida,
    run_valido, lema_meta_push, tamanho_run, junta_metadata,
};

verus! {

/// Where the ascending run that reached `t` ends does not depend on what
/// comes before `m`.
pub proof fn lema_fim_crescente_sufixo<T: Ord>(u: Seq<T>, m: int, t: int)
    requires
        0 <= m <= u.len(),
        m + 1 <= t,
    ensures
        fim_crescente(u, t) == fim_crescente(u.skip(m), t - m) + m,
    decreases u.len() - t,
{
    let v = u.skip(m);
    if 0 < t < u.len() && menor_igual(u[t - 1], u[t]) {
        assert(v[t - m - 1] == u[t - 1]);
        assert(v[t - m] == u[t]);
        lema_fim_crescente_sufixo(u, m, t + 1);
    } else if 0 < t < u.len() {
        assert(v[t - m - 1] == u[t - 1]);
        assert(v[t - m] == u[t]);
    }
}

/// The same for strictly descending runs.
pub proof fn lema_fim_decrescente_sufixo<T: Ord>(u: Seq<T>, m: int, t: int)
    requires
        0 <= m <= u.len(),
        m + 1 <= t,
    ensures
        fim_decrescente(u, t) == fim_decrescente(u.skip(m), t - m) + m,
    decreases u.len() - t,
{
    let v = u.skip(m);
    if 0 < t < u.len() && menor(u[t], u[t - 1]) {
        assert(v[t - m - 1] == u[t - 1]);
        assert(v[t - m] == u[t]);
        lema_fim_decrescente_sufixo(u, m, t + 1);
    } else if 0 < t < u.len() {
        assert(v[t - m - 1] == u[t - 1]);
        assert(v[t - m] == u[t]);
    }
}

/// The greedy decomposition from `h` reads only what lies from `h` on.
pub proof fn lema_gulosos_sufixo<T: Ord>(u: Seq<T>, m: int, h: int)
    requires
        0 <= m <= h,
        m <= u.len(),
    ensures
        runs_gulosos(u, h) == runs_gulosos(u.skip(m), h - m),
    decreases u.len() - h,
{
    let v = u.skip(m);
    if h >= u.len() || h == u.len() - 1 {
    } else {
        assert(v[h - m] == u[h]);
        assert(v[h - m + 1] == u[h + 1]);
        if menor_igual(u[h], u[h + 1]) {
            lema_fim_crescente_sufixo(u, m, h + 1);
            lema_fim_crescente(u, h + 1);
            lema_gulosos_sufixo(u, m, fim_crescente(u, h + 1));
        } else {
            lema_fim_decrescente_sufixo(u, m, h + 1);
            lema_fim_decrescente(u, h + 1);
            lema_gulosos_sufixo(u, m, fim_decrescente(u, h + 1));
        }
    }
}

/// An ascending run that ends inside a prefix ends there in the whole.
pub proof fn lema_fim_crescente_prefixo<T: Ord>(u: Seq<T>, k: int, t: int)
    requires
        1 <= t,
        k <= u.len(),
        fim_crescente(u.take(k), t) < k,
    ensures
        fim_crescente(u, t) == fim_crescente(u.take(k), t),
    decreases k - t,
{
    let a = u.take(k);
    lema_fim_crescente(a, t);
    if t < k {
        assert(a[t - 1] == u[t - 1]);
        assert(a[t] == u[t]);
        if menor_igual(a[t - 1], a[t]) {
            lema_fim_crescente_prefixo(u, k, t + 1);
        }
    }
}

/// The same for strictly descending runs.
pub proof fn lema_fim_decrescente_prefixo<T: Ord>(u: Seq<T>, k: int, t: int)
    requires
        1 <= t,
        k <= u.len(),
        fim_decrescente(u.take(k), t) < k,
    ensures
        fim_decrescente(u, t) == fim_decrescente(u.take(k), t),
    decreases k - t,
{
    let a = u.take(k);
    lema_fim_decrescente(a, t);
    if t < k {
        assert(a[t - 1] == u[t - 1]);
        assert(a[t] == u[t]);
        if menor(a[t], a[t - 1]) {
            lema_fim_decrescente_prefixo(u, k, t + 1);
        }
    }
}

/// Every pair before the end of an ascending run ascends.
pub proof fn lema_antes_do_fim_crescente<T: Ord>(s: Seq<T>, t: int, i: int)
    requires
        1 <= t <= i < fim_crescente(s, t),
    ensures
        menor_igual(s[i - 1], s[i]),
    decreases i - t,
{
    if i > t {
        lema_antes_do_fim_crescente(s, t + 1, i);
    }
}

/// Every pair before the end of a descending run strictly descends.
pub proof fn lema_antes_do_fim_decrescente<T: Ord>(s: Seq<T>, t: int, i: int)
    requires
        1 <= t <= i < fim_decrescente(s, t),
    ensures
        menor(s[i], s[i - 1]),
    decreases i - t,
{
    if i > t {
        lema_antes_do_fim_decrescente(s, t + 1, i);
    }
}

/// An ascending run that reached `t` and keeps ascending up to `k` ends
/// where the run that reached `k` ends.
pub proof fn lema_fim_crescente_salta<T: Ord>(s: Seq<T>, t: int, k: int)
    requires
        1 <= t <= k <= s.len(),
        forall|i: int| t <= i < k ==> menor_igual(#[trigger] s[i - 1], s[i]),
    ensures
        fim_crescente(s, t) == fim_crescente(s, k),
    decreases k - t,
{
    if t < k {
        assert(menor_igual(s[t - 1], s[t]));
        lema_fim_crescente_salta(s, t + 1, k);
    }
}

/// The same for strictly descending runs.
pub proof fn lema_fim_decrescente_salta<T: Ord>(s: Seq<T>, t: int, k: int)
    requires
        1 <= t <= k <= s.len(),
        forall|i: int| t <= i < k ==> menor(#[trigger] s[i], s[i - 1]),
    ensures
        fim_decrescente(s, t) == fim_decrescente(s, k),
    decreases k - t,
{
    if t < k {
        assert(menor(s[t], s[t - 1]));
        lema_fim_decrescente_salta(s, t + 1, k);
    }
}

/// The greedy decomposition is a decomposition into runs.
pub proof fn lema_gulosos_valida<T: Ord>(s: Seq<T>, h: int, m: Seq<i64>)
    requires
        ordem_total::<T>(),
        0 <= h <= s.len(),
        s.len() <= i64::MAX,
        metadata_valida(s.take(h), m),
    ensures
        metadata_valida(s, m + runs_gulosos(s, h)),
    decreases s.len() - h,
{
    lema_preordem_total::<T>();
    if h == s.len() {
        assert(s.take(h) =~= s);
        assert(m + runs_gulosos(s, h) =~= m);
    } else if h == s.len() - 1 {
        let x = 1i64;
        assert(run_valido(s.subrange(h, h + 1), x));
        lema_meta_push(s, m, h, h + 1, x);
        assert(s.take(h + 1) =~= s);
        assert(m + runs_gulosos(s, h) =~= m.push(x));
    } else if menor_igual(s[h], s[h + 1]) {
        let t = fim_crescente(s, h + 1);
        lema_fim_crescente(s, h + 1);
        let x = (t - h) as i64;
        let sub = s.subrange(h, t);
        assert(run_crescente(sub)) by {
            assert forall|i: int| 0 <= i < sub.len() - 1 implies menor_igual(#[trigger] sub[i], sub[i + 1]) by {
                lema_antes_do_fim_crescente(s, h + 1, h + i + 1);
            }
        }
        assert(run_valido(sub, x));
        lema_meta_push(s, m, h, t, x);
        lema_gulosos_valida(s, t, m.push(x));
        assert(m.push(x) + runs_gulosos(s, t) =~= m + runs_gulosos(s, h));
    } else {
        let t = fim_decrescente(s, h + 1);
        lema_fim_decrescente(s, h + 1);
        let x = (-(t - h)) as i64;
        let sub = s.subrange(h, t);
        assert(run_decrescente(sub)) by {
            assert forall|i: int| 0 <= i < sub.len() - 1 implies menor(sub[i + 1], #[trigger] sub[i]) by {
                lema_antes_do_fim_decrescente(s, h + 1, h + i + 1);
            }
        }
        assert(run_valido(sub, x));
        lema_meta_push(s, m, h, t, x);
        lema_gulosos_valida(s, t, m.push(x));
        assert(m.push(x) + runs_gulosos(s, t) =~= m + runs_gulosos(s, h));
    }
}

/// Read from `h` inside a prefix of `k` elements, the greedy decomposition
/// of the whole agrees with that of the prefix up to the prefix's last run,
/// which starts at the same place in both.
pub proof fn lema_gulosos_prefixo<T: Ord>(u: Seq<T>, k: int, h: int)
    requires
        0 <= h < k <= u.len(),
        u.len() <= i64::MAX,
    ensures
        runs_gulosos(u.take(k), h).len() >= 1,
        1 <= tamanho_run(runs_gulosos(u.take(k), h).last()) <= k - h,
        runs_gulosos(u.take(k), k - tamanho_run(runs_gulosos(u.take(k), h).last()))
            == seq![runs_gulosos(u.take(k), h).last()],
        runs_gulosos(u, h) == runs_gulosos(u.take(k), h).drop_last()
            + runs_gulosos(u, k - tamanho_run(runs_gulosos(u.take(k), h).last())),
    decreases k - h,
{
    let a = u.take(k);
    let g = runs_gulosos(a, h);
    if h == k - 1 {
        assert(g =~= seq![1i64]);
        assert(g.drop_last() =~= Seq::<i64>::empty());
        assert(Seq::<i64>::empty() + runs_gulosos(u, h) =~= runs_gulosos(u, h));
    } else {
        assert(a[h] == u[h]);
        assert(a[h + 1] == u[h + 1]);
        if menor_igual(a[h], a[h + 1]) {
            let t = fim_crescente(a, h + 1);
            lema_fim_crescente(a, h + 1);
            let x = (t - h) as i64;
            assert(g == seq![x] + runs_gulosos(a, t));
            if t == k {
                assert(runs_gulosos(a, t) =~= Seq::<i64>::empty());
                assert(g =~= seq![x]);
                assert(g.drop_last() =~= Seq::<i64>::empty());
                assert(Seq::<i64>::empty() + runs_gulosos(u, h) =~= runs_gulosos(u, h));
            } else {
                lema_fim_crescente_prefixo(u, k, h + 1);
                lema_gulosos_prefixo(u, k, t);
                let g2 = runs_gulosos(a, t);
                assert(g.last() == g2.last());
                assert(g.drop_last() =~= seq![x] + g2.drop_last());
                assert(runs_gulosos(u, h) == seq![x] + runs_gulosos(u, t));
                assert(seq![x] + (g2.drop_last() + runs_gulosos(u, k - tamanho_run(g2.last())))
                    =~= (seq![x] + g2.drop_last()) + runs_gulosos(u, k - tamanho_run(g2.last())));
            }
        } else {
            let t = fim_decrescente(a, h + 1);
            lema_fim_decrescente(a, h + 1);
            let x = (-(t - h)) as i64;
            assert(g == seq![x] + runs_gulosos(a, t));
            if t == k {
                assert(runs_gulosos(a, t) =~= Seq::<i64>::empty());
                assert(g =~= seq![x]);
                assert(g.drop_last() =~= Seq::<i64>::empty());
                assert(Seq::<i64>::empty() + runs_gulosos(u, h) =~= runs_gulosos(u, h));
            } else {
                lema_fim_decrescente_prefixo(u, k, h + 1);
                lema_gulosos_prefixo(u, k, t);
                let g2 = runs_gulosos(a, t);
                assert(g.last() == g2.last());
                assert(g.drop_last() =~= seq![x] + g2.drop_last());
                assert(runs_gulosos(u, h) == seq![x] + runs_gulosos(u, t));
                assert(seq![x] + (g2.drop_last() + runs_gulosos(u, k - tamanho_run(g2.last())))
                    =~= (seq![x] + g2.drop_last()) + runs_gulosos(u, k - tamanho_run(g2.last())));
            }
        }
    }
}

/// The greedy decomposition of a block read from its second element,
/// computed from the decomposition `r` of the whole block: a run of three or
/// more loses its first element; a run of two leaves its second element at
/// a pair that goes against it, which starts a run in the other direction,
/// and that run either takes in the next run, or stops after one pair and
/// leaves the next run to be read from its second element in turn.
pub open spec fn reinicia(r: Seq<i64>) -> Seq<i64>
    decreases r.len(),
{
    if r.len() == 0 {
        Seq::empty()
    } else {
        let b = tamanho_run(r[0]);
        let sobe = r[0] > 0;
        if b <= 1 {
            r.drop_first()
        } else if b >= 3 {
            seq![(if sobe { b - 1 } else { -(b - 1) }) as i64] + r.drop_first()
        } else if r.len() == 1 {
            seq![1i64]
        } else {
            let c = tamanho_run(r[1]);
            if c <= 1 {
                seq![(if sobe { -2int } else { 2 }) as i64] + r.skip(2)
            } else if (r[1] > 0) != sobe {
                seq![(if sobe { -(c + 1) } else { c + 1 }) as i64] + r.skip(2)
            } else {
                seq![(if sobe { -2int } else { 2 }) as i64] + reinicia(r.drop_first())
            }
        }
    }
}

/// Read from its second element, a block decomposes as `reinicia` says.
pub proof fn lema_reinicia<T: Ord>(b: Seq<T>)
    requires
        ordem_total::<T>(),
        b.len() >= 1,
        b.len() <= i64::MAX,
    ensures
        runs_gulosos(b, 1) == reinicia(runs_gulosos(b, 0)),
    decreases b.len(),
{
    lema_preordem_total::<T>();
    let n = b.len();
    let r = runs_gulosos(b, 0);
    if n == 1 {
        assert(r =~= seq![1i64]);
        assert(r.drop_first() =~= Seq::<i64>::empty());
        return;
    }
    if menor_igual(b[0], b[1]) {
        let t = fim_crescente(b, 1);
        lema_fim_crescente(b, 1);
        assert(fim_crescente(b, 1) == fim_crescente(b, 2));
        assert(r == seq![t as i64] + runs_gulosos(b, t));
        assert(r.drop_first() =~= runs_gulosos(b, t));
        if t >= 3 {
            lema_antes_do_fim_crescente(b, 1, 2);
            assert(runs_gulosos(b, 1) == seq![(t - 1) as i64] + runs_gulosos(b, t));
        } else if n == 2 {
            assert(runs_gulosos(b, 2) =~= Seq::<i64>::empty());
            assert(r =~= seq![2i64]);
        } else {
            lema_fim_crescente(b, 3);
            assert(!menor_igual(b[1], b[2]));
            assert(menor(b[2], b[1]));
            let g2 = runs_gulosos(b, 2);
            assert(r[1] == g2[0]);
            if n == 3 {
                assert(g2 =~= seq![1i64]);
                assert(fim_decrescente(b, 2) == fim_decrescente(b, 3));
                assert(runs_gulosos(b, 3) =~= Seq::<i64>::empty());
                assert(r.skip(2) =~= Seq::<i64>::empty());
                assert(runs_gulosos(b, 1) =~= seq![-2i64]);
            } else if menor_igual(b[2], b[3]) {
                let t2 = fim_crescente(b, 3);
                lema_fim_crescente(b, 3);
                assert(fim_crescente(b, 3) == fim_crescente(b, 4));
                assert(g2 == seq![(t2 - 2) as i64] + runs_gulosos(b, t2));
                assert(fim_decrescente(b, 2) == fim_decrescente(b, 3));
                assert(!menor(b[3], b[2]));
                assert(fim_decrescente(b, 3) == 3);
                assert(runs_gulosos(b, 1) == seq![-2i64] + runs_gulosos(b, 3));
                let b2 = b.skip(2);
                lema_gulosos_sufixo(b, 2, 2);
                lema_gulosos_sufixo(b, 2, 3);
                assert(r.drop_first() == runs_gulosos(b2, 0));
                lema_reinicia(b2);
            } else {
                assert(menor(b[3], b[2]));
                let t2 = fim_decrescente(b, 3);
                lema_fim_decrescente(b, 3);
                assert(fim_decrescente(b, 3) == fim_decrescente(b, 4));
                assert(g2 == seq![(-(t2 - 2)) as i64] + runs_gulosos(b, t2));
                assert(fim_decrescente(b, 2) == fim_decrescente(b, 3));
                assert(r.skip(2) =~= runs_gulosos(b, t2));
                assert(runs_gulosos(b, 1) == seq![(-(t2 - 1)) as i64] + runs_gulosos(b, t2));
            }
        }
    } else {
        assert(menor(b[1], b[0]));
        let t = fim_decrescente(b, 1);
        lema_fim_decrescente(b, 1);
        assert(fim_decrescente(b, 1) == fim_decrescente(b, 2));
        assert(r == seq![(-t) as i64] + runs_gulosos(b, t));
        assert(r.drop_first() =~= runs_gulosos(b, t));
        if t >= 3 {
            lema_antes_do_fim_decrescente(b, 1, 2);
            assert(menor(b[2], b[1]));
            assert(!menor_igual(b[1], b[2]));
            assert(runs_gulosos(b, 1) == seq![(-(t - 1)) as i64] + runs_gulosos(b, t));
        } else if n == 2 {
            assert(runs_gulosos(b, 2) =~= Seq::<i64>::empty());
            assert(r =~= seq![-2i64]);
        } else {
            lema_fim_decrescente(b, 3);
            assert(!menor(b[2], b[1]));
            assert(menor_igual(b[1], b[2]));
            let g2 = runs_gulosos(b, 2);
            assert(r[1] == g2[0]);
            if n == 3 {
                assert(g2 =~= seq![1i64]);
                assert(fim_crescente(b, 2) == fim_crescente(b, 3));
                assert(runs_gulosos(b, 3) =~= Seq::<i64>::empty());
                assert(r.skip(2) =~= Seq::<i64>::empty());
                assert(runs_gulosos(b, 1) =~= seq![2i64]);
            } else if menor_igual(b[2], b[3]) {
                let t2 = fim_crescente(b, 3);
                lema_fim_crescente(b, 3);
                assert(fim_crescente(b, 3) == fim_crescente(b, 4));
                assert(g2 == seq![(t2 - 2) as i64] + runs_gulosos(b, t2));
                assert(fim_crescente(b, 2) == fim_crescente(b, 3));
                assert(r.skip(2) =~= runs_gulosos(b, t2));
                assert(runs_gulosos(b, 1) == seq![(t2 - 1) as i64] + runs_gulosos(b, t2));
            } else {
                assert(menor(b[3], b[2]));
                let t2 = fim_decrescente(b, 3);
                lema_fim_decrescente(b, 3);
                assert(fim_decrescente(b, 3) == fim_decrescente(b, 4));
                assert(g2 == seq![(-(t2 - 2)) as i64] + runs_gulosos(b, t2));
                assert(fim_crescente(b, 2) == fim_crescente(b, 3));
                assert(fim_crescente(b, 3) == 3);
                assert(runs_gulosos(b, 1) == seq![2i64] + runs_gulosos(b, 3));
                let b2 = b.skip(2);
                lema_gulosos_sufixo(b, 2, 2);
                lema_gulosos_sufixo(b, 2, 3);
                assert(r.drop_first() == runs_gulosos(b2, 0));
                lema_reinicia(b2);
            }
        }
    }
}

/// Stitching the greedy decompositions of two blocks that share one
/// element gives the greedy decomposition of their union.
pub proof fn lema_junta_gulosos<T: Ord>(u: Seq<T>, k: int)
    requires
        ordem_total::<T>(),
        1 <= k <= u.len(),
        u.len() <= i64::MAX,
    ensures
        junta_metadata(runs_gulosos(u.take(k), 0), runs_gulosos(u.skip(k - 1), 0)) == runs_gulosos(u, 0),
{
    lema_preordem_total::<T>();
    let a = u.take(k);
    let b = u.skip(k - 1);
    let l = runs_gulosos(a, 0);
    let r = runs_gulosos(b, 0);
    lema_gulosos_prefixo(u, k, 0);
    let x = l.last();
    let aa = tamanho_run(x);
    let p = k - aa;
    assert(runs_gulosos(a, p) == seq![x]);
    assert(r.len() >= 1);
    if aa == 1 {
        lema_gulosos_sufixo(u, k - 1, k - 1);
        return;
    }
    assert(p < k - 1);
    assert(a[p] == u[p]);
    assert(a[p + 1] == u[p + 1]);
    lema_gulosos_sufixo(u, k - 1, k);
    lema_reinicia(b);
    if menor_igual(a[p], a[p + 1]) {
        let f = fim_crescente(a, p + 1);
        lema_fim_crescente(a, p + 1);
        assert(runs_gulosos(a, p) == seq![(f - p) as i64] + runs_gulosos(a, f));
        if f < k {
            assert(runs_gulosos(a, f).len() >= 1);
            assert(false);
        }
        assert(runs_gulosos(a, p)[0] == (f - p) as i64);
        assert(seq![x][0] == x);
        assert(x > 0);
        assert forall|i: int| p + 1 <= i < k implies menor_igual(#[trigger] u[i - 1], u[i]) by {
            lema_antes_do_fim_crescente(a, p + 1, i);
            assert(a[i - 1] == u[i - 1]);
            assert(a[i] == u[i]);
        }
        lema_fim_crescente_salta(u, p + 1, k);
        lema_fim_crescente_sufixo(u, k - 1, k);
        lema_fim_crescente(u, k);
        if b.len() == 1 {
            assert(runs_gulosos(u, k) =~= Seq::<i64>::empty());
            assert(runs_gulosos(u, p) =~= seq![x]);
            assert(r =~= seq![1i64]);
            assert(r.drop_first() =~= Seq::<i64>::empty());
            assert(l.drop_last() + seq![x] =~= l);
            assert(l + r.drop_first() =~= l);
        } else {
            assert(b[0] == u[k - 1]);
            assert(b[1] == u[k]);
            if menor_igual(b[0], b[1]) {
                let bb = fim_crescente(b, 1);
                lema_fim_crescente(b, 1);
                assert(r == seq![bb as i64] + runs_gulosos(b, bb));
                lema_gulosos_sufixo(u, k - 1, k - 1 + bb);
                assert(runs_gulosos(u, p) == seq![(aa + bb - 1) as i64] + runs_gulosos(b, bb));
                assert(r.drop_first() =~= runs_gulosos(b, bb));
                assert(l.drop_last().push((aa + bb - 1) as i64) + r.drop_first()
                    =~= l.drop_last() + (seq![(aa + bb - 1) as i64] + runs_gulosos(b, bb)));
            } else {
                let bb = fim_decrescente(b, 1);
                lema_fim_decrescente(b, 1);
                assert(r == seq![(-bb) as i64] + runs_gulosos(b, bb));
                assert(fim_crescente(b, 1) == 1);
                assert(runs_gulosos(u, p) == seq![x] + runs_gulosos(u, k));
                assert(l.drop_last() + (seq![x] + runs_gulosos(b, 1)) =~= l + reinicia(r));
            }
        }
    } else {
        let f = fim_decrescente(a, p + 1);
        lema_fim_decrescente(a, p + 1);
        assert(runs_gulosos(a, p) == seq![(-(f - p)) as i64] + runs_gulosos(a, f));
        if f < k {
            assert(runs_gulosos(a, f).len() >= 1);
            assert(false);
        }
        assert(runs_gulosos(a, p)[0] == (-(f - p)) as i64);
        assert(seq![x][0] == x);
        assert(x < 0);
        assert forall|i: int| p + 1 <= i < k implies menor(#[trigger] u[i], u[i - 1]) by {
            lema_antes_do_fim_decrescente(a, p + 1, i);
            assert(a[i - 1] == u[i - 1]);
            assert(a[i] == u[i]);
        }
        lema_fim_decrescente_salta(u, p + 1, k);
        lema_fim_decrescente_sufixo(u, k - 1, k);
        lema_fim_decrescente(u, k);
        if b.len() == 1 {
            assert(runs_gulosos(u, k) =~= Seq::<i64>::empty());
            assert(runs_gulosos(u, p) =~= seq![x]);
            assert(r =~= seq![1i64]);
            assert(r.drop_first() =~= Seq::<i64>::empty());
            assert(l.drop_last() + seq![x] =~= l);
            assert(l + r.drop_first() =~= l);
        } else {
            assert(b[0] == u[k - 1]);
            assert(b[1] == u[k]);
            if menor_igual(b[0], b[1]) {
                let bb = fim_crescente(b, 1);
                lema_fim_crescente(b, 1);
                assert(r == seq![bb as i64] + runs_gulosos(b, bb));
                assert(fim_decrescente(b, 1) == 1);
                assert(runs_gulosos(u, p) == seq![x] + runs_gulosos(u, k));
                assert(l.drop_last() + (seq![x] + runs_gulosos(b, 1)) =~= l + reinicia(r));
            } else {
                let bb = fim_decrescente(b, 1);
                lema_fim_decrescente(b, 1);
                assert(r == seq![(-bb) as i64] + runs_gulosos(b, bb));
                lema_gulosos_sufixo(u, k - 1, k - 1 + bb);
                assert(runs_gulosos(u, p) == seq![(-(aa + bb - 1)) as i64] + runs_gulosos(b, bb));
                assert(r.drop_first() =~= runs_gulosos(b, bb));
                assert(l.drop_last().push((-(aa + bb - 1)) as i64) + r.drop_first()
                    =~= l.drop_last() + (seq![(-(aa + bb - 1)) as i64] + runs_gulosos(b, bb)));
            }
        }
    }
}

/// Every run of the greedy decomposition read from `h` holds between one
/// element and all those from `h` on.
pub proof fn lema_gulosos_entradas<T: Ord>(s: Seq<T>, h: int)
    requires
        0 <= h,
        s.len() <= i64::MAX,
    ensures
        forall|i: int| 0 <= i < runs_gulosos(s, h).len() ==> 1 <= #[trigger] tamanho_run(runs_gulosos(s, h)[i]) <= s.len() - h,
    decreases s.len() - h,
{
    let g = runs_gulosos(s, h);
    if h >= s.len() || h == s.len() - 1 {
    } else if menor_igual(s[h], s[h + 1]) {
        let t = fim_crescente(s, h + 1);
        lema_fim_crescente(s, h + 1);
        lema_gulosos_entradas(s, t);
        assert forall|i: int| 0 <= i < g.len() implies 1 <= #[trigger] tamanho_run(g[i]) <= s.len() - h by {
            if i > 0 {
                assert(g[i] == runs_gulosos(s, t)[i - 1]);
            }
        }
    } else {
        let t = fim_decrescente(s, h + 1);
        lema_fim_decrescente(s, h + 1);
        lema_gulosos_entradas(s, t);
        assert forall|i: int| 0 <= i < g.len() implies 1 <= #[trigger] tamanho_run(g[i]) <= s.len() - h by {
            if i > 0 {
                assert(g[i] == runs_gulosos(s, t)[i - 1]);
            }
        }
    }
}

} // verus!
