use vstd::prelude::*;
use rayon::iter::IntoParallelIterator;
use rayon::iter::ParallelIterator;
use crate::ordem::{ordem_total, menor_igual, menor, lema_preordem_total, compara_le, compara_lt};
use crate::especificacao::{run_crescente, run_decrescente, ordenacao_estavel};

verus! {

/// Number of elements of the run that the entry `x` stands for.
pub open spec fn tamanho_run(x: i64) -> int {
    if x < 0 {
        -x
    } else {
        x as int
    }
}

/// `x` describes the run `s`: positive for an ascending run (`<=` between
/// neighbours), negative for a strictly descending one, its size the run's.
pub open spec fn run_valido<T: Ord>(s: Seq<T>, x: i64) -> bool {
    &&& x != 0
    &&& tamanho_run(x) == s.len()
    &&& x > 0 ==> run_crescente(s)
    &&& x < 0 ==> run_decrescente(s)
}

/// `meta` cuts `s` into consecutive runs, each described by its entry.
pub open spec fn metadata_valida<T: Ord>(s: Seq<T>, meta: Seq<i64>) -> bool
    decreases meta.len(),
{
    if meta.len() == 0 {
        s.len() == 0
    } else {
        let h = tamanho_run(meta.last());
        &&& 0 < h <= s.len()
        &&& run_valido(s.skip(s.len() - h), meta.last())
        &&& metadata_valida(s.take(s.len() - h), meta.drop_last())
    }
}

/// `meta` cuts `o` and `f` alike into consecutive pieces, and each piece of
/// `f` is the stable sort of the same piece of `o`.
pub open spec fn trechos_estaveis<T: Ord>(o: Seq<T>, f: Seq<T>, meta: Seq<i64>) -> bool
    decreases meta.len(),
{
    if meta.len() == 0 {
        o.len() == 0 && f.len() == 0
    } else {
        let h = meta.last() as int;
        &&& o.len() == f.len()
        &&& 0 < h <= o.len()
        &&& ordenacao_estavel(o.skip(o.len() - h), f.skip(f.len() - h))
        &&& trechos_estaveis(o.take(o.len() - h), f.take(f.len() - h), meta.drop_last())
    }
}

/// One more piece, stably sorted, at the end.
pub proof fn lema_trechos_push<T: Ord>(o: Seq<T>, f: Seq<T>, meta: Seq<i64>, o2: Seq<T>, f2: Seq<T>)
    requires
        trechos_estaveis(o, f, meta),
        ordenacao_estavel(o2, f2),
        0 < o2.len() <= i64::MAX,
    ensures
        trechos_estaveis(o + o2, f + f2, meta.push(o2.len() as i64)),
{
    lema_trechos_len(o, f, meta);
    let oo = o + o2;
    let ff = f + f2;
    assert(oo.skip(oo.len() - o2.len()) =~= o2);
    assert(ff.skip(ff.len() - o2.len()) =~= f2);
    assert(oo.take(oo.len() - o2.len()) =~= o);
    assert(ff.take(ff.len() - o2.len()) =~= f);
    assert(meta.push(o2.len() as i64).drop_last() =~= meta);
}

/// Pieces that cut `o` and `f` alike cover them both.
pub proof fn lema_trechos_len<T: Ord>(o: Seq<T>, f: Seq<T>, meta: Seq<i64>)
    requires
        trechos_estaveis(o, f, meta),
    ensures
        o.len() == f.len(),
{
}

/// Two cuts, one after the other, cut the concatenations.
pub proof fn lema_trechos_concat<T: Ord>(o1: Seq<T>, f1: Seq<T>, m1: Seq<i64>, o2: Seq<T>, f2: Seq<T>, m2: Seq<i64>)
    requires
        trechos_estaveis(o1, f1, m1),
        trechos_estaveis(o2, f2, m2),
    ensures
        trechos_estaveis(o1 + o2, f1 + f2, m1 + m2),
    decreases m2.len(),
{
    if m2.len() == 0 {
        assert(o2.len() == 0 && f2.len() == 0);
        assert(o1 + o2 =~= o1);
        assert(f1 + f2 =~= f1);
        assert(m1 + m2 =~= m1);
    } else {
        let h = m2.last() as int;
        let o2a = o2.take(o2.len() - h);
        let f2a = f2.take(f2.len() - h);
        lema_trechos_concat(o1, f1, m1, o2a, f2a, m2.drop_last());
        let oo = o1 + o2;
        let ff = f1 + f2;
        let mm = m1 + m2;
        lema_trechos_len(o1, f1, m1);
        assert(mm.last() == m2.last());
        assert(mm.drop_last() =~= m1 + m2.drop_last());
        assert(oo.skip(oo.len() - h) =~= o2.skip(o2.len() - h));
        assert(ff.skip(ff.len() - h) =~= f2.skip(f2.len() - h));
        assert(oo.take(oo.len() - h) =~= o1 + o2a);
        assert(ff.take(ff.len() - h) =~= f1 + f2a);
    }
}

/// Total number of elements that the entries of `meta` stand for.
pub open spec fn soma_runs(meta: Seq<i64>) -> int
    decreases meta.len(),
{
    if meta.len() == 0 {
        0
    } else {
        soma_runs(meta.drop_last()) + tamanho_run(meta.last())
    }
}

/// End of the ascending run of `s` that has reached position `t`.
pub open spec fn fim_crescente<T: Ord>(s: Seq<T>, t: int) -> int
    decreases s.len() - t,
{
    if 0 < t < s.len() && menor_igual(s[t - 1], s[t]) {
        fim_crescente(s, t + 1)
    } else {
        t
    }
}

/// End of the strictly descending run of `s` that has reached position `t`.
pub open spec fn fim_decrescente<T: Ord>(s: Seq<T>, t: int) -> int
    decreases s.len() - t,
{
    if 0 < t < s.len() && menor(s[t], s[t - 1]) {
        fim_decrescente(s, t + 1)
    } else {
        t
    }
}

pub proof fn lema_fim_crescente<T: Ord>(s: Seq<T>, t: int)
    ensures
        fim_crescente(s, t) >= t,
        t <= s.len() ==> fim_crescente(s, t) <= s.len(),
    decreases s.len() - t,
{
    if 0 < t < s.len() && menor_igual(s[t - 1], s[t]) {
        lema_fim_crescente(s, t + 1);
    }
}

pub proof fn lema_fim_decrescente<T: Ord>(s: Seq<T>, t: int)
    ensures
        fim_decrescente(s, t) >= t,
        t <= s.len() ==> fim_decrescente(s, t) <= s.len(),
    decreases s.len() - t,
{
    if 0 < t < s.len() && menor(s[t], s[t - 1]) {
        lema_fim_decrescente(s, t + 1);
    }
}

/// The greedy decomposition of `s[h..]` into runs: from each start, the
/// direction is set by the first pair and the run is extended while the
/// neighbours keep it; a last lone element is a run of 1.
pub open spec fn runs_gulosos<T: Ord>(s: Seq<T>, h: int) -> Seq<i64>
    decreases s.len() - h,
{
    if h < 0 || h >= s.len() {
        Seq::empty()
    } else if h == s.len() - 1 {
        seq![1i64]
    } else if menor_igual(s[h], s[h + 1]) {
        let t = fim_crescente(s, h + 1);
        proof {
            lema_fim_crescente(s, h + 1);
        }
        seq![(t - h) as i64] + runs_gulosos(s, t)
    } else {
        let t = fim_decrescente(s, h + 1);
        proof {
            lema_fim_decrescente(s, h + 1);
        }
        seq![(-(t - h)) as i64] + runs_gulosos(s, t)
    }
}

/// `meta` is a single run when `s` is one: ascending input gives one
/// ascending run of all of it, strictly descending input of two or more
/// elements one descending run.
pub open spec fn um_run_se_monotona<T: Ord>(s: Seq<T>, meta: Seq<i64>) -> bool {
    &&& run_crescente(s) && s.len() >= 1 ==> meta == seq![s.len() as i64]
    &&& run_decrescente(s) && s.len() >= 2 ==> meta == seq![(-(s.len() as int)) as i64]
}

proof fn lema_fim_crescente_total<T: Ord>(s: Seq<T>, t: int)
    requires
        run_crescente(s),
        1 <= t <= s.len(),
    ensures
        fim_crescente(s, t) == s.len(),
    decreases s.len() - t,
{
    if t < s.len() {
        assert(menor_igual(s[t - 1], s[t]));
        lema_fim_crescente_total(s, t + 1);
    }
}

proof fn lema_fim_decrescente_total<T: Ord>(s: Seq<T>, t: int)
    requires
        run_decrescente(s),
        1 <= t <= s.len(),
    ensures
        fim_decrescente(s, t) == s.len(),
    decreases s.len() - t,
{
    if t < s.len() {
        assert(menor(s[t], s[t - 1]));
        lema_fim_decrescente_total(s, t + 1);
    }
}

/// The greedy decomposition of a monotone sequence is that one run.
pub proof fn lema_gulosos_monotona<T: Ord>(s: Seq<T>)
    requires
        s.len() <= i64::MAX,
    ensures
        um_run_se_monotona(s, runs_gulosos(s, 0)),
{
    if run_crescente(s) && s.len() >= 2 {
        assert(menor_igual(s[0], s[1]));
        lema_fim_crescente_total(s, 1);
        assert(runs_gulosos(s, s.len() as int) =~= Seq::<i64>::empty());
        assert(runs_gulosos(s, 0) =~= seq![s.len() as i64]);
    }
    if run_decrescente(s) && s.len() >= 2 {
        assert(menor(s[1], s[0]));
        lema_fim_decrescente_total(s, 1);
        assert(runs_gulosos(s, s.len() as int) =~= Seq::<i64>::empty());
        assert(runs_gulosos(s, 0) =~= seq![(-(s.len() as int)) as i64]);
    }
}

/// Appending a run to a decomposed prefix decomposes the longer prefix.
pub proof fn lema_meta_push<T: Ord>(s: Seq<T>, meta: Seq<i64>, h: int, t: int, x: i64)
    requires
        0 <= h < t <= s.len(),
        metadata_valida(s.take(h), meta),
        run_valido(s.subrange(h, t), x),
    ensures
        metadata_valida(s.take(t), meta.push(x)),
{
    let u = s.take(t);
    assert(meta.push(x).drop_last() =~= meta);
    assert(u.skip(t - (t - h)) =~= s.subrange(h, t));
    assert(u.take(t - (t - h)) =~= s.take(h));
}


/// The greedy decomposition of `arr` into runs, read sequentially.
pub fn generate_sequential_metadata<T: Ord>(arr: &[T]) -> (r: Vec<i64>)
    requires
        ordem_total::<T>(),
        arr@.len() <= i64::MAX,
    ensures
        r@ == runs_gulosos(arr@, 0),
        metadata_valida(arr@, r@),
{
    let ghost s = arr@;
    let n = arr.len();
    if n == 0 {
        proof { assert(s.take(0) =~= s); }
        return Vec::new();
    }
    if n == 1 {
        let mut um: Vec<i64> = Vec::new();
        um.push(1);
        proof {
            assert(s.skip(0) =~= s);
            assert(um@ =~= seq![1i64]);
            assert(run_valido(s.skip(0), 1i64));
            assert(um@.drop_last() =~= Seq::<i64>::empty());
            assert(s.take(0) =~= Seq::<T>::empty());
            assert(metadata_valida(s.take(0), um@.drop_last()));
        }
        return um;
    }
    let mut metadata: Vec<i64> = Vec::with_capacity(n / 64);
    let mut head: usize = 0;
    proof {
        assert(s.take(0) =~= Seq::<T>::empty());
        assert(runs_gulosos(s, 0) =~= metadata@ + runs_gulosos(s, 0));
    }
    while head < n - 1
        invariant
            ordem_total::<T>(),
            s == arr@,
            n == s.len(),
            2 <= n <= i64::MAX,
            head <= n,
            runs_gulosos(s, 0) == metadata@ + runs_gulosos(s, head as int),
            metadata_valida(s.take(head as int), metadata@),
        decreases n - head,
    {
        let mut tail = head + 1;
        if compara_le(&arr[head], &arr[tail]) {
            proof {
                assert(run_crescente(s.subrange(head as int, tail as int)));
            }
            while tail < n && compara_le(&arr[tail - 1], &arr[tail])
                invariant
                    ordem_total::<T>(),
                    s == arr@,
                    n == s.len(),
                    head < n - 1,
                    head + 1 <= tail <= n,
                    fim_crescente(s, tail as int) == fim_crescente(s, head + 1),
                    run_crescente(s.subrange(head as int, tail as int)),
                decreases n - tail,
            {
                proof {
                    let u = s.subrange(head as int, tail + 1);
                    assert forall|i: int| 0 <= i < u.len() - 1 implies menor_igual(#[trigger] u[i], u[i + 1]) by {
                        if i < u.len() - 2 {
                            assert(u[i] == s.subrange(head as int, tail as int)[i]);
                            assert(u[i + 1] == s.subrange(head as int, tail as int)[i + 1]);
                        }
                    }
                }
                tail = tail + 1;
            }
            proof {
                lema_meta_push(s, metadata@, head as int, tail as int, (tail - head) as i64);
            }
            metadata.push((tail - head) as i64);
        } else {
            proof {
                assert(run_decrescente(s.subrange(head as int, tail as int)));
            }
            while tail < n && compara_lt(&arr[tail], &arr[tail - 1])
                invariant
                    ordem_total::<T>(),
                    s == arr@,
                    n == s.len(),
                    head < n - 1,
                    head + 1 <= tail <= n,
                    fim_decrescente(s, tail as int) == fim_decrescente(s, head + 1),
                    run_decrescente(s.subrange(head as int, tail as int)),
                decreases n - tail,
            {
                proof {
                    let u = s.subrange(head as int, tail + 1);
                    assert forall|i: int| 0 <= i < u.len() - 1 implies menor(u[i + 1], #[trigger] u[i]) by {
                        if i < u.len() - 2 {
                            assert(u[i] == s.subrange(head as int, tail as int)[i]);
                            assert(u[i + 1] == s.subrange(head as int, tail as int)[i + 1]);
                        }
                    }
                }
                tail = tail + 1;
            }
            proof {
                lema_meta_push(s, metadata@, head as int, tail as int, (-((tail - head) as i64)) as i64);
            }
            metadata.push(-((tail - head) as i64));
        }
        proof {
            assert(runs_gulosos(s, 0) =~= metadata@ + runs_gulosos(s, tail as int));
        }
        head = tail;
    }
    if head == n - 1 {
        proof {
            assert(run_valido(s.subrange(head as int, n as int), 1i64));
            lema_meta_push(s, metadata@, head as int, n as int, 1i64);
            assert(runs_gulosos(s, 0) =~= metadata@.push(1i64));
        }
        metadata.push(1);
    } else {
        proof {
            assert(runs_gulosos(s, 0) =~= metadata@);
        }
    }
    proof {
        assert(s.take(n as int) =~= s);
    }
    metadata
}


/// Two decomposed pieces decompose their concatenation.
pub proof fn lema_meta_concat<T: Ord>(s1: Seq<T>, m1: Seq<i64>, s2: Seq<T>, m2: Seq<i64>)
    requires
        metadata_valida(s1, m1),
        metadata_valida(s2, m2),
    ensures
        metadata_valida(s1 + s2, m1 + m2),
    decreases m2.len(),
{
    if m2.len() == 0 {
        assert(s1 + s2 =~= s1);
        assert(m1 + m2 =~= m1);
    } else {
        let h = tamanho_run(m2.last());
        let s2a = s2.take(s2.len() - h);
        lema_meta_concat(s1, m1, s2a, m2.drop_last());
        let s = s1 + s2;
        let m = m1 + m2;
        assert(m.last() == m2.last());
        assert(m.drop_last() =~= m1 + m2.drop_last());
        assert(s.skip(s.len() - h) =~= s2.skip(s2.len() - h));
        assert(s.take(s.len() - h) =~= s1 + s2a);
    }
}

/// A decomposition splits after its first `k` entries, at the position
/// that those entries add up to.
pub proof fn lema_meta_divide<T: Ord>(s: Seq<T>, meta: Seq<i64>, k: int)
    requires
        metadata_valida(s, meta),
        0 <= k <= meta.len(),
    ensures
        soma_runs(meta) == s.len(),
        0 <= soma_runs(meta.take(k)) <= s.len(),
        metadata_valida(s.take(soma_runs(meta.take(k))), meta.take(k)),
        metadata_valida(s.skip(soma_runs(meta.take(k))), meta.skip(k)),
    decreases meta.len(),
{
    if meta.len() == 0 {
        assert(meta.take(k) =~= meta);
        assert(meta.skip(k) =~= meta);
        assert(s.take(0) =~= s);
        assert(s.skip(0) =~= s);
    } else {
        let h = tamanho_run(meta.last());
        let s1 = s.take(s.len() - h);
        let m1 = meta.drop_last();
        if k == meta.len() {
            lema_meta_divide(s1, m1, k - 1);
            assert(m1.take(k - 1) =~= m1);
            assert(meta.take(k) =~= meta);
            assert(meta.skip(k) =~= Seq::<i64>::empty());
            assert(s.take(s.len() as int) =~= s);
            assert(s.skip(s.len() as int) =~= Seq::<T>::empty());
        } else {
            lema_meta_divide(s1, m1, k);
            let o = soma_runs(meta.take(k));
            assert(m1.take(k) =~= meta.take(k));
            assert(s1.take(o) =~= s.take(o));
            let t = s.skip(o);
            let mk = meta.skip(k);
            assert(mk.last() == meta.last());
            assert(mk.drop_last() =~= m1.skip(k));
            assert(t.skip(t.len() - h) =~= s.skip(s.len() - h));
            assert(t.take(t.len() - h) =~= s1.skip(o));
        }
    }
}

/// How the metadata of two blocks that share one element is stitched: the
/// last run of `l` and the first run of `r` both hold it. A lone shared
/// element is absorbed; runs in the same direction through it fuse; at a
/// peak or a valley the shared element stays with the left run, and the
/// right block is read again from its second element (`reinicia`).
pub open spec fn junta_metadata(l: Seq<i64>, r: Seq<i64>) -> Seq<i64> {
    if l.len() == 0 {
        r
    } else if r.len() == 0 {
        l
    } else {
        let ll = l.last();
        let fr = r[0];
        if tamanho_run(ll) == 1 {
            l.drop_last() + r
        } else if tamanho_run(fr) == 1 {
            l + r.drop_first()
        } else if (ll > 0) == (fr > 0) {
            l.drop_last().push(
                (if ll > 0 {
                    tamanho_run(ll) + tamanho_run(fr) - 1
                } else {
                    -(tamanho_run(ll) + tamanho_run(fr) - 1)
                }) as i64,
            ) + r.drop_first()
        } else {
            l + crate::costura::reinicia(r)
        }
    }
}

/// The size of the run that `x` stands for.
fn abs_run(x: i64) -> (r: u64)
    ensures
        r == tamanho_run(x),
{
    if x < 0 {
        (-(x as i128)) as u64
    } else {
        x as u64
    }
}

/// Appends to `v` the decomposition of the block that `r` decomposes,
/// read again from its second element (`reinicia`).
fn estende_reiniciado(v: &mut Vec<i64>, r: &Vec<i64>)
    requires
        forall|i: int| 0 <= i < r@.len() ==> 1 <= #[trigger] tamanho_run(r@[i]) < i64::MAX,
    ensures
        final(v)@ == old(v)@ + crate::costura::reinicia(r@),
{
    if r.len() == 0 {
        proof {
            assert(old(v)@ + crate::costura::reinicia(r@) =~= old(v)@);
        }
        return;
    }
    let ghost v0 = v@;
    let n = r.len();
    let mut k: usize = 0;
    proof {
        assert(r@.skip(0) =~= r@);
    }
    loop
        invariant
            forall|i: int| 0 <= i < r@.len() ==> 1 <= #[trigger] tamanho_run(r@[i]) < i64::MAX,
            n == r@.len(),
            k < n,
            v0 == old(v)@,
            v@ + crate::costura::reinicia(r@.skip(k as int)) == v0 + crate::costura::reinicia(r@),
        decreases r@.len() - k,
    {
        let ghost rr = r@.skip(k as int);
        let ghost v1 = v@;
        proof {
            assert(rr[0] == r@[k as int]);
            assert(rr.drop_first() =~= r@.skip(k + 1));
        }
        let x = r[k];
        let b = abs_run(x);
        let sobe = x > 0;
        if b <= 1 {
            estende(v, r, k + 1);
            proof {
                assert(v@ =~= v1 + crate::costura::reinicia(rr));
            }
            return;
        }
        if b >= 3 {
            let m = (b - 1) as i64;
            v.push(if sobe { m } else { -m });
            estende(v, r, k + 1);
            proof {
                assert(v@ =~= v1 + crate::costura::reinicia(rr));
            }
            return;
        }
        if k + 1 == n {
            v.push(1);
            proof {
                assert(v@ =~= v1 + crate::costura::reinicia(rr));
            }
            return;
        }
        proof {
            assert(rr[1] == r@[k + 1]);
            assert(rr.skip(2) =~= r@.skip(k + 2));
        }
        let y = r[k + 1];
        let c = abs_run(y);
        if c <= 1 {
            v.push(if sobe { -2 } else { 2 });
            estende(v, r, k + 2);
            proof {
                assert(v@ =~= v1 + crate::costura::reinicia(rr));
            }
            return;
        }
        if (y > 0) != sobe {
            let m = (c + 1) as i64;
            v.push(if sobe { -m } else { m });
            estende(v, r, k + 2);
            proof {
                assert(v@ =~= v1 + crate::costura::reinicia(rr));
            }
            return;
        }
        v.push(if sobe { -2 } else { 2 });
        proof {
            assert(v@ + crate::costura::reinicia(r@.skip(k + 1)) =~= v1 + crate::costura::reinicia(rr));
        }
        k = k + 1;
    }
}

/// Appends `src[ini..]` to `v`.
fn estende(v: &mut Vec<i64>, src: &Vec<i64>, ini: usize)
    requires
        ini <= src@.len(),
    ensures
        final(v)@ == old(v)@ + src@.skip(ini as int),
{
    let ghost v0 = v@;
    let mut i = ini;
    while i < src.len()
        invariant
            ini <= i <= src@.len(),
            v@ == v0 + src@.subrange(ini as int, i as int),
        decreases src@.len() - i,
    {
        v.push(src[i]);
        i = i + 1;
        proof {
            assert(v@ =~= v0 + src@.subrange(ini as int, i as int));
        }
    }
    proof {
        assert(src@.subrange(ini as int, i as int) =~= src@.skip(ini as int));
    }
}

/// Stitches the metadata of two blocks that share one element, as
/// `junta_metadata` describes. On the greedy decompositions of two such
/// blocks it gives the greedy decomposition of their union
/// (`costura::lema_junta_gulosos`), so the stitching is associative
/// (`leis::lei_junta_associativa`).
pub fn merge_metadata_pure(left: Vec<i64>, right: Vec<i64>) -> (r: Vec<i64>)
    requires
        left@.len() > 0 && right@.len() > 0 ==> {
            &&& left@.last() != 0
            &&& right@[0] != 0
            &&& tamanho_run(left@.last()) + tamanho_run(right@[0]) - 1 <= i64::MAX
        },
        forall|i: int| 0 <= i < right@.len() ==> 1 <= #[trigger] tamanho_run(right@[i]) < i64::MAX,
    ensures
        r@ == junta_metadata(left@, right@),
{
    let mut left = left;
    if left.len() == 0 {
        return right;
    }
    if right.len() == 0 {
        return left;
    }
    let ghost l0 = left@;
    let last_left = left[left.len() - 1];
    left.pop();
    proof {
        assert(left@ =~= l0.drop_last());
    }
    let first_right = right[0];
    let a = abs_run(last_left);
    let b = abs_run(first_right);
    if a == 1 {
        estende(&mut left, &right, 0);
        proof {
            assert(right@.skip(0) =~= right@);
        }
        return left;
    }
    if b == 1 {
        left.push(last_left);
        estende(&mut left, &right, 1);
        proof {
            assert(l0.drop_last().push(last_left) =~= l0);
            assert(right@.skip(1) =~= right@.drop_first());
        }
        return left;
    }
    let left_asc = last_left > 0;
    let right_asc = first_right > 0;
    if left_asc == right_asc {
        let soma = (a + b - 1) as i64;
        let valor = if left_asc { soma } else { -soma };
        left.push(valor);
        estende(&mut left, &right, 1);
    } else {
        left.push(last_left);
        proof {
            assert(l0.drop_last().push(last_left) =~= l0);
        }
        estende_reiniciado(&mut left, &right);
        return left;
    }
    proof {
        assert(right@.skip(1) =~= right@.drop_first());
    }
    left
}

/// First element of block `i` when blocks of `largura` elements start
/// every `passo` elements.
pub open spec fn inicio_bloco(i: int, passo: int) -> int {
    i * passo
}

/// One past the last element of block `i`, clipped to `n`.
pub open spec fn fim_bloco(i: int, passo: int, largura: int, n: int) -> int {
    if i * passo + largura < n {
        i * passo + largura
    } else {
        n
    }
}

/// The metadata of block `i` of `arr`: blocks of `largura` elements that
/// overlap their neighbours in one element.
fn metadata_do_bloco<T: Ord + Sync>(arr: &[T], i: usize, passo: usize, largura: usize, macro_bloco: bool) -> (r: Vec<i64>)
    requires
        ordem_total::<T>(),
        arr@.len() <= i64::MAX,
        largura == passo + 1,
        passo >= 1,
        i * passo < arr@.len(),
    ensures
        r@ == runs_gulosos(
            arr@.subrange(inicio_bloco(i as int, passo as int), fim_bloco(i as int, passo as int, largura as int, arr@.len() as int)),
            0,
        ),
{
    assert(arr@.len() == arr.len());
    let start = i * passo;
    let end = if largura < arr.len() - start { start + largura } else { arr.len() };
    let bloco = &arr[start..end];
    if macro_bloco {
        process_macro_block(bloco)
    } else {
        generate_sequential_metadata(bloco)
    }
}

/// The metadata of every block of `arr`, computed in parallel by rayon.
/// rayon's documentation states that collecting an indexed parallel
/// iterator into a `Vec` keeps the items in their order; the item of index
/// `i` is one call of `metadata_do_bloco`, so it is as that function's
/// contract states.
#[verifier::external_body]
fn metadata_blocos_par<T: Ord + Sync>(arr: &[T], passo: usize, largura: usize, num: usize, macro_bloco: bool) -> (r: Vec<Vec<i64>>)
    requires
        ordem_total::<T>(),
        arr@.len() <= i64::MAX,
        largura == passo + 1,
        passo >= 1,
        num >= 1,
        (num - 1) * passo < arr@.len(),
    ensures
        r@.len() == num,
        forall|i: int| 0 <= i < num ==> r@[i]@ == runs_gulosos(
            #[trigger] arr@.subrange(inicio_bloco(i, passo as int), fim_bloco(i, passo as int, largura as int, arr@.len() as int)),
            0,
        ),
{
    (0..num).into_par_iter().map(|i| metadata_do_bloco(arr, i, passo, largura, macro_bloco)).collect()
}

/// Copies a vector of metadata.
fn copia_metadata(v: &Vec<i64>) -> (r: Vec<i64>)
    ensures
        r@ == v@,
{
    let mut r: Vec<i64> = Vec::new();
    estende(&mut r, v, 0);
    proof {
        assert(v@.skip(0) =~= v@);
        assert(Seq::<i64>::empty() + v@ =~= v@);
    }
    r
}

/// Stitches the metadata of consecutive overlapping blocks, left to right.
fn junta_blocos<T: Ord>(arr: &[T], blocos: &Vec<Vec<i64>>, passo: usize, largura: usize) -> (r: Vec<i64>)
    requires
        ordem_total::<T>(),
        arr@.len() <= i64::MAX,
        largura == passo + 1,
        passo >= 1,
        blocos@.len() >= 1,
        (blocos@.len() - 1) * passo < arr@.len(),
        blocos@.len() * passo >= arr@.len(),
        forall|i: int| 0 <= i < blocos@.len() ==> blocos@[i]@ == runs_gulosos(
            #[trigger] arr@.subrange(inicio_bloco(i, passo as int), fim_bloco(i, passo as int, largura as int, arr@.len() as int)),
            0,
        ),
    ensures
        r@ == runs_gulosos(arr@, 0),
{
    let ghost s = arr@;
    let ghost n = s.len() as int;
    let num = blocos.len();
    let mut acc = copia_metadata(&blocos[0]);
    proof {
        assert(s.subrange(0, fim_bloco(0, passo as int, largura as int, n)) =~= s.take(fim_bloco(0, passo as int, largura as int, n)));
        assert(inicio_bloco(0, passo as int) == 0);
    }
    let mut i: usize = 1;
    while i < num
        invariant
            ordem_total::<T>(),
            s == arr@,
            n == s.len(),
            n <= i64::MAX,
            largura == passo + 1,
            passo >= 1,
            num == blocos@.len(),
            1 <= i <= num,
            (num - 1) * passo < n,
            num * passo >= n,
            forall|j: int| 0 <= j < num ==> blocos@[j]@ == runs_gulosos(
                #[trigger] s.subrange(inicio_bloco(j, passo as int), fim_bloco(j, passo as int, largura as int, n)),
                0,
            ),
            acc@ == runs_gulosos(s.take(fim_bloco(i - 1, passo as int, largura as int, n)), 0),
        decreases num - i,
    {
        let ghost ini = inicio_bloco(i as int, passo as int);
        let ghost fim_ant = fim_bloco(i - 1, passo as int, largura as int, n);
        let ghost fim = fim_bloco(i as int, passo as int, largura as int, n);
        proof {
            vstd::arithmetic::mul::lemma_mul_inequality(i as int, (num - 1) as int, passo as int);
            vstd::arithmetic::mul::lemma_mul_is_distributive_sub_other_way(passo as int, i as int, 1);
            assert((i - 1) * passo == i * passo - passo);
            assert(ini < n);
            assert(fim_ant == ini + 1);
            let u = s.take(fim);
            assert(u.take(ini + 1) =~= s.take(fim_ant));
            assert(u.skip(ini) =~= s.subrange(ini, fim));
            assert(blocos@[i as int]@ == runs_gulosos(u.skip(ini), 0));
            crate::costura::lema_gulosos_entradas(u.take(ini + 1), 0);
            crate::costura::lema_gulosos_entradas(u.skip(ini), 0);
            crate::costura::lema_junta_gulosos(u, ini + 1);
            if acc@.len() > 0 {
                assert(acc@.last() == acc@[acc@.len() - 1]);
            }
        }
        let proximo = copia_metadata(&blocos[i]);
        acc = merge_metadata_pure(acc, proximo);
        i = i + 1;
    }
    proof {
        let f = fim_bloco(num - 1, passo as int, largura as int, n);
        vstd::arithmetic::mul::lemma_mul_is_distributive_sub_other_way(passo as int, num as int, 1);
        assert(f == n);
        assert(s.take(n) =~= s);
    }
    acc
}

/// Metadata of a macro-block: sequential up to 512 elements, else from
/// micro-blocks of 512 elements computed in parallel and stitched.
fn process_macro_block<T: Ord + Sync>(arr: &[T]) -> (r: Vec<i64>)
    requires
        ordem_total::<T>(),
        arr@.len() <= i64::MAX,
    ensures
        r@ == runs_gulosos(arr@, 0),
{
    let n = arr.len();
    assert(n == arr@.len());
    let micro_slice_len: usize = 512;
    let micro_step = micro_slice_len - 1;
    if n <= micro_slice_len {
        return generate_sequential_metadata(arr);
    }
    let num = (n - 1) / micro_step + 1;
    proof { lema_numero_blocos(n as int, micro_step as int, num as int); }
    let blocos = metadata_blocos_par(arr, micro_step, micro_slice_len, num, false);
    junta_blocos(arr, &blocos, micro_step, micro_slice_len)
}

/// `num = ceil(n / passo)` blocks starting every `passo` elements cover `n`.
proof fn lema_numero_blocos(n: int, passo: int, num: int)
    requires
        n > passo >= 1,
        num == (n - 1) / passo + 1,
    ensures
        num >= 1,
        (num - 1) * passo < n,
        num * passo >= n,
{
    vstd::arithmetic::div_mod::lemma_fundamental_div_mod(n - 1, passo);
    vstd::arithmetic::mul::lemma_mul_is_distributive_sub_other_way(passo, num, 1);
    vstd::arithmetic::mul::lemma_mul_is_distributive_add_other_way(passo, num - 1, 1);
    vstd::arithmetic::mul::lemma_mul_is_commutative(passo, num);
    vstd::arithmetic::mul::lemma_mul_is_commutative(passo, num - 1);
    vstd::arithmetic::div_mod::lemma_div_pos_is_pos(n - 1, passo);
}

/// The decomposition of `arr` into monotone runs: ascending runs use `<=`,
/// descending ones a strict `>`, so every descending run is strictly
/// decreasing. The result is the greedy decomposition read from the left,
/// at every length: up to 32768 elements it is one macro-block; beyond, the
/// macro-blocks overlap by one element, are processed in parallel and are
/// stitched. A sorted input is one ascending run, a strictly descending one
/// (of two or more elements) one descending run.
pub fn detect_global_trend<T: Ord + Sync>(arr: &[T]) -> (r: Vec<i64>)
    requires
        ordem_total::<T>(),
        arr@.len() <= i64::MAX,
    ensures
        r@ == runs_gulosos(arr@, 0),
        metadata_valida(arr@, r@),
        um_run_se_monotona(arr@, r@),
{
    let n = arr.len();
    assert(n == arr@.len());
    proof {
        lema_gulosos_monotona(arr@);
        assert(arr@.take(0) =~= Seq::<T>::empty());
        crate::costura::lema_gulosos_valida(arr@, 0, Seq::<i64>::empty());
        assert(Seq::<i64>::empty() + runs_gulosos(arr@, 0) =~= runs_gulosos(arr@, 0));
    }
    if n <= 1 {
        return generate_sequential_metadata(arr);
    }
    let macro_slice_len: usize = 32_768;
    let macro_step = macro_slice_len - 1;
    if n <= macro_slice_len {
        return process_macro_block(arr);
    }
    let num = (n - 1) / macro_step + 1;
    proof { lema_numero_blocos(n as int, macro_step as int, num as int); }
    let blocos = metadata_blocos_par(arr, macro_step, macro_slice_len, num, true);
    junta_blocos(arr, &blocos, macro_step, macro_slice_len)
}


/// The sizes of the runs add up over a concatenation.
pub proof fn lema_soma_concat(x: Seq<i64>, y: Seq<i64>)
    ensures
        soma_runs(x + y) == soma_runs(x) + soma_runs(y),
    decreases y.len(),
{
    if y.len() == 0 {
        assert(x + y =~= x);
    } else {
        lema_soma_concat(x, y.drop_last());
        assert((x + y).drop_last() =~= x + y.drop_last());
    }
}

/// One step of the prefix sums of the run sizes.
pub proof fn lema_soma_passo(meta: Seq<i64>, i: int)
    requires
        0 <= i < meta.len(),
    ensures
        soma_runs(meta.take(i + 1)) == soma_runs(meta.take(i)) + tamanho_run(meta[i]),
{
    assert(meta.take(i + 1).drop_last() =~= meta.take(i));
}

/// Where each run of `metadata` starts, and where the last one ends.
pub fn block_offsets(metadata: &[i64]) -> (offsets: Vec<usize>)
    requires
        soma_runs(metadata@) <= usize::MAX,
        forall|i: int| 0 <= i < metadata@.len() ==> #[trigger] metadata@[i] != i64::MIN,
    ensures
        offsets@.len() == metadata@.len() + 1,
        forall|i: int| 0 <= i <= metadata@.len() ==> #[trigger] offsets@[i] == soma_runs(metadata@.take(i)),
{
    let mut offsets: Vec<usize> = Vec::new();
    let mut off: usize = 0;
    offsets.push(0);
    proof {
        assert(metadata@.take(0) =~= Seq::<i64>::empty());
    }
    let mut i: usize = 0;
    while i < metadata.len()
        invariant
            soma_runs(metadata@) <= usize::MAX,
            i <= metadata@.len(),
            offsets@.len() == i + 1,
            off == soma_runs(metadata@.take(i as int)),
            forall|t: int| 0 <= t <= i ==> #[trigger] offsets@[t] == soma_runs(metadata@.take(t)),
        decreases metadata@.len() - i,
    {
        proof {
            lema_soma_passo(metadata@, i as int);
            lema_soma_concat(metadata@.take(i + 1), metadata@.skip(i + 1));
            assert(metadata@.take(i + 1) + metadata@.skip(i + 1) =~= metadata@);
            lema_soma_nao_negativa(metadata@.skip(i + 1));
        }
        let m = metadata[i];
        let tamanho: u64 = if m < 0 { (-(m as i128)) as u64 } else { m as u64 };
        off = off + (tamanho as usize);
        offsets.push(off);
        i = i + 1;
    }
    offsets
}

pub proof fn lema_soma_nao_negativa(meta: Seq<i64>)
    ensures
        soma_runs(meta) >= 0,
    decreases meta.len(),
{
    if meta.len() > 0 {
        lema_soma_nao_negativa(meta.drop_last());
    }
}


/// Prefix sums of run sizes never decrease.
pub proof fn lema_soma_monotona(meta: Seq<i64>, i: int, j: int)
    requires
        0 <= i <= j <= meta.len(),
    ensures
        soma_runs(meta.take(i)) <= soma_runs(meta.take(j)),
{
    lema_soma_concat(meta.take(i), meta.subrange(i, j));
    assert(meta.take(i) + meta.subrange(i, j) =~= meta.take(j));
    lema_soma_nao_negativa(meta.subrange(i, j));
}

/// `offsets` holds where each run of `meta` starts, shifted by `offsets[0]`,
/// and where the last one ends.
pub open spec fn offsets_validos(offsets: Seq<usize>, meta: Seq<i64>) -> bool {
    &&& offsets.len() == meta.len() + 1
    &&& forall|i: int| 0 <= i <= meta.len() ==> #[trigger] offsets[i] == offsets[0] + soma_runs(meta.take(i))
}

/// The offsets of the runs after the first `k` are the tail of the offsets.
pub proof fn lema_offsets_divide(offsets: Seq<usize>, meta: Seq<i64>, k: int)
    requires
        offsets_validos(offsets, meta),
        0 <= k <= meta.len(),
    ensures
        offsets_validos(offsets.subrange(0, k + 1), meta.take(k)),
        offsets_validos(offsets.subrange(k, offsets.len() as int), meta.skip(k)),
{
    let lo = offsets.subrange(0, k + 1);
    assert forall|i: int| 0 <= i <= k implies #[trigger] lo[i] == lo[0] + soma_runs(meta.take(k).take(i)) by {
        assert(meta.take(k).take(i) =~= meta.take(i));
        assert(meta.take(0) =~= Seq::<i64>::empty());
    }
    let hi = offsets.subrange(k, offsets.len() as int);
    let mk = meta.skip(k);
    assert forall|i: int| 0 <= i <= mk.len() implies #[trigger] hi[i] == hi[0] + soma_runs(mk.take(i)) by {
        lema_soma_concat(meta.take(k), mk.take(i));
        assert(meta.take(k) + mk.take(i) =~= meta.take(k + i));
        assert(mk.take(0) =~= Seq::<i64>::empty());
    }
}

} // verus!
