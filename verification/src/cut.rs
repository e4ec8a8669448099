use vstd::prelude::*;
use crate::ordem::{ordem_total, menor_igual, menor, lema_preordem_total, compara_le};
use crate::especificacao::{
    ordenada, intercala, corte_valido, corte_no_rank, lema_corte_unico, lema_corte_existe,
    lema_passo, lema_intercala_len,
};
use crate::especificacao::{lema_corte, lema_fatia_ordenada};
use crate::pim_kernel::{
    inv_tras, emite_tras_a, emite_tras_b, lema_inicio_tras, lema_fim_tras, pim_front, pim_back,
    pim_front_adaptativo, pim_back_adaptativo,
};

verus! {

/// The cut of the merge of the sorted runs at rank `k`, by binary search on
/// the diagonal `i + j == k`: one comparison per probe.
pub fn corte_diagonal<T: Ord>(k: usize, a: &[T], b: &[T]) -> (r: (usize, usize))
    requires
        ordem_total::<T>(),
        ordenada(a@),
        ordenada(b@),
        k <= a@.len() + b@.len(),
    ensures
        r.0 + r.1 == k,
        corte_valido(a@, b@, r.0 as int, r.1 as int),
{
    proof { lema_preordem_total::<T>(); }
    let m = a.len();
    let n = b.len();
    let mut lo: usize = if k > n { k - n } else { 0 };
    let mut hi: usize = if k < m { k } else { m };
    while lo < hi
        invariant
            ordem_total::<T>(),
            ordenada(a@),
            ordenada(b@),
            m == a@.len(),
            n == b@.len(),
            k <= m + n,
            k - n <= lo <= hi <= m,
            hi <= k,
            lo > 0 && k - lo < n ==> menor_igual(a@[lo - 1], b@[k - lo]),
            k - hi > 0 && hi < m ==> menor(b@[k - hi - 1], a@[hi as int]),
        decreases hi - lo,
    {
        let i = lo + (hi - lo) / 2 + (hi - lo) % 2;
        let j = k - i;
        if j == n || compara_le(&a[i - 1], &b[j]) {
            lo = i;
        } else {
            hi = i - 1;
        }
    }
    (lo, k - lo)
}

/// The cut of the merge of the sorted runs at rank `k`, by discarding in
/// each step the half-budget block of the run that cannot reach past it.
pub fn corte_eliminacao<T: Ord + Copy>(k: usize, a: &[T], b: &[T]) -> (r: (usize, usize))
    requires
        ordem_total::<T>(),
        ordenada(a@),
        ordenada(b@),
        k <= a@.len() + b@.len(),
    ensures
        r.0 + r.1 == k,
        corte_valido(a@, b@, r.0 as int, r.1 as int),
{
    proof {
        lema_preordem_total::<T>();
        lema_corte_existe(a@, b@, k as int);
    }
    let ghost ic = choose|i: int| #[trigger] corte_no_rank(a@, b@, k as int, i);
    let ghost jc = k - ic;
    let mut ia: usize = 0;
    let mut ib: usize = 0;
    let mut falta: usize = k;
    loop
        invariant
            ordem_total::<T>(),
            ordenada(a@),
            ordenada(b@),
            corte_valido(a@, b@, ic, jc),
            ic + jc == k,
            ia + ib + falta == k,
            ia <= ic,
            ib <= jc,
        decreases falta,
    {
        proof { lema_preordem_total::<T>(); }
        if falta == 0 {
            return (ia, ib);
        }
        if ia == a.len() {
            return (ia, ib + falta);
        }
        if ib == b.len() {
            return (ia + falta, ib);
        }
        if falta == 1 {
            if compara_le(&a[ia], &b[ib]) {
                proof {
                    if ia == ic {
                        assert(menor(b@[ib as int], a@[ia as int]));
                    }
                }
                return (ia + 1, ib);
            } else {
                proof {
                    if ib == jc {
                        assert(menor_igual(a@[ia as int], b@[ib as int]));
                    }
                }
                return (ia, ib + 1);
            }
        }
        let passo = falta / 2;
        let pa = (if ia + passo < a.len() { ia + passo } else { a.len() }) - ia;
        let pb = (if ib + passo < b.len() { ib + passo } else { b.len() }) - ib;
        if compara_le(&a[ia + pa - 1], &b[ib + pb - 1]) {
            proof {
                assert(pa + pb <= falta);
                if ic < ia + pa {
                    let x = a@[ic];
                    let y = a@[ia + pa - 1];
                    let u = b@[ib + pb - 1];
                    let v = b@[jc - 1];
                    assert(jc >= ib + pb);
                    assert(menor(v, x));
                    assert(menor_igual(x, y)) by {
                        if ic < ia + pa - 1 {
                            assert(menor_igual(a@[ic], a@[ia + pa - 1]));
                        }
                    }
                    assert(menor_igual(u, v)) by {
                        if ib + pb - 1 < jc - 1 {
                            assert(menor_igual(b@[ib + pb - 1], b@[jc - 1]));
                        }
                    }
                    assert(menor_igual(y, u));
                    assert(menor_igual(x, u));
                    assert(menor_igual(x, v));
                    assert(false);
                }
            }
            ia = ia + pa;
            falta = falta - pa;
        } else {
            proof {
                assert(pa + pb <= falta);
                if jc < ib + pb {
                    let x = a@[ia + pa - 1];
                    let y = a@[ic - 1];
                    let u = b@[jc];
                    let v = b@[ib + pb - 1];
                    assert(ic == ia + ib + falta - jc);
                    assert(ic > ia + pa - 1);
                    assert(ic - 1 < a@.len());
                    assert(menor_igual(y, u));
                    assert(menor_igual(x, y)) by {
                        if ia + pa - 1 < ic - 1 {
                            assert(menor_igual(a@[ia + pa - 1], a@[ic - 1]));
                        }
                    }
                    assert(menor_igual(u, v)) by {
                        if jc < ib + pb - 1 {
                            assert(menor_igual(b@[jc], b@[ib + pb - 1]));
                        }
                    }
                    assert(menor_igual(x, u));
                    assert(menor_igual(x, v));
                    assert(false);
                }
            }
            ib = ib + pb;
            falta = falta - pb;
        }
    }
}

/// Forward merge, one element per step, of the `dest.len()` smallest
/// elements of the stable merge of `a` and `b`.
pub fn merge_front<T: Ord + Copy>(a: &[T], b: &[T], dest: &mut [T])
    requires
        ordem_total::<T>(),
        old(dest)@.len() <= a@.len() + b@.len(),
    ensures
        final(dest)@ == intercala(a@, b@).take(old(dest)@.len() as int),
{
    crate::pim_kernel::merge_ro(a, b, dest);
}

/// Backward merge, one element per step, of the `dest.len()` largest
/// elements of the stable merge of the sorted runs; ties go to `b`.
pub fn merge_back<T: Ord + Copy>(a: &[T], b: &[T], dest: &mut [T])
    requires
        ordem_total::<T>(),
        ordenada(a@),
        ordenada(b@),
        old(dest)@.len() <= a@.len() + b@.len(),
    ensures
        final(dest)@ == intercala(a@, b@).skip(a@.len() + b@.len() - old(dest)@.len()),
{
    let mut qa: usize = a.len();
    let mut qb: usize = b.len();
    let mut k: usize = dest.len();
    proof { lema_inicio_tras(a@, b@, dest@); }
    while k > 0
        invariant
            ordem_total::<T>(),
            ordenada(a@),
            ordenada(b@),
            dest@.len() == old(dest)@.len(),
            dest@.len() <= a@.len() + b@.len(),
            inv_tras(a@, b@, dest@, qa as int, qb as int, k as int),
        decreases k,
    {
        let pega_b = qa == 0 || (qb > 0 && compara_le(&a[qa - 1], &b[qb - 1]));
        if pega_b {
            emite_tras_b(a, b, dest, qa, qb, k, 1);
            qb = qb - 1;
        } else {
            emite_tras_a(a, b, dest, qa, qb, k, 1);
            qa = qa - 1;
        }
        k = k - 1;
    }
    proof { lema_fim_tras(a@, b@, dest@, qa as int, qb as int); }
}


/// The kernel that merges one piece of a split merge.
#[derive(Clone, Copy)]
pub enum Nucleo {
    /// One element per step.
    Linear,
    /// Blocks located by exponential search.
    Galope,
    /// One element per step, galloping after the given number of wins.
    Adaptativo(usize),
}

/// The `dest.len()` smallest elements of the merge, by the chosen kernel.
pub fn nucleo_frente<T: Ord + Copy>(a: &[T], b: &[T], dest: &mut [T], nucleo: Nucleo)
    requires
        ordem_total::<T>(),
        ordenada(a@),
        ordenada(b@),
        old(dest)@.len() <= a@.len() + b@.len(),
    ensures
        final(dest)@ == intercala(a@, b@).take(old(dest)@.len() as int),
{
    match nucleo {
        Nucleo::Linear => merge_front(a, b, dest),
        Nucleo::Galope => pim_front(a, b, dest),
        Nucleo::Adaptativo(min_gallop) => pim_front_adaptativo(a, b, dest, min_gallop),
    }
}

/// The `dest.len()` largest elements of the merge, by the backward
/// counterpart of the chosen kernel.
pub fn nucleo_tras<T: Ord + Copy>(a: &[T], b: &[T], dest: &mut [T], nucleo: Nucleo)
    requires
        ordem_total::<T>(),
        ordenada(a@),
        ordenada(b@),
        old(dest)@.len() <= a@.len() + b@.len(),
    ensures
        final(dest)@ == intercala(a@, b@).skip(a@.len() + b@.len() - old(dest)@.len()),
{
    match nucleo {
        Nucleo::Linear => merge_back(a, b, dest),
        Nucleo::Galope => pim_back(a, b, dest),
        Nucleo::Adaptativo(min_gallop) => pim_back_adaptativo(a, b, dest, min_gallop),
    }
}

/// The piece `[ini, ini + dest.len())` of the merge: from the front when it
/// starts at 0, from the back when `pela_tras` and it ends at the last
/// element, else from the front of the tails past the cut at `ini`.
pub fn intercala_faixa<T: Ord + Copy>(
    a: &[T],
    b: &[T],
    dest: &mut [T],
    ini: usize,
    nucleo: Nucleo,
    pela_tras: bool,
)
    requires
        ordem_total::<T>(),
        ordenada(a@),
        ordenada(b@),
        ini + old(dest)@.len() <= a@.len() + b@.len(),
        a@.len() + b@.len() <= usize::MAX,
    ensures
        final(dest)@ == intercala(a@, b@).subrange(ini as int, ini + old(dest)@.len()),
{
    let ghost m = intercala(a@, b@);
    let ghost d = dest@.len();
    proof { lema_intercala_len(a@, b@); }
    if ini == 0 {
        nucleo_frente(a, b, dest, nucleo);
        proof { assert(m.take(d as int) =~= m.subrange(0, d as int)); }
    } else if pela_tras && ini + dest.len() == a.len() + b.len() {
        nucleo_tras(a, b, dest, nucleo);
        proof { assert(m.skip(ini as int) =~= m.subrange(ini as int, ini + d)); }
    } else {
        let (ia, ib) = corte_diagonal(ini, a, b);
        proof {
            lema_corte(a@, b@, ia as int, ib as int);
            lema_intercala_len(a@.take(ia as int), b@.take(ib as int));
            lema_fatia_ordenada(a@, ia as int, a@.len() as int);
            lema_fatia_ordenada(b@, ib as int, b@.len() as int);
            assert(a@.skip(ia as int) =~= a@.subrange(ia as int, a@.len() as int));
            assert(b@.skip(ib as int) =~= b@.subrange(ib as int, b@.len() as int));
        }
        let a_r = &a[ia..a.len()];
        let b_r = &b[ib..b.len()];
        nucleo_frente(a_r, b_r, dest, nucleo);
        proof {
            assert(m.skip(ini as int) =~= intercala(a@.skip(ia as int), b@.skip(ib as int)));
            assert(m.subrange(ini as int, ini + d) =~= m.skip(ini as int).take(d as int));
        }
    }
}

/// Boundaries of pieces over `[0, total]`: they start at 0, end at `total`
/// and never decrease.
pub open spec fn fronteiras_validas(fr: Seq<usize>, total: nat) -> bool {
    &&& fr.len() >= 2
    &&& fr[0] == 0
    &&& fr[fr.len() - 1] == total
    &&& forall|i: int, j: int| 0 <= i <= j < fr.len() ==> #[trigger] fr[i] <= #[trigger] fr[j]
}

/// Runs the pieces `[lo, mid)` and `[mid, hi)` through `rayon::join`.
/// rayon's documentation states that both closures are always executed;
/// each closure is one call of `intercala_faixas_par`, so each half ends as
/// that function's contract states.
#[verifier::external_body]
fn junta_faixas<T: Ord + Copy + Send + Sync>(
    a: &[T],
    b: &[T],
    d_l: &mut [T],
    d_r: &mut [T],
    fr: &[usize],
    lo: usize,
    mid: usize,
    hi: usize,
    nucleo: Nucleo,
    pela_tras: bool,
)
    requires
        ordem_total::<T>(),
        ordenada(a@),
        ordenada(b@),
        fronteiras_validas(fr@, a@.len() + b@.len()),
        a@.len() + b@.len() <= usize::MAX,
        lo < mid < hi < fr@.len(),
        old(d_l)@.len() == fr@[mid as int] - fr@[lo as int],
        old(d_r)@.len() == fr@[hi as int] - fr@[mid as int],
    ensures
        final(d_l)@ == intercala(a@, b@).subrange(fr@[lo as int] as int, fr@[mid as int] as int),
        final(d_r)@ == intercala(a@, b@).subrange(fr@[mid as int] as int, fr@[hi as int] as int),
{
    rayon::join(
        || intercala_faixas_par(a, b, d_l, fr, lo, mid, nucleo, pela_tras),
        || intercala_faixas_par(a, b, d_r, fr, mid, hi, nucleo, pela_tras),
    );
}

/// Merges the pieces `lo..hi` between the boundaries `fr`, halving the range
/// of pieces and running both halves in parallel.
pub fn intercala_faixas_par<T: Ord + Copy + Send + Sync>(
    a: &[T],
    b: &[T],
    dest: &mut [T],
    fr: &[usize],
    lo: usize,
    hi: usize,
    nucleo: Nucleo,
    pela_tras: bool,
)
    requires
        ordem_total::<T>(),
        ordenada(a@),
        ordenada(b@),
        fronteiras_validas(fr@, a@.len() + b@.len()),
        a@.len() + b@.len() <= usize::MAX,
        lo < hi < fr@.len(),
        old(dest)@.len() == fr@[hi as int] - fr@[lo as int],
    ensures
        final(dest)@ == intercala(a@, b@).subrange(fr@[lo as int] as int, fr@[hi as int] as int),
{
    if hi - lo == 1 {
        intercala_faixa(a, b, dest, fr[lo], nucleo, pela_tras);
    } else {
        let mid = lo + (hi - lo) / 2;
        let ghost m = intercala(a@, b@);
        let (d_l, d_r) = dest.split_at_mut(fr[mid] - fr[lo]);
        junta_faixas(a, b, d_l, d_r, fr, lo, mid, hi, nucleo, pela_tras);
        proof {
            lema_intercala_len(a@, b@);
            assert(m.subrange(fr@[lo as int] as int, fr@[hi as int] as int) =~= m.subrange(
                fr@[lo as int] as int,
                fr@[mid as int] as int,
            ) + m.subrange(fr@[mid as int] as int, fr@[hi as int] as int));
        }
    }
}


/// `total * i / p` never decreases in `i` and stays within `[0, total]`.
proof fn lema_fracao(total: int, i: int, j: int, p: int)
    requires
        0 <= total,
        0 <= i <= j <= p,
        p > 0,
    ensures
        0 <= total * i / p <= total * j / p <= total,
{
    vstd::arithmetic::mul::lemma_mul_inequality(i, j, total);
    vstd::arithmetic::mul::lemma_mul_inequality(j, p, total);
    vstd::arithmetic::mul::lemma_mul_is_commutative(i, total);
    vstd::arithmetic::mul::lemma_mul_is_commutative(j, total);
    vstd::arithmetic::mul::lemma_mul_is_commutative(p, total);
    vstd::arithmetic::mul::lemma_mul_nonnegative(total, i);
    vstd::arithmetic::div_mod::lemma_div_is_ordered(total * i, total * j, p);
    vstd::arithmetic::div_mod::lemma_div_is_ordered(total * j, total * p, p);
    vstd::arithmetic::div_mod::lemma_div_is_ordered(0, total * i, p);
    vstd::arithmetic::div_mod::lemma_div_multiples_vanish(total, p);
}

/// `total * i / p`, computed without overflow.
pub(crate) fn fracao(total: usize, i: usize, p: usize) -> (r: usize)
    requires
        p > 0,
        i <= p,
    ensures
        r == total * i / (p as int),
{
    proof {
        lema_fracao(total as int, i as int, p as int, p as int);
        vstd::arithmetic::mul::lemma_mul_upper_bound(total as int, u64::MAX as int, i as int, u64::MAX as int);
    }
    let prod: u128 = (total as u128) * (i as u128);
    (prod / (p as u128)) as usize
}

/// The boundaries `total * i / p` of `p` pieces of (almost) equal size.
fn fronteiras_uniformes(total: usize, p: usize) -> (fr: Vec<usize>)
    requires
        p >= 1,
    ensures
        fr@.len() == p + 1,
        fronteiras_validas(fr@, total as nat),
        forall|i: int| 0 <= i <= p ==> #[trigger] fr@[i] == total * i / (p as int),
{
    let mut fr: Vec<usize> = Vec::new();
    let mut i: usize = 0;
    while i < p
        invariant
            p >= 1,
            i <= p,
            fr@.len() == i,
            forall|t: int| 0 <= t < i ==> #[trigger] fr@[t] == total * t / (p as int),
        decreases p - i,
    {
        let v = fracao(total, i, p);
        fr.push(v);
        i = i + 1;
    }
    fr.push(total);
    proof {
        vstd::arithmetic::div_mod::lemma_div_multiples_vanish(total as int, p as int);
        vstd::arithmetic::mul::lemma_mul_is_commutative(total as int, p as int);
        assert(fr@[p as int] == total * p / (p as int));
        assert forall|x: int, y: int| 0 <= x <= y < fr@.len() implies #[trigger] fr@[x] <= #[trigger] fr@[y] by {
            lema_fracao(total as int, x, y, p as int);
        }
        lema_fracao(total as int, 0, 0, p as int);
    }
    fr
}

/// The boundaries of a merge cut into a front piece of `k1` elements, a
/// back piece ending at `total` and starting at `k2`, and `p - 2` middle
/// pieces of (almost) equal size between them.
fn fronteiras_pontas(total: usize, p: usize, k1: usize, k2: usize) -> (fr: Vec<usize>)
    requires
        p >= 3,
        k1 <= k2 <= total,
    ensures
        fr@.len() == p + 1,
        fronteiras_validas(fr@, total as nat),
        fr@[0] == 0,
        forall|i: int| 1 <= i <= p - 1 ==> #[trigger] fr@[i] == k1 + (k2 - k1) * (i - 1) / (p - 2),
        fr@[p as int] == total,
{
    let nm = p - 2;
    let mut fr: Vec<usize> = Vec::new();
    fr.push(0);
    let mut i: usize = 0;
    while i <= nm
        invariant
            nm == p - 2,
            p >= 3,
            k1 <= k2 <= total,
            i <= nm + 1,
            fr@.len() == i + 1,
            fr@[0] == 0,
            forall|t: int| 1 <= t <= i ==> #[trigger] fr@[t] == k1 + (k2 - k1) * (t - 1) / (nm as int),
        decreases nm + 1 - i,
    {
        let v = fracao(k2 - k1, i, nm);
        proof { lema_fracao((k2 - k1) as int, i as int, nm as int, nm as int); }
        fr.push(k1 + v);
        i = i + 1;
    }
    fr.push(total);
    proof {
        assert forall|x: int, y: int| 0 <= x <= y < fr@.len() implies #[trigger] fr@[x] <= #[trigger] fr@[y] by {
            if x > 0 && y < p {
                lema_fracao((k2 - k1) as int, x - 1, y - 1, nm as int);
            } else if x > 0 && x < p {
                lema_fracao((k2 - k1) as int, x - 1, nm as int, nm as int);
            }
        }
    }
    fr
}

/// Runs the forward kernel on the front half and the backward kernel on the
/// back half through `rayon::join`, which always executes both closures;
/// each closure is one call of `nucleo_frente` or `nucleo_tras`, so each
/// half ends as that function's contract states.
#[verifier::external_body]
fn junta_frente_tras<T: Ord + Copy + Send + Sync>(
    a: &[T],
    b: &[T],
    d_frente: &mut [T],
    d_tras: &mut [T],
    nucleo: Nucleo,
)
    requires
        ordem_total::<T>(),
        ordenada(a@),
        ordenada(b@),
        old(d_frente)@.len() + old(d_tras)@.len() == a@.len() + b@.len(),
    ensures
        final(d_frente)@ == intercala(a@, b@).take(old(d_frente)@.len() as int),
        final(d_tras)@ == intercala(a@, b@).skip(old(d_frente)@.len() as int),
{
    rayon::join(|| nucleo_frente(a, b, d_frente, nucleo), || nucleo_tras(a, b, d_tras, nucleo));
}

/// Bidirectional merge: one worker emits the first `k` elements forward and
/// the other the rest backward, with no cut computed between them: the
/// forward kernel breaks ties toward `a` and the backward one toward `b`,
/// so the two parts are exactly the front and the back of the merge.
pub fn merge_bidirecional<T: Ord + Copy + Send + Sync>(
    a: &[T],
    b: &[T],
    dest: &mut [T],
    k: usize,
    nucleo: Nucleo,
)
    requires
        ordem_total::<T>(),
        ordenada(a@),
        ordenada(b@),
        old(dest)@.len() == a@.len() + b@.len(),
        k <= old(dest)@.len(),
    ensures
        final(dest)@ == intercala(a@, b@),
{
    let (df, db) = dest.split_at_mut(k);
    junta_frente_tras(a, b, df, db, nucleo);
    proof {
        lema_intercala_len(a@, b@);
        assert(intercala(a@, b@) =~= intercala(a@, b@).take(k as int) + intercala(a@, b@).skip(k as int));
    }
}

/// Runs the three pieces of a trisected merge through nested `rayon::join`
/// calls, which always execute both of their closures; each closure is one
/// call of `nucleo_frente` or `nucleo_tras`, so each piece ends as that
/// function's contract states.
#[verifier::external_body]
fn junta_tres<T: Ord + Copy + Send + Sync>(
    a: &[T],
    b: &[T],
    a_meio: &[T],
    b_meio: &[T],
    d_frente: &mut [T],
    d_meio: &mut [T],
    d_tras: &mut [T],
    nucleo: Nucleo,
)
    requires
        ordem_total::<T>(),
        ordenada(a@),
        ordenada(b@),
        ordenada(a_meio@),
        ordenada(b_meio@),
        old(d_frente)@.len() <= a@.len() + b@.len(),
        old(d_meio)@.len() <= a_meio@.len() + b_meio@.len(),
        old(d_tras)@.len() <= a@.len() + b@.len(),
    ensures
        final(d_frente)@ == intercala(a@, b@).take(old(d_frente)@.len() as int),
        final(d_meio)@ == intercala(a_meio@, b_meio@).take(old(d_meio)@.len() as int),
        final(d_tras)@ == intercala(a@, b@).skip(a@.len() + b@.len() - old(d_tras)@.len()),
{
    rayon::join(
        || nucleo_frente(a, b, d_frente, nucleo),
        || rayon::join(|| nucleo_frente(a_meio, b_meio, d_meio, nucleo), || nucleo_tras(a, b, d_tras, nucleo)),
    );
}

/// Trisected merge: a front piece of `k1` elements merged forward from the
/// start, a back piece merged backward from the end, and the middle merged
/// forward from the cut at `k1`; with fewer than 3 elements (6 when
/// galloping) a single forward merge. Callers usually derive `k1` from a
/// fraction of the total.
pub fn trisect_merge_corte<T: Ord + Copy + Send + Sync>(
    a: &[T],
    b: &[T],
    dest: &mut [T],
    k1: usize,
    galope: bool,
)
    requires
        ordem_total::<T>(),
        ordenada(a@),
        ordenada(b@),
        old(dest)@.len() == a@.len() + b@.len(),
        old(dest)@.len() >= (if galope { 6int } else { 3 }) ==> 1 <= k1 < old(dest)@.len(),
    ensures
        final(dest)@ == intercala(a@, b@),
{
    let ghost m = intercala(a@, b@);
    proof { lema_intercala_len(a@, b@); }
    let total = dest.len();
    let nucleo = if galope { Nucleo::Galope } else { Nucleo::Linear };
    let minimo: usize = if galope { 6 } else { 3 };
    if total < minimo {
        nucleo_frente(a, b, dest, nucleo);
        proof { assert(m.take(total as int) =~= m); }
        return;
    }
    let k2 = if total - k1 > k1 + 1 { total - k1 } else { k1 + 1 };
    let (i, j) = corte_diagonal(k1, a, b);
    proof {
        lema_corte(a@, b@, i as int, j as int);
        lema_intercala_len(a@.take(i as int), b@.take(j as int));
        lema_fatia_ordenada(a@, i as int, a@.len() as int);
        lema_fatia_ordenada(b@, j as int, b@.len() as int);
        assert(a@.skip(i as int) =~= a@.subrange(i as int, a@.len() as int));
        assert(b@.skip(j as int) =~= b@.subrange(j as int, b@.len() as int));
    }
    let a_meio = &a[i..a.len()];
    let b_meio = &b[j..b.len()];
    let (d_frente, resto) = dest.split_at_mut(k1);
    let (d_meio, d_tras) = resto.split_at_mut(k2 - k1);
    junta_tres(a, b, a_meio, b_meio, d_frente, d_meio, d_tras, nucleo);
    proof {
        assert(m.skip(k1 as int) =~= intercala(a_meio@, b_meio@));
        assert(m =~= m.take(k1 as int) + m.skip(k1 as int).take(k2 - k1) + m.skip(k2 as int));
    }
}


/// P-way merge: a front piece of `k_ponta` elements merged forward, a back
/// piece of `k_ponta` elements merged backward, and `p - 2` middle pieces
/// each merged forward from its own cut; the two ends need no cut. With
/// fewer than 3 pieces, or under 64 elements per piece, a bidirectional
/// merge split at the middle. Callers usually derive `k_ponta` from a
/// fraction of the total.
pub fn pway_merge_por_ponta<T: Ord + Copy + Send + Sync>(
    a: &[T],
    b: &[T],
    dest: &mut [T],
    p: usize,
    k_ponta: usize,
    galope: bool,
)
    requires
        ordem_total::<T>(),
        ordenada(a@),
        ordenada(b@),
        old(dest)@.len() == a@.len() + b@.len(),
        2 * k_ponta <= old(dest)@.len(),
    ensures
        final(dest)@ == intercala(a@, b@),
{
    let total = dest.len();
    let nucleo = if galope { Nucleo::Galope } else { Nucleo::Linear };
    if p < 3 || total / 64 < p {
        merge_bidirecional(a, b, dest, total / 2, nucleo);
        return;
    }
    let k1 = k_ponta;
    let k2 = total - k1;
    let fr = fronteiras_pontas(total, p, k1, k2);
    intercala_faixas_par(a, b, dest, fr.as_slice(), 0, p, nucleo, true);
    proof {
        lema_intercala_len(a@, b@);
        assert(intercala(a@, b@).subrange(0, total as int) =~= intercala(a@, b@));
    }
}

/// Number of tasks per worker at which the measured gain saturates.
pub const TAREFAS_POR_THREAD: usize = 4;

/// Smallest piece that pays for its own scheduling.
pub const MIN_SEG: usize = 4096;

/// How a P-way merge is cut: `p` pieces, the front one of `k_frente`
/// elements and the back one of `k_tras`.
#[derive(Debug, Clone, Copy, PartialEq, Eq, Structural)]
pub struct Plano {
    pub p: usize,
    pub k_frente: usize,
    pub k_tras: usize,
}

/// P-way merge by a given plan; the front and back pieces are clipped to
/// the total, the middle ones share what lies between them.
pub fn pway_merge_plano<T: Ord + Copy + Send + Sync>(a: &[T], b: &[T], dest: &mut [T], pl: Plano, galope: bool)
    requires
        ordem_total::<T>(),
        ordenada(a@),
        ordenada(b@),
        old(dest)@.len() == a@.len() + b@.len(),
    ensures
        final(dest)@ == intercala(a@, b@),
{
    let total = dest.len();
    let p = pl.p;
    let nucleo = if galope { Nucleo::Galope } else { Nucleo::Linear };
    if p < 3 || total / 64 < p {
        merge_bidirecional(a, b, dest, total / 2, nucleo);
        return;
    }
    let k1 = if pl.k_frente < total { pl.k_frente } else { total };
    let k_tras = if pl.k_tras < total - k1 { pl.k_tras } else { total - k1 };
    let k2 = total - k_tras;
    let fr = fronteiras_pontas(total, p, k1, k2);
    intercala_faixas_par(a, b, dest, fr.as_slice(), 0, p, nucleo, true);
    proof {
        lema_intercala_len(a@, b@);
        assert(intercala(a@, b@).subrange(0, total as int) =~= intercala(a@, b@));
    }
}

/// P-way merge with every piece merged forward from its own cut, the
/// pieces of (almost) equal size; with fewer than 2 pieces, or under 64
/// elements per piece, one forward merge.
pub fn pway_merge_frente<T: Ord + Copy + Send + Sync>(a: &[T], b: &[T], dest: &mut [T], p: usize, galope: bool)
    requires
        ordem_total::<T>(),
        ordenada(a@),
        ordenada(b@),
        old(dest)@.len() == a@.len() + b@.len(),
    ensures
        final(dest)@ == intercala(a@, b@),
{
    let nucleo = if galope { Nucleo::Galope } else { Nucleo::Linear };
    pway_frente_nucleo(a, b, dest, p, nucleo);
}

fn pway_frente_nucleo<T: Ord + Copy + Send + Sync>(a: &[T], b: &[T], dest: &mut [T], p: usize, nucleo: Nucleo)
    requires
        ordem_total::<T>(),
        ordenada(a@),
        ordenada(b@),
        old(dest)@.len() == a@.len() + b@.len(),
    ensures
        final(dest)@ == intercala(a@, b@),
{
    let total = dest.len();
    proof { lema_intercala_len(a@, b@); }
    if p < 2 || total / 64 < p {
        nucleo_frente(a, b, dest, nucleo);
        proof { assert(intercala(a@, b@).take(total as int) =~= intercala(a@, b@)); }
        return;
    }
    let fr = fronteiras_uniformes(total, p);
    intercala_faixas_par(a, b, dest, fr.as_slice(), 0, p, nucleo, false);
    proof {
        assert(intercala(a@, b@).subrange(0, total as int) =~= intercala(a@, b@));
    }
}

/// `pway_merge_frente` with `threads * TAREFAS_POR_THREAD` pieces, but at
/// least 2 and at most one per `MIN_SEG` elements (or 2).
pub fn pway_merge_frente_auto<T: Ord + Copy + Send + Sync>(
    a: &[T],
    b: &[T],
    dest: &mut [T],
    threads: usize,
    galope: bool,
)
    requires
        ordem_total::<T>(),
        ordenada(a@),
        ordenada(b@),
        old(dest)@.len() == a@.len() + b@.len(),
        threads * TAREFAS_POR_THREAD <= usize::MAX,
    ensures
        final(dest)@ == intercala(a@, b@),
{
    let total = dest.len();
    let teto = if total / MIN_SEG > 2 { total / MIN_SEG } else { 2 };
    let pedido = threads * TAREFAS_POR_THREAD;
    let p = if pedido < 2 { 2 } else if pedido > teto { teto } else { pedido };
    pway_merge_frente(a, b, dest, p, galope);
}

/// `pway_merge_frente` with the adaptive kernel on every piece.
pub fn pway_merge_frente_adaptativo<T: Ord + Copy + Send + Sync>(
    a: &[T],
    b: &[T],
    dest: &mut [T],
    p: usize,
    min_gallop: usize,
)
    requires
        ordem_total::<T>(),
        ordenada(a@),
        ordenada(b@),
        old(dest)@.len() == a@.len() + b@.len(),
    ensures
        final(dest)@ == intercala(a@, b@),
{
    pway_frente_nucleo(a, b, dest, p, Nucleo::Adaptativo(min_gallop));
}

/// Adaptive P-way forward merge with `workers * tarefas_por_worker` pieces,
/// at most one per `min_segmento` elements; a single adaptive forward merge
/// when there are fewer than 2 workers or room for fewer than 2 pieces.
pub fn pway_merge_frente_auto_adaptativo<T: Ord + Copy + Send + Sync>(
    a: &[T],
    b: &[T],
    dest: &mut [T],
    workers: usize,
    min_segmento: usize,
    tarefas_por_worker: usize,
    min_gallop: usize,
)
    requires
        ordem_total::<T>(),
        ordenada(a@),
        ordenada(b@),
        old(dest)@.len() == a@.len() + b@.len(),
    ensures
        final(dest)@ == intercala(a@, b@),
{
    let total = dest.len();
    let teto = total / (if min_segmento > 1 { min_segmento } else { 1 });
    if workers < 2 || teto < 2 {
        pim_front_adaptativo(a, b, dest, min_gallop);
        proof {
            lema_intercala_len(a@, b@);
            assert(intercala(a@, b@).take(total as int) =~= intercala(a@, b@));
        }
        return;
    }
    let por_worker = if tarefas_por_worker > 1 { tarefas_por_worker } else { 1 };
    let pedido = if workers > usize::MAX / por_worker {
        usize::MAX
    } else {
        proof {
            vstd::arithmetic::div_mod::lemma_fundamental_div_mod(usize::MAX as int, por_worker as int);
            vstd::arithmetic::mul::lemma_mul_inequality(workers as int, (usize::MAX / por_worker) as int, por_worker as int);
            vstd::arithmetic::mul::lemma_mul_is_commutative(por_worker as int, (usize::MAX / por_worker) as int);
        }
        workers * por_worker
    };
    let p = if pedido < 2 { 2 } else if pedido > teto { teto } else { pedido };
    pway_merge_frente_adaptativo(a, b, dest, p, min_gallop);
}

} // verus!
