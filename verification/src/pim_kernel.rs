use vstd::prelude::*;
use crate::ordem::{ordem_total, menor_igual, menor, lema_preordem_total, compara_le, compara_lt};
use crate::especificacao::{
    ordenada, intercala, corte_valido, lema_corte, lema_intercala_len, lema_passo, lema_fatia_ordenada, lema_prefixo_a,
    lema_prefixo_b, lema_sufixo_a, lema_sufixo_b, lema_intercala_vazia,
};

verus! {

/// `p` is where the run `s` stops being `<= key`.
pub open spec fn ponto_le<T: Ord>(s: Seq<T>, key: T, p: int) -> bool {
    &&& 0 <= p <= s.len()
    &&& forall|i: int| 0 <= i < p ==> menor_igual(#[trigger] s[i], key)
    &&& forall|i: int| p <= i < s.len() ==> !menor_igual(#[trigger] s[i], key)
}

/// `p` is where the run `s` stops being `< key`.
pub open spec fn ponto_lt<T: Ord>(s: Seq<T>, key: T, p: int) -> bool {
    &&& 0 <= p <= s.len()
    &&& forall|i: int| 0 <= i < p ==> menor(#[trigger] s[i], key)
    &&& forall|i: int| p <= i < s.len() ==> !menor(#[trigger] s[i], key)
}

#[inline(always)]
fn le<T: Ord>(a: &T, b: &T) -> (r: bool)
    requires
        ordem_total::<T>(),
    ensures
        r == menor_igual(*a, *b),
{
    compara_le(a, b)
}

/// Copies `n` elements of `src` starting at `ini` over `dest` starting at `dini`.
pub fn copia_faixa<T: Copy>(src: &[T], ini: usize, dest: &mut [T], dini: usize, n: usize)
    requires
        ini + n <= src.len(),
        dini + n <= old(dest).len(),
    ensures
        final(dest)@ == old(dest)@.take(dini as int) + src@.subrange(ini as int, ini + n)
            + old(dest)@.skip(dini + n),
{
    let ghost d0 = dest@;
    let mut t: usize = 0;
    while t < n
        invariant
            t <= n,
            ini + n <= src.len(),
            dini + n <= dest.len(),
            dest@.len() == d0.len(),
            forall|p: int| 0 <= p < dini ==> #[trigger] dest@[p] == d0[p],
            forall|p: int| dini + n <= p < d0.len() ==> #[trigger] dest@[p] == d0[p],
            forall|p: int| dini <= p < dini + t ==> #[trigger] dest@[p] == src@[ini + p - dini],
        decreases n - t,
    {
        dest[dini + t] = src[ini + t];
        t = t + 1;
    }
    assert(dest@ =~= d0.take(dini as int) + src@.subrange(ini as int, ini + n) + d0.skip(dini + n));
}

/// First position of the sorted `s` whose element exceeds `key`.
pub(crate) fn particao_le<T: Ord>(s: &[T], key: &T) -> (r: usize)
    requires
        ordem_total::<T>(),
        ordenada(s@),
    ensures
        ponto_le(s@, *key, r as int),
{
    proof { lema_preordem_total::<T>(); }
    let mut lo: usize = 0;
    let mut hi: usize = s.len();
    while lo < hi
        invariant
            0 <= lo <= hi <= s@.len(),
            ordem_total::<T>(),
            ordenada(s@),
            forall|i: int| 0 <= i < lo ==> menor_igual(#[trigger] s@[i], *key),
            forall|i: int| hi <= i < s@.len() ==> !menor_igual(#[trigger] s@[i], *key),
        decreases hi - lo,
    {
        let mid = lo + (hi - lo) / 2;
        proof { lema_preordem_total::<T>(); }
        if le(&s[mid], key) {
            assert forall|i: int| 0 <= i <= mid implies menor_igual(#[trigger] s@[i], *key) by {
                if i < mid {
                    assert(menor_igual(s@[i], s@[mid as int]));
                }
            }
            lo = mid + 1;
        } else {
            assert forall|i: int| mid <= i < s@.len() implies !menor_igual(#[trigger] s@[i], *key) by {
                if i > mid {
                    assert(menor_igual(s@[mid as int], s@[i]));
                }
            }
            hi = mid;
        }
    }
    lo
}

/// First position of the sorted `s` whose element is not below `key`.
pub(crate) fn particao_lt<T: Ord>(s: &[T], key: &T) -> (r: usize)
    requires
        ordem_total::<T>(),
        ordenada(s@),
    ensures
        ponto_lt(s@, *key, r as int),
{
    proof { lema_preordem_total::<T>(); }
    let mut lo: usize = 0;
    let mut hi: usize = s.len();
    while lo < hi
        invariant
            0 <= lo <= hi <= s@.len(),
            ordem_total::<T>(),
            ordenada(s@),
            forall|i: int| 0 <= i < lo ==> menor(#[trigger] s@[i], *key),
            forall|i: int| hi <= i < s@.len() ==> !menor(#[trigger] s@[i], *key),
        decreases hi - lo,
    {
        let mid = lo + (hi - lo) / 2;
        proof { lema_preordem_total::<T>(); }
        if compara_lt(&s[mid], key) {
            assert forall|i: int| 0 <= i <= mid implies menor(#[trigger] s@[i], *key) by {
                if i < mid {
                    assert(menor_igual(s@[i], s@[mid as int]));
                }
            }
            lo = mid + 1;
        } else {
            assert forall|i: int| mid <= i < s@.len() implies !menor(#[trigger] s@[i], *key) by {
                if i > mid {
                    assert(menor_igual(s@[mid as int], s@[i]));
                }
            }
            hi = mid;
        }
    }
    lo
}


/// Number of leading elements of the sorted `s` that do not exceed `key`,
/// found by exponential search from the front.
fn gallop_upper<T: Ord + Copy>(s: &[T], key: &T) -> (r: usize)
    requires
        ordem_total::<T>(),
        ordenada(s@),
    ensures
        ponto_le(s@, *key, r as int),
{
    proof { lema_preordem_total::<T>(); }
    let n = s.len();
    if n == 0 {
        return 0;
    }
    if !le(&s[0], key) {
        proof {
            assert forall|i: int| 0 <= i < s@.len() implies !menor_igual(#[trigger] s@[i], *key) by {
                if i > 0 {
                    assert(menor_igual(s@[0], s@[i]));
                }
            }
        }
        return 0;
    }
    let mut lo: usize = 0;
    let mut hi: usize = 1;
    while hi < n && le(&s[hi], key)
        invariant
            n == s@.len(),
            ordem_total::<T>(),
            lo < hi,
            lo < n,
            menor_igual(s@[lo as int], *key),
        decreases n - hi,
    {
        lo = hi;
        hi = if hi <= n / 2 { hi * 2 } else { n };
    }
    let hi = if hi < n { hi } else { n };
    proof { lema_fatia_ordenada(s@, lo as int, hi as int); }
    let p = particao_le(&s[lo..hi], key);
    proof {
        let t = s@.subrange(lo as int, hi as int);
        assert forall|i: int| 0 <= i < lo + p implies menor_igual(#[trigger] s@[i], *key) by {
            if i < lo {
                assert(menor_igual(s@[i], s@[lo as int]));
            } else {
                assert(s@[i] == t[i - lo]);
            }
        }
        assert forall|i: int| lo + p <= i < s@.len() implies !menor_igual(#[trigger] s@[i], *key) by {
            if i < hi {
                assert(s@[i] == t[i - lo]);
            } else {
                assert(!menor_igual(s@[hi as int], *key));
                assert(menor_igual(s@[hi as int], s@[i]));
            }
        }
    }
    lo + p
}

/// Number of leading elements of the sorted `s` strictly below `key`,
/// found by exponential search from the front.
fn gallop_lower<T: Ord + Copy>(s: &[T], key: &T) -> (r: usize)
    requires
        ordem_total::<T>(),
        ordenada(s@),
    ensures
        ponto_lt(s@, *key, r as int),
{
    proof { lema_preordem_total::<T>(); }
    let n = s.len();
    if n == 0 {
        return 0;
    }
    if !compara_lt(&s[0], key) {
        proof {
            assert forall|i: int| 0 <= i < s@.len() implies !menor(#[trigger] s@[i], *key) by {
                if i > 0 {
                    assert(menor_igual(s@[0], s@[i]));
                }
            }
        }
        return 0;
    }
    let mut lo: usize = 0;
    let mut hi: usize = 1;
    while hi < n && compara_lt(&s[hi], key)
        invariant
            n == s@.len(),
            ordem_total::<T>(),
            lo < hi,
            lo < n,
            menor(s@[lo as int], *key),
        decreases n - hi,
    {
        lo = hi;
        hi = if hi <= n / 2 { hi * 2 } else { n };
    }
    let hi = if hi < n { hi } else { n };
    proof { lema_fatia_ordenada(s@, lo as int, hi as int); }
    let p = particao_lt(&s[lo..hi], key);
    proof {
        let t = s@.subrange(lo as int, hi as int);
        assert forall|i: int| 0 <= i < lo + p implies menor(#[trigger] s@[i], *key) by {
            if i < lo {
                assert(menor_igual(s@[i], s@[lo as int]));
            } else {
                assert(s@[i] == t[i - lo]);
            }
        }
        assert forall|i: int| lo + p <= i < s@.len() implies !menor(#[trigger] s@[i], *key) by {
            if i < hi {
                assert(s@[i] == t[i - lo]);
            } else {
                assert(!menor(s@[hi as int], *key));
                assert(menor_igual(s@[hi as int], s@[i]));
            }
        }
    }
    lo + p
}

/// Forward merge of `a` and `b` into `dest`, one element per step; ties go
/// to `a`. `dest` may be shorter than both runs together: it then receives
/// the smallest elements.
pub fn merge_ro<T: Ord + Copy>(a: &[T], b: &[T], dest: &mut [T])
    requires
        ordem_total::<T>(),
        old(dest)@.len() <= a@.len() + b@.len(),
    ensures
        final(dest)@ == intercala(a@, b@).take(old(dest)@.len() as int),
{
    let ghost d0 = dest@;
    let mut i: usize = 0;
    let mut j: usize = 0;
    let mut k: usize = 0;
    proof {
        assert(dest@.take(0) =~= Seq::<T>::empty());
        assert(a@.skip(0) =~= a@);
        assert(b@.skip(0) =~= b@);
        assert(intercala(a@, b@) =~= dest@.take(0) + intercala(a@.skip(0), b@.skip(0)));
    }
    while k < dest.len()
        invariant
            ordem_total::<T>(),
            dest@.len() == d0.len(),
            d0.len() <= a@.len() + b@.len(),
            i + j == k,
            k <= dest@.len(),
            i <= a@.len(),
            j <= b@.len(),
            intercala(a@, b@) == dest@.take(k as int) + intercala(a@.skip(i as int), b@.skip(j as int)),
        decreases dest@.len() - k,
    {
        let take_a = j >= b.len() || (i < a.len() && le(&a[i], &b[j]));
        proof { lema_passo(a@, b@, i as int, j as int); }
        let ghost antes = dest@.take(k as int);
        if take_a {
            dest[k] = a[i];
            proof {
                assert(dest@.take(k + 1) =~= antes + seq![a@[i as int]]);
            }
            i = i + 1;
        } else {
            dest[k] = b[j];
            proof {
                assert(dest@.take(k + 1) =~= antes + seq![b@[j as int]]);
            }
            j = j + 1;
        }
        k = k + 1;
        proof {
            assert(intercala(a@, b@) =~= dest@.take(k as int) + intercala(a@.skip(i as int), b@.skip(j as int)));
        }
    }
    proof {
        assert(dest@.take(k as int) =~= dest@);
        assert((dest@ + intercala(a@.skip(i as int), b@.skip(j as int))).take(k as int) =~= dest@);
    }
}


/// Elements of `a[ia..]` up to the `n`-th do not exceed the head of `b[ib..]`:
/// they are the next `n` of the merge.
proof fn lema_avanca_a<T: Ord>(a: Seq<T>, b: Seq<T>, ia: int, ib: int, n: int)
    requires
        ordem_total::<T>(),
        ordenada(a),
        ordenada(b),
        0 <= ia,
        ia + n <= a.len(),
        0 <= n,
        0 <= ib <= b.len(),
        ib < b.len() ==> forall|t: int| ia <= t < ia + n ==> menor_igual(#[trigger] a[t], b[ib]),
    ensures
        intercala(a.skip(ia), b.skip(ib)) == a.subrange(ia, ia + n) + intercala(a.skip(ia + n), b.skip(ib)),
{
    let aa = a.skip(ia);
    let bb = b.skip(ib);
    lema_fatia_ordenada(a, ia, a.len() as int);
    lema_fatia_ordenada(b, ib, b.len() as int);
    assert(aa =~= a.subrange(ia, a.len() as int));
    assert(bb =~= b.subrange(ib, b.len() as int));
    if n > 0 && bb.len() > 0 {
        assert(menor_igual(a[ia + n - 1], b[ib]));
    }
    lema_prefixo_a(aa, bb, n);
    assert(aa.take(n) =~= a.subrange(ia, ia + n));
    assert(aa.skip(n) =~= a.skip(ia + n));
}

/// Elements of `b[ib..]` up to the `n`-th are strictly below the head of
/// `a[ia..]`: they are the next `n` of the merge.
proof fn lema_avanca_b<T: Ord>(a: Seq<T>, b: Seq<T>, ia: int, ib: int, n: int)
    requires
        ordem_total::<T>(),
        ordenada(a),
        ordenada(b),
        0 <= ib,
        ib + n <= b.len(),
        0 <= n,
        0 <= ia <= a.len(),
        ia < a.len() ==> forall|t: int| ib <= t < ib + n ==> menor(#[trigger] b[t], a[ia]),
    ensures
        intercala(a.skip(ia), b.skip(ib)) == b.subrange(ib, ib + n) + intercala(a.skip(ia), b.skip(ib + n)),
{
    let aa = a.skip(ia);
    let bb = b.skip(ib);
    lema_fatia_ordenada(a, ia, a.len() as int);
    lema_fatia_ordenada(b, ib, b.len() as int);
    assert(aa =~= a.subrange(ia, a.len() as int));
    assert(bb =~= b.subrange(ib, b.len() as int));
    if n > 0 && aa.len() > 0 {
        assert(menor(b[ib + n - 1], a[ia]));
    }
    lema_prefixo_b(aa, bb, n);
    assert(bb.take(n) =~= b.subrange(ib, ib + n));
    assert(bb.skip(n) =~= b.skip(ib + n));
}

/// Galloping merge of the sorted runs `a` and `b` into `dest`: whole blocks
/// are located by exponential search and copied at once; ties go to `a`.
pub fn pim_pure<T: Ord + Copy>(a: &[T], b: &[T], dest: &mut [T])
    requires
        ordem_total::<T>(),
        ordenada(a@),
        ordenada(b@),
        old(dest)@.len() == a@.len() + b@.len(),
    ensures
        final(dest)@ == intercala(a@, b@),
{
    let ghost total = a@.len() + b@.len();
    assert(total == dest.len());
    let mut ia: usize = 0;
    let mut ib: usize = 0;
    let mut k: usize = 0;
    proof {
        assert(dest@.take(0) =~= Seq::<T>::empty());
        assert(a@.skip(0) =~= a@);
        assert(b@.skip(0) =~= b@);
        assert(intercala(a@, b@) =~= dest@.take(0) + intercala(a@.skip(0), b@.skip(0)));
    }
    while ia < a.len() && ib < b.len()
        invariant
            ordem_total::<T>(),
            ordenada(a@),
            ordenada(b@),
            dest@.len() == total,
            total == a@.len() + b@.len(),
            total <= usize::MAX,
            ia <= a@.len(),
            ib <= b@.len(),
            k == ia + ib,
            intercala(a@, b@) == dest@.take(k as int) + intercala(a@.skip(ia as int), b@.skip(ib as int)),
        decreases total - k,
    {
        proof { lema_fatia_ordenada(a@, ia as int, a@.len() as int); }
        let na = gallop_upper(&a[ia..a.len()], &b[ib]);
        if na > 0 {
            proof {
                let s = a@.subrange(ia as int, a@.len() as int);
                assert forall|t: int| ia <= t < ia + na implies menor_igual(#[trigger] a@[t], b@[ib as int]) by {
                    assert(a@[t] == s[t - ia]);
                }
                lema_avanca_a(a@, b@, ia as int, ib as int, na as int);
            }
            let ghost antes = dest@;
            copia_faixa(a, ia, dest, k, na);
            proof {
                assert(dest@.take(k + na) =~= antes.take(k as int) + a@.subrange(ia as int, ia + na));
            }
            k = k + na;
            ia = ia + na;
        }
        if ia < a.len() {
            proof { lema_fatia_ordenada(b@, ib as int, b@.len() as int); }
            let nb = gallop_lower(&b[ib..b.len()], &a[ia]);
            proof {
                let s = b@.subrange(ib as int, b@.len() as int);
                assert forall|t: int| ib <= t < ib + nb implies menor(#[trigger] b@[t], a@[ia as int]) by {
                    assert(b@[t] == s[t - ib]);
                }
                if na == 0 {
                    assert(!menor_igual(a@[ia as int], b@[ib as int]));
                    assert(s[0] == b@[ib as int]);
                    assert(nb > 0);
                }
                lema_avanca_b(a@, b@, ia as int, ib as int, nb as int);
            }
            let ghost antes = dest@;
            copia_faixa(b, ib, dest, k, nb);
            proof {
                assert(dest@.take(k + nb) =~= antes.take(k as int) + b@.subrange(ib as int, ib + nb));
            }
            k = k + nb;
            ib = ib + nb;
        }
    }
    if ia < a.len() {
        proof {
            assert(b@.skip(ib as int) =~= Seq::<T>::empty());
            lema_intercala_vazia(a@.skip(ia as int), b@.skip(ib as int));
            assert(a@.skip(ia as int) =~= a@.subrange(ia as int, a@.len() as int));
        }
        copia_faixa(a, ia, dest, k, a.len() - ia);
        proof {
            assert(dest@.take(k as int) =~= dest@.take(k as int));
        }
    } else if ib < b.len() {
        proof {
            assert(a@.skip(ia as int) =~= Seq::<T>::empty());
            lema_intercala_vazia(a@.skip(ia as int), b@.skip(ib as int));
            assert(b@.skip(ib as int) =~= b@.subrange(ib as int, b@.len() as int));
        }
        copia_faixa(b, ib, dest, k, b.len() - ib);
    } else {
        proof {
            assert(a@.skip(ia as int) =~= Seq::<T>::empty());
            assert(b@.skip(ib as int) =~= Seq::<T>::empty());
        }
    }
    proof {
        assert(dest@ =~= intercala(a@, b@));
    }
}


/// Number of elements of the sorted `s` strictly below `key`, found by
/// exponential search from the back.
fn gallop_lower_rev<T: Ord + Copy>(s: &[T], key: &T) -> (r: usize)
    requires
        ordem_total::<T>(),
        ordenada(s@),
    ensures
        ponto_lt(s@, *key, r as int),
{
    proof { lema_preordem_total::<T>(); }
    let n = s.len();
    if n == 0 {
        return 0;
    }
    if compara_lt(&s[n - 1], key) {
        proof {
            assert forall|i: int| 0 <= i < n implies menor(#[trigger] s@[i], *key) by {
                if i < n - 1 {
                    assert(menor_igual(s@[i], s@[n - 1]));
                }
            }
        }
        return n;
    }
    let mut anterior: usize = 0;
    let mut step: usize = 1;
    while step < n && !compara_lt(&s[n - 1 - step], key)
        invariant
            n == s@.len(),
            n > 0,
            ordem_total::<T>(),
            anterior < step,
            anterior < n,
            !menor(s@[n - 1 - anterior], *key),
        decreases n - step,
    {
        anterior = step;
        step = if step <= n / 2 { step * 2 } else { n };
    }
    let st = if step < n { step } else { n };
    let lo = n - st;
    let hi = n - anterior;
    proof { lema_fatia_ordenada(s@, lo as int, hi as int); }
    let p = particao_lt(&s[lo..hi], key);
    proof {
        let t = s@.subrange(lo as int, hi as int);
        assert forall|i: int| 0 <= i < lo + p implies menor(#[trigger] s@[i], *key) by {
            if i < lo {
                assert(menor(s@[n - 1 - step], *key));
                assert(menor_igual(s@[i], s@[n - 1 - step]));
            } else {
                assert(s@[i] == t[i - lo]);
            }
        }
        assert forall|i: int| lo + p <= i < n implies !menor(#[trigger] s@[i], *key) by {
            if i < hi {
                assert(s@[i] == t[i - lo]);
            } else if i > n - 1 - anterior {
                assert(menor_igual(s@[n - 1 - anterior], s@[i]));
            }
        }
    }
    lo + p
}

/// Number of elements of the sorted `s` that do not exceed `key`, found by
/// exponential search from the back.
fn gallop_upper_rev<T: Ord + Copy>(s: &[T], key: &T) -> (r: usize)
    requires
        ordem_total::<T>(),
        ordenada(s@),
    ensures
        ponto_le(s@, *key, r as int),
{
    proof { lema_preordem_total::<T>(); }
    let n = s.len();
    if n == 0 {
        return 0;
    }
    if le(&s[n - 1], key) {
        proof {
            assert forall|i: int| 0 <= i < n implies menor_igual(#[trigger] s@[i], *key) by {
                if i < n - 1 {
                    assert(menor_igual(s@[i], s@[n - 1]));
                }
            }
        }
        return n;
    }
    let mut anterior: usize = 0;
    let mut step: usize = 1;
    while step < n && !le(&s[n - 1 - step], key)
        invariant
            n == s@.len(),
            n > 0,
            ordem_total::<T>(),
            anterior < step,
            anterior < n,
            !menor_igual(s@[n - 1 - anterior], *key),
        decreases n - step,
    {
        anterior = step;
        step = if step <= n / 2 { step * 2 } else { n };
    }
    let st = if step < n { step } else { n };
    let lo = n - st;
    let hi = n - anterior;
    proof { lema_fatia_ordenada(s@, lo as int, hi as int); }
    let p = particao_le(&s[lo..hi], key);
    proof {
        let t = s@.subrange(lo as int, hi as int);
        assert forall|i: int| 0 <= i < lo + p implies menor_igual(#[trigger] s@[i], *key) by {
            if i < lo {
                assert(menor_igual(s@[n - 1 - step], *key));
                assert(menor_igual(s@[i], s@[n - 1 - step]));
            } else {
                assert(s@[i] == t[i - lo]);
            }
        }
        assert forall|i: int| lo + p <= i < n implies !menor_igual(#[trigger] s@[i], *key) by {
            if i < hi {
                assert(s@[i] == t[i - lo]);
            } else if i > n - 1 - anterior {
                assert(menor_igual(s@[n - 1 - anterior], s@[i]));
            }
        }
    }
    lo + p
}


/// The last `n` elements of `b[..qb]`, none below the last of `a[..qa]`,
/// end the merge of the two prefixes.
proof fn lema_recua_b<T: Ord>(a: Seq<T>, b: Seq<T>, qa: int, qb: int, n: int)
    requires
        ordem_total::<T>(),
        ordenada(a),
        ordenada(b),
        0 <= qa <= a.len(),
        0 <= n <= qb <= b.len(),
        qa > 0 ==> forall|t: int| qb - n <= t < qb ==> menor_igual(a[qa - 1], #[trigger] b[t]),
    ensures
        intercala(a.take(qa), b.take(qb)) == intercala(a.take(qa), b.take(qb - n)) + b.subrange(qb - n, qb),
{
    let aa = a.take(qa);
    let bb = b.take(qb);
    lema_fatia_ordenada(a, 0, qa);
    lema_fatia_ordenada(b, 0, qb);
    assert(aa =~= a.subrange(0, qa));
    assert(bb =~= b.subrange(0, qb));
    if n > 0 && aa.len() > 0 {
        assert(menor_igual(a[qa - 1], b[qb - n]));
    }
    lema_sufixo_b(aa, bb, n);
    assert(bb.take(qb - n) =~= b.take(qb - n));
    assert(bb.skip(qb - n) =~= b.subrange(qb - n, qb));
}

/// The last `n` elements of `a[..qa]`, all above the last of `b[..qb]`,
/// end the merge of the two prefixes.
proof fn lema_recua_a<T: Ord>(a: Seq<T>, b: Seq<T>, qa: int, qb: int, n: int)
    requires
        ordem_total::<T>(),
        ordenada(a),
        ordenada(b),
        0 <= n <= qa <= a.len(),
        0 <= qb <= b.len(),
        qb > 0 ==> forall|t: int| qa - n <= t < qa ==> menor(b[qb - 1], #[trigger] a[t]),
    ensures
        intercala(a.take(qa), b.take(qb)) == intercala(a.take(qa - n), b.take(qb)) + a.subrange(qa - n, qa),
{
    let aa = a.take(qa);
    let bb = b.take(qb);
    lema_fatia_ordenada(a, 0, qa);
    lema_fatia_ordenada(b, 0, qb);
    assert(aa =~= a.subrange(0, qa));
    assert(bb =~= b.subrange(0, qb));
    if n > 0 && bb.len() > 0 {
        assert(menor(b[qb - 1], a[qa - n]));
    }
    lema_sufixo_a(aa, bb, n);
    assert(aa.take(qa - n) =~= a.take(qa - n));
    assert(aa.skip(qa - n) =~= a.subrange(qa - n, qa));
}


/// `dest[..k]` holds the first `k` elements of the stable merge of `a` and
/// `b`, namely all of `a[..ia]` and `b[..ib]`; what is left to emit is the
/// merge of the tails.
pub open spec fn inv_frente<T: Ord>(a: Seq<T>, b: Seq<T>, d: Seq<T>, ia: int, ib: int, k: int) -> bool {
    &&& 0 <= ia <= a.len()
    &&& 0 <= ib <= b.len()
    &&& k == ia + ib
    &&& k <= d.len()
    &&& intercala(a, b) == d.take(k) + intercala(a.skip(ia), b.skip(ib))
}

/// `dest[k..]` holds the last elements of the stable merge of `a` and `b`;
/// what is left to emit is the merge of the prefixes `a[..qa]`, `b[..qb]`.
pub open spec fn inv_tras<T: Ord>(a: Seq<T>, b: Seq<T>, d: Seq<T>, qa: int, qb: int, k: int) -> bool {
    &&& 0 <= qa <= a.len()
    &&& 0 <= qb <= b.len()
    &&& 0 <= k <= d.len()
    &&& qa + qb + d.len() == k + a.len() + b.len()
    &&& intercala(a, b) == intercala(a.take(qa), b.take(qb)) + d.skip(k)
}

pub(crate) proof fn lema_inicio_frente<T: Ord>(a: Seq<T>, b: Seq<T>, d: Seq<T>)
    requires
        d.len() <= a.len() + b.len(),
    ensures
        inv_frente(a, b, d, 0, 0, 0),
{
    assert(d.take(0) =~= Seq::<T>::empty());
    assert(a.skip(0) =~= a);
    assert(b.skip(0) =~= b);
    assert(intercala(a, b) =~= d.take(0) + intercala(a.skip(0), b.skip(0)));
}

pub(crate) proof fn lema_fim_frente<T: Ord>(a: Seq<T>, b: Seq<T>, d: Seq<T>, ia: int, ib: int)
    requires
        inv_frente(a, b, d, ia, ib, d.len() as int),
    ensures
        d == intercala(a, b).take(d.len() as int),
{
    assert(d.take(d.len() as int) =~= d);
    assert((d + intercala(a.skip(ia), b.skip(ib))).take(d.len() as int) =~= d);
}

pub(crate) proof fn lema_inicio_tras<T: Ord>(a: Seq<T>, b: Seq<T>, d: Seq<T>)
    requires
        d.len() <= a.len() + b.len(),
    ensures
        inv_tras(a, b, d, a.len() as int, b.len() as int, d.len() as int),
{
    assert(d.skip(d.len() as int) =~= Seq::<T>::empty());
    assert(a.take(a.len() as int) =~= a);
    assert(b.take(b.len() as int) =~= b);
    assert(intercala(a, b) =~= intercala(a.take(a.len() as int), b.take(b.len() as int)) + d.skip(
        d.len() as int,
    ));
}

pub(crate) proof fn lema_fim_tras<T: Ord>(a: Seq<T>, b: Seq<T>, d: Seq<T>, qa: int, qb: int)
    requires
        inv_tras(a, b, d, qa, qb, 0),
    ensures
        d == intercala(a, b).skip(a.len() + b.len() - d.len()),
{
    assert(d.skip(0) =~= d);
    lema_intercala_len(a.take(qa), b.take(qb));
    assert(intercala(a, b).skip(a.len() + b.len() - d.len()) =~= d);
}

/// Emits `a[ia..ia + n]`, all of which do not exceed the head of `b[ib..]`.
pub(crate) fn emite_frente_a<T: Ord + Copy>(a: &[T], b: &[T], dest: &mut [T], ia: usize, ib: usize, k: usize, n: usize)
    requires
        ordem_total::<T>(),
        ordenada(a@),
        ordenada(b@),
        inv_frente(a@, b@, old(dest)@, ia as int, ib as int, k as int),
        ia + n <= a@.len(),
        k + n <= old(dest)@.len(),
        ib < b@.len() ==> forall|t: int| ia <= t < ia + n ==> menor_igual(#[trigger] a@[t], b@[ib as int]),
    ensures
        final(dest)@.len() == old(dest)@.len(),
        inv_frente(a@, b@, final(dest)@, ia + n, ib as int, k + n),
{
    proof { lema_avanca_a(a@, b@, ia as int, ib as int, n as int); }
    let ghost antes = dest@;
    copia_faixa(a, ia, dest, k, n);
    proof {
        assert(dest@.take(k + n) =~= antes.take(k as int) + a@.subrange(ia as int, ia + n));
        assert(intercala(a@, b@) =~= dest@.take(k + n) + intercala(a@.skip(ia + n), b@.skip(ib as int)));
    }
}

/// Emits `b[ib..ib + n]`, all of which are strictly below the head of `a[ia..]`.
pub(crate) fn emite_frente_b<T: Ord + Copy>(a: &[T], b: &[T], dest: &mut [T], ia: usize, ib: usize, k: usize, n: usize)
    requires
        ordem_total::<T>(),
        ordenada(a@),
        ordenada(b@),
        inv_frente(a@, b@, old(dest)@, ia as int, ib as int, k as int),
        ib + n <= b@.len(),
        k + n <= old(dest)@.len(),
        ia < a@.len() ==> forall|t: int| ib <= t < ib + n ==> menor(#[trigger] b@[t], a@[ia as int]),
    ensures
        final(dest)@.len() == old(dest)@.len(),
        inv_frente(a@, b@, final(dest)@, ia as int, ib + n, k + n),
{
    proof { lema_avanca_b(a@, b@, ia as int, ib as int, n as int); }
    let ghost antes = dest@;
    copia_faixa(b, ib, dest, k, n);
    proof {
        assert(dest@.take(k + n) =~= antes.take(k as int) + b@.subrange(ib as int, ib + n));
        assert(intercala(a@, b@) =~= dest@.take(k + n) + intercala(a@.skip(ia as int), b@.skip(ib + n)));
    }
}

/// Emits, backwards, `b[qb - n..qb]`, none of which is below the last of `a[..qa]`.
pub(crate) fn emite_tras_b<T: Ord + Copy>(a: &[T], b: &[T], dest: &mut [T], qa: usize, qb: usize, k: usize, n: usize)
    requires
        ordem_total::<T>(),
        ordenada(a@),
        ordenada(b@),
        inv_tras(a@, b@, old(dest)@, qa as int, qb as int, k as int),
        n <= qb,
        n <= k,
        qa > 0 ==> forall|t: int| qb - n <= t < qb ==> menor_igual(a@[qa - 1], #[trigger] b@[t]),
    ensures
        final(dest)@.len() == old(dest)@.len(),
        inv_tras(a@, b@, final(dest)@, qa as int, qb - n, k - n),
{
    proof { lema_recua_b(a@, b@, qa as int, qb as int, n as int); }
    let ghost antes = dest@;
    copia_faixa(b, qb - n, dest, k - n, n);
    proof {
        assert(dest@.skip(k - n) =~= b@.subrange(qb - n, qb as int) + antes.skip(k as int));
        assert(intercala(a@, b@) =~= intercala(a@.take(qa as int), b@.take(qb - n)) + dest@.skip(k - n));
    }
}

/// Emits, backwards, `a[qa - n..qa]`, all of which are above the last of `b[..qb]`.
pub(crate) fn emite_tras_a<T: Ord + Copy>(a: &[T], b: &[T], dest: &mut [T], qa: usize, qb: usize, k: usize, n: usize)
    requires
        ordem_total::<T>(),
        ordenada(a@),
        ordenada(b@),
        inv_tras(a@, b@, old(dest)@, qa as int, qb as int, k as int),
        n <= qa,
        n <= k,
        qb > 0 ==> forall|t: int| qa - n <= t < qa ==> menor(b@[qb - 1], #[trigger] a@[t]),
    ensures
        final(dest)@.len() == old(dest)@.len(),
        inv_tras(a@, b@, final(dest)@, qa - n, qb as int, k - n),
{
    proof { lema_recua_a(a@, b@, qa as int, qb as int, n as int); }
    let ghost antes = dest@;
    copia_faixa(a, qa - n, dest, k - n, n);
    proof {
        assert(dest@.skip(k - n) =~= a@.subrange(qa - n, qa as int) + antes.skip(k as int));
        assert(intercala(a@, b@) =~= intercala(a@.take(qa - n), b@.take(qb as int)) + dest@.skip(k - n));
    }
}

/// How many of `a[ia..]` do not exceed `key`, by galloping from the front.
pub(crate) fn galope_a_le<T: Ord + Copy>(a: &[T], ia: usize, key: &T) -> (g: usize)
    requires
        ordem_total::<T>(),
        ordenada(a@),
        ia <= a@.len(),
    ensures
        ia + g <= a@.len(),
        forall|t: int| ia <= t < ia + g ==> menor_igual(#[trigger] a@[t], *key),
        ia + g < a@.len() ==> !menor_igual(a@[ia + g], *key),
{
    proof { lema_fatia_ordenada(a@, ia as int, a@.len() as int); }
    let g = gallop_upper(&a[ia..a.len()], key);
    proof {
        let s = a@.subrange(ia as int, a@.len() as int);
        assert forall|t: int| ia <= t < ia + g implies menor_igual(#[trigger] a@[t], *key) by {
            assert(a@[t] == s[t - ia]);
        }
        if ia + g < a@.len() {
            assert(a@[ia + g] == s[g as int]);
        }
    }
    g
}

/// How many of `b[ib..]` are strictly below `key`, by galloping from the front.
pub(crate) fn galope_b_lt<T: Ord + Copy>(b: &[T], ib: usize, key: &T) -> (g: usize)
    requires
        ordem_total::<T>(),
        ordenada(b@),
        ib <= b@.len(),
    ensures
        ib + g <= b@.len(),
        forall|t: int| ib <= t < ib + g ==> menor(#[trigger] b@[t], *key),
        ib + g < b@.len() ==> !menor(b@[ib + g], *key),
{
    proof { lema_fatia_ordenada(b@, ib as int, b@.len() as int); }
    let g = gallop_lower(&b[ib..b.len()], key);
    proof {
        let s = b@.subrange(ib as int, b@.len() as int);
        assert forall|t: int| ib <= t < ib + g implies menor(#[trigger] b@[t], *key) by {
            assert(b@[t] == s[t - ib]);
        }
        if ib + g < b@.len() {
            assert(b@[ib + g] == s[g as int]);
        }
    }
    g
}

/// Where, in `b[..qb]`, the elements not below `key` begin, by galloping
/// from the back.
pub(crate) fn galope_tras_b<T: Ord + Copy>(b: &[T], qb: usize, key: &T) -> (j: usize)
    requires
        ordem_total::<T>(),
        ordenada(b@),
        qb <= b@.len(),
    ensures
        j <= qb,
        forall|t: int| j <= t < qb ==> !menor(#[trigger] b@[t], *key),
        j > 0 ==> menor(b@[j - 1], *key),
{
    proof { lema_fatia_ordenada(b@, 0, qb as int); }
    let j = gallop_lower_rev(&b[0..qb], key);
    proof {
        let s = b@.subrange(0, qb as int);
        assert forall|t: int| j <= t < qb implies !menor(#[trigger] b@[t], *key) by {
            assert(b@[t] == s[t]);
        }
        if j > 0 {
            assert(b@[j - 1] == s[j - 1]);
        }
    }
    j
}

/// Where, in `a[..qa]`, the elements above `key` begin, by galloping from
/// the back.
pub(crate) fn galope_tras_a<T: Ord + Copy>(a: &[T], qa: usize, key: &T) -> (i: usize)
    requires
        ordem_total::<T>(),
        ordenada(a@),
        qa <= a@.len(),
    ensures
        i <= qa,
        forall|t: int| i <= t < qa ==> !menor_igual(#[trigger] a@[t], *key),
        i > 0 ==> menor_igual(a@[i - 1], *key),
{
    proof { lema_fatia_ordenada(a@, 0, qa as int); }
    let i = gallop_upper_rev(&a[0..qa], key);
    proof {
        let s = a@.subrange(0, qa as int);
        assert forall|t: int| i <= t < qa implies !menor_igual(#[trigger] a@[t], *key) by {
            assert(a@[t] == s[t]);
        }
        if i > 0 {
            assert(a@[i - 1] == s[i - 1]);
        }
    }
    i
}

/// Galloping forward merge that fills `dest` with the `dest.len()` smallest
/// elements of the stable merge of `a` and `b`.
pub fn pim_front<T: Ord + Copy>(a: &[T], b: &[T], dest: &mut [T])
    requires
        ordem_total::<T>(),
        ordenada(a@),
        ordenada(b@),
        old(dest)@.len() <= a@.len() + b@.len(),
    ensures
        final(dest)@ == intercala(a@, b@).take(old(dest)@.len() as int),
{
    let mut ia: usize = 0;
    let mut ib: usize = 0;
    let mut k: usize = 0;
    let want = dest.len();
    proof { lema_inicio_frente(a@, b@, dest@); }
    while k < want
        invariant
            ordem_total::<T>(),
            ordenada(a@),
            ordenada(b@),
            dest@.len() == want,
            want == old(dest)@.len(),
            want <= a@.len() + b@.len(),
            inv_frente(a@, b@, dest@, ia as int, ib as int, k as int),
        decreases want - k,
    {
        if ia == a.len() {
            emite_frente_b(a, b, dest, ia, ib, k, want - k);
            proof { lema_fim_frente(a@, b@, dest@, ia as int, ib + (want - k)); }
            return;
        }
        if ib == b.len() {
            emite_frente_a(a, b, dest, ia, ib, k, want - k);
            proof { lema_fim_frente(a@, b@, dest@, ia + (want - k), ib as int); }
            return;
        }
        let g = galope_a_le(a, ia, &b[ib]);
        let na = if g < want - k { g } else { want - k };
        let mut avancou_a = false;
        if na > 0 {
            emite_frente_a(a, b, dest, ia, ib, k, na);
            k = k + na;
            ia = ia + na;
            avancou_a = true;
        }
        if !(avancou_a && (k == want || ia == a.len())) {
            let g2 = galope_b_lt(b, ib, &a[ia]);
            let nb = if g2 < want - k { g2 } else { want - k };
            proof {
                if na == 0 {
                    assert(menor(b@[ib as int], a@[ia as int]));
                }
            }
            emite_frente_b(a, b, dest, ia, ib, k, nb);
            k = k + nb;
            ib = ib + nb;
        }
    }
    proof { lema_fim_frente(a@, b@, dest@, ia as int, ib as int); }
}

/// Galloping backward merge that fills `dest` with the `dest.len()` largest
/// elements of the stable merge of `a` and `b`; ties go to `b`, which is
/// what makes its output the exact tail of the forward merge.
pub fn pim_back<T: Ord + Copy>(a: &[T], b: &[T], dest: &mut [T])
    requires
        ordem_total::<T>(),
        ordenada(a@),
        ordenada(b@),
        old(dest)@.len() <= a@.len() + b@.len(),
    ensures
        final(dest)@ == intercala(a@, b@).skip(a@.len() + b@.len() - old(dest)@.len()),
{
    let mut qa: usize = a.len();
    let mut qb: usize = b.len();
    let mut k: usize = dest.len();
    proof { lema_inicio_tras(a@, b@, dest@); }
    while k > 0
        invariant
            ordem_total::<T>(),
            ordenada(a@),
            ordenada(b@),
            dest@.len() == old(dest)@.len(),
            dest@.len() <= a@.len() + b@.len(),
            inv_tras(a@, b@, dest@, qa as int, qb as int, k as int),
        decreases k,
    {
        if qa == 0 {
            emite_tras_b(a, b, dest, qa, qb, k, k);
            proof { lema_fim_tras(a@, b@, dest@, qa as int, qb - k); }
            return;
        }
        if qb == 0 {
            emite_tras_a(a, b, dest, qa, qb, k, k);
            proof { lema_fim_tras(a@, b@, dest@, qa - k, qb as int); }
            return;
        }
        let j = galope_tras_b(b, qb, &a[qa - 1]);
        let nb = if qb - j < k { qb - j } else { k };
        let mut recuou_b = false;
        if nb > 0 {
            emite_tras_b(a, b, dest, qa, qb, k, nb);
            k = k - nb;
            qb = qb - nb;
            recuou_b = true;
        }
        if !(recuou_b && (k == 0 || qb == 0)) {
            let i = galope_tras_a(a, qa, &b[qb - 1]);
            let na = if qa - i < k { qa - i } else { k };
            proof {
                if nb == 0 {
                    assert(menor(b@[qb - 1], a@[qa - 1]));
                }
            }
            emite_tras_a(a, b, dest, qa, qb, k, na);
            k = k - na;
            qa = qa - na;
        }
    }
    proof { lema_fim_tras(a@, b@, dest@, qa as int, qb as int); }
}


/// Consecutive wins a run needs before the adaptive merge starts galloping.
pub const MIN_GALLOP: u32 = 7;

/// Adaptive merge: it merges element by element and switches to galloping
/// after `min_gallop` consecutive wins of one run; the threshold drops
/// while galloping pays and rises when it does not. Ties go to `a`.
pub fn pim_adaptive<T: Ord + Copy>(a: &[T], b: &[T], dest: &mut [T])
    requires
        ordem_total::<T>(),
        ordenada(a@),
        ordenada(b@),
        old(dest)@.len() == a@.len() + b@.len(),
    ensures
        final(dest)@ == intercala(a@, b@),
{
    let ghost total = a@.len() + b@.len();
    let mut ia: usize = 0;
    let mut ib: usize = 0;
    let mut k: usize = 0;
    let mut min_gallop: u32 = MIN_GALLOP;
    assert(total == dest.len());
    proof { lema_inicio_frente(a@, b@, dest@); }
    while ia < a.len() && ib < b.len()
        invariant
            ordem_total::<T>(),
            ordenada(a@),
            ordenada(b@),
            dest@.len() == total,
            total == a@.len() + b@.len(),
            total <= usize::MAX,
            min_gallop >= 1,
            inv_frente(a@, b@, dest@, ia as int, ib as int, k as int),
        decreases total - k,
    {
        let mut wa: u32 = 0;
        let mut wb: u32 = 0;
        let ghost k_entrada = k;
        loop
            invariant_except_break
                wa < min_gallop,
                wb < min_gallop,
                ia < a@.len(),
                ib < b@.len(),
            invariant
                ordem_total::<T>(),
                ordenada(a@),
                ordenada(b@),
                dest@.len() == total,
                total == a@.len() + b@.len(),
                total <= usize::MAX,
                min_gallop >= 1,
                k >= k_entrada,
                inv_frente(a@, b@, dest@, ia as int, ib as int, k as int),
            ensures
                inv_frente(a@, b@, dest@, ia as int, ib as int, k as int),
                dest@.len() == total,
                k > k_entrada,
            decreases total - k,
        {
            if le(&a[ia], &b[ib]) {
                emite_frente_a(a, b, dest, ia, ib, k, 1);
                k = k + 1;
                ia = ia + 1;
                wa = wa + 1;
                wb = 0;
                if ia == a.len() {
                    break;
                }
                if wa >= min_gallop {
                    break;
                }
            } else {
                emite_frente_b(a, b, dest, ia, ib, k, 1);
                k = k + 1;
                ib = ib + 1;
                wb = wb + 1;
                wa = 0;
                if ib == b.len() {
                    break;
                }
                if wb >= min_gallop {
                    break;
                }
            }
        }
        if ia < a.len() && ib < b.len() {
            let ghost k_galope = k;
            loop
                invariant_except_break
                    ia < a@.len(),
                    ib < b@.len(),
                invariant
                    ordem_total::<T>(),
                    ordenada(a@),
                    ordenada(b@),
                    dest@.len() == total,
                    total == a@.len() + b@.len(),
                    total <= usize::MAX,
                    min_gallop >= 1,
                    k >= k_galope,
                    inv_frente(a@, b@, dest@, ia as int, ib as int, k as int),
                ensures
                    inv_frente(a@, b@, dest@, ia as int, ib as int, k as int),
                    dest@.len() == total,
                    min_gallop >= 1,
                    k >= k_galope,
                decreases total - k,
            {
                min_gallop = if min_gallop > 1 { min_gallop - 1 } else { 1 };
                let na = galope_a_le(a, ia, &b[ib]);
                if na > 0 {
                    emite_frente_a(a, b, dest, ia, ib, k, na);
                    k = k + na;
                    ia = ia + na;
                    if ia == a.len() {
                        break;
                    }
                }
                let nb = galope_b_lt(b, ib, &a[ia]);
                proof {
                    if na == 0 {
                        assert(menor(b@[ib as int], a@[ia as int]));
                    }
                }
                emite_frente_b(a, b, dest, ia, ib, k, nb);
                k = k + nb;
                ib = ib + nb;
                if ib == b.len() {
                    break;
                }
                if na < min_gallop as usize && nb < min_gallop as usize {
                    min_gallop = min_gallop.saturating_add(2);
                    break;
                }
            }
        }
    }
    if ia < a.len() {
        emite_frente_a(a, b, dest, ia, ib, k, a.len() - ia);
        proof { lema_fim_frente(a@, b@, dest@, a@.len() as int, ib as int); }
    } else if ib < b.len() {
        emite_frente_b(a, b, dest, ia, ib, k, b.len() - ib);
        proof { lema_fim_frente(a@, b@, dest@, ia as int, b@.len() as int); }
    } else {
        proof { lema_fim_frente(a@, b@, dest@, ia as int, ib as int); }
    }
    proof {
        assert(dest@.len() == total);
        assert(intercala(a@, b@).take(total as int) =~= intercala(a@, b@)) by {
            lema_intercala_len(a@, b@);
        }
    }
}


/// Adaptive forward merge that fills `dest` with the `dest.len()` smallest
/// elements of the stable merge of `a` and `b`: element by element, with a
/// gallop after `min_gallop` consecutive wins of one run.
pub fn pim_front_adaptativo<T: Ord + Copy>(a: &[T], b: &[T], dest: &mut [T], min_gallop: usize)
    requires
        ordem_total::<T>(),
        ordenada(a@),
        ordenada(b@),
        old(dest)@.len() <= a@.len() + b@.len(),
    ensures
        final(dest)@ == intercala(a@, b@).take(old(dest)@.len() as int),
{
    let mut ia: usize = 0;
    let mut ib: usize = 0;
    let mut k: usize = 0;
    let limite = if min_gallop > 1 { min_gallop } else { 1 };
    let mut vitorias_a: usize = 0;
    let mut vitorias_b: usize = 0;
    let want = dest.len();
    proof { lema_inicio_frente(a@, b@, dest@); }
    while k < dest.len()
        invariant
            ordem_total::<T>(),
            ordenada(a@),
            ordenada(b@),
            dest@.len() == want,
            want == old(dest)@.len(),
            want <= a@.len() + b@.len(),
            vitorias_a <= k,
            vitorias_b <= k,
            inv_frente(a@, b@, dest@, ia as int, ib as int, k as int),
        decreases want - k,
    {
        if ia == a.len() {
            let restantes = dest.len() - k;
            emite_frente_b(a, b, dest, ia, ib, k, restantes);
            proof { lema_fim_frente(a@, b@, dest@, ia as int, ib + restantes); }
            return;
        }
        if ib == b.len() {
            let restantes = dest.len() - k;
            emite_frente_a(a, b, dest, ia, ib, k, restantes);
            proof { lema_fim_frente(a@, b@, dest@, ia + restantes, ib as int); }
            return;
        }
        if le(&a[ia], &b[ib]) {
            emite_frente_a(a, b, dest, ia, ib, k, 1);
            ia = ia + 1;
            k = k + 1;
            vitorias_a = vitorias_a + 1;
            vitorias_b = 0;
            if vitorias_a >= limite && ia < a.len() && ib < b.len() && k < dest.len() {
                let g = galope_a_le(a, ia, &b[ib]);
                let n = if g < dest.len() - k { g } else { dest.len() - k };
                if n > 0 {
                    emite_frente_a(a, b, dest, ia, ib, k, n);
                    ia = ia + n;
                    k = k + n;
                }
                vitorias_a = 0;
            }
        } else {
            emite_frente_b(a, b, dest, ia, ib, k, 1);
            ib = ib + 1;
            k = k + 1;
            vitorias_b = vitorias_b + 1;
            vitorias_a = 0;
            if vitorias_b >= limite && ia < a.len() && ib < b.len() && k < dest.len() {
                let g = galope_b_lt(b, ib, &a[ia]);
                let n = if g < dest.len() - k { g } else { dest.len() - k };
                if n > 0 {
                    emite_frente_b(a, b, dest, ia, ib, k, n);
                    ib = ib + n;
                    k = k + n;
                }
                vitorias_b = 0;
            }
        }
    }
    proof { lema_fim_frente(a@, b@, dest@, ia as int, ib as int); }
}

/// Adaptive backward merge that fills `dest` with the `dest.len()` largest
/// elements of the stable merge of `a` and `b`; ties go to `b`.
pub fn pim_back_adaptativo<T: Ord + Copy>(a: &[T], b: &[T], dest: &mut [T], min_gallop: usize)
    requires
        ordem_total::<T>(),
        ordenada(a@),
        ordenada(b@),
        old(dest)@.len() <= a@.len() + b@.len(),
    ensures
        final(dest)@ == intercala(a@, b@).skip(a@.len() + b@.len() - old(dest)@.len()),
{
    let mut qa: usize = a.len();
    let mut qb: usize = b.len();
    let mut k: usize = dest.len();
    let limite = if min_gallop > 1 { min_gallop } else { 1 };
    let mut vitorias_a: usize = 0;
    let mut vitorias_b: usize = 0;
    let ghost d = dest@.len();
    assert(d == dest.len());
    proof { lema_inicio_tras(a@, b@, dest@); }
    while k > 0
        invariant
            ordem_total::<T>(),
            ordenada(a@),
            ordenada(b@),
            dest@.len() == d,
            d <= usize::MAX,
            d == old(dest)@.len(),
            d <= a@.len() + b@.len(),
            vitorias_a <= d - k,
            vitorias_b <= d - k,
            inv_tras(a@, b@, dest@, qa as int, qb as int, k as int),
        decreases k,
    {
        if qa == 0 {
            emite_tras_b(a, b, dest, qa, qb, k, k);
            proof { lema_fim_tras(a@, b@, dest@, qa as int, qb - k); }
            return;
        }
        if qb == 0 {
            emite_tras_a(a, b, dest, qa, qb, k, k);
            proof { lema_fim_tras(a@, b@, dest@, qa - k, qb as int); }
            return;
        }
        if le(&a[qa - 1], &b[qb - 1]) {
            emite_tras_b(a, b, dest, qa, qb, k, 1);
            qb = qb - 1;
            k = k - 1;
            vitorias_b = vitorias_b + 1;
            vitorias_a = 0;
            if vitorias_b >= limite && qa > 0 && qb > 0 && k > 0 {
                let inicio = galope_tras_b(b, qb, &a[qa - 1]);
                let n = if qb - inicio < k { qb - inicio } else { k };
                if n > 0 {
                    emite_tras_b(a, b, dest, qa, qb, k, n);
                    qb = qb - n;
                    k = k - n;
                }
                vitorias_b = 0;
            }
        } else {
            emite_tras_a(a, b, dest, qa, qb, k, 1);
            qa = qa - 1;
            k = k - 1;
            vitorias_a = vitorias_a + 1;
            vitorias_b = 0;
            if vitorias_a >= limite && qa > 0 && qb > 0 && k > 0 {
                let inicio = galope_tras_a(a, qa, &b[qb - 1]);
                let n = if qa - inicio < k { qa - inicio } else { k };
                if n > 0 {
                    emite_tras_a(a, b, dest, qa, qb, k, n);
                    qa = qa - n;
                    k = k - n;
                }
                vitorias_a = 0;
            }
        }
    }
    proof { lema_fim_tras(a@, b@, dest@, qa as int, qb as int); }
}

/// Merges the ascending run `a` with the descending run `b_desc`, read from
/// its end; ties go to `a`. Only the first `a.len() + b_desc.len()`
/// positions of `dest` are written.
pub fn pim_merge_a_asc_b_desc<T: Ord + Copy>(a: &[T], b_desc: &[T], dest: &mut [T])
    requires
        ordem_total::<T>(),
        old(dest)@.len() >= a@.len() + b_desc@.len(),
    ensures
        final(dest)@.len() == old(dest)@.len(),
        final(dest)@.take((a@.len() + b_desc@.len()) as int) == intercala(a@, b_desc@.reverse()),
        final(dest)@.skip((a@.len() + b_desc@.len()) as int) == old(dest)@.skip((a@.len() + b_desc@.len()) as int),
{
    let ghost b = b_desc@.reverse();
    let ghost d0 = dest@;
    let ghost total: int = (a@.len() + b_desc@.len()) as int;
    let mut ia: usize = 0;
    let mut jb: usize = b_desc.len();
    let mut k: usize = 0;
    proof {
        assert(dest@.take(0) =~= Seq::<T>::empty());
        assert(a@.skip(0) =~= a@);
        assert(b.skip(0) =~= b);
        assert(intercala(a@, b) =~= dest@.take(0) + intercala(a@.skip(0), b.skip(0)));
    }
    while ia < a.len() || jb > 0
        invariant
            ordem_total::<T>(),
            b == b_desc@.reverse(),
            b.len() == b_desc@.len(),
            dest@.len() == d0.len(),
            d0.len() >= total,
            total == a@.len() + b_desc@.len(),
            ia <= a@.len(),
            jb <= b_desc@.len(),
            k == ia + (b_desc@.len() - jb),
            dest@.skip(total) == d0.skip(total),
            intercala(a@, b) == dest@.take(k as int) + intercala(a@.skip(ia as int), b.skip(b_desc@.len() - jb)),
        decreases a@.len() - ia + jb,
    {
        let ib: Ghost<int> = Ghost(b_desc@.len() - jb);
        proof { lema_passo(a@, b, ia as int, ib@); }
        let ghost antes = dest@.take(k as int);
        if ia < a.len() && (jb == 0 || le(&a[ia], &b_desc[jb - 1])) {
            proof {
                if jb > 0 {
                    assert(b[ib@] == b_desc@[jb - 1]);
                }
            }
            dest[k] = a[ia];
            proof {
                assert(dest@.take(k + 1) =~= antes + seq![a@[ia as int]]);
            }
            ia = ia + 1;
        } else {
            jb = jb - 1;
            proof {
                assert(b[ib@] == b_desc@[jb as int]);
            }
            dest[k] = b_desc[jb];
            proof {
                assert(dest@.take(k + 1) =~= antes + seq![b_desc@[jb as int]]);
            }
        }
        k = k + 1;
        proof {
            assert(dest@.skip(total) =~= d0.skip(total));
            assert(intercala(a@, b) =~= dest@.take(k as int) + intercala(a@.skip(ia as int), b.skip(b_desc@.len() - jb)));
        }
    }
    proof {
        assert(a@.skip(ia as int) =~= Seq::<T>::empty());
        assert(b.skip(b_desc@.len() - jb) =~= Seq::<T>::empty());
        assert(dest@.take(total) =~= intercala(a@, b));
    }
}


/// Splits the merge of the sorted runs at the middle of the longer run:
/// that element's position, and the rank it takes in the other run.
pub fn pim_split<T: Ord + Copy>(a: &[T], b: &[T]) -> (r: (usize, usize))
    requires
        ordem_total::<T>(),
        ordenada(a@),
        ordenada(b@),
        a@.len() + b@.len() > 0,
    ensures
        a@.len() >= b@.len() ==> r.0 == a@.len() / 2 && ponto_lt(b@, a@[r.0 as int], r.1 as int),
        a@.len() < b@.len() ==> r.1 == b@.len() / 2 && ponto_le(a@, b@[r.1 as int], r.0 as int),
        corte_valido(a@, b@, r.0 as int, r.1 as int),
{
    proof { lema_preordem_total::<T>(); }
    if a.len() >= b.len() {
        let i = a.len() / 2;
        let j = particao_lt(b, &a[i]);
        proof {
            if i > 0 && j < b@.len() {
                assert(menor_igual(a@[i - 1], a@[i as int]));
            }
        }
        (i, j)
    } else {
        let j = b.len() / 2;
        let i = particao_le(a, &b[j]);
        proof {
            if j > 0 && i < a@.len() {
                assert(menor_igual(b@[j - 1], b@[j as int]));
            }
        }
        (i, j)
    }
}

/// The split of the publication: the middle of `b` when `b` is not the
/// longer run, else the middle of `a`. Both runs must be non-empty.
pub fn pim_split_paper<T: Ord + Copy>(a: &[T], b: &[T]) -> (r: (usize, usize))
    requires
        ordem_total::<T>(),
        ordenada(a@),
        ordenada(b@),
        a@.len() > 0,
        b@.len() > 0,
    ensures
        b@.len() <= a@.len() ==> r.1 == b@.len() / 2 && ponto_le(a@, b@[r.1 as int], r.0 as int),
        b@.len() > a@.len() ==> r.0 == a@.len() / 2 && ponto_lt(b@, a@[r.0 as int], r.1 as int),
        corte_valido(a@, b@, r.0 as int, r.1 as int),
{
    proof { lema_preordem_total::<T>(); }
    if b.len() <= a.len() {
        let j = b.len() / 2;
        let i = particao_le(a, &b[j]);
        proof {
            if j > 0 && i < a@.len() {
                assert(menor_igual(b@[j - 1], b@[j as int]));
            }
        }
        (i, j)
    } else {
        let i = a.len() / 2;
        let j = particao_lt(b, &a[i]);
        proof {
            if i > 0 && j < b@.len() {
                assert(menor_igual(a@[i - 1], a@[i as int]));
            }
        }
        (i, j)
    }
}

/// Runs the two halves of a split merge through `rayon::join`. rayon's
/// documentation states that both closures are always executed; each
/// closure is one call of `pim_merge_par`, so each half ends as that
/// function's contract states.
#[verifier::external_body]
fn junta_pim_merge_par<T: Ord + Copy + Send + Sync>(
    a_l: &[T],
    b_l: &[T],
    d_l: &mut [T],
    a_r: &[T],
    b_r: &[T],
    d_r: &mut [T],
    leaf: usize,
)
    requires
        ordem_total::<T>(),
        ordenada(a_l@),
        ordenada(b_l@),
        ordenada(a_r@),
        ordenada(b_r@),
        old(d_l)@.len() == a_l@.len() + b_l@.len(),
        old(d_r)@.len() == a_r@.len() + b_r@.len(),
        leaf >= 2,
    ensures
        final(d_l)@ == intercala(a_l@, b_l@),
        final(d_r)@ == intercala(a_r@, b_r@),
{
    rayon::join(|| pim_merge_par(a_l, b_l, d_l, leaf), || pim_merge_par(a_r, b_r, d_r, leaf));
}

/// Parallel merge: splits at the middle of the longer run and merges both
/// halves concurrently, down to leaves of at most `leaf` elements, which go
/// to the adaptive kernel. With `leaf < 2` the split can reproduce its own
/// input, so `leaf` must be at least 2.
pub fn pim_merge_par<T: Ord + Copy + Send + Sync>(a: &[T], b: &[T], dest: &mut [T], leaf: usize)
    requires
        ordem_total::<T>(),
        ordenada(a@),
        ordenada(b@),
        old(dest)@.len() == a@.len() + b@.len(),
        leaf >= 2,
    ensures
        final(dest)@ == intercala(a@, b@),
{
    if a.len() == 0 {
        copia_faixa(b, 0, dest, 0, b.len());
        proof {
            lema_intercala_vazia(a@, b@);
            assert(dest@ =~= b@);
        }
        return;
    }
    if b.len() == 0 {
        copia_faixa(a, 0, dest, 0, a.len());
        proof {
            lema_intercala_vazia(a@, b@);
            assert(dest@ =~= a@);
        }
        return;
    }
    assert(a@.len() + b@.len() == dest.len());
    if a.len() + b.len() <= leaf {
        pim_adaptive(a, b, dest);
        return;
    }
    let (i, j) = pim_split(a, b);
    let (a_l, a_r) = a.split_at(i);
    let (b_l, b_r) = b.split_at(j);
    proof {
        lema_fatia_ordenada(a@, 0, i as int);
        lema_fatia_ordenada(a@, i as int, a@.len() as int);
        lema_fatia_ordenada(b@, 0, j as int);
        lema_fatia_ordenada(b@, j as int, b@.len() as int);
        lema_corte(a@, b@, i as int, j as int);
        lema_intercala_len(a_l@, b_l@);
        assert(a_l@ =~= a@.take(i as int));
        assert(b_l@ =~= b@.take(j as int));
        assert(a_r@ =~= a@.skip(i as int));
        assert(b_r@ =~= b@.skip(j as int));
    }
    let (d_l, d_r) = dest.split_at_mut(i + j);
    junta_pim_merge_par(a_l, b_l, d_l, a_r, b_r, d_r, leaf);
}

} // verus!
