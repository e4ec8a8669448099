use vstd::prelude::*;
use crate::ordem::{ordem_total, menor_igual, menor, equivalentes, lema_preordem_total};

verus! {

/// Every element precedes or ties with every later one.
pub open spec fn ordenada<T: Ord>(s: Seq<T>) -> bool {
    forall|i: int, j: int| 0 <= i < j < s.len() ==> #[trigger] menor_igual(s[i], s[j])
}

/// The stable merge of `a` and `b`: at each step the head of `a` is taken
/// when it does not exceed the head of `b`, so that ties go to `a`.
pub open spec fn intercala<T: Ord>(a: Seq<T>, b: Seq<T>) -> Seq<T>
    decreases a.len() + b.len(),
{
    if a.len() == 0 {
        b
    } else if b.len() == 0 {
        a
    } else if menor_igual(a[0], b[0]) {
        seq![a[0]] + intercala(a.drop_first(), b)
    } else {
        seq![b[0]] + intercala(a, b.drop_first())
    }
}

/// `(i, j)` splits the stable merge of `a` and `b`: the first `i` elements
/// of `a` and the first `j` of `b` are exactly the first `i + j` merged.
pub open spec fn corte_valido<T: Ord>(a: Seq<T>, b: Seq<T>, i: int, j: int) -> bool {
    &&& 0 <= i <= a.len()
    &&& 0 <= j <= b.len()
    &&& (0 < i && j < b.len() ==> menor_igual(a[i - 1], b[j]))
    &&& (0 < j && i < a.len() ==> menor(b[j - 1], a[i]))
}

pub proof fn lema_intercala_len<T: Ord>(a: Seq<T>, b: Seq<T>)
    ensures
        #[trigger] intercala(a, b).len() == a.len() + b.len(),
    decreases a.len() + b.len(),
{
    if a.len() != 0 && b.len() != 0 {
        if menor_igual(a[0], b[0]) {
            lema_intercala_len(a.drop_first(), b);
        } else {
            lema_intercala_len(a, b.drop_first());
        }
    }
}

/// One step of the merge over the unconsumed tails `a[i..]` and `b[j..]`.
pub proof fn lema_passo<T: Ord>(a: Seq<T>, b: Seq<T>, i: int, j: int)
    requires
        0 <= i <= a.len(),
        0 <= j <= b.len(),
        i < a.len() || j < b.len(),
    ensures
        (i < a.len() && (j == b.len() || menor_igual(a[i], b[j]))) ==> intercala(a.skip(i), b.skip(j))
            == seq![a[i]] + intercala(a.skip(i + 1), b.skip(j)),
        !(i < a.len() && (j == b.len() || menor_igual(a[i], b[j]))) ==> intercala(a.skip(i), b.skip(j))
            == seq![b[j]] + intercala(a.skip(i), b.skip(j + 1)),
{
    if i < a.len() {
        assert(a.skip(i).drop_first() =~= a.skip(i + 1));
    }
    if j < b.len() {
        assert(b.skip(j).drop_first() =~= b.skip(j + 1));
    }
    if j == b.len() {
        assert(b.skip(j) =~= Seq::<T>::empty());
        assert(b.skip(j) =~= b.skip(j + 0));
        assert(a.skip(i) =~= seq![a[i]] + a.skip(i + 1));
    } else if i == a.len() {
        assert(a.skip(i) =~= Seq::<T>::empty());
        assert(b.skip(j) =~= seq![b[j]] + b.skip(j + 1));
    }
}

/// The merge splits at a valid cut into the merge of the prefixes followed
/// by the merge of the suffixes.
pub proof fn lema_corte<T: Ord>(a: Seq<T>, b: Seq<T>, i: int, j: int)
    requires
        ordem_total::<T>(),
        ordenada(a),
        ordenada(b),
        corte_valido(a, b, i, j),
    ensures
        intercala(a, b) == intercala(a.take(i), b.take(j)) + intercala(a.skip(i), b.skip(j)),
    decreases i + j,
{
    lema_preordem_total::<T>();
    if i == 0 && j == 0 {
        assert(a.take(0) =~= Seq::<T>::empty());
        assert(b.take(0) =~= Seq::<T>::empty());
        assert(a.skip(0) =~= a);
        assert(b.skip(0) =~= b);
        assert(intercala(a.take(i), b.take(j)) =~= Seq::<T>::empty());
        assert(intercala(a, b) =~= Seq::<T>::empty() + intercala(a, b));
    } else if i > 0 && (j == 0 || menor_igual(a[0], b[0])) {
        if b.len() > 0 && j == 0 && i > 1 {
            assert(menor_igual(a[0], a[i - 1]));
        }
        let a2 = a.drop_first();
        assert(ordenada(a2)) by {
            assert forall|p: int, q: int| 0 <= p < q < a2.len() implies #[trigger] menor_igual(
                a2[p],
                a2[q],
            ) by {
                assert(menor_igual(a[p + 1], a[q + 1]));
            }
        }
        assert(corte_valido(a2, b, i - 1, j));
        lema_corte(a2, b, i - 1, j);
        assert(a.take(i).drop_first() =~= a2.take(i - 1));
        assert(a.skip(i) =~= a2.skip(i - 1));
        if b.len() == 0 {
            assert(a =~= seq![a[0]] + a2);
        }
        if j == 0 {
            assert(b.take(j) =~= Seq::<T>::empty());
            assert(a.take(i) =~= seq![a[0]] + a2.take(i - 1));
        }
        assert(intercala(a, b) =~= seq![a[0]] + intercala(a2, b));
        assert(intercala(a.take(i), b.take(j)) =~= seq![a[0]] + intercala(a2.take(i - 1), b.take(j)));
        assert(intercala(a, b) =~= intercala(a.take(i), b.take(j)) + intercala(a.skip(i), b.skip(j)));
    } else {
        assert(j > 0);
        if a.len() > 0 && i == 0 && j > 1 {
            assert(menor_igual(b[0], b[j - 1]));
        }
        let b2 = b.drop_first();
        assert(ordenada(b2)) by {
            assert forall|p: int, q: int| 0 <= p < q < b2.len() implies #[trigger] menor_igual(
                b2[p],
                b2[q],
            ) by {
                assert(menor_igual(b[p + 1], b[q + 1]));
            }
        }
        assert(corte_valido(a, b2, i, j - 1));
        lema_corte(a, b2, i, j - 1);
        assert(b.take(j).drop_first() =~= b2.take(j - 1));
        assert(b.skip(j) =~= b2.skip(j - 1));
        if a.len() == 0 {
            assert(b =~= seq![b[0]] + b2);
        }
        if i == 0 {
            assert(a.take(i) =~= Seq::<T>::empty());
            assert(b.take(j) =~= seq![b[0]] + b2.take(j - 1));
        }
        assert(intercala(a, b) =~= seq![b[0]] + intercala(a, b2));
        assert(intercala(a.take(i), b.take(j)) =~= seq![b[0]] + intercala(a.take(i), b2.take(j - 1)));
        assert(intercala(a, b) =~= intercala(a.take(i), b.take(j)) + intercala(a.skip(i), b.skip(j)));
    }
}


pub proof fn lema_fatia_ordenada<T: Ord>(s: Seq<T>, lo: int, hi: int)
    requires
        ordenada(s),
        0 <= lo <= hi <= s.len(),
    ensures
        ordenada(s.subrange(lo, hi)),
{
    let t = s.subrange(lo, hi);
    assert forall|p: int, q: int| 0 <= p < q < t.len() implies #[trigger] menor_igual(t[p], t[q]) by {
        assert(menor_igual(s[lo + p], s[lo + q]));
    }
}

/// Merging with an empty run gives the other run back.
pub proof fn lema_intercala_vazia<T: Ord>(a: Seq<T>, b: Seq<T>)
    ensures
        b.len() == 0 ==> intercala(a, b) == a,
        a.len() == 0 ==> intercala(a, b) == b,
{
}

/// A prefix of `a` that does not exceed the head of `b` leads the merge.
pub proof fn lema_prefixo_a<T: Ord>(a: Seq<T>, b: Seq<T>, n: int)
    requires
        ordem_total::<T>(),
        ordenada(a),
        ordenada(b),
        0 <= n <= a.len(),
        n > 0 && b.len() > 0 ==> menor_igual(a[n - 1], b[0]),
    ensures
        intercala(a, b) == a.take(n) + intercala(a.skip(n), b),
{
    lema_corte(a, b, n, 0);
    assert(b.take(0) =~= Seq::<T>::empty());
    assert(b.skip(0) =~= b);
    lema_intercala_vazia(a.take(n), b.take(0));
}

/// A prefix of `b` strictly below the head of `a` leads the merge.
pub proof fn lema_prefixo_b<T: Ord>(a: Seq<T>, b: Seq<T>, n: int)
    requires
        ordem_total::<T>(),
        ordenada(a),
        ordenada(b),
        0 <= n <= b.len(),
        n > 0 && a.len() > 0 ==> menor(b[n - 1], a[0]),
    ensures
        intercala(a, b) == b.take(n) + intercala(a, b.skip(n)),
{
    lema_corte(a, b, 0, n);
    assert(a.take(0) =~= Seq::<T>::empty());
    assert(a.skip(0) =~= a);
    lema_intercala_vazia(a.take(0), b.take(n));
}

/// A suffix of `b` that is not below the last of `a` ends the merge.
pub proof fn lema_sufixo_b<T: Ord>(a: Seq<T>, b: Seq<T>, n: int)
    requires
        ordem_total::<T>(),
        ordenada(a),
        ordenada(b),
        0 <= n <= b.len(),
        n > 0 && a.len() > 0 ==> menor_igual(a.last(), b[b.len() - n]),
    ensures
        intercala(a, b) == intercala(a, b.take(b.len() - n)) + b.skip(b.len() - n),
{
    lema_corte(a, b, a.len() as int, b.len() - n);
    assert(a.take(a.len() as int) =~= a);
    assert(a.skip(a.len() as int) =~= Seq::<T>::empty());
    lema_intercala_vazia(a.skip(a.len() as int), b.skip(b.len() - n));
}

/// A suffix of `a` strictly above the last of `b` ends the merge.
pub proof fn lema_sufixo_a<T: Ord>(a: Seq<T>, b: Seq<T>, n: int)
    requires
        ordem_total::<T>(),
        ordenada(a),
        ordenada(b),
        0 <= n <= a.len(),
        n > 0 && b.len() > 0 ==> menor(b.last(), a[a.len() - n]),
    ensures
        intercala(a, b) == intercala(a.take(a.len() - n), b) + a.skip(a.len() - n),
{
    lema_corte(a, b, a.len() - n, b.len() as int);
    assert(b.take(b.len() as int) =~= b);
    assert(b.skip(b.len() as int) =~= Seq::<T>::empty());
    lema_intercala_vazia(a.skip(a.len() - n), b.skip(b.len() as int));
}


/// The elements of `s` with the same key as `x`, in their order in `s`.
pub open spec fn classe<T: Ord>(s: Seq<T>, x: T) -> Seq<T> {
    s.filter(|y: T| equivalentes(y, x))
}

/// `resultado` is the stable sort of `entrada`: it is sorted, and the
/// elements of every key appear in it exactly as they appear in `entrada`.
pub open spec fn ordenacao_estavel<T: Ord>(entrada: Seq<T>, resultado: Seq<T>) -> bool {
    &&& resultado.len() == entrada.len()
    &&& ordenada(resultado)
    &&& forall|x: T| #[trigger] classe(resultado, x) == classe(entrada, x)
}

/// Adjacent elements never descend: an ascending run.
pub open spec fn run_crescente<T: Ord>(s: Seq<T>) -> bool {
    forall|i: int| 0 <= i < s.len() - 1 ==> menor_igual(#[trigger] s[i], s[i + 1])
}

/// Adjacent elements strictly descend: a descending run.
pub open spec fn run_decrescente<T: Ord>(s: Seq<T>) -> bool {
    forall|i: int| 0 <= i < s.len() - 1 ==> menor(s[i + 1], #[trigger] s[i])
}

pub proof fn lema_classe_concat<T: Ord>(s: Seq<T>, t: Seq<T>, x: T)
    ensures
        classe(s + t, x) == classe(s, x) + classe(t, x),
{
    Seq::filter_distributes_over_add(s, t, |y: T| equivalentes(y, x));
}

pub proof fn lema_classe_vazia<T: Ord>(s: Seq<T>, x: T)
    requires
        s.len() == 0,
    ensures
        classe(s, x) == s,
{
    reveal(Seq::filter);
}

/// No element of `s` has the key of `x`.
pub proof fn lema_classe_nenhum<T: Ord>(s: Seq<T>, x: T)
    requires
        forall|i: int| 0 <= i < s.len() ==> !equivalentes(#[trigger] s[i], x),
    ensures
        classe(s, x) == Seq::<T>::empty(),
    decreases s.len(),
{
    reveal(Seq::filter);
    if s.len() > 0 {
        let s2 = s.drop_last();
        assert forall|i: int| 0 <= i < s2.len() implies !equivalentes(#[trigger] s2[i], x) by {
            assert(s2[i] == s[i]);
        }
        lema_classe_nenhum(s2, x);
        assert(!equivalentes(s[s.len() - 1], x));
    }
}

/// A sorted run that starts strictly above `y` holds nothing with the key of `y`.
proof fn lema_classe_sem_empate<T: Ord>(a: Seq<T>, y: T, x: T)
    requires
        ordem_total::<T>(),
        ordenada(a),
        a.len() > 0,
        menor(y, a[0]),
        equivalentes(y, x),
    ensures
        classe(a, x) == Seq::<T>::empty(),
{
    lema_preordem_total::<T>();
    assert forall|i: int| 0 <= i < a.len() implies !equivalentes(#[trigger] a[i], x) by {
        if equivalentes(a[i], x) {
            if i > 0 {
                assert(menor_igual(a[0], a[i]));
            }
            assert(menor_igual(a[i], y));
        }
    }
    lema_classe_nenhum(a, x);
}

/// The merge keeps, for every key, the elements of `a` before those of `b`.
pub proof fn lema_classe_intercala<T: Ord>(a: Seq<T>, b: Seq<T>, x: T)
    requires
        ordem_total::<T>(),
        ordenada(a),
    ensures
        classe(intercala(a, b), x) == classe(a, x) + classe(b, x),
    decreases a.len() + b.len(),
{
    if a.len() == 0 {
        lema_classe_vazia(a, x);
        assert(classe(a, x) + classe(b, x) =~= classe(b, x));
    } else if b.len() == 0 {
        lema_classe_vazia(b, x);
        assert(classe(a, x) + classe(b, x) =~= classe(a, x));
    } else if menor_igual(a[0], b[0]) {
        let a2 = a.drop_first();
        lema_fatia_ordenada(a, 1, a.len() as int);
        assert(a2 =~= a.subrange(1, a.len() as int));
        lema_classe_intercala(a2, b, x);
        lema_classe_concat(seq![a[0]], intercala(a2, b), x);
        assert(a =~= seq![a[0]] + a2);
        lema_classe_concat(seq![a[0]], a2, x);
        assert(classe(intercala(a, b), x) =~= classe(a, x) + classe(b, x));
    } else {
        let b2 = b.drop_first();
        lema_classe_intercala(a, b2, x);
        lema_preordem_total::<T>();
        lema_classe_concat(seq![b[0]], intercala(a, b2), x);
        assert(b =~= seq![b[0]] + b2);
        lema_classe_concat(seq![b[0]], b2, x);
        if equivalentes(b[0], x) {
            // b[0] ties with x but a[0] comes after b[0]: no element of `a` ties with x.
            assert(classe(intercala(a, b), x) =~= classe(a, x) + classe(b, x)) by {
                lema_classe_sem_empate(a, b[0], x);
            }
        } else {
            lema_classe_nenhum(seq![b[0]], x);
            assert(classe(intercala(a, b), x) =~= classe(a, x) + classe(b, x));
        }
    }
}


/// A lower bound of both runs bounds their merge.
proof fn lema_cota_intercala<T: Ord>(a: Seq<T>, b: Seq<T>, x: T)
    requires
        forall|i: int| 0 <= i < a.len() ==> menor_igual(x, #[trigger] a[i]),
        forall|i: int| 0 <= i < b.len() ==> menor_igual(x, #[trigger] b[i]),
    ensures
        forall|i: int| 0 <= i < intercala(a, b).len() ==> menor_igual(x, #[trigger] intercala(a, b)[i]),
    decreases a.len() + b.len(),
{
    lema_intercala_len(a, b);
    if a.len() != 0 && b.len() != 0 {
        if menor_igual(a[0], b[0]) {
            let a2 = a.drop_first();
            lema_cota_intercala(a2, b, x);
            let m = intercala(a, b);
            assert forall|i: int| 0 <= i < m.len() implies menor_igual(x, #[trigger] m[i]) by {
                if i > 0 {
                    assert(m[i] == intercala(a2, b)[i - 1]);
                }
            }
        } else {
            let b2 = b.drop_first();
            lema_cota_intercala(a, b2, x);
            let m = intercala(a, b);
            assert forall|i: int| 0 <= i < m.len() implies menor_igual(x, #[trigger] m[i]) by {
                if i > 0 {
                    assert(m[i] == intercala(a, b2)[i - 1]);
                }
            }
        }
    }
}

/// The merge of two sorted runs is sorted.
pub proof fn lema_intercala_ordenada<T: Ord>(a: Seq<T>, b: Seq<T>)
    requires
        ordem_total::<T>(),
        ordenada(a),
        ordenada(b),
    ensures
        ordenada(intercala(a, b)),
    decreases a.len() + b.len(),
{
    lema_preordem_total::<T>();
    lema_intercala_len(a, b);
    if a.len() != 0 && b.len() != 0 {
        let m = intercala(a, b);
        if menor_igual(a[0], b[0]) {
            let a2 = a.drop_first();
            lema_fatia_ordenada(a, 1, a.len() as int);
            assert(a2 =~= a.subrange(1, a.len() as int));
            lema_intercala_ordenada(a2, b);
            assert forall|i: int| 0 <= i < a2.len() implies menor_igual(a[0], #[trigger] a2[i]) by {
                assert(a2[i] == a[i + 1]);
            }
            assert forall|i: int| 0 <= i < b.len() implies menor_igual(a[0], #[trigger] b[i]) by {
                if i > 0 {
                    assert(menor_igual(b[0], b[i]));
                }
            }
            lema_cota_intercala(a2, b, a[0]);
            let r = intercala(a2, b);
            assert forall|i: int, j: int| 0 <= i < j < m.len() implies #[trigger] menor_igual(m[i], m[j]) by {
                assert(m[j] == r[j - 1]);
                if i > 0 {
                    assert(m[i] == r[i - 1]);
                }
            }
        } else {
            let b2 = b.drop_first();
            lema_fatia_ordenada(b, 1, b.len() as int);
            assert(b2 =~= b.subrange(1, b.len() as int));
            lema_intercala_ordenada(a, b2);
            assert forall|i: int| 0 <= i < b2.len() implies menor_igual(b[0], #[trigger] b2[i]) by {
                assert(b2[i] == b[i + 1]);
            }
            assert forall|i: int| 0 <= i < a.len() implies menor_igual(b[0], #[trigger] a[i]) by {
                if i > 0 {
                    assert(menor_igual(a[0], a[i]));
                }
            }
            lema_cota_intercala(a, b2, b[0]);
            let r = intercala(a, b2);
            assert forall|i: int, j: int| 0 <= i < j < m.len() implies #[trigger] menor_igual(m[i], m[j]) by {
                assert(m[j] == r[j - 1]);
                if i > 0 {
                    assert(m[i] == r[i - 1]);
                }
            }
        }
    }
}

/// Merging the stable sorts of two consecutive pieces stably sorts their
/// concatenation.
pub proof fn lema_intercala_estavel<T: Ord>(x: Seq<T>, xs: Seq<T>, y: Seq<T>, ys: Seq<T>)
    requires
        ordem_total::<T>(),
        ordenacao_estavel(x, xs),
        ordenacao_estavel(y, ys),
    ensures
        ordenacao_estavel(x + y, intercala(xs, ys)),
{
    lema_intercala_len(xs, ys);
    lema_intercala_ordenada(xs, ys);
    assert forall|e: T| #[trigger] classe(intercala(xs, ys), e) == classe(x + y, e) by {
        lema_classe_intercala(xs, ys, e);
        lema_classe_concat(x, y, e);
    }
}

/// A sorted sequence is its own stable sort.
pub proof fn lema_ordenada_estavel<T: Ord>(s: Seq<T>)
    requires
        ordenada(s),
    ensures
        ordenacao_estavel(s, s),
{
}

/// An ascending run is sorted.
pub proof fn lema_run_crescente<T: Ord>(s: Seq<T>)
    requires
        ordem_total::<T>(),
        run_crescente(s),
    ensures
        ordenada(s),
{
    lema_preordem_total::<T>();
    assert forall|i: int, j: int| 0 <= i < j < s.len() implies #[trigger] menor_igual(s[i], s[j]) by {
        lema_run_crescente_par(s, i, j);
    }
}

proof fn lema_run_crescente_par<T: Ord>(s: Seq<T>, i: int, j: int)
    requires
        ordem_total::<T>(),
        run_crescente(s),
        0 <= i < j < s.len(),
    ensures
        menor_igual(s[i], s[j]),
    decreases j - i,
{
    lema_preordem_total::<T>();
    if j > i + 1 {
        lema_run_crescente_par(s, i, j - 1);
        assert(menor_igual(s[j - 1], s[j]));
    }
}

proof fn lema_run_decrescente_par<T: Ord>(s: Seq<T>, i: int, j: int)
    requires
        ordem_total::<T>(),
        run_decrescente(s),
        0 <= i < j < s.len(),
    ensures
        menor(s[j], s[i]),
    decreases j - i,
{
    lema_preordem_total::<T>();
    if j > i + 1 {
        lema_run_decrescente_par(s, i, j - 1);
        assert(menor(s[j], s[j - 1]));
    }
}

/// Reversing a strictly descending run stably sorts it: no two of its
/// elements tie, so no tie can be reordered.
pub proof fn lema_run_decrescente_estavel<T: Ord>(s: Seq<T>)
    requires
        ordem_total::<T>(),
        run_decrescente(s),
    ensures
        ordenacao_estavel(s, s.reverse()),
{
    lema_preordem_total::<T>();
    let r = s.reverse();
    assert forall|i: int, j: int| 0 <= i < j < r.len() implies #[trigger] menor_igual(r[i], r[j]) by {
        lema_run_decrescente_par(s, s.len() - 1 - j, s.len() - 1 - i);
    }
    assert forall|x: T| #[trigger] classe(r, x) == classe(s, x) by {
        lema_classe_reverso_decrescente(s, x);
    }
}

proof fn lema_classe_reverso_decrescente<T: Ord>(s: Seq<T>, x: T)
    requires
        ordem_total::<T>(),
        run_decrescente(s),
    ensures
        classe(s.reverse(), x) == classe(s, x),
    decreases s.len(),
{
    lema_preordem_total::<T>();
    if s.len() == 0 {
        assert(s.reverse() =~= s);
    } else {
        let s2 = s.drop_first();
        assert(run_decrescente(s2)) by {
            assert forall|i: int| 0 <= i < s2.len() - 1 implies menor(s2[i + 1], #[trigger] s2[i]) by {
                assert(s2[i] == s[i + 1]);
                assert(s2[i + 1] == s[i + 2]);
            }
        }
        lema_classe_reverso_decrescente(s2, x);
        assert(s =~= seq![s[0]] + s2);
        assert(s.reverse() =~= s2.reverse() + seq![s[0]]);
        lema_classe_concat(seq![s[0]], s2, x);
        lema_classe_concat(s2.reverse(), seq![s[0]], x);
        if equivalentes(s[0], x) {
            assert forall|i: int| 0 <= i < s2.len() implies !equivalentes(#[trigger] s2[i], x) by {
                lema_run_decrescente_par(s, 0, i + 1);
                assert(s2[i] == s[i + 1]);
            }
            lema_classe_nenhum(s2, x);
            assert(classe(s2.reverse(), x) =~= Seq::<T>::empty());
            assert(classe(s.reverse(), x) =~= classe(s, x));
        } else {
            lema_classe_nenhum(seq![s[0]], x);
            assert(classe(s.reverse(), x) =~= classe(s, x));
        }
    }
}


/// `(i, k - i)` is a valid cut of the merge at rank `k`.
pub open spec fn corte_no_rank<T: Ord>(a: Seq<T>, b: Seq<T>, k: int, i: int) -> bool {
    corte_valido(a, b, i, k - i)
}

/// There is at most one valid cut of the merge at each rank.
pub proof fn lema_corte_unico<T: Ord>(a: Seq<T>, b: Seq<T>, i1: int, j1: int, i2: int, j2: int)
    requires
        ordem_total::<T>(),
        ordenada(a),
        ordenada(b),
        corte_valido(a, b, i1, j1),
        corte_valido(a, b, i2, j2),
        i1 + j1 == i2 + j2,
    ensures
        i1 == i2,
        j1 == j2,
{
    lema_preordem_total::<T>();
    if i1 < i2 {
        assert(menor_igual(a[i2 - 1], b[j2]));
        assert(menor(b[j1 - 1], a[i1]));
        if i1 < i2 - 1 {
            assert(menor_igual(a[i1], a[i2 - 1]));
        }
        if j2 < j1 - 1 {
            assert(menor_igual(b[j2], b[j1 - 1]));
        }
    } else if i2 < i1 {
        assert(menor_igual(a[i1 - 1], b[j1]));
        assert(menor(b[j2 - 1], a[i2]));
        if i2 < i1 - 1 {
            assert(menor_igual(a[i2], a[i1 - 1]));
        }
        if j1 < j2 - 1 {
            assert(menor_igual(b[j1], b[j2 - 1]));
        }
    }
}

/// Every rank from 0 to `a.len() + b.len()` has a valid cut.
pub proof fn lema_corte_existe<T: Ord>(a: Seq<T>, b: Seq<T>, k: int)
    requires
        ordem_total::<T>(),
        ordenada(a),
        ordenada(b),
        0 <= k <= a.len() + b.len(),
    ensures
        exists|i: int| #[trigger] corte_no_rank(a, b, k, i),
    decreases k,
{
    lema_preordem_total::<T>();
    if k == 0 {
        assert(corte_no_rank(a, b, k, 0));
    } else {
        lema_corte_existe(a, b, k - 1);
        let i = choose|i: int| #[trigger] corte_no_rank(a, b, k - 1, i);
        let j = k - 1 - i;
        if i < a.len() && (j == b.len() || menor_igual(a[i], b[j])) {
            if j > 0 && i + 1 < a.len() {
                assert(menor_igual(a[i], a[i + 1]));
            }
            assert(corte_no_rank(a, b, k, i + 1));
        } else {
            if i > 0 && j + 1 < b.len() {
                assert(menor_igual(b[j], b[j + 1]));
            }
            assert(corte_no_rank(a, b, k, i));
        }
    }
}


/// Runs that already follow each other merge into their concatenation.
pub proof fn lema_intercala_em_ordem<T: Ord>(a: Seq<T>, b: Seq<T>)
    requires
        ordem_total::<T>(),
        ordenada(a),
        ordenada(b),
        a.len() > 0 && b.len() > 0 ==> menor_igual(a.last(), b[0]),
    ensures
        intercala(a, b) == a + b,
{
    lema_prefixo_a(a, b, a.len() as int);
    assert(a.take(a.len() as int) =~= a);
    assert(a.skip(a.len() as int) =~= Seq::<T>::empty());
    lema_intercala_vazia(a.skip(a.len() as int), b);
}

/// When all of `b` lies strictly below all of `a`, the merge is `b` then `a`.
pub proof fn lema_intercala_invertida<T: Ord>(a: Seq<T>, b: Seq<T>)
    requires
        ordem_total::<T>(),
        ordenada(a),
        ordenada(b),
        a.len() > 0 && b.len() > 0 ==> menor(b.last(), a[0]),
    ensures
        intercala(a, b) == b + a,
{
    lema_prefixo_b(a, b, b.len() as int);
    assert(b.take(b.len() as int) =~= b);
    assert(b.skip(b.len() as int) =~= Seq::<T>::empty());
    lema_intercala_vazia(a, b.skip(b.len() as int));
}


/// Every key has the same elements, in the same order, in `a` and `b`.
pub open spec fn mesmas_classes<T: Ord>(a: Seq<T>, b: Seq<T>) -> bool {
    forall|x: T| #[trigger] classe(a, x) == classe(b, x)
}

/// Sorting stably what already has the classes of `o` sorts `o` stably.
pub proof fn lema_estavel_por_classes<T: Ord>(o: Seq<T>, f: Seq<T>, g: Seq<T>)
    requires
        o.len() == f.len(),
        mesmas_classes(o, f),
        ordenacao_estavel(f, g),
    ensures
        ordenacao_estavel(o, g),
{
}

/// Keeping the classes of two pieces keeps those of their concatenation.
pub proof fn lema_classes_concat<T: Ord>(a1: Seq<T>, b1: Seq<T>, a2: Seq<T>, b2: Seq<T>)
    requires
        mesmas_classes(a1, b1),
        mesmas_classes(a2, b2),
    ensures
        mesmas_classes(a1 + a2, b1 + b2),
{
    assert forall|x: T| #[trigger] classe(a1 + a2, x) == classe(b1 + b2, x) by {
        lema_classe_concat(a1, a2, x);
        lema_classe_concat(b1, b2, x);
    }
}

} // verus!
