use vstd::prelude::*;
use rayon::slice::ParallelSliceMut;
use rayon::iter::ParallelIterator;
use crate::ordem::{ordem_total, menor_igual, equivalentes, lema_preordem_total, compara_le};
use crate::especificacao::{
    ordenada, ordenacao_estavel, classe, mesmas_classes, run_crescente, run_decrescente, lema_classe_concat,
    lema_classes_concat, lema_estavel_por_classes, lema_run_decrescente_estavel, lema_fatia_ordenada,
    lema_ordenada_estavel,
};
use crate::metadata::{
    metadata_valida, run_valido, lema_meta_push, lema_meta_concat, inicio_bloco, fim_bloco, block_offsets,
    lema_meta_divide, fim_crescente, fim_decrescente, lema_fim_crescente, lema_fim_decrescente,
    trechos_estaveis, lema_trechos_push, lema_trechos_concat,
};
use crate::pim_kernel::{particao_le, ponto_le};
use crate::bottom_up::inverte;

verus! {

/// Shortest run that the chaotic path builds.
pub const MIN_RUN: usize = 32;

/// Elements per chunk whose runs are built by one task.
pub const CHUNK: usize = 65_536;

/// Length of the natural run at the start of `u`: ascending (`<=` between
/// neighbours) when its first pair is, else strictly descending.
pub open spec fn run_natural<T: Ord>(u: Seq<T>) -> int {
    if u.len() <= 1 {
        u.len() as int
    } else if menor_igual(u[0], u[1]) {
        fim_crescente(u, 1)
    } else {
        fim_decrescente(u, 1)
    }
}

/// Length of the run that the chaotic path builds at the start of `u`: the
/// natural run there, lengthened to `min_run` elements or to the end of `u`.
pub open spec fn comprimento_run<T: Ord>(u: Seq<T>, min_run: int) -> int {
    let alvo = if min_run < u.len() { min_run } else { u.len() as int };
    if run_natural(u) < alvo {
        alvo
    } else {
        run_natural(u)
    }
}

/// A run built at the start of a non-empty `u` has between one element and
/// all of them.
pub proof fn lema_comprimento_run<T: Ord>(u: Seq<T>, min_run: int)
    requires
        u.len() >= 1,
        min_run >= 1,
    ensures
        1 <= comprimento_run(u, min_run) <= u.len(),
{
    lema_fim_crescente(u, 1);
    lema_fim_decrescente(u, 1);
}

/// Lengths of the runs that the chaotic path builds in `u`, one after the
/// other from its start.
pub open spec fn runs_de<T: Ord>(u: Seq<T>, min_run: int) -> Seq<i64>
    decreases u.len(),
{
    if u.len() == 0 || min_run < 1 {
        Seq::empty()
    } else {
        let l = comprimento_run(u, min_run);
        proof {
            lema_comprimento_run(u, min_run);
        }
        seq![l as i64] + runs_de(u.skip(l), min_run)
    }
}

/// Lengths of the runs that the chaotic path builds in `u`, chunk by chunk
/// of `CHUNK` elements (no run crosses two chunks).
pub open spec fn runs_por_chunk<T: Ord>(u: Seq<T>, min_run: int) -> Seq<i64>
    decreases u.len(),
{
    if u.len() <= CHUNK {
        runs_de(u, min_run)
    } else {
        runs_de(u.take(CHUNK as int), min_run) + runs_por_chunk(u.skip(CHUNK as int), min_run)
    }
}

/// Inserting `x` where the sorted `p` stops being `<= x` keeps `p` plus `x`
/// stably sorted.
proof fn lema_insercao<T: Ord>(p: Seq<T>, x: T, pos: int)
    requires
        ordem_total::<T>(),
        ordenada(p),
        ponto_le(p, x, pos),
    ensures
        ordenacao_estavel(p.push(x), p.take(pos) + seq![x] + p.skip(pos)),
{
    lema_preordem_total::<T>();
    let q = p.take(pos) + seq![x] + p.skip(pos);
    assert forall|i: int, j: int| 0 <= i < j < q.len() implies #[trigger] menor_igual(q[i], q[j]) by {
        if j < pos {
            assert(menor_igual(p[i], p[j]));
        } else if j == pos {
            assert(q[i] == p[i]);
        } else if i < pos {
            assert(q[j] == p[j - 1]);
            assert(menor_igual(p[i], p[j - 1]));
        } else if i == pos {
            assert(q[j] == p[j - 1]);
            assert(!menor_igual(p[j - 1], x));
        } else {
            assert(menor_igual(p[i - 1], p[j - 1]));
        }
    }
    assert forall|y: T| #[trigger] classe(q, y) == classe(p.push(x), y) by {
        let t = p.take(pos);
        let u = p.skip(pos);
        assert(p =~= t + u);
        lema_classe_concat(t + seq![x], u, y);
        lema_classe_concat(t, seq![x], y);
        lema_classe_concat(t, u, y);
        assert(p.push(x) =~= p + seq![x]);
        lema_classe_concat(p, seq![x], y);
        if equivalentes(x, y) {
            assert forall|i: int| 0 <= i < u.len() implies !equivalentes(#[trigger] u[i], y) by {
                assert(!menor_igual(u[i], x));
                if equivalentes(u[i], y) {
                    assert(menor_igual(u[i], x));
                }
            }
            crate::especificacao::lema_classe_nenhum(u, y);
        } else {
            crate::especificacao::lema_classe_nenhum(seq![x], y);
        }
    }
}

/// Binary insertion sort of `arr`, whose first `ja_ordenado` elements are
/// already sorted: each further element goes after the last element that
/// does not exceed it, so ties keep their order.
fn insercao_binaria<T: Ord + Copy>(arr: &mut [T], ja_ordenado: usize)
    requires
        ordem_total::<T>(),
        ja_ordenado <= old(arr)@.len(),
        ordenada(old(arr)@.take(ja_ordenado as int)),
    ensures
        ordenacao_estavel(old(arr)@, final(arr)@),
{
    let ghost o = arr@;
    let n = arr.len();
    let mut i: usize = if ja_ordenado > 1 { ja_ordenado } else { 1 };
    if n == 0 {
        proof {
            lema_ordenada_estavel(o);
        }
        return;
    }
    proof {
        if ja_ordenado <= 1 {
            assert(ordenada(o.take(1)));
        }
        lema_ordenada_estavel(o.take(i as int));
    }
    while i < n
        invariant
            ordem_total::<T>(),
            n == o.len(),
            arr@.len() == n,
            1 <= i <= n,
            ordenacao_estavel(o.take(i as int), arr@.take(i as int)),
            arr@.skip(i as int) == o.skip(i as int),
        decreases n - i,
    {
        let ghost p = arr@.take(i as int);
        let x = arr[i];
        proof {
            assert(x == arr@.skip(i as int)[0]);
            assert(x == o[i as int]);
        }
        let prefixo = vstd::slice::slice_subrange(arr, 0, i);
        let pos = particao_le(prefixo, &x);
        proof {
            assert(prefixo@ =~= p);
            assert forall|t: int| i < t < n implies #[trigger] arr@[t] == o[t] by {
                assert(arr@.skip(i as int)[t - i] == o.skip(i as int)[t - i]);
            }
        }
        let mut k = i;
        while k > pos
            invariant
                n == arr@.len(),
                pos <= k <= i < n,
                forall|t: int| 0 <= t < pos ==> #[trigger] arr@[t] == p[t],
                forall|t: int| pos <= t < k ==> #[trigger] arr@[t] == p[t],
                forall|t: int| k < t <= i ==> #[trigger] arr@[t] == p[t - 1],
                forall|t: int| i < t < n ==> #[trigger] arr@[t] == o[t],
            decreases k - pos,
        {
            let y = arr[k - 1];
            arr[k] = y;
            k = k - 1;
        }
        arr[pos] = x;
        proof {
            lema_insercao(p, x, pos as int);
            assert(arr@.take(i + 1) =~= p.take(pos as int) + seq![x] + p.skip(pos as int));
            assert(o.take(i + 1) =~= o.take(i as int).push(x));
            crate::especificacao::lema_classes_concat(o.take(i as int), p, seq![x], seq![x]);
            assert(o.take(i as int) + seq![x] =~= o.take(i + 1));
            assert(p + seq![x] =~= p.push(x));
            lema_estavel_por_classes(o.take(i + 1), p.push(x), arr@.take(i + 1));
            assert(arr@.skip(i + 1) =~= o.skip(i + 1)) by {
                assert forall|t: int| 0 <= t < n - i - 1 implies #[trigger] arr@.skip(i + 1)[t] == o.skip(i + 1)[t] by {
                    assert(arr@[i + 1 + t] == o[i + 1 + t]);
                }
            }
        }
        i = i + 1;
    }
    proof {
        assert(o.take(n as int) =~= o);
        assert(arr@.take(n as int) =~= arr@);
    }
}

/// Reverses `c[ini..fim]`, leaving the rest as it is.
fn inverte_faixa<T: Copy>(c: &mut [T], ini: usize, fim: usize)
    requires
        ini <= fim <= old(c)@.len(),
    ensures
        final(c)@ == old(c)@.take(ini as int) + old(c)@.subrange(ini as int, fim as int).reverse() + old(c)@.skip(fim as int),
{
    let ghost o = c@;
    let (antes, resto) = c.split_at_mut(ini);
    let (meio, depois) = resto.split_at_mut(fim - ini);
    inverte(meio);
    assert(final(c)@ =~= o.take(ini as int) + o.subrange(ini as int, fim as int).reverse() + o.skip(fim as int));
}

/// Sorts `c[ini..fim]` by binary insertion, its first `ja` elements being
/// already sorted, leaving the rest as it is.
fn insere_faixa<T: Ord + Copy>(c: &mut [T], ini: usize, fim: usize, ja: usize)
    requires
        ordem_total::<T>(),
        ini <= ini + ja <= fim <= old(c)@.len(),
        ordenada(old(c)@.subrange(ini as int, ini + ja)),
    ensures
        final(c)@.len() == old(c)@.len(),
        final(c)@.take(ini as int) == old(c)@.take(ini as int),
        final(c)@.skip(fim as int) == old(c)@.skip(fim as int),
        ordenacao_estavel(old(c)@.subrange(ini as int, fim as int), final(c)@.subrange(ini as int, fim as int)),
{
    let ghost o = c@;
    let (antes, resto) = c.split_at_mut(ini);
    let (meio, depois) = resto.split_at_mut(fim - ini);
    let ghost m0 = meio@;
    proof {
        assert(m0.take(ja as int) =~= o.subrange(ini as int, ini + ja));
    }
    insercao_binaria(meio, ja);
    assert(final(c)@.take(ini as int) =~= o.take(ini as int));
    assert(final(c)@.skip(fim as int) =~= o.skip(fim as int));
    assert(final(c)@.subrange(ini as int, fim as int) =~= meio@);
    assert(o.subrange(ini as int, fim as int) =~= m0);
}

/// Builds the run of `c` that starts at `head`: the natural run there,
/// taken as it is when ascending and reversed when strictly descending, and
/// extended by binary insertion to `min_run` elements (or to the end).
/// Returns where the run ends; nothing outside the run moves.
fn proximo_run<T: Ord + Copy>(c: &mut [T], head: usize, min_run: usize) -> (tail: usize)
    requires
        ordem_total::<T>(),
        min_run >= 1,
        head < old(c)@.len(),
    ensures
        final(c)@.len() == old(c)@.len(),
        head < tail <= old(c)@.len(),
        final(c)@.take(head as int) == old(c)@.take(head as int),
        final(c)@.skip(tail as int) == old(c)@.skip(tail as int),
        ordenacao_estavel(old(c)@.subrange(head as int, tail as int), final(c)@.subrange(head as int, tail as int)),
        tail - head == comprimento_run(old(c)@.skip(head as int), min_run as int),
{
    let ghost o = c@;
    let ghost u = o.skip(head as int);
    let n = c.len();
    proof {
        lema_preordem_total::<T>();
    }
    let mut tail = head + 1;
    if tail < n {
        if compara_le(&c[head], &c[tail]) {
            while tail < n && compara_le(&c[tail - 1], &c[tail])
                invariant
                    ordem_total::<T>(),
                    c@ == o,
                    n == c@.len(),
                    head < tail <= n,
                    run_crescente(c@.subrange(head as int, tail as int)),
                    u == o.skip(head as int),
                    fim_crescente(u, tail - head) == fim_crescente(u, 1),
                decreases n - tail,
            {
                proof {
                    let s1 = c@.subrange(head as int, tail + 1);
                    assert forall|t: int| 0 <= t < s1.len() - 1 implies menor_igual(#[trigger] s1[t], s1[t + 1]) by {
                        if t < tail - head - 1 {
                            assert(s1[t] == c@.subrange(head as int, tail as int)[t]);
                            assert(s1[t + 1] == c@.subrange(head as int, tail as int)[t + 1]);
                        }
                    }
                }
                tail = tail + 1;
            }
            proof {
                crate::especificacao::lema_run_crescente(c@.subrange(head as int, tail as int));
                lema_ordenada_estavel(c@.subrange(head as int, tail as int));
            }
        } else {
            while tail < n && !compara_le(&c[tail - 1], &c[tail])
                invariant
                    ordem_total::<T>(),
                    c@ == o,
                    n == c@.len(),
                    head < tail <= n,
                    run_decrescente(c@.subrange(head as int, tail as int)),
                    u == o.skip(head as int),
                    fim_decrescente(u, tail - head) == fim_decrescente(u, 1),
                decreases n - tail,
            {
                proof {
                    let s1 = c@.subrange(head as int, tail + 1);
                    assert forall|t: int| 0 <= t < s1.len() - 1 implies crate::ordem::menor(s1[t + 1], #[trigger] s1[t]) by {
                        if t < tail - head - 1 {
                            assert(s1[t] == c@.subrange(head as int, tail as int)[t]);
                            assert(s1[t + 1] == c@.subrange(head as int, tail as int)[t + 1]);
                        }
                    }
                }
                tail = tail + 1;
            }
            proof {
                lema_run_decrescente_estavel(c@.subrange(head as int, tail as int));
            }
            inverte_faixa(c, head, tail);
            proof {
                assert(c@.subrange(head as int, tail as int) =~= o.subrange(head as int, tail as int).reverse());
            }
        }
    } else {
        proof {
            lema_ordenada_estavel(c@.subrange(head as int, tail as int));
        }
    }
    let ghost c1 = c@;
    proof {
        assert(ordenacao_estavel(o.subrange(head as int, tail as int), c1.subrange(head as int, tail as int)));
        assert(c1.take(head as int) =~= o.take(head as int));
        assert(c1.skip(tail as int) =~= o.skip(tail as int));
    }
    let alvo = if min_run < n - head { head + min_run } else { n };
    if tail < alvo {
        proof {
            assert(c@.subrange(head as int, head + (tail - head)) =~= c1.subrange(head as int, tail as int));
        }
        insere_faixa(c, head, alvo, tail - head);
        proof {
            let antes = c1.subrange(head as int, alvo as int);
            assert(antes =~= c1.subrange(head as int, tail as int) + o.subrange(tail as int, alvo as int)) by {
                assert forall|t: int| tail <= t < alvo implies #[trigger] c1[t] == o[t] by {
                    assert(c1.skip(tail as int)[t - tail] == o.skip(tail as int)[t - tail]);
                }
            }
            assert(o.subrange(head as int, alvo as int) =~= o.subrange(head as int, tail as int) + o.subrange(tail as int, alvo as int));
            lema_classes_concat(o.subrange(head as int, tail as int), c1.subrange(head as int, tail as int), o.subrange(tail as int, alvo as int), o.subrange(tail as int, alvo as int));
            lema_estavel_por_classes(o.subrange(head as int, alvo as int), antes, c@.subrange(head as int, alvo as int));
            assert(c@.skip(alvo as int) =~= o.skip(alvo as int)) by {
                assert forall|t: int| 0 <= t < n - alvo implies #[trigger] c@.skip(alvo as int)[t] == o.skip(alvo as int)[t] by {
                    assert(c@.skip(alvo as int)[t] == c1.skip(alvo as int)[t]);
                    assert(c1.skip(tail as int)[t + alvo - tail] == o.skip(tail as int)[t + alvo - tail]);
                }
            }
            assert(c@.take(head as int) =~= c1.take(head as int));
        }
        alvo
    } else {
        tail
    }
}

/// Cuts `c` into ascending runs of at least `min_run` elements (fewer only
/// at the end), built by `proximo_run` one after the other, and returns the
/// run lengths: those of `runs_de`, each run the stable sort of the same
/// piece of the input.
pub fn runs_minimos<T: Ord + Copy>(c: &mut [T], min_run: usize) -> (r: Vec<i64>)
    requires
        ordem_total::<T>(),
        min_run >= 1,
        old(c)@.len() <= i64::MAX,
    ensures
        final(c)@.len() == old(c)@.len(),
        mesmas_classes(old(c)@, final(c)@),
        metadata_valida(final(c)@, r@),
        forall|i: int| 0 <= i < r@.len() ==> #[trigger] r@[i] > 0,
        r@ == runs_de(old(c)@, min_run as int),
        trechos_estaveis(old(c)@, final(c)@, r@),
{
    let ghost o = c@;
    let n = c.len();
    let mut meta: Vec<i64> = Vec::new();
    let mut head: usize = 0;
    proof {
        assert(c@.take(0) =~= Seq::<T>::empty());
        assert(o.take(0) =~= Seq::<T>::empty());
        assert(c@.skip(0) =~= o);
        assert(o.skip(0) =~= o);
        assert(meta@ + runs_de(o.skip(0), min_run as int) =~= runs_de(o, min_run as int));
    }
    while head < n
        invariant
            ordem_total::<T>(),
            min_run >= 1,
            n == o.len(),
            n <= i64::MAX,
            c@.len() == n,
            head <= n,
            c@.skip(head as int) == o.skip(head as int),
            metadata_valida(c@.take(head as int), meta@),
            mesmas_classes(o.take(head as int), c@.take(head as int)),
            forall|i: int| 0 <= i < meta@.len() ==> #[trigger] meta@[i] > 0,
            meta@ + runs_de(o.skip(head as int), min_run as int) == runs_de(o, min_run as int),
            trechos_estaveis(o.take(head as int), c@.take(head as int), meta@),
        decreases n - head,
    {
        let ghost c0 = c@;
        let ghost m0 = meta@;
        let tail = proximo_run(c, head, min_run);
        proof {
            lema_preordem_total::<T>();
            let seg = c@.subrange(head as int, tail as int);
            assert(c0.subrange(head as int, tail as int) =~= o.subrange(head as int, tail as int)) by {
                assert forall|t: int| 0 <= t < tail - head implies #[trigger] c0.subrange(head as int, tail as int)[t] == o.subrange(head as int, tail as int)[t] by {
                    assert(c0.skip(head as int)[t] == o.skip(head as int)[t]);
                }
            }
            assert(ordenacao_estavel(o.subrange(head as int, tail as int), seg));
            assert(run_crescente(seg)) by {
                assert forall|t: int| 0 <= t < seg.len() - 1 implies menor_igual(#[trigger] seg[t], seg[t + 1]) by {
                    assert(ordenada(seg));
                }
            }
            assert(run_valido(seg, (tail - head) as i64));
            lema_meta_push(c@, meta@, head as int, tail as int, (tail - head) as i64);
            lema_classes_concat(o.take(head as int), c@.take(head as int), o.subrange(head as int, tail as int), seg);
            assert(o.take(head as int) + o.subrange(head as int, tail as int) =~= o.take(tail as int));
            assert(c@.take(head as int) + seg =~= c@.take(tail as int));
            assert(c@.skip(tail as int) =~= o.skip(tail as int)) by {
                assert forall|t: int| 0 <= t < n - tail implies #[trigger] c@.skip(tail as int)[t] == o.skip(tail as int)[t] by {
                    assert(c@.skip(tail as int)[t] == c0.skip(tail as int)[t]);
                    assert(c0.skip(head as int)[t + tail - head] == o.skip(head as int)[t + tail - head]);
                }
            }
            let u = o.skip(head as int);
            let l = (tail - head) as int;
            assert(c0.skip(head as int) == u);
            assert(u.skip(l) =~= o.skip(tail as int));
            assert(runs_de(u, min_run as int) == seq![l as i64] + runs_de(u.skip(l), min_run as int));
            assert(m0.push(l as i64) + runs_de(o.skip(tail as int), min_run as int) =~= m0 + runs_de(u, min_run as int));
            assert(c@.take(head as int) =~= c0.take(head as int));
            lema_trechos_push(o.take(head as int), c@.take(head as int), m0, o.subrange(head as int, tail as int), seg);
        }
        meta.push((tail - head) as i64);
        head = tail;
    }
    proof {
        assert(c@.take(n as int) =~= c@);
        assert(o.take(n as int) =~= o);
        assert(meta@ + runs_de(o.skip(n as int), min_run as int) =~= meta@);
    }
    meta
}

/// Chunk `t` of `f` (from `o`) is cut into the ascending runs `p`, with the
/// same elements of every key as in `o`: the runs that `runs_minimos` builds
/// in that chunk of `o`, each the stable sort of the same piece of `o`.
pub open spec fn parte_valida<T: Ord>(o: Seq<T>, f: Seq<T>, p: Seq<i64>, t: int, min_run: int) -> bool {
    let lo = inicio_bloco(t, CHUNK as int);
    let hi = fim_bloco(t, CHUNK as int, CHUNK as int, o.len() as int);
    &&& mesmas_classes(o.subrange(lo, hi), f.subrange(lo, hi))
    &&& metadata_valida(f.subrange(lo, hi), p)
    &&& forall|j: int| 0 <= j < p.len() ==> #[trigger] p[j] > 0
    &&& p == runs_de(o.subrange(lo, hi), min_run)
    &&& trechos_estaveis(o.subrange(lo, hi), f.subrange(lo, hi), p)
}

/// Builds the runs of every chunk of `CHUNK` elements of `arr` with
/// `runs_minimos`, the chunks in parallel: rayon's `par_chunks_mut`, which
/// hands out non-overlapping chunks of exactly `CHUNK` elements but the
/// last, `map`, which runs the closure on every chunk, and `collect`, which
/// keeps the chunks' order.
#[verifier::external_body]
fn runs_minimos_par<T: Ord + Copy + Send + Sync>(arr: &mut [T], min_run: usize) -> (r: Vec<Vec<i64>>)
    requires
        ordem_total::<T>(),
        min_run >= 1,
        old(arr)@.len() <= i64::MAX,
    ensures
        final(arr)@.len() == old(arr)@.len(),
        r@.len() == (old(arr)@.len() + CHUNK - 1) / (CHUNK as int),
        forall|i: int| 0 <= i < r@.len() ==> parte_valida(old(arr)@, final(arr)@, #[trigger] r@[i]@, i, min_run as int),
{
    arr.par_chunks_mut(CHUNK).map(|c| runs_minimos(c, min_run)).collect()
}

/// Cuts `arr` into ascending runs of at least `min_run` elements, chunk by
/// chunk in parallel (runs do not cross chunks of `CHUNK` elements), and
/// returns the run lengths in order: those of `runs_por_chunk`, each run the
/// stable sort of the same piece of the input.
pub fn build_min_runs<T: Ord + Copy + Send + Sync>(arr: &mut [T], min_run: usize) -> (r: Vec<i64>)
    requires
        ordem_total::<T>(),
        min_run >= 1,
        old(arr)@.len() <= i64::MAX,
    ensures
        final(arr)@.len() == old(arr)@.len(),
        mesmas_classes(old(arr)@, final(arr)@),
        metadata_valida(final(arr)@, r@),
        forall|i: int| 0 <= i < r@.len() ==> #[trigger] r@[i] > 0,
        r@ == runs_por_chunk(old(arr)@, min_run as int),
        trechos_estaveis(old(arr)@, final(arr)@, r@),
{
    let ghost o = arr@;
    let n = arr.len();
    let partes = runs_minimos_par(arr, min_run);
    let ghost f = arr@;
    let mut meta: Vec<i64> = Vec::new();
    let mut i: usize = 0;
    let mut ini: usize = 0;
    proof {
        assert(f.take(0) =~= Seq::<T>::empty());
        assert(o.take(0) =~= Seq::<T>::empty());
        assert(o.skip(0) =~= o);
        assert(meta@ + runs_por_chunk(o.skip(0), min_run as int) =~= runs_por_chunk(o, min_run as int));
    }
    while i < partes.len()
        invariant
            n == o.len(),
            n == f.len(),
            n <= i64::MAX,
            f == arr@,
            partes@.len() == (n + CHUNK - 1) / (CHUNK as int),
            forall|t: int| 0 <= t < partes@.len() ==> parte_valida(o, f, #[trigger] partes@[t]@, t, min_run as int),
            i <= partes@.len(),
            ini == (if i * CHUNK < n { i * CHUNK } else { n as int }),
            metadata_valida(f.take(ini as int), meta@),
            mesmas_classes(o.take(ini as int), f.take(ini as int)),
            forall|t: int| 0 <= t < meta@.len() ==> #[trigger] meta@[t] > 0,
            meta@ + runs_por_chunk(o.skip(ini as int), min_run as int) == runs_por_chunk(o, min_run as int),
            trechos_estaveis(o.take(ini as int), f.take(ini as int), meta@),
        decreases partes@.len() - i,
    {
        proof {
            assert(i * CHUNK < n) by (nonlinear_arith)
                requires
                    i < (n + CHUNK - 1) / (CHUNK as int),
                    CHUNK == 65536,
            ;
        }
        let fim = if n - ini > CHUNK { ini + CHUNK } else { n };
        let parte = &partes[i];
        let ghost antes = meta@;
        let mut j: usize = 0;
        while j < parte.len()
            invariant
                j <= parte@.len(),
                meta@ == antes + parte@.take(j as int),
            decreases parte@.len() - j,
        {
            meta.push(parte[j]);
            proof {
                assert(parte@.take(j + 1) =~= parte@.take(j as int).push(parte@[j as int]));
            }
            j = j + 1;
        }
        proof {
            assert(parte@.take(parte@.len() as int) =~= parte@);
            assert(inicio_bloco(i as int, CHUNK as int) == ini);
            assert(fim_bloco(i as int, CHUNK as int, CHUNK as int, n as int) == fim);
            let sub = f.subrange(ini as int, fim as int);
            assert(parte_valida(o, f, partes@[i as int]@, i as int, min_run as int));
            assert(metadata_valida(sub, partes@[i as int]@));
            lema_meta_concat(f.take(ini as int), antes, sub, parte@);
            assert(f.take(ini as int) + sub =~= f.take(fim as int));
            lema_classes_concat(o.take(ini as int), f.take(ini as int), o.subrange(ini as int, fim as int), sub);
            assert(o.take(ini as int) + o.subrange(ini as int, fim as int) =~= o.take(fim as int));
            assert forall|t: int| 0 <= t < meta@.len() implies #[trigger] meta@[t] > 0 by {
                if t >= antes.len() {
                    assert(meta@[t] == partes@[i as int]@[t - antes.len()]);
                }
            }
            vstd::arithmetic::mul::lemma_mul_is_distributive_add_other_way(CHUNK as int, i as int, 1);
            let u = o.skip(ini as int);
            let resto = runs_por_chunk(o.skip(fim as int), min_run as int);
            if n - ini > CHUNK {
                assert(u.take(CHUNK as int) =~= o.subrange(ini as int, fim as int));
                assert(u.skip(CHUNK as int) =~= o.skip(fim as int));
            } else {
                assert(u =~= o.subrange(ini as int, fim as int));
                assert(o.skip(fim as int).len() == 0);
                assert(resto == runs_de(o.skip(fim as int), min_run as int));
                assert(resto =~= Seq::<i64>::empty());
            }
            assert(runs_por_chunk(u, min_run as int) == parte@ + resto);
            assert(meta@ + resto =~= antes + (parte@ + resto));
            lema_trechos_concat(o.take(ini as int), f.take(ini as int), antes, o.subrange(ini as int, fim as int), sub, parte@);
        }
        ini = fim;
        i = i + 1;
    }
    proof {
        assert((partes@.len() as int) * CHUNK >= n) by (nonlinear_arith)
            requires
                partes@.len() == (n + CHUNK - 1) / (CHUNK as int),
                CHUNK == 65536,
        ;
        assert(f.take(n as int) =~= f);
        assert(o.take(n as int) =~= o);
        assert(o.skip(n as int).len() == 0);
        assert(runs_por_chunk(o.skip(n as int), min_run as int) =~= Seq::<i64>::empty());
        assert(meta@ + runs_por_chunk(o.skip(n as int), min_run as int) =~= meta@);
    }
    meta
}

/// Sorts every block of `bloco` elements of `arr` (the last one may be
/// shorter), the blocks in parallel, and returns their lengths; each block
/// is the stable sort of the same block of the input.
pub fn build_blocos<T: Ord + Copy + Send + Sync>(arr: &mut [T], bloco: usize) -> (r: Vec<i64>)
    requires
        ordem_total::<T>(),
        bloco >= 1,
        old(arr)@.len() <= i64::MAX,
    ensures
        final(arr)@.len() == old(arr)@.len(),
        mesmas_classes(old(arr)@, final(arr)@),
        metadata_valida(final(arr)@, r@),
        r@.len() >= 1 <==> old(arr)@.len() >= 1,
        forall|i: int| 0 <= i < r@.len() ==> #[trigger] r@[i] > 0,
        forall|i: int| 0 <= i < r@.len() ==> #[trigger] r@[i] == fim_bloco(i, bloco as int, bloco as int, old(arr)@.len() as int) - inicio_bloco(i, bloco as int),
        trechos_estaveis(old(arr)@, final(arr)@, r@),
{
    let n = arr.len();
    if bloco > n && n > 0 {
        let r = crate::blocos::ordena_blocos(arr, n, false);
        proof {
            assert forall|i: int| 0 <= i < r@.len() implies #[trigger] r@[i] == fim_bloco(i, bloco as int, bloco as int, n as int) - inicio_bloco(i, bloco as int) by {
                lema_meta_divide(arr@, r@, 0);
                if i > 0 {
                    assert(r@[0] == n);
                    assert(r@[i] == fim_bloco(i, n as int, n as int, n as int) - inicio_bloco(i, n as int));
                    vstd::arithmetic::mul::lemma_mul_inequality(1, i, n as int);
                }
            }
        }
        r
    } else {
        crate::blocos::ordena_blocos(arr, if bloco > n { 1 } else { bloco }, false)
    }
}

/// Stably sorts `arr` from the ascending runs that `metadata` describes:
/// nothing to do for a single run, else the bottom-up k-way merge with
/// leaves of `folha` elements.
pub fn mescla_runs<T: Ord + Copy + Send + Sync>(arr: &mut [T], metadata: Vec<i64>, folha: usize)
    requires
        ordem_total::<T>(),
        folha >= 1,
        old(arr)@.len() >= 1,
        old(arr)@.len() <= usize::MAX / 64,
        metadata_valida(old(arr)@, metadata@),
        forall|i: int| 0 <= i < metadata@.len() ==> #[trigger] metadata@[i] > 0,
    ensures
        ordenacao_estavel(old(arr)@, final(arr)@),
{
    let ghost o = arr@;
    proof {
        lema_meta_divide(o, metadata@, 0);
        assert forall|i: int| 0 <= i < metadata@.len() implies #[trigger] metadata@[i] != i64::MIN by {
            assert(metadata@[i] > 0);
        }
    }
    if metadata.len() == 1 {
        proof {
            crate::bottom_up::lema_um_run(o, metadata@);
            crate::bottom_up::lema_um_run_estavel(o, metadata@[0]);
        }
        return;
    }
    let offsets = block_offsets(metadata.as_slice());
    proof {
        assert(offsets@[0] == 0) by {
            assert(metadata@.take(0) =~= Seq::<i64>::empty());
        }
    }
    let mut buffer = vec![arr[0]; arr.len()];
    crate::kway::bottom_up_merge_pim_kway(
        arr,
        buffer.as_mut_slice(),
        metadata.as_slice(),
        offsets.as_slice(),
        folha,
        false,
        false,
    );
}

/// Sorts chaotic input by building runs of at least `min_run` elements and
/// merging them bottom-up with k-way merges; up to a leaf, one stable sort.
pub fn sort_caotico<T: Ord + Copy + Send + Sync>(arr: &mut [T], min_run: usize)
    requires
        ordem_total::<T>(),
        min_run >= 1,
        old(arr)@.len() <= usize::MAX / 64,
    ensures
        ordenacao_estavel(old(arr)@, final(arr)@),
{
    let n = arr.len();
    let folha = crate::tamanho_folha_config::<T>(crate::PimConfig::default());
    if n <= folha {
        crate::blocos::ordena_bloco(arr, false);
        return;
    }
    let ghost o = arr@;
    let metadata = build_min_runs(arr, min_run);
    let ghost f = arr@;
    mescla_runs(arr, metadata, folha);
    proof {
        lema_estavel_por_classes(o, f, arr@);
    }
}

/// Sorts `arr` by sorting blocks of `bloco` elements in parallel and
/// merging them bottom-up with k-way merges; up to a leaf, one stable sort.
pub fn sort_blocos<T: Ord + Copy + Send + Sync>(arr: &mut [T], bloco: usize)
    requires
        ordem_total::<T>(),
        bloco >= 1,
        old(arr)@.len() <= usize::MAX / 64,
    ensures
        ordenacao_estavel(old(arr)@, final(arr)@),
{
    let n = arr.len();
    let folha = crate::tamanho_folha_config::<T>(crate::PimConfig::default());
    if n <= folha {
        crate::blocos::ordena_bloco(arr, false);
        return;
    }
    let ghost o = arr@;
    let metadata = build_blocos(arr, bloco);
    let ghost f = arr@;
    mescla_runs(arr, metadata, folha);
    proof {
        lema_estavel_por_classes(o, f, arr@);
    }
}

} // verus!
