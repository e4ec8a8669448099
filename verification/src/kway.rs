use vstd::prelude::*;
use crate::ordem::{ordem_total, menor_igual, lema_preordem_total};
use crate::especificacao::{
    ordenada, intercala, classe, mesmas_classes, lema_intercala_len, lema_intercala_ordenada, lema_classe_intercala,
    lema_fatia_ordenada, lema_classes_concat,
};
use crate::multicorte::{
    soma, inteiros, vistas, concatena, todas_ordenadas, tamanhos, corte_multi, prefixos, fatias, KWAY_FANOUT,
    multiseq_partition, lema_concatena_len, lema_concatena_vazia, lema_corte_restrito, lema_corte_divide,
    lema_corte_janela, lema_soma_soma, lema_soma_menor, lema_soma_nao_negativa,
};
use crate::especificacao::{ordenacao_estavel, lema_intercala_estavel, lema_ordenada_estavel, lema_intercala_em_ordem};
use crate::metadata::{
    metadata_valida, offsets_validos, soma_runs, tamanho_run, run_valido, lema_meta_divide, lema_offsets_divide,
    lema_soma_concat,
};
use crate::bottom_up::{
    lema_um_run, lema_um_run_estavel, copia_invertida, parallel_reverse, primeiro_nao_menor, lema_offsets_crescentes,
};
use crate::cut::{merge_front, merge_bidirecional, Nucleo};
use crate::pim_kernel::{particao_le, particao_lt, ponto_le, ponto_lt};
use crate::ordem::{menor, compara_le};
use crate::especificacao::{lema_prefixo_a, lema_prefixo_b, lema_sufixo_a, lema_sufixo_b, lema_corte, corte_valido};
use crate::pim_kernel::copia_faixa;

verus! {

/// Where segment `c` starts when segments of lengths `lens` lie end to end.
pub open spec fn inicio_seg(lens: Seq<usize>, c: int) -> int {
    soma(inteiros(lens).take(c))
}

/// Segment `c` of `buf` cut into segments of lengths `lens`.
pub open spec fn segmento<T>(buf: Seq<T>, lens: Seq<usize>, c: int) -> Seq<T> {
    buf.subrange(inicio_seg(lens, c), inicio_seg(lens, c) + lens[c])
}

/// `buf` begins with sorted segments of lengths `lens`.
pub open spec fn segmentos_ordenados<T: Ord>(buf: Seq<T>, lens: Seq<usize>) -> bool {
    &&& soma(inteiros(lens)) <= buf.len()
    &&& forall|c: int| 0 <= c < lens.len() ==> ordenada(#[trigger] segmento(buf, lens, c))
}

pub proof fn lema_inicio_seg(lens: Seq<usize>, c: int)
    requires
        0 <= c < lens.len(),
    ensures
        inicio_seg(lens, c + 1) == inicio_seg(lens, c) + lens[c],
        0 <= inicio_seg(lens, c),
        inicio_seg(lens, c + 1) <= soma(inteiros(lens)),
{
    assert(inteiros(lens).take(c + 1).drop_last() =~= inteiros(lens).take(c));
    crate::multicorte::lema_soma_nao_negativa(inteiros(lens).take(c));
    crate::multicorte::lema_soma_prefixo(inteiros(lens), c + 1);
}

/// The whole of `buf` is its first `soma` elements when that is its length.
proof fn lema_inicio_total(lens: Seq<usize>)
    ensures
        inicio_seg(lens, lens.len() as int) == soma(inteiros(lens)),
{
    assert(inteiros(lens).take(lens.len() as int) =~= inteiros(lens));
}

/// Writes the stable merge of the sorted `a` and `b` into `dst` at `off`.
fn intercala_em<T: Ord + Copy>(a: &[T], b: &[T], dst: &mut [T], off: usize)
    requires
        ordem_total::<T>(),
        ordenada(a@),
        ordenada(b@),
        off + a@.len() + b@.len() <= old(dst)@.len(),
    ensures
        final(dst)@ == old(dst)@.take(off as int) + intercala(a@, b@) + old(dst)@.skip(off + a@.len() + b@.len()),
{
    let n = dst.len();
    let l = a.len() + b.len();
    let ghost d0 = dst@;
    let (d_antes, resto) = dst.split_at_mut(off);
    let (d_meio, d_depois) = resto.split_at_mut(l);
    merge_front(a, b, d_meio);
    proof {
        lema_intercala_len(a@, b@);
        assert(intercala(a@, b@).take(l as int) =~= intercala(a@, b@));
    }
    assert(final(dst)@ =~= d0.take(off as int) + intercala(a@, b@) + d0.skip(off + l));
}

/// Length of segment `c` after one level of a merge tree over segments of
/// lengths `lens`: the two segments `2c` and `2c + 1`, or the odd last one.
pub open spec fn comprimento_par(lens: Seq<usize>, c: int) -> int {
    if 2 * c + 1 < lens.len() {
        lens[2 * c] + lens[2 * c + 1]
    } else {
        lens[2 * c] as int
    }
}

/// Segment `c` after one level of a merge tree over the segments of `src`
/// of lengths `lens`: the stable merge of segments `2c` and `2c + 1`, or
/// the odd last one as it is.
pub open spec fn segmento_par<T: Ord>(src: Seq<T>, lens: Seq<usize>, c: int) -> Seq<T> {
    if 2 * c + 1 < lens.len() {
        intercala(segmento(src, lens, 2 * c), segmento(src, lens, 2 * c + 1))
    } else {
        segmento(src, lens, 2 * c)
    }
}

/// One level of a merge tree: the sorted segments of `src` (lengths
/// `lens`) are merged two by two, in order, into `dst`; an odd last one is
/// copied. Returns the lengths of the new segments; `dst` past them is left
/// as it was.
#[verifier::spinoff_prover]
#[verifier::rlimit(40)]
pub fn merge_level<T: Ord + Copy>(src: &[T], lens: &[usize], dst: &mut [T]) -> (out: Vec<usize>)
    requires
        ordem_total::<T>(),
        segmentos_ordenados(src@, lens@),
        soma(inteiros(lens@)) <= old(dst)@.len(),
        lens@.len() <= crate::multicorte::KWAY_FANOUT,
    ensures
        final(dst)@.len() == old(dst)@.len(),
        out@.len() == (lens@.len() + 1) / 2,
        soma(inteiros(out@)) == soma(inteiros(lens@)),
        segmentos_ordenados(final(dst)@, out@),
        mesmas_classes(
            final(dst)@.take(soma(inteiros(lens@))),
            src@.take(soma(inteiros(lens@))),
        ),
        forall|c: int| 0 <= c < out@.len() ==> #[trigger] out@[c] == comprimento_par(lens@, c),
        forall|c: int| 0 <= c < out@.len() ==> #[trigger] segmento(final(dst)@, out@, c) == segmento_par(src@, lens@, c),
        final(dst)@.skip(soma(inteiros(lens@))) == old(dst)@.skip(soma(inteiros(lens@))),
{
    let n_dst = dst.len();
    let mut out: Vec<usize> = Vec::new();
    let mut off: usize = 0;
    let mut i: usize = 0;
    let ghost total = soma(inteiros(lens@));
    proof {
        lema_inicio_total(lens@);
        crate::multicorte::lema_soma_nao_negativa(inteiros(lens@));
        assert(inteiros(lens@).take(0) =~= Seq::<int>::empty());
        assert(dst@.take(0) =~= Seq::<T>::empty());
        assert(src@.take(0) =~= Seq::<T>::empty());
    }
    while i < lens.len()
        invariant
            ordem_total::<T>(),
            segmentos_ordenados(src@, lens@),
            total == soma(inteiros(lens@)),
            lens@.len() <= crate::multicorte::KWAY_FANOUT,
            total <= dst@.len(),
            dst@.len() == old(dst)@.len(),
            dst@.len() == n_dst,
            i <= lens@.len() + 1,
            i % 2 == 0,
            i >= lens@.len() ==> i <= lens@.len() + 1 && off == total,
            i < lens@.len() ==> off == inicio_seg(lens@, i as int),
            out@.len() == i / 2,
            soma(inteiros(out@)) == off,
            off <= total,
            forall|c: int| 0 <= c < out@.len() ==> ordenada(#[trigger] segmento(dst@, out@, c)),
            mesmas_classes(dst@.take(off as int), src@.take(off as int)),
            forall|c: int| 0 <= c < out@.len() ==> #[trigger] out@[c] == comprimento_par(lens@, c),
            forall|c: int| 0 <= c < out@.len() ==> #[trigger] segmento(dst@, out@, c) == segmento_par(src@, lens@, c),
            dst@.skip(off as int) == old(dst)@.skip(off as int),
        decreases lens@.len() + 1 - i,
    {
        let ghost d0 = dst@;
        let ghost out0 = out@;
        proof {
            lema_inicio_seg(lens@, i as int);
            lema_inicio_total(lens@);
            assert(ordenada(segmento(src@, lens@, i as int)));
        }
        let l1 = lens[i];
        let a = vstd::slice::slice_subrange(src, off, off + l1);
        let l: usize;
        if i + 1 == lens.len() {
            copia_faixa(src, off, dst, off, l1);
            l = l1;
            proof {
                assert(src@.subrange(off as int, off + l1) == segmento(src@, lens@, i as int));
            }
        } else {
            proof {
                lema_inicio_seg(lens@, i + 1);
                assert(ordenada(segmento(src@, lens@, i + 1)));
            }
            let l2 = lens[i + 1];
            let b = vstd::slice::slice_subrange(src, off + l1, off + l1 + l2);
            intercala_em(a, b, dst, off);
            l = l1 + l2;
            proof {
                lema_intercala_ordenada(a@, b@);
                lema_intercala_len(a@, b@);
            }
        }
        proof {
            let novo = dst@.subrange(off as int, off + l);
            if i + 1 == lens@.len() {
                assert(novo =~= src@.subrange(off as int, off + l));
            } else {
                assert(novo =~= intercala(a@, src@.subrange(off + l1, off + l)));
            }
            assert(ordenada(novo));
            assert(mesmas_classes(novo, src@.subrange(off as int, off + l))) by {
                if i + 1 == lens@.len() {
                } else {
                    let b = src@.subrange(off + l1, off + l);
                    assert forall|x: T| #[trigger] classe(novo, x) == classe(src@.subrange(off as int, off + l), x) by {
                        lema_classe_intercala(a@, b, x);
                        crate::especificacao::lema_classe_concat(a@, b, x);
                        assert(src@.subrange(off as int, off + l) =~= a@ + b);
                    }
                }
            }
            lema_classes_concat(d0.take(off as int), src@.take(off as int), novo, src@.subrange(off as int, off + l));
            assert(dst@.take(off + l) =~= d0.take(off as int) + novo);
            assert(src@.take(off + l) =~= src@.take(off as int) + src@.subrange(off as int, off + l));
        }
        out.push(l);
        proof {
            assert(inteiros(out@).take(out0.len() as int) =~= inteiros(out0));
            assert(inteiros(out@).drop_last() =~= inteiros(out0));
            lema_inicio_total(out0);
            assert forall|c: int| 0 <= c < out@.len() implies ordenada(#[trigger] segmento(dst@, out@, c))
                && segmento(dst@, out@, c) == segmento_par(src@, lens@, c) by {
                if c < out0.len() {
                    assert(inteiros(out@).take(c) =~= inteiros(out0).take(c));
                    lema_inicio_seg(out0, c);
                    assert(segmento(dst@, out@, c) =~= segmento(d0, out0, c));
                } else {
                    assert(inteiros(out@).take(c) =~= inteiros(out0));
                    assert(segmento(dst@, out@, c) =~= dst@.subrange(off as int, off + l));
                    assert(c * 2 == i);
                    assert(a@ == segmento(src@, lens@, i as int));
                    if i + 1 < lens@.len() {
                        lema_inicio_seg(lens@, i + 1);
                        assert(src@.subrange(off + l1, off + l) == segmento(src@, lens@, i + 1));
                    }
                }
            }
            assert forall|c: int| 0 <= c < out@.len() implies #[trigger] out@[c] == comprimento_par(lens@, c) by {
                if c == out0.len() {
                    assert(c * 2 == i);
                }
            }
            assert(dst@.skip(off + l) =~= old(dst)@.skip(off + l)) by {
                assert forall|t: int| 0 <= t < dst@.len() - (off + l) implies #[trigger] dst@.skip(off + l)[t] == old(dst)@.skip(off + l)[t] by {
                    assert(dst@[off + l + t] == d0[off + l + t]);
                    assert(d0.skip(off as int)[l + t] == old(dst)@.skip(off as int)[l + t]);
                }
            }
            if i + 2 < lens@.len() {
                lema_inicio_seg(lens@, i + 1);
            } else if i + 2 == lens@.len() {
                lema_inicio_seg(lens@, i + 1);
            }
        }
        off = off + l;
        i = i + 2;
    }
    proof {
        lema_inicio_total(out@);
    }
    out
}

/// Merges separate sorted pieces two by two, in order, into `dst` (an odd
/// last one is copied). Returns the lengths of the segments written.
fn merge_pares<T: Ord + Copy>(pecas: &[&[T]], dst: &mut [T]) -> (out: Vec<usize>)
    requires
        ordem_total::<T>(),
        todas_ordenadas(vistas(pecas@)),
        soma(tamanhos(vistas(pecas@))) <= old(dst)@.len(),
        pecas@.len() <= KWAY_FANOUT,
    ensures
        final(dst)@.len() == old(dst)@.len(),
        out@.len() == (pecas@.len() + 1) / 2,
        soma(inteiros(out@)) == soma(tamanhos(vistas(pecas@))),
        segmentos_ordenados(final(dst)@, out@),
        mesmas_classes(
            final(dst)@.take(soma(tamanhos(vistas(pecas@)))),
            concatena(vistas(pecas@)),
        ),
{
    let ghost v = vistas(pecas@);
    let n_dst = dst.len();
    let mut out: Vec<usize> = Vec::new();
    let mut off: usize = 0;
    let mut i: usize = 0;
    proof {
        lema_concatena_len(v);
        lema_concatena_len(v.take(0));
        assert(v.take(0) =~= Seq::<Seq<T>>::empty());
        assert(dst@.take(0) =~= Seq::<T>::empty());
    }
    while i < pecas.len()
        invariant
            ordem_total::<T>(),
            v == vistas(pecas@),
            todas_ordenadas(v),
            concatena(v).len() == soma(tamanhos(v)),
            soma(tamanhos(v)) <= dst@.len(),
            pecas@.len() <= KWAY_FANOUT,
            dst@.len() == old(dst)@.len(),
            dst@.len() == n_dst,
            i <= pecas@.len() + 1,
            i % 2 == 0,
            off == concatena(v.take(if i < v.len() { i as int } else { v.len() as int })).len(),
            out@.len() == i / 2,
            soma(inteiros(out@)) == off,
            forall|c: int| 0 <= c < out@.len() ==> ordenada(#[trigger] segmento(dst@, out@, c)),
            mesmas_classes(dst@.take(off as int), concatena(v.take(if i < v.len() { i as int } else { v.len() as int }))),
        decreases pecas@.len() + 1 - i,
    {
        let ghost d0 = dst@;
        let ghost out0 = out@;
        let ghost ant = concatena(v.take(i as int));
        proof {
            lema_concatena_len(v.take(i + 1));
            lema_concatena_len(v.take(i as int));
            assert(v.take(i + 1).drop_last() =~= v.take(i as int));
            crate::multicorte::lema_soma_prefixo(tamanhos(v), i + 1);
            assert(tamanhos(v.take(i + 1)) =~= tamanhos(v).take(i + 1));
            assert forall|j: int| 0 <= j < tamanhos(v).len() implies 0 <= #[trigger] tamanhos(v)[j] by {}
            assert(ordenada(v[i as int]));
        }
        let a: &[T] = pecas[i];
        let l: usize;
        if i + 1 == pecas.len() {
            copia_faixa(a, 0, dst, off, a.len());
            l = a.len();
            proof {
                assert(a@.subrange(0, a@.len() as int) =~= a@);
                assert(dst@.subrange(off as int, off + l) =~= a@);
                assert(v.take(i + 1) =~= v);
            }
        } else {
            proof {
                lema_concatena_len(v.take(i + 2));
                assert(v.take(i + 2).drop_last() =~= v.take(i + 1));
                crate::multicorte::lema_soma_prefixo(tamanhos(v), i + 2);
                assert(tamanhos(v.take(i + 2)) =~= tamanhos(v).take(i + 2));
                assert(ordenada(v[i + 1]));
            }
            let b: &[T] = pecas[i + 1];
            intercala_em(a, b, dst, off);
            l = a.len() + b.len();
            proof {
                lema_intercala_ordenada(a@, b@);
                lema_intercala_len(a@, b@);
                assert(dst@.subrange(off as int, off + l) =~= intercala(a@, b@));
                if i + 2 == v.len() {
                    assert(v.take(i + 2) =~= v);
                }
            }
        }
        let ghost prox: int = if i + 1 == pecas@.len() { i + 1 } else { i + 2 };
        proof {
            let novo = dst@.subrange(off as int, off + l);
            let parte = concatena(v.take(prox)).subrange(off as int, off + l);
            assert(concatena(v.take(prox)) =~= ant + parte) by {
                if i + 1 == pecas@.len() {
                    assert(concatena(v.take(prox)) =~= ant + v[i as int]);
                } else {
                    assert(concatena(v.take(prox)) =~= ant + v[i as int] + v[i + 1]);
                }
            }
            assert(ordenada(novo));
            assert(mesmas_classes(novo, parte)) by {
                if i + 1 == pecas@.len() {
                    assert(parte =~= v[i as int]);
                } else {
                    assert(parte =~= v[i as int] + v[i + 1]);
                    assert forall|x: T| #[trigger] classe(novo, x) == classe(parte, x) by {
                        lema_classe_intercala(a@, pecas@[i + 1]@, x);
                        crate::especificacao::lema_classe_concat(v[i as int], v[i + 1], x);
                    }
                }
            }
            lema_classes_concat(d0.take(off as int), ant, novo, parte);
            assert(dst@.take(off + l) =~= d0.take(off as int) + novo);
        }
        out.push(l);
        proof {
            assert(inteiros(out@).drop_last() =~= inteiros(out0));
            lema_inicio_total(out0);
            assert forall|c: int| 0 <= c < out@.len() implies ordenada(#[trigger] segmento(dst@, out@, c)) by {
                if c < out0.len() {
                    assert(inteiros(out@).take(c) =~= inteiros(out0).take(c));
                    lema_inicio_seg(out0, c);
                    assert(segmento(dst@, out@, c) =~= segmento(d0, out0, c));
                } else {
                    assert(inteiros(out@).take(c) =~= inteiros(out0));
                    assert(segmento(dst@, out@, c) =~= dst@.subrange(off as int, off + l));
                }
            }
        }
        off = off + l;
        i = i + 2;
    }
    proof {
        lema_inicio_total(out@);
        assert(v.take(v.len() as int) =~= v);
    }
    out
}

/// Elements per tile of the k-way merge: what lets the windows of eight
/// runs fit a 32 KiB L1, between 128 and 2048.
pub open spec fn tile_esperado(tamanho: int) -> int {
    let e: int = if tamanho > 1 { tamanho } else { 1 };
    let t: int = 32768int / (8 * e);
    if t < 128 {
        128
    } else if t > 2048 {
        2048
    } else {
        t
    }
}

pub fn tile_elems<T>() -> (r: usize)
    ensures
        r == tile_esperado(vstd::layout::size_of::<T>() as int),
        128 <= r <= 2048,
{
    let tamanho = core::mem::size_of::<T>();
    let e = if tamanho > 1 { tamanho } else { 1 };
    let t = if e > 4096 { 0 } else { 32768 / (8 * e) };
    proof {
        if e > 4096 {
            assert(32768int / (8 * e) == 0) by (nonlinear_arith)
                requires
                    e > 4096,
            ;
        }
    }
    if t < 128 {
        128
    } else if t > 2048 {
        2048
    } else {
        t
    }
}

/// Writes into `dest` at `off` the sorted merge of the one or two sorted
/// segments at the start of `buf`.
fn fecha_tile<T: Ord + Copy>(buf: &[T], lens: &[usize], dest: &mut [T], off: usize)
    requires
        ordem_total::<T>(),
        segmentos_ordenados(buf@, lens@),
        1 <= lens@.len() <= 2,
        off + soma(inteiros(lens@)) <= old(dest)@.len(),
    ensures
        final(dest)@.len() == old(dest)@.len(),
        final(dest)@.take(off as int) == old(dest)@.take(off as int),
        ordenada(final(dest)@.subrange(off as int, off + soma(inteiros(lens@)))),
        mesmas_classes(
            final(dest)@.subrange(off as int, off + soma(inteiros(lens@))),
            buf@.take(soma(inteiros(lens@))),
        ),
{
    let ghost tot = soma(inteiros(lens@));
    let n = dest.len();
    proof {
        lema_inicio_seg(lens@, 0);
        lema_inicio_total(lens@);
        assert(inteiros(lens@).take(0) =~= Seq::<int>::empty());
        assert(ordenada(segmento(buf@, lens@, 0)));
    }
    let l1 = lens[0];
    let a = vstd::slice::slice_subrange(buf, 0, l1);
    if lens.len() == 2 {
        proof {
            lema_inicio_seg(lens@, 1);
            assert(ordenada(segmento(buf@, lens@, 1)));
        }
        let l2 = lens[1];
        let b = vstd::slice::slice_subrange(buf, l1, l1 + l2);
        intercala_em(a, b, dest, off);
        proof {
            lema_intercala_ordenada(a@, b@);
            lema_intercala_len(a@, b@);
            assert(dest@.subrange(off as int, off + tot) =~= intercala(a@, b@));
            assert(buf@.take(tot) =~= a@ + b@);
            assert forall|x: T| #[trigger] classe(intercala(a@, b@), x) == classe(buf@.take(tot), x) by {
                lema_classe_intercala(a@, b@, x);
                crate::especificacao::lema_classe_concat(a@, b@, x);
            }
        }
    } else {
        copia_faixa(a, 0, dest, off, l1);
        proof {
            assert(a@.subrange(0, l1 as int) =~= a@);
            assert(dest@.subrange(off as int, off + tot) =~= a@);
            assert(buf@.take(tot) =~= a@);
        }
    }
    assert(dest@.take(off as int) =~= old(dest)@.take(off as int));
}

/// The windows of `want` elements taken after a cut cover at least `want`
/// elements, and no more than what the runs keep after the cut.
proof fn lema_janelas_bastam(tam: Seq<int>, cur: Seq<int>, w: Seq<int>, want: int, resto: int)
    requires
        tam.len() == cur.len() == w.len(),
        forall|i: int| 0 <= i < tam.len() ==> 0 <= #[trigger] w[i] <= want && cur[i] + w[i] <= tam[i],
        forall|i: int| 0 <= i < tam.len() && #[trigger] w[i] < want ==> cur[i] + w[i] == tam[i],
        resto == soma(tam) - soma(cur),
        0 <= want <= resto,
    ensures
        want <= soma(w) <= resto,
{
    let k = tam.len();
    let falta = Seq::new(k, |i: int| tam[i] - cur[i]);
    lema_soma_soma(cur, falta);
    assert(Seq::new(k, |i: int| cur[i] + falta[i]) =~= tam);
    lema_soma_menor(w, falta);
    if exists|i: int| 0 <= i < k && #[trigger] w[i] == want {
        let i = choose|i: int| 0 <= i < k && #[trigger] w[i] == want;
        crate::multicorte::lema_soma_entrada(w, i);
    } else {
        assert(w =~= falta);
    }
}

/// The stable merge of up to eight sorted runs into `dest`, a tile of
/// `tile_elems` elements at a time: the tile's share of each run is found
/// by multi-sequence selection over windows of the runs, and the shares are
/// merged two by two in a small tree through two scratch buffers.
pub fn kway_merge_tiled<T: Ord + Copy>(runs: &[&[T]], dest: &mut [T])
    requires
        ordem_total::<T>(),
        1 <= runs@.len() <= KWAY_FANOUT,
        todas_ordenadas(vistas(runs@)),
        old(dest)@.len() == soma(tamanhos(vistas(runs@))),
        runs@.len() <= 2 || old(dest)@.len() > 0,
    ensures
        ordenacao_estavel(concatena(vistas(runs@)), final(dest)@),
{
    let ghost r = vistas(runs@);
    let ns = runs.len();
    let total = dest.len();
    proof {
        lema_concatena_len(r);
        lema_preordem_total::<T>();
        assert(ordenada(r[0]));
    }
    if ns == 1 {
        proof {
            assert(tamanhos(r).drop_last() =~= Seq::<int>::empty());
            assert(soma(tamanhos(r).drop_last()) == 0);
            assert(soma(tamanhos(r)) == r[0].len());
        }
        let a = vstd::slice::slice_subrange(runs[0], 0, total);
        copia_faixa(a, 0, dest, 0, total);
        proof {
            assert(r.drop_last() =~= Seq::<Seq<T>>::empty());
            assert(concatena(r) =~= r[0]);
            assert(dest@ =~= r[0]);
            lema_ordenada_estavel(r[0]);
        }
        return;
    }
    if ns == 2 {
        proof {
            assert(tamanhos(r).drop_last().drop_last() =~= Seq::<int>::empty());
            assert(soma(tamanhos(r).drop_last().drop_last()) == 0);
            assert(soma(tamanhos(r).drop_last()) == r[0].len());
            assert(soma(tamanhos(r)) == r[0].len() + r[1].len());
        }
        merge_front(runs[0], runs[1], dest);
        proof {
            assert(ordenada(r[1]));
            assert(r.drop_last().drop_last() =~= Seq::<Seq<T>>::empty());
            assert(concatena(r.drop_last()) =~= r[0]);
            assert(concatena(r) =~= r[0] + r[1]);
            lema_intercala_len(r[0], r[1]);
            assert(dest@ =~= intercala(r[0], r[1]));
            lema_ordenada_estavel(r[0]);
            lema_ordenada_estavel(r[1]);
            lema_intercala_estavel(r[0], r[0], r[1], r[1]);
        }
        return;
    }
    let tile = tile_elems::<T>();
    let mut k: usize = 0;
    while runs[k].len() == 0
        invariant
            r == vistas(runs@),
            ns == runs@.len(),
            k < ns,
            total == soma(tamanhos(r)),
            total > 0,
            forall|j: int| 0 <= j < k ==> #[trigger] r[j].len() == 0,
        decreases ns - k,
    {
        if k + 1 == ns {
            proof {
                assert forall|j: int| 0 <= j < r.len() implies #[trigger] tamanhos(r)[j] == 0int by {}
                assert(tamanhos(r) =~= Seq::new(r.len(), |i: int| 0int));
                crate::multicorte::lema_soma_zeros(r.len());
            }
        }
        k = k + 1;
    }
    let filler = runs[k][0];
    let mut s1: Vec<T> = vec![filler; tile];
    let mut s2: Vec<T> = vec![filler; tile];
    let mut cur: Vec<usize> = vec![0usize; ns];
    let mut done: usize = 0;
    proof {
        let z = inteiros(cur@);
        assert(z =~= Seq::new(ns as nat, |i: int| 0int));
        crate::multicorte::lema_soma_zeros(ns as nat);
        assert forall|i: int| 0 <= i < ns implies #[trigger] prefixos(r, z)[i].len() == 0 by {}
        lema_concatena_vazia(prefixos(r, z));
        assert(dest@.take(0) =~= Seq::<T>::empty());
        lema_ordenada_estavel(Seq::<T>::empty());
    }
    while done < total
        invariant
            ordem_total::<T>(),
            r == vistas(runs@),
            ns == runs@.len(),
            3 <= ns <= KWAY_FANOUT,
            todas_ordenadas(r),
            total == dest@.len(),
            total == soma(tamanhos(r)),
            s1@.len() == tile,
            s2@.len() == tile,
            128 <= tile <= 2048,
            cur@.len() == ns,
            corte_multi(r, inteiros(cur@)),
            soma(inteiros(cur@)) == done,
            done <= total,
            ordenacao_estavel(concatena(prefixos(r, inteiros(cur@))), dest@.take(done as int)),
        decreases total - done,
    {
        let ghost c0 = inteiros(cur@);
        let ghost d0 = dest@;
        let want = if tile < total - done { tile } else { total - done };
        // the windows
        let mut win: Vec<&[T]> = Vec::new();
        let ghost mut w: Seq<int> = Seq::empty();
        let mut i: usize = 0;
        while i < ns
            invariant
                r == vistas(runs@),
                ns == runs@.len(),
                cur@.len() == ns,
                corte_multi(r, inteiros(cur@)),
                i <= ns,
                win@.len() == i,
                w.len() == i,
                forall|j: int| 0 <= j < i ==> #[trigger] win@[j]@ == r[j].subrange(cur@[j] as int, cur@[j] + w[j]),
                forall|j: int| 0 <= j < i ==> 0 <= #[trigger] w[j] <= want && cur@[j] + w[j] <= r[j].len(),
                forall|j: int| 0 <= j < i && #[trigger] w[j] < want ==> cur@[j] + w[j] == r[j].len(),
            decreases ns - i,
        {
            proof {
                assert(0 <= inteiros(cur@)[i as int] <= r[i as int].len());
            }
            let resto = runs[i].len() - cur[i];
            let wi = if resto < want { resto } else { want };
            win.push(vstd::slice::slice_subrange(runs[i], cur[i], cur[i] + wi));
            proof {
                w = w.push(wi as int);
            }
            i = i + 1;
        }
        let ghost hi = Seq::new(ns as nat, |j: int| c0[j] + w[j]);
        proof {
            assert(vistas(win@) =~= fatias(r, c0, hi));
            assert forall|j: int| 0 <= j < ns implies #[trigger] ordenada(vistas(win@)[j]) by {
                assert(ordenada(r[j]));
                lema_fatia_ordenada(r[j], c0[j], hi[j]);
            }
            assert(tamanhos(vistas(win@)) =~= w);
            lema_janelas_bastam(tamanhos(r), c0, w, want as int, total - done);
        }
        let mut cut: Vec<usize> = vec![0usize; ns];
        multiseq_partition(win.as_slice(), want, cut.as_mut_slice());
        let ghost ct = inteiros(cut@);
        // the tile's share of each run
        let mut pecas: Vec<&[T]> = Vec::new();
        let mut i: usize = 0;
        while i < ns
            invariant
                ns == win@.len(),
                ns == cut@.len(),
                corte_multi(vistas(win@), inteiros(cut@)),
                i <= ns,
                pecas@.len() == i,
                forall|j: int| 0 <= j < i ==> #[trigger] pecas@[j]@ == win@[j]@.take(cut@[j] as int),
            decreases ns - i,
        {
            proof {
                assert(0 <= inteiros(cut@)[i as int] <= vistas(win@)[i as int].len());
            }
            pecas.push(vstd::slice::slice_subrange(win[i], 0, cut[i]));
            i = i + 1;
        }
        let ghost c2 = Seq::new(ns as nat, |j: int| c0[j] + ct[j]);
        proof {
            assert forall|j: int| 0 <= j < ns implies 0 <= #[trigger] ct[j] <= w[j] by {
                assert(0 <= inteiros(cut@)[j] <= vistas(win@)[j].len());
            }
            assert(vistas(pecas@) =~= fatias(r, c0, c2)) by {
                assert forall|j: int| 0 <= j < ns implies #[trigger] vistas(pecas@)[j] == fatias(r, c0, c2)[j] by {
                    assert(vistas(pecas@)[j] =~= fatias(r, c0, c2)[j]);
                }
            }
            assert forall|j: int| 0 <= j < ns implies #[trigger] ordenada(vistas(pecas@)[j]) by {
                assert(ordenada(r[j]));
                lema_fatia_ordenada(r[j], c0[j], c2[j]);
            }
            assert(tamanhos(vistas(pecas@)) =~= ct);
        }
        let lens = merge_pares(pecas.as_slice(), s1.as_mut_slice());
        if lens.len() > 2 {
            let lens2 = merge_level(s1.as_slice(), lens.as_slice(), s2.as_mut_slice());
            fecha_tile(s2.as_slice(), lens2.as_slice(), dest, done);
            proof {
                assert(s2@.take(want as int) =~= s2@.take(soma(inteiros(lens@))));
            }
        } else {
            fecha_tile(s1.as_slice(), lens.as_slice(), dest, done);
        }
        let ghost t = dest@.subrange(done as int, done + want);
        proof {
            // the tile stably sorts its share of the runs
            let pedaco = concatena(fatias(r, c0, c2));
            lema_concatena_len(fatias(r, c0, c2));
            assert(mesmas_classes(t, pedaco));
            assert(ordenacao_estavel(pedaco, t));
            // the cut moves on
            lema_corte_janela(r, c0, w, ct, want as int);
            assert forall|j: int| 0 <= j < ns implies c0[j] <= #[trigger] c2[j] <= r[j].len() by {
                assert(0 <= c2[j] <= r[j].len());
            }
            lema_corte_restrito(r, c0, c2);
            lema_corte_divide(prefixos(r, c2), c0, d0.take(done as int), t);
            assert(dest@.take(done + want) =~= d0.take(done as int) + t);
            lema_soma_soma(c0, ct);
        }
        let mut i: usize = 0;
        while i < ns
            invariant
                ns == cur@.len(),
                ns == cut@.len(),
                ct == inteiros(cut@),
                c0.len() == ns,
                forall|j: int| 0 <= j < ns ==> #[trigger] c2[j] == c0[j] + ct[j],
                forall|j: int| 0 <= j < ns ==> c2[j] <= #[trigger] r[j].len(),
                r == vistas(runs@),
                ns == runs@.len(),
                i <= ns,
                forall|j: int| 0 <= j < i ==> #[trigger] cur@[j] == c2[j],
                forall|j: int| i <= j < ns ==> #[trigger] cur@[j] == c0[j],
            decreases ns - i,
        {
            let _n = runs[i].len();
            proof {
                assert(r[i as int] == runs@[i as int]@);
                assert(c2[i as int] <= r[i as int].len());
                assert(cur@[i as int] == c0[i as int]);
            }
            cur.set(i, cur[i] + cut[i]);
            i = i + 1;
        }
        proof {
            assert(inteiros(cur@) =~= c2);
        }
        done = done + want;
    }
    proof {
        lema_soma_menor(inteiros(cur@), tamanhos(r));
        assert(prefixos(r, inteiros(cur@)) =~= r) by {
            assert forall|j: int| 0 <= j < r.len() implies #[trigger] prefixos(r, inteiros(cur@))[j] == r[j] by {
                assert(prefixos(r, inteiros(cur@))[j] =~= r[j]);
            }
        }
        assert(dest@.take(total as int) =~= dest@);
    }
}

/// The stable merge of `a` and `b`, with ties to `a` when `a_esq` (`a` is
/// the left run) and to `b` otherwise.
pub open spec fn intercala_lado<T: Ord>(a: Seq<T>, b: Seq<T>, a_esq: bool) -> Seq<T> {
    if a_esq {
        intercala(a, b)
    } else {
        intercala(b, a)
    }
}

/// The merge of a leaf: front half forward and back half backward, at
/// once, with the galloping kernels when `folha_galopante`.
pub fn bidirectional_merge_ro<T: Ord + Copy + Send + Sync>(a: &[T], b: &[T], dest: &mut [T], folha_galopante: bool)
    requires
        ordem_total::<T>(),
        ordenada(a@),
        ordenada(b@),
        old(dest)@.len() == a@.len() + b@.len(),
    ensures
        final(dest)@ == intercala(a@, b@),
{
    let k = dest.len() / 2;
    let nucleo = if folha_galopante { Nucleo::Galope } else { Nucleo::Linear };
    merge_bidirecional(a, b, dest, k, nucleo);
}

/// The merge of `a` (with `n >= 3` elements) and `b` laid out around three
/// pivots of `a`: its first, middle and last elements. `low_b`, `mid_b` and
/// `high_b` count the elements of `b` that go before each pivot.
#[verifier::spinoff_prover]
#[verifier::rlimit(40)]
proof fn lema_pivos<T: Ord>(a: Seq<T>, b: Seq<T>, a_esq: bool, mid: int, low_b: int, mid_b: int, high_b: int)
    requires
        ordem_total::<T>(),
        ordenada(a),
        ordenada(b),
        a.len() >= 3,
        mid == a.len() / 2,
        0 <= low_b <= mid_b <= high_b <= b.len(),
        a_esq ==> ponto_lt(b, a[mid], mid_b) && ponto_lt(b.take(mid_b), a[0], low_b)
            && ponto_lt(b.skip(mid_b), a[a.len() - 1], high_b - mid_b),
        !a_esq ==> ponto_le(b, a[mid], mid_b) && ponto_le(b.take(mid_b), a[0], low_b)
            && ponto_le(b.skip(mid_b), a[a.len() - 1], high_b - mid_b),
    ensures
        intercala_lado(a, b, a_esq) == b.take(low_b) + seq![a[0]]
            + intercala_lado(a.subrange(1, mid), b.subrange(low_b, mid_b), a_esq) + seq![a[mid]]
            + intercala_lado(a.subrange(mid + 1, a.len() - 1), b.subrange(mid_b, high_b), a_esq)
            + seq![a[a.len() - 1]] + b.skip(high_b),
{
    lema_preordem_total::<T>();
    let n = a.len() as int;
    let a1 = a.take(mid);
    let b1 = b.take(mid_b);
    let a2 = a.skip(mid);
    let b2 = b.skip(mid_b);
    let b1r = b1.skip(low_b);
    let a2r = a2.skip(1);
    let b3 = b2.take(high_b - mid_b);
    lema_fatia_ordenada(a, 0, mid);
    lema_fatia_ordenada(a, mid, n);
    lema_fatia_ordenada(b, 0, mid_b);
    lema_fatia_ordenada(b, mid_b, b.len() as int);
    assert(a1 =~= a.subrange(0, mid));
    assert(a2 =~= a.subrange(mid, n));
    assert(b1 =~= b.subrange(0, mid_b));
    assert(b2 =~= b.subrange(mid_b, b.len() as int));
    lema_fatia_ordenada(b1, low_b, mid_b);
    assert(b1r =~= b1.subrange(low_b, mid_b));
    lema_fatia_ordenada(a2, 1, n - mid);
    assert(a2r =~= a2.subrange(1, n - mid));
    lema_fatia_ordenada(b2, 0, high_b - mid_b);
    assert(b3 =~= b2.subrange(0, high_b - mid_b));
    assert(b1r =~= b.subrange(low_b, mid_b));
    assert(a1.skip(1) =~= a.subrange(1, mid));
    assert(a2r.take(a2r.len() - 1) =~= a.subrange(mid + 1, n - 1));
    assert(b3 =~= b.subrange(mid_b, high_b));
    assert(b2.skip(high_b - mid_b) =~= b.skip(high_b));
    assert(b1.take(low_b) =~= b.take(low_b));
    assert(a2r.skip(a2r.len() - 1) =~= seq![a[n - 1]]);
    assert(a1.take(1) =~= seq![a[0]]);
    assert(a2.take(1) =~= seq![a[mid]]);
    assert(menor_igual(a[mid - 1], a[mid]));
    if mid_b < b.len() {
        assert(b[mid_b] == b[mid_b]);
    }
    if n - 2 > mid {
        assert(menor_igual(a[n - 2], a[n - 1]));
    }
    if a_esq {
        assert(corte_valido(a, b, mid, mid_b));
        lema_corte(a, b, mid, mid_b);
        lema_prefixo_b(a1, b1, low_b);
        lema_prefixo_a(a1, b1r, 1);
        lema_prefixo_a(a2, b2, 1);
        lema_sufixo_b(a2r, b2, b2.len() - (high_b - mid_b));
        assert(b2.take(b2.len() - (b2.len() - (high_b - mid_b))) =~= b3);
        assert(b2.skip(b2.len() - (b2.len() - (high_b - mid_b))) =~= b.skip(high_b));
        lema_sufixo_a(a2r, b3, 1);
        assert(intercala_lado(a, b, a_esq) =~= b.take(low_b) + seq![a[0]]
            + intercala_lado(a.subrange(1, mid), b.subrange(low_b, mid_b), a_esq) + seq![a[mid]]
            + intercala_lado(a.subrange(mid + 1, n - 1), b.subrange(mid_b, high_b), a_esq)
            + seq![a[n - 1]] + b.skip(high_b));
    } else {
        assert(corte_valido(b, a, mid_b, mid));
        lema_corte(b, a, mid_b, mid);
        lema_prefixo_a(b1, a1, low_b);
        lema_prefixo_b(b1r, a1, 1);
        lema_prefixo_b(b2, a2, 1);
        lema_sufixo_a(b2, a2r, b2.len() - (high_b - mid_b));
        assert(b2.take(b2.len() - (b2.len() - (high_b - mid_b))) =~= b3);
        assert(b2.skip(b2.len() - (b2.len() - (high_b - mid_b))) =~= b.skip(high_b));
        lema_sufixo_b(b3, a2r, 1);
        assert(intercala_lado(a, b, a_esq) =~= b.take(low_b) + seq![a[0]]
            + intercala_lado(a.subrange(1, mid), b.subrange(low_b, mid_b), a_esq) + seq![a[mid]]
            + intercala_lado(a.subrange(mid + 1, n - 1), b.subrange(mid_b, high_b), a_esq)
            + seq![a[n - 1]] + b.skip(high_b));
    }
}

/// Lays out the merge around the three pivots of `a`: the elements of `b`
/// before the first pivot, the pivots in their places, the tail of `b`
/// after the last one, and the two gaps merged at once.
fn monta_em_pivos<T: Ord + Copy + Send + Sync>(
    a: &[T],
    b: &[T],
    dest: &mut [T],
    is_a_left: bool,
    mid_a: usize,
    low_b: usize,
    mid_b: usize,
    high_b: usize,
    leaf_size: usize,
    folha_galopante: bool,
)
    requires
        ordem_total::<T>(),
        ordenada(a@),
        ordenada(b@),
        a@.len() >= 3,
        mid_a == a@.len() / 2,
        0 <= low_b <= mid_b <= high_b <= b@.len(),
        old(dest)@.len() == a@.len() + b@.len(),
    ensures
        final(dest)@ == b@.take(low_b as int) + seq![a@[0]]
            + intercala_lado(a@.subrange(1, mid_a as int), b@.subrange(low_b as int, mid_b as int), is_a_left)
            + seq![a@[mid_a as int]]
            + intercala_lado(a@.subrange(mid_a + 1, a@.len() - 1), b@.subrange(mid_b as int, high_b as int), is_a_left)
            + seq![a@[a@.len() - 1]] + b@.skip(high_b as int),
{
    let n = a.len();
    let m = b.len();
    let _total = dest.len();
    proof {
        lema_fatia_ordenada(a@, 1, mid_a as int);
        lema_fatia_ordenada(a@, mid_a + 1, n - 1);
        lema_fatia_ordenada(b@, low_b as int, mid_b as int);
        lema_fatia_ordenada(b@, mid_b as int, high_b as int);
    }
    let a_esq = vstd::slice::slice_subrange(a, 1, mid_a);
    let b_esq = vstd::slice::slice_subrange(b, low_b, mid_b);
    let a_dir = vstd::slice::slice_subrange(a, mid_a + 1, n - 1);
    let b_dir = vstd::slice::slice_subrange(b, mid_b, high_b);
    let (dest_main, dest_top) = dest.split_at_mut(n + high_b - 1);
    dest_top[0] = a[n - 1];
    copia_faixa(b, high_b, dest_top, 1, m - high_b);
    let (dest_bottom, dest_right_rem) = dest_main.split_at_mut(mid_a + mid_b);
    dest_right_rem[0] = a[mid_a];
    let (d_meio, dest_right) = dest_right_rem.split_at_mut(1);
    let (dest_b_low, dest_left_rem) = dest_bottom.split_at_mut(low_b);
    copia_faixa(b, 0, dest_b_low, 0, low_b);
    dest_left_rem[0] = a[0];
    let (d_primeiro, dest_left) = dest_left_rem.split_at_mut(1);
    junta_pim_parallel(a_esq, b_esq, dest_left, a_dir, b_dir, dest_right, is_a_left, leaf_size, folha_galopante);
    proof {
        assert(d_primeiro@ =~= seq![a@[0]]);
        assert(d_meio@ =~= seq![a@[mid_a as int]]);
        assert(dest_b_low@ =~= b@.take(low_b as int));
        assert(dest_top@ =~= seq![a@[n - 1]] + b@.skip(high_b as int));
    }
    proof {
        lema_intercala_len(a_esq@, b_esq@);
        lema_intercala_len(b_esq@, a_esq@);
    }
    assert(final(dest)@ =~= b@.take(low_b as int) + seq![a@[0]]
            + intercala_lado(a@.subrange(1, mid_a as int), b@.subrange(low_b as int, mid_b as int), is_a_left)
            + seq![a@[mid_a as int]]
            + intercala_lado(a@.subrange(mid_a + 1, a@.len() - 1), b@.subrange(mid_b as int, high_b as int), is_a_left)
            + seq![a@[a@.len() - 1]] + b@.skip(high_b as int));
}

/// Runs the two sub-merges of a level of `pim_parallel_merge` through
/// `rayon::join`, which always executes both closures; each closure is one
/// call of `pim_parallel_merge`, so each part ends as that function's
/// contract states.
#[verifier::external_body]
fn junta_pim_parallel<T: Ord + Copy + Send + Sync>(
    a1: &[T],
    b1: &[T],
    d1: &mut [T],
    a2: &[T],
    b2: &[T],
    d2: &mut [T],
    is_a_left: bool,
    leaf_size: usize,
    folha_galopante: bool,
)
    requires
        ordem_total::<T>(),
        ordenada(a1@),
        ordenada(b1@),
        old(d1)@.len() == a1@.len() + b1@.len(),
        ordenada(a2@),
        ordenada(b2@),
        old(d2)@.len() == a2@.len() + b2@.len(),
    ensures
        final(d1)@ == intercala_lado(a1@, b1@, is_a_left),
        final(d2)@ == intercala_lado(a2@, b2@, is_a_left),
{
    rayon::join(
        || pim_parallel_merge(a1, b1, d1, is_a_left, leaf_size, folha_galopante),
        || pim_parallel_merge(a2, b2, d2, is_a_left, leaf_size, folha_galopante),
    );
}

/// Parallel stable merge of the sorted `a` and `b` (`a` the left run when
/// `is_a_left`): the first, middle and last elements of the longer run go
/// straight to their places, found by binary search in the other run, and
/// the two gaps between them are merged at once. Merges of up to
/// `leaf_size` elements, or with fewer than three pivots, are bidirectional
/// leaves.
pub fn pim_parallel_merge<T: Ord + Copy + Send + Sync>(
    a: &[T],
    b: &[T],
    dest: &mut [T],
    is_a_left: bool,
    leaf_size: usize,
    folha_galopante: bool,
)
    requires
        ordem_total::<T>(),
        ordenada(a@),
        ordenada(b@),
        old(dest)@.len() == a@.len() + b@.len(),
    ensures
        final(dest)@ == intercala_lado(a@, b@, is_a_left),
    decreases a@.len() + b@.len(), (if a@.len() < b@.len() { 1int } else { 0int }),
{
    let n = a.len();
    let m = b.len();
    let total = dest.len();
    if n == 0 {
        copia_faixa(b, 0, dest, 0, m);
        proof {
            assert(dest@ =~= b@);
            crate::especificacao::lema_intercala_vazia(a@, b@);
            crate::especificacao::lema_intercala_vazia(b@, a@);
        }
        return;
    }
    if m == 0 {
        copia_faixa(a, 0, dest, 0, n);
        proof {
            assert(dest@ =~= a@);
            crate::especificacao::lema_intercala_vazia(a@, b@);
            crate::especificacao::lema_intercala_vazia(b@, a@);
        }
        return;
    }
    if total <= leaf_size || n < 3 {
        if is_a_left {
            bidirectional_merge_ro(a, b, dest, folha_galopante);
        } else {
            bidirectional_merge_ro(b, a, dest, folha_galopante);
        }
        return;
    }
    if n < m {
        pim_parallel_merge(b, a, dest, !is_a_left, leaf_size, folha_galopante);
        return;
    }
    let mid_a = n / 2;
    let mid_b = if is_a_left { particao_lt(b, &a[mid_a]) } else { particao_le(b, &a[mid_a]) };
    let b_baixo = vstd::slice::slice_subrange(b, 0, mid_b);
    proof {
        lema_fatia_ordenada(b@, 0, mid_b as int);
        lema_fatia_ordenada(b@, mid_b as int, m as int);
        assert(b_baixo@ =~= b@.take(mid_b as int));
    }
    let low_b = if is_a_left { particao_lt(b_baixo, &a[0]) } else { particao_le(b_baixo, &a[0]) };
    let b_alto = vstd::slice::slice_subrange(b, mid_b, m);
    proof {
        assert(b_alto@ =~= b@.skip(mid_b as int));
    }
    let high_b_rel = if is_a_left { particao_lt(b_alto, &a[n - 1]) } else { particao_le(b_alto, &a[n - 1]) };
    let high_b = mid_b + high_b_rel;
    proof {
        lema_pivos(a@, b@, is_a_left, mid_a as int, low_b as int, mid_b as int, high_b as int);
    }
    monta_em_pivos(a, b, dest, is_a_left, mid_a, low_b, mid_b, high_b, leaf_size, folha_galopante);
    assert(final(dest)@ =~= intercala_lado(a@, b@, is_a_left));
}

/// Two sorted runs, the first ending no higher than the second begins,
/// make one sorted run.
pub proof fn lema_ordenada_concat<T: Ord>(x: Seq<T>, y: Seq<T>)
    requires
        ordem_total::<T>(),
        ordenada(x),
        ordenada(y),
        x.len() > 0 && y.len() > 0 ==> menor_igual(x.last(), y[0]),
    ensures
        ordenada(x + y),
{
    lema_preordem_total::<T>();
    let z = x + y;
    assert forall|p: int, q: int| 0 <= p < q < z.len() implies #[trigger] menor_igual(z[p], z[q]) by {
        if q < x.len() {
            assert(menor_igual(x[p], x[q]));
        } else if p >= x.len() {
            assert(menor_igual(y[p - x.len()], y[q - x.len()]));
        } else {
            if p < x.len() - 1 {
                assert(menor_igual(x[p], x[x.len() - 1]));
            }
            if q > x.len() {
                assert(menor_igual(y[0], y[q - x.len()]));
            }
        }
    }
}

/// Runs the two halves of a k-way merge through `rayon::join`, which
/// always executes both closures; each closure is one call of
/// `parallel_kway_pim_merge`, so each half ends as that function's contract
/// states.
#[verifier::external_body]
fn junta_kway<T: Ord + Copy + Send + Sync>(
    left: &[&[T]],
    dl: &mut [T],
    right: &[&[T]],
    dr: &mut [T],
    leaf_size: usize,
    folha_galopante: bool,
)
    requires
        ordem_total::<T>(),
        leaf_size >= 1,
        1 <= left@.len() <= KWAY_FANOUT,
        todas_ordenadas(vistas(left@)),
        old(dl)@.len() == soma(tamanhos(vistas(left@))),
        left@.len() <= 2 || old(dl)@.len() > 0,
        1 <= right@.len() <= KWAY_FANOUT,
        todas_ordenadas(vistas(right@)),
        old(dr)@.len() == soma(tamanhos(vistas(right@))),
        right@.len() <= 2 || old(dr)@.len() > 0,
    ensures
        ordenacao_estavel(concatena(vistas(left@)), final(dl)@),
        ordenacao_estavel(concatena(vistas(right@)), final(dr)@),
{
    rayon::join(
        || parallel_kway_pim_merge(left, dl, leaf_size, folha_galopante),
        || parallel_kway_pim_merge(right, dr, leaf_size, folha_galopante),
    );
}

/// Parallel stable merge of up to eight sorted runs: two runs go to the
/// parallel binary merge; up to `16 * leaf_size` elements go to the tiled
/// k-way merge; otherwise the runs are cut at half the total by
/// multi-sequence selection and both halves are merged at once.
pub fn parallel_kway_pim_merge<T: Ord + Copy + Send + Sync>(
    runs: &[&[T]],
    dest: &mut [T],
    leaf_size: usize,
    folha_galopante: bool,
)
    requires
        ordem_total::<T>(),
        leaf_size >= 1,
        1 <= runs@.len() <= KWAY_FANOUT,
        todas_ordenadas(vistas(runs@)),
        old(dest)@.len() == soma(tamanhos(vistas(runs@))),
        runs@.len() <= 2 || old(dest)@.len() > 0,
    ensures
        ordenacao_estavel(concatena(vistas(runs@)), final(dest)@),
{
    let ghost r = vistas(runs@);
    let ns = runs.len();
    let total = dest.len();
    proof {
        lema_concatena_len(r);
        assert(ordenada(r[0]));
    }
    if ns == 1 {
        proof {
            assert(tamanhos(r).drop_last() =~= Seq::<int>::empty());
            assert(soma(tamanhos(r).drop_last()) == 0);
        }
        let a = vstd::slice::slice_subrange(runs[0], 0, total);
        copia_faixa(a, 0, dest, 0, total);
        proof {
            assert(r.drop_last() =~= Seq::<Seq<T>>::empty());
            assert(concatena(r) =~= r[0]);
            assert(dest@ =~= r[0]);
            lema_ordenada_estavel(r[0]);
        }
        return;
    }
    if ns == 2 {
        proof {
            assert(ordenada(r[1]));
            assert(tamanhos(r).drop_last().drop_last() =~= Seq::<int>::empty());
            assert(soma(tamanhos(r).drop_last().drop_last()) == 0);
            assert(soma(tamanhos(r).drop_last()) == r[0].len());
        }
        pim_parallel_merge(runs[0], runs[1], dest, true, leaf_size, folha_galopante);
        proof {
            assert(r.drop_last().drop_last() =~= Seq::<Seq<T>>::empty());
            assert(concatena(r.drop_last()) =~= r[0]);
            assert(concatena(r) =~= r[0] + r[1]);
            lema_ordenada_estavel(r[0]);
            lema_ordenada_estavel(r[1]);
            lema_intercala_estavel(r[0], r[0], r[1], r[1]);
        }
        return;
    }
    let limite = if leaf_size > usize::MAX / 16 { usize::MAX } else { leaf_size * 16 };
    if total <= limite {
        kway_merge_tiled(runs, dest);
        return;
    }
    let mut cut: Vec<usize> = vec![0usize; ns];
    multiseq_partition(runs, total / 2, cut.as_mut_slice());
    let ghost c = inteiros(cut@);
    let mut left: Vec<&[T]> = Vec::new();
    let mut right: Vec<&[T]> = Vec::new();
    let mut ltot: usize = 0;
    let ghost mut gl: Seq<int> = Seq::empty();
    let mut i: usize = 0;
    while i < ns
        invariant
            r == vistas(runs@),
            ns == runs@.len(),
            ns == cut@.len(),
            c == inteiros(cut@),
            corte_multi(r, c),
            soma(c) == total / 2,
            i <= ns,
            left@.len() == i,
            right@.len() == i,
            gl == c.take(i as int),
            ltot == soma(gl),
            forall|j: int| 0 <= j < i ==> #[trigger] left@[j]@ == r[j].take(c[j]),
            forall|j: int| 0 <= j < i ==> #[trigger] right@[j]@ == r[j].skip(c[j]),
        decreases ns - i,
    {
        proof {
            assert(0 <= c[i as int] <= r[i as int].len());
            assert(c.take(i + 1).drop_last() =~= c.take(i as int));
            assert forall|j: int| 0 <= j < c.len() implies 0 <= #[trigger] c[j] by {
                assert(0 <= c[j] <= r[j].len());
            }
            crate::multicorte::lema_soma_prefixo(c, i + 1);
        }
        let run = runs[i];
        left.push(vstd::slice::slice_subrange(run, 0, cut[i]));
        right.push(vstd::slice::slice_subrange(run, cut[i], run.len()));
        ltot = ltot + cut[i];
        proof {
            gl = c.take(i + 1);
        }
        i = i + 1;
    }
    let ghost pre = prefixos(r, c);
    let ghost suf = crate::multicorte::sufixos(r, c);
    proof {
        assert(gl =~= c);
        assert(vistas(left@) =~= pre);
        assert(vistas(right@) =~= suf);
        assert forall|j: int| 0 <= j < ns implies #[trigger] ordenada(pre[j]) by {
            assert(ordenada(r[j]));
            lema_fatia_ordenada(r[j], 0, c[j]);
            assert(pre[j] =~= r[j].subrange(0, c[j]));
        }
        assert forall|j: int| 0 <= j < ns implies #[trigger] ordenada(suf[j]) by {
            assert(ordenada(r[j]));
            lema_fatia_ordenada(r[j], c[j], r[j].len() as int);
            assert(suf[j] =~= r[j].subrange(c[j], r[j].len() as int));
        }
        assert(tamanhos(pre) =~= c);
        let resto = Seq::new(ns as nat, |j: int| tamanhos(r)[j] - c[j]);
        assert(tamanhos(suf) =~= resto);
        lema_soma_soma(c, resto);
        assert(Seq::new(ns as nat, |j: int| c[j] + resto[j]) =~= tamanhos(r));
    }
    let (dl, dr) = dest.split_at_mut(ltot);
    junta_kway(left.as_slice(), dl, right.as_slice(), dr, leaf_size, folha_galopante);
    proof {
        lema_corte_divide(r, c, dl@, dr@);
    }
}

/// Groups the sorted parts of `src` (between the boundaries `lim`) into
/// runs, joining each part to the next when they already follow each other,
/// and merges the runs into `dst`: a copy when one run is left.
fn agrupa_e_mescla<T: Ord + Copy + Send + Sync>(
    src: &[T],
    dst: &mut [T],
    lim: &[usize],
    leaf_size: usize,
    folha_galopante: bool,
)
    requires
        ordem_total::<T>(),
        leaf_size >= 1,
        2 <= lim@.len() <= KWAY_FANOUT + 1,
        lim@[0] == 0,
        lim@[lim@.len() - 1] == src@.len(),
        forall|i: int, j: int| 0 <= i < j < lim@.len() ==> #[trigger] lim@[i] < #[trigger] lim@[j],
        forall|i: int| 0 <= i < lim@.len() - 1 ==> ordenada(#[trigger] src@.subrange(lim@[i] as int, lim@[i + 1] as int)),
        old(dst)@.len() == src@.len(),
    ensures
        ordenacao_estavel(src@, final(dst)@),
{
    let g = lim.len() - 1;
    let mut runs: Vec<&[T]> = Vec::new();
    let mut gs: usize = 0;
    let mut i: usize = 0;
    proof {
        assert(vistas(runs@) =~= Seq::<Seq<T>>::empty());
        assert(src@.take(0) =~= Seq::<T>::empty());
        assert(src@.subrange(0, 0) =~= Seq::<T>::empty());
    }
    while i < g
        invariant
            ordem_total::<T>(),
            g == lim@.len() - 1,
            2 <= lim@.len() <= KWAY_FANOUT + 1,
            lim@[0] == 0,
            lim@[g as int] == src@.len(),
            forall|a: int, b: int| 0 <= a < b < lim@.len() ==> #[trigger] lim@[a] < #[trigger] lim@[b],
            forall|a: int| 0 <= a < lim@.len() - 1 ==> ordenada(#[trigger] src@.subrange(lim@[a] as int, lim@[a + 1] as int)),
            i <= g,
            gs <= lim@[i as int],
            runs@.len() <= i,
            i < g ==> runs@.len() < i + 1,
            todas_ordenadas(vistas(runs@)),
            forall|j: int| 0 <= j < runs@.len() ==> #[trigger] runs@[j]@.len() > 0,
            concatena(vistas(runs@)) == src@.take(gs as int),
            ordenada(src@.subrange(gs as int, lim@[i as int] as int)),
            gs < lim@[i as int] ==> menor_igual(src@[lim@[i as int] - 1], src@[lim@[i as int] as int]),
            i == g ==> gs == src@.len(),
        decreases g - i,
    {
        let e = lim[i + 1];
        proof {
            assert(lim@[i as int] < lim@[i + 1]);
            assert(ordenada(src@.subrange(lim@[i as int] as int, lim@[i + 1] as int)));
            let x = src@.subrange(gs as int, lim@[i as int] as int);
            let y = src@.subrange(lim@[i as int] as int, e as int);
            lema_ordenada_concat(x, y);
            assert(x + y =~= src@.subrange(gs as int, e as int));
            if i + 1 < g {
                assert(lim@[i + 1] < lim@[i + 2]);
            }
        }
        let junta = i + 1 < g && compara_le(&src[e - 1], &src[e]);
        if !junta {
            let ghost antes = vistas(runs@);
            runs.push(vstd::slice::slice_subrange(src, gs, e));
            proof {
                assert(vistas(runs@).drop_last() =~= antes);
                assert(src@.take(e as int) =~= src@.take(gs as int) + src@.subrange(gs as int, e as int));
                assert forall|j: int| 0 <= j < vistas(runs@).len() implies #[trigger] ordenada(vistas(runs@)[j]) by {
                    if j < antes.len() {
                        assert(vistas(runs@)[j] == antes[j]);
                    } else {
                        assert(vistas(runs@)[j] =~= src@.subrange(gs as int, e as int));
                    }
                }
                assert(src@.subrange(e as int, e as int) =~= Seq::<T>::empty());
            }
            gs = e;
        }
        i = i + 1;
    }
    proof {
        assert(src@.take(src@.len() as int) =~= src@);
        lema_concatena_len(vistas(runs@));
    }
    if runs.len() == 1 {
        let n = src.len();
        copia_faixa(src, 0, dst, 0, n);
        proof {
            let r = vistas(runs@);
            assert(r.drop_last() =~= Seq::<Seq<T>>::empty());
            assert(concatena(r.drop_last()) == Seq::<T>::empty());
            assert(concatena(r) =~= r[0]);
            assert(ordenada(r[0]));
            assert(dst@ =~= src@);
            lema_ordenada_estavel(src@);
        }
        return;
    }
    proof {
        assert(lim@[0] < lim@[1]);
    }
    parallel_kway_pim_merge(runs.as_slice(), dst, leaf_size, folha_galopante);
}

/// Bytes up to which the bottom-up k-way merge still splits in two.
pub const KWAY_MIN_BYTES: usize = 2 << 20;

/// Part `c` of `alvo`: from the start of block `cm[c]` to the start of
/// block `cm[c + 1]`, counted from the start of block `cm[lo]`.
pub open spec fn parte<T>(alvo: Seq<T>, offsets: Seq<usize>, cm: Seq<usize>, lo: int, c: int) -> Seq<T> {
    alvo.subrange(offsets[cm[c] as int] - offsets[cm[lo] as int], offsets[cm[c + 1] as int] - offsets[cm[lo] as int])
}

/// The block marks `cm[lo..=hi]` strictly increase and stay within the
/// `nb` blocks.
pub open spec fn marcas_validas(cm: Seq<usize>, lo: int, hi: int, nb: int) -> bool {
    &&& 0 <= lo < hi < cm.len()
    &&& cm[hi] <= nb
    &&& forall|a: int, b: int| lo <= a < b <= hi ==> #[trigger] cm[a] < #[trigger] cm[b]
}

/// Every run of a decomposition has at least one element.
proof fn lema_runs_positivos<T: Ord>(s: Seq<T>, meta: Seq<i64>)
    requires
        metadata_valida(s, meta),
    ensures
        forall|i: int| 0 <= i < meta.len() ==> #[trigger] tamanho_run(meta[i]) >= 1,
    decreases meta.len(),
{
    if meta.len() > 0 {
        let h = tamanho_run(meta.last());
        lema_runs_positivos(s.take(s.len() - h), meta.drop_last());
        assert forall|i: int| 0 <= i < meta.len() implies #[trigger] tamanho_run(meta[i]) >= 1 by {
            if i < meta.len() - 1 {
                assert(meta[i] == meta.drop_last()[i]);
            }
        }
    }
}

/// More runs of a decomposition hold strictly more elements.
proof fn lema_soma_estrita(meta: Seq<i64>, i: int, j: int)
    requires
        0 <= i < j <= meta.len(),
        forall|t: int| 0 <= t < meta.len() ==> #[trigger] tamanho_run(meta[t]) >= 1,
    ensures
        soma_runs(meta.take(i)) < soma_runs(meta.take(j)),
    decreases j - i,
{
    crate::metadata::lema_soma_passo(meta, j - 1);
    if i < j - 1 {
        lema_soma_estrita(meta, i, j - 1);
    }
}

/// The offsets and the decomposition of the blocks `a..b`.
proof fn lema_offsets_faixa(offsets: Seq<usize>, meta: Seq<i64>, a: int, b: int)
    requires
        offsets_validos(offsets, meta),
        0 <= a <= b <= meta.len(),
    ensures
        offsets_validos(offsets.subrange(a, b + 1), meta.subrange(a, b)),
        offsets[b] - offsets[a] == soma_runs(meta.subrange(a, b)),
{
    lema_offsets_divide(offsets, meta, b);
    let o1 = offsets.subrange(0, b + 1);
    lema_offsets_divide(o1, meta.take(b), a);
    assert(o1.subrange(a, o1.len() as int) =~= offsets.subrange(a, b + 1));
    assert(meta.take(b).skip(a) =~= meta.subrange(a, b));
    lema_soma_concat(meta.take(a), meta.subrange(a, b));
    assert(meta.take(a) + meta.subrange(a, b) =~= meta.take(b));
}

/// Sorts the parts `lo..hi` (at least one) of `v`: one part by the
/// bottom-up k-way merge, more by `processa_partes`.
fn processa_faixa<T: Ord + Copy + Send + Sync>(
    v: &mut [T],
    buf: &mut [T],
    metadata: &[i64],
    offsets: &[usize],
    cm: &[usize],
    lo: usize,
    hi: usize,
    leaf_size: usize,
    into_buf: bool,
    folha_galopante: bool,
)
    requires
        ordem_total::<T>(),
        leaf_size >= 1,
        offsets_validos(offsets@, metadata@),
        marcas_validas(cm@, lo as int, hi as int, metadata@.len() as int),
        old(v)@.len() == offsets@[cm@[hi as int] as int] - offsets@[cm@[lo as int] as int],
        metadata_valida(old(v)@, metadata@.subrange(cm@[lo as int] as int, cm@[hi as int] as int)),
        old(buf)@.len() == old(v)@.len(),
    ensures
        final(v)@.len() == old(v)@.len(),
        final(buf)@.len() == old(buf)@.len(),
        into_buf ==> mesmas_classes(old(v)@, final(buf)@),
        !into_buf ==> mesmas_classes(old(v)@, final(v)@),
        into_buf ==> forall|c: int| lo <= c < hi ==> ordenada(#[trigger] parte(final(buf)@, offsets@, cm@, lo as int, c)),
        !into_buf ==> forall|c: int| lo <= c < hi ==> ordenada(#[trigger] parte(final(v)@, offsets@, cm@, lo as int, c)),
{
    if hi - lo == 1 {
        let a = cm[lo];
        let b = cm[hi];
        proof {
            lema_offsets_faixa(offsets@, metadata@, a as int, b as int);
            lema_runs_positivos(old(v)@, metadata@.subrange(a as int, b as int));
        }
        let _n_off = offsets.len();
        let m = vstd::slice::slice_subrange(metadata, a, b);
        let o = vstd::slice::slice_subrange(offsets, a, b + 1);
        bottom_up_merge_pim_kway(v, buf, m, o, leaf_size, into_buf, folha_galopante);
        proof {
            assert(parte(buf@, offsets@, cm@, lo as int, lo as int) =~= buf@);
            assert(parte(v@, offsets@, cm@, lo as int, lo as int) =~= v@);
        }
    } else {
        processa_partes(v, buf, metadata, offsets, cm, lo, hi, leaf_size, into_buf, folha_galopante);
    }
}

/// Runs the sorting of two groups of parts through `rayon::join`, which
/// always executes both closures; each closure is one call of
/// `processa_faixa`, so each group ends as that function's contract states.
#[verifier::external_body]
fn junta_partes<T: Ord + Copy + Send + Sync>(
    v_l: &mut [T],
    buf_l: &mut [T],
    v_r: &mut [T],
    buf_r: &mut [T],
    metadata: &[i64],
    offsets: &[usize],
    cm: &[usize],
    lo: usize,
    mid: usize,
    hi: usize,
    leaf_size: usize,
    into_buf: bool,
    folha_galopante: bool,
)
    requires
        ordem_total::<T>(),
        leaf_size >= 1,
        offsets_validos(offsets@, metadata@),
        marcas_validas(cm@, lo as int, mid as int, metadata@.len() as int),
        marcas_validas(cm@, mid as int, hi as int, metadata@.len() as int),
        old(v_l)@.len() == offsets@[cm@[mid as int] as int] - offsets@[cm@[lo as int] as int],
        metadata_valida(old(v_l)@, metadata@.subrange(cm@[lo as int] as int, cm@[mid as int] as int)),
        old(buf_l)@.len() == old(v_l)@.len(),
        old(v_r)@.len() == offsets@[cm@[hi as int] as int] - offsets@[cm@[mid as int] as int],
        metadata_valida(old(v_r)@, metadata@.subrange(cm@[mid as int] as int, cm@[hi as int] as int)),
        old(buf_r)@.len() == old(v_r)@.len(),
    ensures
        final(v_l)@.len() == old(v_l)@.len(),
        final(buf_l)@.len() == old(buf_l)@.len(),
        into_buf ==> mesmas_classes(old(v_l)@, final(buf_l)@),
        !into_buf ==> mesmas_classes(old(v_l)@, final(v_l)@),
        into_buf ==> forall|c: int| lo <= c < mid ==> ordenada(#[trigger] parte(final(buf_l)@, offsets@, cm@, lo as int, c)),
        !into_buf ==> forall|c: int| lo <= c < mid ==> ordenada(#[trigger] parte(final(v_l)@, offsets@, cm@, lo as int, c)),
        final(v_r)@.len() == old(v_r)@.len(),
        final(buf_r)@.len() == old(buf_r)@.len(),
        into_buf ==> mesmas_classes(old(v_r)@, final(buf_r)@),
        !into_buf ==> mesmas_classes(old(v_r)@, final(v_r)@),
        into_buf ==> forall|c: int| mid <= c < hi ==> ordenada(#[trigger] parte(final(buf_r)@, offsets@, cm@, mid as int, c)),
        !into_buf ==> forall|c: int| mid <= c < hi ==> ordenada(#[trigger] parte(final(v_r)@, offsets@, cm@, mid as int, c)),
{
    rayon::join(
        || processa_faixa(v_l, buf_l, metadata, offsets, cm, lo, mid, leaf_size, into_buf, folha_galopante),
        || processa_faixa(v_r, buf_r, metadata, offsets, cm, mid, hi, leaf_size, into_buf, folha_galopante),
    );
}

/// Sorts the parts `lo..hi` (at least two) of `v` in parallel: the first
/// half of the parts and the second at once.
#[verifier::spinoff_prover]
#[verifier::rlimit(40)]
fn processa_partes<T: Ord + Copy + Send + Sync>(
    v: &mut [T],
    buf: &mut [T],
    metadata: &[i64],
    offsets: &[usize],
    cm: &[usize],
    lo: usize,
    hi: usize,
    leaf_size: usize,
    into_buf: bool,
    folha_galopante: bool,
)
    requires
        ordem_total::<T>(),
        leaf_size >= 1,
        hi - lo >= 2,
        offsets_validos(offsets@, metadata@),
        marcas_validas(cm@, lo as int, hi as int, metadata@.len() as int),
        old(v)@.len() == offsets@[cm@[hi as int] as int] - offsets@[cm@[lo as int] as int],
        metadata_valida(old(v)@, metadata@.subrange(cm@[lo as int] as int, cm@[hi as int] as int)),
        old(buf)@.len() == old(v)@.len(),
    ensures
        final(v)@.len() == old(v)@.len(),
        final(buf)@.len() == old(buf)@.len(),
        into_buf ==> mesmas_classes(old(v)@, final(buf)@),
        !into_buf ==> mesmas_classes(old(v)@, final(v)@),
        into_buf ==> forall|c: int| lo <= c < hi ==> ordenada(#[trigger] parte(final(buf)@, offsets@, cm@, lo as int, c)),
        !into_buf ==> forall|c: int| lo <= c < hi ==> ordenada(#[trigger] parte(final(v)@, offsets@, cm@, lo as int, c)),
{
    let ghost o = v@;
    let mid = lo + (hi - lo) / 2;
    let ghost a = cm@[lo as int] as int;
    let ghost b = cm@[mid as int] as int;
    let ghost e = cm@[hi as int] as int;
    let ghost msub = metadata@.subrange(a, e);
    proof {
        lema_offsets_faixa(offsets@, metadata@, a, b);
        lema_offsets_faixa(offsets@, metadata@, a, e);
        lema_offsets_crescentes(offsets@, metadata@);
        lema_meta_divide(o, msub, b - a);
        assert(msub.take(b - a) =~= metadata@.subrange(a, b));
        assert(msub.skip(b - a) =~= metadata@.subrange(b, e));
        assert(cm@[lo as int] < cm@[mid as int] < cm@[hi as int]);
    }
    let m = offsets[cm[mid]] - offsets[cm[lo]];
    let ghost ol = o.take(m as int);
    let ghost or = o.skip(m as int);
    let ghost (vl, vr, bl, br);
    {
        let (v_l, v_r) = v.split_at_mut(m);
        let (buf_l, buf_r) = buf.split_at_mut(m);
        junta_partes(v_l, buf_l, v_r, buf_r, metadata, offsets, cm, lo, mid, hi, leaf_size, into_buf, folha_galopante);
        proof {
            vl = v_l@;
            vr = v_r@;
            bl = buf_l@;
            br = buf_r@;
        }
    }
    proof {
        assert(o =~= ol + or);
        assert(v@ == vl + vr);
        assert(buf@ == bl + br);
        let (al, ar) = if into_buf { (bl, br) } else { (vl, vr) };
        let alvo = if into_buf { buf@ } else { v@ };
        assert(alvo == al + ar);
        crate::especificacao::lema_classes_concat(ol, al, or, ar);
        assert(forall|c: int| lo <= c < mid ==> ordenada(#[trigger] parte(al, offsets@, cm@, lo as int, c)));
        assert(forall|c: int| mid <= c < hi ==> ordenada(#[trigger] parte(ar, offsets@, cm@, mid as int, c)));
        assert forall|c: int| lo <= c < hi implies ordenada(#[trigger] parte(alvo, offsets@, cm@, lo as int, c)) by {
            assert(cm@[lo as int] <= cm@[c] < cm@[c + 1] <= cm@[hi as int]);
            if c < mid {
                assert(cm@[c + 1] <= cm@[mid as int]);
                assert(parte(alvo, offsets@, cm@, lo as int, c) =~= parte(al, offsets@, cm@, lo as int, c));
            } else {
                assert(cm@[mid as int] <= cm@[c]);
                assert(parte(alvo, offsets@, cm@, lo as int, c) =~= parte(ar, offsets@, cm@, mid as int, c));
            }
        }
    }
}

/// Runs the two halves of a level of the bottom-up k-way merge through
/// `rayon::join`, which always executes both closures; each closure is one
/// call of `bottom_up_merge_pim_kway`, so each half ends as that function's
/// contract states.
#[verifier::external_body]
fn junta_bottom_up_kway<T: Ord + Copy + Send + Sync>(
    v_l: &mut [T],
    buf_l: &mut [T],
    meta_l: &[i64],
    off_l: &[usize],
    v_r: &mut [T],
    buf_r: &mut [T],
    meta_r: &[i64],
    off_r: &[usize],
    leaf_size: usize,
    into_buf: bool,
    folha_galopante: bool,
)
    requires
        ordem_total::<T>(),
        leaf_size >= 1,
        meta_l@.len() >= 1,
        offsets_validos(off_l@, meta_l@),
        metadata_valida(old(v_l)@, meta_l@),
        old(buf_l)@.len() == old(v_l)@.len(),
        meta_r@.len() >= 1,
        offsets_validos(off_r@, meta_r@),
        metadata_valida(old(v_r)@, meta_r@),
        old(buf_r)@.len() == old(v_r)@.len(),
    ensures
        final(v_l)@.len() == old(v_l)@.len(),
        final(buf_l)@.len() == old(buf_l)@.len(),
        into_buf ==> ordenacao_estavel(old(v_l)@, final(buf_l)@),
        !into_buf ==> ordenacao_estavel(old(v_l)@, final(v_l)@),
        final(v_r)@.len() == old(v_r)@.len(),
        final(buf_r)@.len() == old(buf_r)@.len(),
        into_buf ==> ordenacao_estavel(old(v_r)@, final(buf_r)@),
        !into_buf ==> ordenacao_estavel(old(v_r)@, final(v_r)@),
{
    rayon::join(
        || bottom_up_merge_pim_kway(v_l, buf_l, meta_l, off_l, leaf_size, into_buf, folha_galopante),
        || bottom_up_merge_pim_kway(v_r, buf_r, meta_r, off_r, leaf_size, into_buf, folha_galopante),
    );
}

/// Merges two stably sorted halves of `src` into `dst`: a copy when they
/// already follow each other, else the parallel binary merge.
fn costura_ou_intercala<T: Ord + Copy + Send + Sync>(
    src: &[T],
    dst: &mut [T],
    mid: usize,
    leaf_size: usize,
    folha_galopante: bool,
)
    requires
        ordem_total::<T>(),
        0 < mid < src@.len(),
        ordenada(src@.take(mid as int)),
        ordenada(src@.skip(mid as int)),
        old(dst)@.len() == src@.len(),
    ensures
        final(dst)@ == intercala(src@.take(mid as int), src@.skip(mid as int)),
{
    let n = src.len();
    let a = vstd::slice::slice_subrange(src, 0, mid);
    let b = vstd::slice::slice_subrange(src, mid, n);
    proof {
        assert(a@ =~= src@.take(mid as int));
        assert(b@ =~= src@.skip(mid as int));
    }
    if compara_le(&src[mid - 1], &src[mid]) {
        proof {
            lema_intercala_em_ordem(a@, b@);
            assert(a@ + b@ =~= src@);
        }
        copia_faixa(src, 0, dst, 0, n);
        proof {
            assert(dst@ =~= src@);
        }
    } else {
        pim_parallel_merge(a, b, dst, true, leaf_size, folha_galopante);
    }
}

/// Bottom-up k-way merge of the runs of `v` (described by `metadata`, at
/// `offsets`) into `buf` when `into_buf`, else back into `v`. Up to
/// `KWAY_MIN_BYTES` the runs split in two halves, merged at once and then
/// joined by the parallel binary merge (or a copy when already in order);
/// beyond that they split into up to eight groups of about equal size,
/// sorted at once, and the groups that do not already follow each other are
/// merged by the parallel k-way merge.
pub fn bottom_up_merge_pim_kway<T: Ord + Copy + Send + Sync>(
    v: &mut [T],
    buf: &mut [T],
    metadata: &[i64],
    offsets: &[usize],
    leaf_size: usize,
    into_buf: bool,
    folha_galopante: bool,
)
    requires
        ordem_total::<T>(),
        leaf_size >= 1,
        metadata@.len() >= 1,
        offsets_validos(offsets@, metadata@),
        metadata_valida(old(v)@, metadata@),
        old(buf)@.len() == old(v)@.len(),
    ensures
        final(v)@.len() == old(v)@.len(),
        final(buf)@.len() == old(buf)@.len(),
        into_buf ==> ordenacao_estavel(old(v)@, final(buf)@),
        !into_buf ==> ordenacao_estavel(old(v)@, final(v)@),
{
    let ghost o = v@;
    let num_blocks = metadata.len();
    proof {
        lema_meta_divide(o, metadata@, 0);
    }
    if num_blocks == 1 {
        proof {
            lema_um_run(o, metadata@);
            lema_um_run_estavel(o, metadata@[0]);
        }
        let is_desc = metadata[0] < 0;
        let n = v.len();
        if into_buf {
            if is_desc {
                copia_invertida(v, buf);
            } else {
                copia_faixa(v, 0, buf, 0, n);
                proof {
                    assert(buf@ =~= o);
                }
            }
        } else if is_desc {
            parallel_reverse(v);
        }
        return;
    }
    proof {
        lema_offsets_crescentes(offsets@, metadata@);
        assert(metadata@.take(num_blocks as int) =~= metadata@);
        lema_runs_positivos(o, metadata@);
    }
    let base = offsets[0];
    let total = offsets[num_blocks] - base;
    let bytes = crate::mul_saturada(total, core::mem::size_of::<T>());
    if bytes <= KWAY_MIN_BYTES {
        bottom_up_kway_em_dois(v, buf, metadata, offsets, leaf_size, into_buf, folha_galopante);
    } else {
        bottom_up_kway_em_grupos(v, buf, metadata, offsets, leaf_size, into_buf, folha_galopante);
    }
}

/// The level of the bottom-up k-way merge that splits the runs in two.
fn bottom_up_kway_em_dois<T: Ord + Copy + Send + Sync>(
    v: &mut [T],
    buf: &mut [T],
    metadata: &[i64],
    offsets: &[usize],
    leaf_size: usize,
    into_buf: bool,
    folha_galopante: bool,
)
    requires
        ordem_total::<T>(),
        leaf_size >= 1,
        metadata@.len() >= 2,
        offsets_validos(offsets@, metadata@),
        metadata_valida(old(v)@, metadata@),
        old(buf)@.len() == old(v)@.len(),
    ensures
        final(v)@.len() == old(v)@.len(),
        final(buf)@.len() == old(buf)@.len(),
        into_buf ==> ordenacao_estavel(old(v)@, final(buf)@),
        !into_buf ==> ordenacao_estavel(old(v)@, final(v)@),
{
    let ghost o = v@;
    let num_blocks = metadata.len();
    proof {
        lema_meta_divide(o, metadata@, 0);
        lema_offsets_crescentes(offsets@, metadata@);
        assert(metadata@.take(num_blocks as int) =~= metadata@);
        lema_runs_positivos(o, metadata@);
    }
    let base = offsets[0];
    let total = offsets[num_blocks] - base;
    let target = base + total / 2;
    let p = primeiro_nao_menor(offsets, target);
    let split_idx = if p < 1 { 1 } else if p > num_blocks - 1 { num_blocks - 1 } else { p };
    let mid = offsets[split_idx] - base;
    let ghost ml = metadata@.take(split_idx as int);
    let ghost mr = metadata@.skip(split_idx as int);
    proof {
        lema_meta_divide(o, metadata@, split_idx as int);
        lema_offsets_divide(offsets@, metadata@, split_idx as int);
        assert(metadata@.subrange(0, split_idx as int) =~= ml);
        assert(metadata@.subrange(split_idx as int, num_blocks as int) =~= mr);
    }
    let left_meta = vstd::slice::slice_subrange(metadata, 0, split_idx);
    let right_meta = vstd::slice::slice_subrange(metadata, split_idx, num_blocks);
    let left_offsets = vstd::slice::slice_subrange(offsets, 0, split_idx + 1);
    let right_offsets = vstd::slice::slice_subrange(offsets, split_idx, num_blocks + 1);
    let ghost ol = o.take(mid as int);
    let ghost or = o.skip(mid as int);
    let ghost (vl, vr, bl, br);
    {
        let (v_left, v_right) = v.split_at_mut(mid);
        let (buf_left, buf_right) = buf.split_at_mut(mid);
        junta_bottom_up_kway(
            v_left,
            buf_left,
            left_meta,
            left_offsets,
            v_right,
            buf_right,
            right_meta,
            right_offsets,
            leaf_size,
            !into_buf,
            folha_galopante,
        );
        proof {
            vl = v_left@;
            vr = v_right@;
            bl = buf_left@;
            br = buf_right@;
        }
    }
    proof {
        assert(o =~= ol + or);
        assert(v@ == vl + vr);
        assert(buf@ == bl + br);
        assert(v@.take(mid as int) =~= vl);
        assert(v@.skip(mid as int) =~= vr);
        assert(buf@.take(mid as int) =~= bl);
        assert(buf@.skip(mid as int) =~= br);
    }
    if into_buf {
        proof {
            lema_intercala_estavel(ol, vl, or, vr);
        }
        costura_ou_intercala(v, buf, mid, leaf_size, folha_galopante);
    } else {
        proof {
            lema_intercala_estavel(ol, bl, or, br);
        }
        costura_ou_intercala(buf, v, mid, leaf_size, folha_galopante);
    }
}

/// The level of the bottom-up k-way merge that splits the runs into up to
/// eight groups.
fn bottom_up_kway_em_grupos<T: Ord + Copy + Send + Sync>(
    v: &mut [T],
    buf: &mut [T],
    metadata: &[i64],
    offsets: &[usize],
    leaf_size: usize,
    into_buf: bool,
    folha_galopante: bool,
)
    requires
        ordem_total::<T>(),
        leaf_size >= 1,
        metadata@.len() >= 2,
        offsets_validos(offsets@, metadata@),
        metadata_valida(old(v)@, metadata@),
        old(buf)@.len() == old(v)@.len(),
    ensures
        final(v)@.len() == old(v)@.len(),
        final(buf)@.len() == old(buf)@.len(),
        into_buf ==> ordenacao_estavel(old(v)@, final(buf)@),
        !into_buf ==> ordenacao_estavel(old(v)@, final(v)@),
{
    let ghost o = v@;
    let num_blocks = metadata.len();
    proof {
        lema_meta_divide(o, metadata@, 0);
        lema_offsets_crescentes(offsets@, metadata@);
        assert(metadata@.take(num_blocks as int) =~= metadata@);
        lema_runs_positivos(o, metadata@);
    }
    let base = offsets[0];
    let total = offsets[num_blocks] - base;
    let g = if num_blocks < KWAY_FANOUT { num_blocks } else { KWAY_FANOUT };
    let mut cm: Vec<usize> = Vec::new();
    cm.push(0);
    let mut i: usize = 1;
    while i < g
        invariant
            2 <= g <= num_blocks,
            g <= KWAY_FANOUT,
            1 <= i <= g,
            cm@.len() == i,
            cm@[0] == 0,
            forall|a: int, b: int| 0 <= a < b < i ==> #[trigger] cm@[a] < #[trigger] cm@[b],
            cm@[i - 1] <= num_blocks - (g - (i - 1)),
            forall|a: int, b: int| 0 <= a <= b < offsets@.len() ==> #[trigger] offsets@[a] <= #[trigger] offsets@[b],
            offsets@.len() == num_blocks + 1,
            base == offsets@[0],
            total == offsets@[num_blocks as int] - base,
        decreases g - i,
    {
        let fr = crate::cut::fracao(total, i, g);
        proof {
            assert(total * i / (g as int) <= total) by (nonlinear_arith)
                requires
                    i <= g,
                    g > 0,
                    total >= 0,
            ;
        }
        let target = base + fr;
        let idx = primeiro_nao_menor(offsets, target);
        let piso = cm[i - 1] + 1;
        let teto = num_blocks - (g - i);
        let c = if idx < piso { piso } else if idx > teto { teto } else { idx };
        cm.push(c);
        i = i + 1;
    }
    cm.push(num_blocks);
    proof {
        assert(metadata@.subrange(0, num_blocks as int) =~= metadata@);
        assert(marcas_validas(cm@, 0, g as int, num_blocks as int));
    }
    processa_partes(v, buf, metadata, offsets, cm.as_slice(), 0, g, leaf_size, !into_buf, folha_galopante);
    let mut lim: Vec<usize> = Vec::new();
    let mut i: usize = 0;
    while i <= g
        invariant
            g <= KWAY_FANOUT,
            i <= g + 1,
            cm@.len() == g + 1,
            lim@.len() == i,
            marcas_validas(cm@, 0, g as int, num_blocks as int),
            forall|a: int, b: int| 0 <= a <= b < offsets@.len() ==> #[trigger] offsets@[a] <= #[trigger] offsets@[b],
            offsets@.len() == num_blocks + 1,
            base == offsets@[0],
            forall|j: int| 0 <= j < i ==> #[trigger] lim@[j] == offsets@[cm@[j] as int] - base,
        decreases g + 1 - i,
    {
        lim.push(offsets[cm[i]] - base);
        i = i + 1;
    }
    proof {
        let src = if into_buf { v@ } else { buf@ };
        assert(cm@[0] == 0);
        assert forall|a: int, b: int| 0 <= a < b < lim@.len() implies #[trigger] lim@[a] < #[trigger] lim@[b] by {
            assert(cm@[a] < cm@[b]);
            lema_soma_estrita(metadata@, cm@[a] as int, cm@[b] as int);
        }
        assert forall|c: int| 0 <= c < lim@.len() - 1 implies ordenada(#[trigger] src.subrange(lim@[c] as int, lim@[c + 1] as int)) by {
            assert(src.subrange(lim@[c] as int, lim@[c + 1] as int) =~= parte(src, offsets@, cm@, 0, c));
        }
    }
    if into_buf {
        agrupa_e_mescla(v, buf, lim.as_slice(), leaf_size, folha_galopante);
        proof {
            crate::especificacao::lema_estavel_por_classes(o, v@, buf@);
        }
    } else {
        agrupa_e_mescla(buf, v, lim.as_slice(), leaf_size, folha_galopante);
        proof {
            crate::especificacao::lema_estavel_por_classes(o, buf@, v@);
        }
    }
}

} // verus!
