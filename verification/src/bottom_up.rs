use vstd::prelude::*;
use rayon::iter::IntoParallelRefMutIterator;
use rayon::iter::IndexedParallelIterator;
use rayon::iter::ParallelIterator;
use crate::ordem::{ordem_total, menor_igual, menor, lema_preordem_total, compara_le, compara_lt};
use crate::PimConfig;
use crate::cut::{Nucleo, merge_bidirecional, pway_merge_frente_auto_adaptativo};
use crate::pim_kernel::pim_front_adaptativo;
use crate::especificacao::{
    ordenada, intercala, ordenacao_estavel, run_crescente, lema_run_crescente,
    lema_run_decrescente_estavel, lema_ordenada_estavel, lema_intercala_estavel,
    lema_intercala_em_ordem, lema_intercala_invertida, lema_intercala_len,
};
use crate::metadata::{
    metadata_valida, run_valido, soma_runs, offsets_validos, lema_meta_divide, lema_offsets_divide,
    lema_soma_monotona, tamanho_run,
};
use crate::pim_kernel::{copia_faixa, pim_front};
use crate::cut::merge_front;

verus! {

/// Reverses `v` in place.
pub fn inverte<T: Copy>(v: &mut [T])
    ensures
        final(v)@ == old(v)@.reverse(),
{
    let ghost v0 = v@;
    let n = v.len();
    let mut i: usize = 0;
    while i < n / 2
        invariant
            n == v0.len(),
            v@.len() == n,
            i <= n / 2,
            forall|k: int| 0 <= k < i ==> #[trigger] v@[k] == v0[n - 1 - k],
            forall|k: int| n - i <= k < n ==> #[trigger] v@[k] == v0[n - 1 - k],
            forall|k: int| i <= k < n - i ==> #[trigger] v@[k] == v0[k],
        decreases n / 2 - i,
    {
        let x = v[i];
        let y = v[n - 1 - i];
        v[i] = y;
        v[n - 1 - i] = x;
        i = i + 1;
    }
    proof {
        assert(v@ =~= v0.reverse());
    }
}

/// Writes `src` reversed into `dest`.
pub fn copia_invertida<T: Copy>(src: &[T], dest: &mut [T])
    requires
        old(dest)@.len() == src@.len(),
    ensures
        final(dest)@ == src@.reverse(),
{
    let n = src.len();
    let mut i: usize = 0;
    while i < n
        invariant
            n == src@.len(),
            dest@.len() == n,
            i <= n,
            forall|k: int| 0 <= k < i ==> #[trigger] dest@[k] == src@[n - 1 - k],
        decreases n - i,
    {
        dest[i] = src[n - 1 - i];
        i = i + 1;
    }
    proof {
        assert(dest@ =~= src@.reverse());
    }
}

/// First position of the non-decreasing `offsets` not below `alvo`.
pub(crate) fn primeiro_nao_menor(offsets: &[usize], alvo: usize) -> (r: usize)
    requires
        forall|i: int, j: int| 0 <= i <= j < offsets@.len() ==> #[trigger] offsets@[i] <= #[trigger] offsets@[j],
    ensures
        r <= offsets@.len(),
        forall|i: int| 0 <= i < r ==> #[trigger] offsets@[i] < alvo,
        forall|i: int| r <= i < offsets@.len() ==> #[trigger] offsets@[i] >= alvo,
{
    let mut lo: usize = 0;
    let mut hi: usize = offsets.len();
    while lo < hi
        invariant
            0 <= lo <= hi <= offsets@.len(),
            forall|i: int, j: int| 0 <= i <= j < offsets@.len() ==> #[trigger] offsets@[i] <= #[trigger] offsets@[j],
            forall|i: int| 0 <= i < lo ==> #[trigger] offsets@[i] < alvo,
            forall|i: int| hi <= i < offsets@.len() ==> #[trigger] offsets@[i] >= alvo,
        decreases hi - lo,
    {
        let mid = lo + (hi - lo) / 2;
        if offsets[mid] < alvo {
            lo = mid + 1;
        } else {
            hi = mid;
        }
    }
    lo
}

/// The non-decreasing offsets of a decomposition.
pub(crate) proof fn lema_offsets_crescentes(offsets: Seq<usize>, meta: Seq<i64>)
    requires
        offsets_validos(offsets, meta),
    ensures
        forall|i: int, j: int| 0 <= i <= j < offsets.len() ==> #[trigger] offsets[i] <= #[trigger] offsets[j],
{
    assert forall|i: int, j: int| 0 <= i <= j < offsets.len() implies #[trigger] offsets[i] <= #[trigger] offsets[j] by {
        lema_soma_monotona(meta, i, j);
    }
}

/// Sequential leaf merge: the galloping kernel when `folha_galopante`,
/// else the linear one.
fn merge_pim_sequencial<T: Ord + Copy>(a: &[T], b: &[T], dest: &mut [T], folha_galopante: bool)
    requires
        ordem_total::<T>(),
        ordenada(a@),
        ordenada(b@),
        old(dest)@.len() == a@.len() + b@.len(),
    ensures
        final(dest)@ == intercala(a@, b@),
{
    proof { crate::especificacao::lema_intercala_len(a@, b@); }
    if folha_galopante {
        pim_front(a, b, dest);
    } else {
        merge_front(a, b, dest);
    }
    proof { assert(intercala(a@, b@).take(dest@.len() as int) =~= intercala(a@, b@)); }
}

/// A decomposition into one run: the run itself.
pub(crate) proof fn lema_um_run<T: Ord>(s: Seq<T>, meta: Seq<i64>)
    requires
        metadata_valida(s, meta),
        meta.len() == 1,
    ensures
        run_valido(s, meta[0]),
{
    assert(meta.last() == meta[0]);
    let h = tamanho_run(meta[0]);
    assert(metadata_valida(s.take(s.len() - h), meta.drop_last()));
    assert(meta.drop_last().len() == 0);
    assert(s.skip(0) =~= s);
}

/// A single run, sorted stably: left as it is when ascending, reversed when
/// strictly descending.
pub proof fn lema_um_run_estavel<T: Ord>(s: Seq<T>, x: i64)
    requires
        ordem_total::<T>(),
        run_valido(s, x),
    ensures
        x > 0 ==> ordenacao_estavel(s, s),
        x < 0 ==> ordenacao_estavel(s, s.reverse()),
{
    if x > 0 {
        lema_run_crescente(s);
        lema_ordenada_estavel(s);
    } else {
        lema_run_decrescente_estavel(s);
    }
}

/// Bottom-up merge of the runs of `v` described by `metadata`, one merge
/// at a time: the runs are split at the offset nearest to the middle,
/// each half is sorted into the other buffer, and the halves are merged
/// back. The result lands in `buf` when `into_buf`, else in `v`. With
/// `costura_bordas`, halves that already follow each other are copied.
pub fn bottom_up_merge_pim_sequencial<T: Ord + Copy>(
    v: &mut [T],
    buf: &mut [T],
    metadata: &[i64],
    offsets: &[usize],
    into_buf: bool,
    costura_bordas: bool,
    folha_galopante: bool,
)
    requires
        ordem_total::<T>(),
        metadata@.len() >= 1,
        offsets_validos(offsets@, metadata@),
        metadata_valida(old(v)@, metadata@),
        old(buf)@.len() == old(v)@.len(),
    ensures
        final(v)@.len() == old(v)@.len(),
        final(buf)@.len() == old(buf)@.len(),
        into_buf ==> ordenacao_estavel(old(v)@, final(buf)@),
        !into_buf ==> ordenacao_estavel(old(v)@, final(v)@),
    decreases metadata@.len(),
{
    let ghost o = v@;
    let num_blocks = metadata.len();
    proof { lema_meta_divide(o, metadata@, 0); }
    if num_blocks == 1 {
        proof {
            lema_um_run(o, metadata@);
            lema_um_run_estavel(o, metadata@[0]);
        }
        let is_desc = metadata[0] < 0;
        let n = v.len();
        if into_buf {
            if is_desc {
                copia_invertida(v, buf);
            } else {
                copia_faixa(v, 0, buf, 0, n);
                proof {
                    assert(buf@ =~= o);
                }
            }
        } else if is_desc {
            inverte(v);
        }
        return;
    }
    proof {
        lema_offsets_crescentes(offsets@, metadata@);
        assert(metadata@.take(num_blocks as int) =~= metadata@);
    }
    let base = offsets[0];
    let total = offsets[num_blocks] - base;
    let target = base + total / 2;
    let p = primeiro_nao_menor(offsets, target);
    let split_idx = if p < 1 { 1 } else if p > num_blocks - 1 { num_blocks - 1 } else { p };
    let mid = offsets[split_idx] - base;
    let ghost ml = metadata@.take(split_idx as int);
    let ghost mr = metadata@.skip(split_idx as int);
    proof {
        lema_meta_divide(o, metadata@, split_idx as int);
        lema_offsets_divide(offsets@, metadata@, split_idx as int);
        assert(metadata@.subrange(0, split_idx as int) =~= ml);
        assert(metadata@.subrange(split_idx as int, num_blocks as int) =~= mr);
    }
    let left_meta = &metadata[0..split_idx];
    let right_meta = &metadata[split_idx..num_blocks];
    let left_offsets = &offsets[0..split_idx + 1];
    let right_offsets = &offsets[split_idx..num_blocks + 1];
    let ghost ol = o.take(mid as int);
    let ghost or = o.skip(mid as int);
    let ghost vl;
    let ghost vr;
    let ghost bl;
    let ghost br;
    {
        let (v_left, v_right) = v.split_at_mut(mid);
        let (buf_left, buf_right) = buf.split_at_mut(mid);
        bottom_up_merge_pim_sequencial(v_left, buf_left, left_meta, left_offsets, !into_buf, costura_bordas, folha_galopante);
        bottom_up_merge_pim_sequencial(v_right, buf_right, right_meta, right_offsets, !into_buf, costura_bordas, folha_galopante);
        proof {
            vl = v_left@;
            vr = v_right@;
            bl = buf_left@;
            br = buf_right@;
        }
    }
    proof {
        assert(o =~= ol + or);
        assert(v@ == vl + vr);
        assert(buf@ == bl + br);
        assert(v@.take(mid as int) =~= vl);
        assert(v@.skip(mid as int) =~= vr);
        assert(buf@.take(mid as int) =~= bl);
        assert(buf@.skip(mid as int) =~= br);
    }
    if into_buf {
        let ghost sl = v@.take(mid as int);
        let ghost sr = v@.skip(mid as int);
        proof {
            assert(ordenacao_estavel(ol, sl));
            assert(ordenacao_estavel(or, sr));
            lema_intercala_estavel(ol, sl, or, sr);
        }
        let a = &v[0..mid];
        let b = &v[mid..v.len()];
        if costura_bordas && compara_le(&v[mid - 1], &v[mid]) {
            proof {
                lema_intercala_em_ordem(sl, sr);
                assert(sl + sr =~= v@);
            }
            copia_faixa(v, 0, buf, 0, v.len());
            proof {
                assert(buf@ =~= v@);
            }
        } else {
            merge_pim_sequencial(a, b, buf, folha_galopante);
        }
    } else {
        let ghost sl = buf@.take(mid as int);
        let ghost sr = buf@.skip(mid as int);
        proof {
            assert(ordenacao_estavel(ol, sl));
            assert(ordenacao_estavel(or, sr));
            lema_intercala_estavel(ol, sl, or, sr);
        }
        let a = &buf[0..mid];
        let b = &buf[mid..buf.len()];
        if costura_bordas && compara_le(&buf[mid - 1], &buf[mid]) {
            proof {
                lema_intercala_em_ordem(sl, sr);
                assert(sl + sr =~= buf@);
            }
            copia_faixa(buf, 0, v, 0, buf.len());
            proof {
                assert(v@ =~= buf@);
            }
        } else {
            merge_pim_sequencial(a, b, v, folha_galopante);
        }
    }
}


/// Swaps the values behind two references.
fn troca<T>(x: &mut T, y: &mut T)
    ensures
        *final(x) == *old(y),
        *final(y) == *old(x),
{
    core::mem::swap(x, y);
}

/// Swaps `left[i]` with `right[right.len() - 1 - i]` for every `i` below
/// `left.len()`, in parallel: rayon's `par_iter_mut`, `zip`, `rev` and
/// `for_each`, each pair handed to `troca`. `zip` pairs the items of equal
/// index and stops at the shorter side; `rev` walks `right` from its end.
#[verifier::external_body]
fn troca_espelhada_par<T: Send + Sync>(left: &mut [T], right: &mut [T])
    requires
        old(left)@.len() <= old(right)@.len(),
    ensures
        final(left)@.len() == old(left)@.len(),
        final(right)@.len() == old(right)@.len(),
        forall|i: int| 0 <= i < old(left)@.len() ==> #[trigger] final(left)@[i] == old(right)@[old(right)@.len() - 1 - i],
        forall|j: int| 0 <= j < old(right)@.len() - old(left)@.len() ==> #[trigger] final(right)@[j] == old(right)@[j],
        forall|j: int| old(right)@.len() - old(left)@.len() <= j < old(right)@.len()
            ==> #[trigger] final(right)@[j] == old(left)@[old(right)@.len() - 1 - j],
{
    left.par_iter_mut().zip(right.par_iter_mut().rev()).for_each(|(a, b)| troca(a, b));
}

/// Reverses `arr`: sequentially up to 100000 elements, else by swapping
/// mirrored pairs of the two halves in parallel.
pub fn parallel_reverse<T: Copy + Send + Sync>(arr: &mut [T])
    ensures
        final(arr)@ == old(arr)@.reverse(),
{
    let n = arr.len();
    if n <= 100_000 {
        inverte(arr);
        return;
    }
    let ghost o = arr@;
    let mid = n / 2;
    let ghost nl;
    let ghost nr;
    {
        let (left, right) = arr.split_at_mut(mid);
        troca_espelhada_par(left, right);
        proof {
            nl = left@;
            nr = right@;
        }
    }
    proof {
        assert(arr@ == nl + nr);
        assert(arr@ =~= o.reverse());
    }
}

/// Copies the runs into `dest` when one of them is empty or they do not
/// overlap: `a` then `b` when the last of `a` does not exceed the first of
/// `b`, `b` then `a` when the last of `b` is strictly below the first of
/// `a`. Otherwise it returns `false` and leaves `dest` as it was.
pub fn copia_faixas_disjuntas<T: Ord + Copy>(a: &[T], b: &[T], dest: &mut [T]) -> (r: bool)
    requires
        ordem_total::<T>(),
        old(dest)@.len() == a@.len() + b@.len(),
    ensures
        (a@.len() == 0 || b@.len() == 0 || menor_igual(a@.last(), b@[0])) ==> r && final(dest)@ == a@ + b@,
        !(a@.len() == 0 || b@.len() == 0 || menor_igual(a@.last(), b@[0])) && menor(b@.last(), a@[0])
            ==> r && final(dest)@ == b@ + a@,
        !(a@.len() == 0 || b@.len() == 0 || menor_igual(a@.last(), b@[0])) && !menor(b@.last(), a@[0])
            ==> !r && final(dest)@ == old(dest)@,
{
    let ghost d0 = dest@;
    if a.len() == 0 || b.len() == 0 {
        if a.len() == 0 {
            copia_faixa(b, 0, dest, 0, b.len());
        } else {
            copia_faixa(a, 0, dest, 0, a.len());
        }
        proof {
            assert(dest@ =~= a@ + b@);
        }
        return true;
    }
    if compara_le(&a[a.len() - 1], &b[0]) {
        copia_faixa(a, 0, dest, 0, a.len());
        copia_faixa(b, 0, dest, a.len(), b.len());
        proof {
            assert(dest@ =~= a@ + b@);
        }
        true
    } else if compara_lt(&b[b.len() - 1], &a[0]) {
        copia_faixa(b, 0, dest, 0, b.len());
        copia_faixa(a, 0, dest, b.len(), a.len());
        proof {
            assert(dest@ =~= b@ + a@);
        }
        true
    } else {
        false
    }
}

/// When `copia_faixas_disjuntas` copied, it copied the merge.
proof fn lema_copia_disjunta<T: Ord>(a: Seq<T>, b: Seq<T>, d: Seq<T>)
    requires
        ordem_total::<T>(),
        ordenada(a),
        ordenada(b),
        (a.len() == 0 || b.len() == 0 || menor_igual(a.last(), b[0])) ==> d == a + b,
        !(a.len() == 0 || b.len() == 0 || menor_igual(a.last(), b[0])) && menor(b.last(), a[0]) ==> d == b + a,
        (a.len() == 0 || b.len() == 0 || menor_igual(a.last(), b[0])) || menor(b.last(), a[0]),
    ensures
        d == intercala(a, b),
{
    if a.len() == 0 || b.len() == 0 || menor_igual(a.last(), b[0]) {
        lema_intercala_em_ordem(a, b);
    } else {
        lema_intercala_invertida(a, b);
    }
}

/// Binary merge with the adaptive kernel: with the range shortcut when
/// `atalhos_de_faixa`; forward and backward halves in parallel when there
/// are two workers and at least 512 elements; else one forward merge.
fn merge_binario_adaptativo<T: Ord + Copy + Send + Sync>(
    a: &[T],
    b: &[T],
    dest: &mut [T],
    workers: usize,
    config: PimConfig,
    atalhos_de_faixa: bool,
)
    requires
        ordem_total::<T>(),
        ordenada(a@),
        ordenada(b@),
        old(dest)@.len() == a@.len() + b@.len(),
    ensures
        final(dest)@ == intercala(a@, b@),
{
    if atalhos_de_faixa {
        let ghost d0 = dest@;
        if copia_faixas_disjuntas(a, b, dest) {
            proof { lema_copia_disjunta(a@, b@, dest@); }
            return;
        }
    }
    if workers >= 2 && dest.len() >= 512 {
        let meio = dest.len() / 2;
        merge_bidirecional(a, b, dest, meio, Nucleo::Adaptativo(config.min_gallop));
    } else {
        pim_front_adaptativo(a, b, dest, config.min_gallop);
        proof {
            lema_intercala_len(a@, b@);
            assert(intercala(a@, b@).take(dest@.len() as int) =~= intercala(a@, b@));
        }
    }
}

/// The merge of one level of the bottom-up tree: the range shortcut when
/// `atalhos_de_faixa`, a P-way merge when `deve_usar_pway`, else the
/// binary adaptive merge.
fn merge_pim_pway_dinamico<T: Ord + Copy + Send + Sync>(
    a: &[T],
    b: &[T],
    dest: &mut [T],
    workers: usize,
    config: PimConfig,
    atalhos_de_faixa: bool,
)
    requires
        ordem_total::<T>(),
        ordenada(a@),
        ordenada(b@),
        old(dest)@.len() == a@.len() + b@.len(),
    ensures
        final(dest)@ == intercala(a@, b@),
{
    let total = dest.len();
    if atalhos_de_faixa {
        if copia_faixas_disjuntas(a, b, dest) {
            proof { lema_copia_disjunta(a@, b@, dest@); }
            return;
        }
    }
    if crate::deve_usar_pway(total, workers, config) {
        pway_merge_frente_auto_adaptativo(
            a,
            b,
            dest,
            workers,
            config.min_segmento_pway,
            config.tarefas_por_worker,
            config.min_gallop,
        );
    } else {
        merge_binario_adaptativo(a, b, dest, workers, config, false);
    }
}

/// Runs the two halves of a level of the parallel bottom-up merge through
/// `rayon::join`, which always executes both closures; each closure is one
/// call of `bottom_up_merge_pim_pway`, so each half ends as that function's
/// contract states.
#[verifier::external_body]
fn junta_bottom_up_pway<T: Ord + Copy + Send + Sync>(
    v_l: &mut [T],
    buf_l: &mut [T],
    meta_l: &[i64],
    off_l: &[usize],
    v_r: &mut [T],
    buf_r: &mut [T],
    meta_r: &[i64],
    off_r: &[usize],
    into_buf: bool,
    workers_total: usize,
    merges_simultaneos: usize,
    config: PimConfig,
    atalhos_de_faixa: bool,
)
    requires
        ordem_total::<T>(),
        meta_l@.len() >= 1,
        offsets_validos(off_l@, meta_l@),
        metadata_valida(old(v_l)@, meta_l@),
        old(buf_l)@.len() == old(v_l)@.len(),
        meta_r@.len() >= 1,
        offsets_validos(off_r@, meta_r@),
        metadata_valida(old(v_r)@, meta_r@),
        old(buf_r)@.len() == old(v_r)@.len(),
    ensures
        final(v_l)@.len() == old(v_l)@.len(),
        final(buf_l)@.len() == old(buf_l)@.len(),
        into_buf ==> ordenacao_estavel(old(v_l)@, final(buf_l)@),
        !into_buf ==> ordenacao_estavel(old(v_l)@, final(v_l)@),
        final(v_r)@.len() == old(v_r)@.len(),
        final(buf_r)@.len() == old(buf_r)@.len(),
        into_buf ==> ordenacao_estavel(old(v_r)@, final(buf_r)@),
        !into_buf ==> ordenacao_estavel(old(v_r)@, final(v_r)@),
{
    rayon::join(
        || bottom_up_merge_pim_pway(v_l, buf_l, meta_l, off_l, into_buf, workers_total, merges_simultaneos, config, atalhos_de_faixa),
        || bottom_up_merge_pim_pway(v_r, buf_r, meta_r, off_r, into_buf, workers_total, merges_simultaneos, config, atalhos_de_faixa),
    );
}

/// Parallel bottom-up merge of the runs of `v`: both halves at once, and
/// each level merged with the workers shared among the merges that run at
/// the same time (`merges_simultaneos` doubles per level).
pub fn bottom_up_merge_pim_pway<T: Ord + Copy + Send + Sync>(
    v: &mut [T],
    buf: &mut [T],
    metadata: &[i64],
    offsets: &[usize],
    into_buf: bool,
    workers_total: usize,
    merges_simultaneos: usize,
    config: PimConfig,
    atalhos_de_faixa: bool,
)
    requires
        ordem_total::<T>(),
        metadata@.len() >= 1,
        offsets_validos(offsets@, metadata@),
        metadata_valida(old(v)@, metadata@),
        old(buf)@.len() == old(v)@.len(),
    ensures
        final(v)@.len() == old(v)@.len(),
        final(buf)@.len() == old(buf)@.len(),
        into_buf ==> ordenacao_estavel(old(v)@, final(buf)@),
        !into_buf ==> ordenacao_estavel(old(v)@, final(v)@),
{
    let ghost o = v@;
    let num_blocks = metadata.len();
    proof { lema_meta_divide(o, metadata@, 0); }
    if num_blocks == 1 {
        proof {
            lema_um_run(o, metadata@);
            lema_um_run_estavel(o, metadata@[0]);
        }
        let is_desc = metadata[0] < 0;
        let n = v.len();
        if into_buf {
            if is_desc {
                copia_invertida(v, buf);
            } else {
                copia_faixa(v, 0, buf, 0, n);
                proof {
                    assert(buf@ =~= o);
                }
            }
        } else if is_desc {
            parallel_reverse(v);
        }
        return;
    }
    proof {
        lema_offsets_crescentes(offsets@, metadata@);
        assert(metadata@.take(num_blocks as int) =~= metadata@);
    }
    let base = offsets[0];
    let total = offsets[num_blocks] - base;
    let target = base + total / 2;
    let p = primeiro_nao_menor(offsets, target);
    let split_idx = if p < 1 { 1 } else if p > num_blocks - 1 { num_blocks - 1 } else { p };
    let mid = offsets[split_idx] - base;
    let ghost ml = metadata@.take(split_idx as int);
    let ghost mr = metadata@.skip(split_idx as int);
    proof {
        lema_meta_divide(o, metadata@, split_idx as int);
        lema_offsets_divide(offsets@, metadata@, split_idx as int);
        assert(metadata@.subrange(0, split_idx as int) =~= ml);
        assert(metadata@.subrange(split_idx as int, num_blocks as int) =~= mr);
    }
    let left_meta = &metadata[0..split_idx];
    let right_meta = &metadata[split_idx..num_blocks];
    let left_offsets = &offsets[0..split_idx + 1];
    let right_offsets = &offsets[split_idx..num_blocks + 1];
    let filhos = if merges_simultaneos > usize::MAX / 2 { usize::MAX } else { merges_simultaneos * 2 };
    let ghost ol = o.take(mid as int);
    let ghost or = o.skip(mid as int);
    let ghost vl;
    let ghost vr;
    let ghost bl;
    let ghost br;
    {
        let (v_left, v_right) = v.split_at_mut(mid);
        let (buf_left, buf_right) = buf.split_at_mut(mid);
        junta_bottom_up_pway(
            v_left,
            buf_left,
            left_meta,
            left_offsets,
            v_right,
            buf_right,
            right_meta,
            right_offsets,
            !into_buf,
            workers_total,
            filhos,
            config,
            atalhos_de_faixa,
        );
        proof {
            vl = v_left@;
            vr = v_right@;
            bl = buf_left@;
            br = buf_right@;
        }
    }
    proof {
        assert(o =~= ol + or);
        assert(v@ == vl + vr);
        assert(buf@ == bl + br);
        assert(v@.take(mid as int) =~= vl);
        assert(v@.skip(mid as int) =~= vr);
        assert(buf@.take(mid as int) =~= bl);
        assert(buf@.skip(mid as int) =~= br);
    }
    let workers = crate::workers_por_merge(workers_total, merges_simultaneos);
    if into_buf {
        proof { lema_intercala_estavel(ol, vl, or, vr); }
        merge_pim_pway_dinamico(&v[0..mid], &v[mid..v.len()], buf, workers, config, atalhos_de_faixa);
    } else {
        proof { lema_intercala_estavel(ol, bl, or, br); }
        merge_pim_pway_dinamico(&buf[0..mid], &buf[mid..buf.len()], v, workers, config, atalhos_de_faixa);
    }
}

} // verus!
