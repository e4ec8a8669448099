use vstd::prelude::*;
use rayon::slice::ParallelSliceMut;
use rayon::iter::ParallelIterator;
use crate::ordem::ordem_total;
use crate::especificacao::{
    ordenada, ordenacao_estavel, mesmas_classes, run_crescente, lema_classes_concat,
};
use crate::metadata::{
    metadata_valida, run_valido, lema_meta_push, inicio_bloco, fim_bloco, block_offsets, soma_runs, lema_meta_divide,
    trechos_estaveis, lema_trechos_push,
};

verus! {

/// `<[T]>::sort`, which std documents as sorting the slice by `Ord` and as
/// stable: equal elements keep their order. With a lawful `Ord` the result
/// is therefore the stable sort of the input.
#[verifier::external_body]
fn ordena_std<T: Ord>(arr: &mut [T])
    requires
        ordem_total::<T>(),
    ensures
        ordenacao_estavel(old(arr)@, final(arr)@),
{
    arr.sort();
}

/// rayon's `par_sort`, which rayon documents as a parallel stable sort by
/// `Ord`: equal elements keep their order.
#[verifier::external_body]
fn ordena_par<T: Ord + Send>(arr: &mut [T])
    requires
        ordem_total::<T>(),
    ensures
        ordenacao_estavel(old(arr)@, final(arr)@),
{
    arr.par_sort();
}

/// Stable sort of one block, in parallel when `par_sort_local`.
pub fn ordena_bloco<T: Ord + Send>(bloco: &mut [T], par_sort_local: bool)
    requires
        ordem_total::<T>(),
    ensures
        ordenacao_estavel(old(bloco)@, final(bloco)@),
{
    if par_sort_local {
        ordena_par(bloco);
    } else {
        ordena_std(bloco);
    }
}

/// Sorts every block of `block_size` elements of `arr` (the last one may
/// be shorter) with `ordena_bloco`, the blocks in parallel: rayon's
/// `par_chunks_mut`, which hands out non-overlapping chunks of exactly
/// `block_size` elements but the last, and `for_each`, which runs the
/// closure on every chunk.
#[verifier::external_body]
fn ordena_blocos_par<T: Ord + Send>(arr: &mut [T], block_size: usize, par_sort_local: bool)
    requires
        ordem_total::<T>(),
        block_size >= 1,
    ensures
        final(arr)@.len() == old(arr)@.len(),
        forall|i: int|
            0 <= i && inicio_bloco(i, block_size as int) < old(arr)@.len() ==> ordenacao_estavel(
                #[trigger] old(arr)@.subrange(
                    inicio_bloco(i, block_size as int),
                    fim_bloco(i, block_size as int, block_size as int, old(arr)@.len() as int),
                ),
                final(arr)@.subrange(
                    inicio_bloco(i, block_size as int),
                    fim_bloco(i, block_size as int, block_size as int, old(arr)@.len() as int),
                ),
            ),
{
    arr.par_chunks_mut(block_size).for_each(|bloco| ordena_bloco(bloco, par_sort_local));
}

/// The metadata of `f` cut into sorted blocks of `block_size` elements:
/// one ascending run per block.
fn metadata_dos_blocos<T: Ord>(n: usize, block_size: usize, Ghost(o): Ghost<Seq<T>>, Ghost(f): Ghost<Seq<T>>) -> (r: Vec<i64>)
    requires
        block_size >= 1,
        block_size <= i64::MAX,
        o.len() == n,
        f.len() == n,
        forall|i: int|
            0 <= i && inicio_bloco(i, block_size as int) < n ==> ordenacao_estavel(
                #[trigger] o.subrange(inicio_bloco(i, block_size as int), fim_bloco(i, block_size as int, block_size as int, n as int)),
                f.subrange(inicio_bloco(i, block_size as int), fim_bloco(i, block_size as int, block_size as int, n as int)),
            ),
    ensures
        metadata_valida(f, r@),
        mesmas_classes(o, f),
        r@.len() >= 1 <==> n >= 1,
        forall|i: int| 0 <= i < r@.len() ==> #[trigger] r@[i] > 0,
        forall|i: int| 0 <= i < r@.len() ==> #[trigger] r@[i] == fim_bloco(i, block_size as int, block_size as int, n as int) - inicio_bloco(i, block_size as int),
        trechos_estaveis(o, f, r@),
{
    let mut meta: Vec<i64> = Vec::new();
    let mut ini: usize = 0;
    let ghost mut k: int = 0;
    proof {
        assert(f.take(0) =~= Seq::<T>::empty());
        assert(o.take(0) =~= Seq::<T>::empty());
    }
    while ini < n
        invariant
            block_size >= 1,
            block_size <= i64::MAX,
            o.len() == n,
            f.len() == n,
            ini <= n,
            k >= 0,
            ini < n ==> ini == k * block_size,
            meta@.len() == k,
            forall|i: int| 0 <= i < meta@.len() ==> #[trigger] meta@[i] > 0,
            forall|i: int| 0 <= i < meta@.len() ==> #[trigger] meta@[i] == fim_bloco(i, block_size as int, block_size as int, n as int) - inicio_bloco(i, block_size as int),
            forall|i: int|
                0 <= i && inicio_bloco(i, block_size as int) < n ==> ordenacao_estavel(
                    #[trigger] o.subrange(inicio_bloco(i, block_size as int), fim_bloco(i, block_size as int, block_size as int, n as int)),
                    f.subrange(inicio_bloco(i, block_size as int), fim_bloco(i, block_size as int, block_size as int, n as int)),
                ),
            metadata_valida(f.take(ini as int), meta@),
            mesmas_classes(o.take(ini as int), f.take(ini as int)),
            trechos_estaveis(o.take(ini as int), f.take(ini as int), meta@),
        decreases n - ini,
    {
        let tamanho = if block_size < n - ini { block_size } else { n - ini };
        let fim = ini + tamanho;
        proof {
            assert(inicio_bloco(k, block_size as int) == ini);
            assert(fim_bloco(k, block_size as int, block_size as int, n as int) == fim);
            let ob = o.subrange(ini as int, fim as int);
            let fb = f.subrange(ini as int, fim as int);
            assert(ordenacao_estavel(ob, fb));
            assert(run_crescente(fb)) by {
                assert forall|t: int| 0 <= t < fb.len() - 1 implies crate::ordem::menor_igual(#[trigger] fb[t], fb[t + 1]) by {
                    assert(ordenada(fb));
                }
            }
            assert(run_valido(fb, tamanho as i64));
            lema_meta_push(f, meta@, ini as int, fim as int, tamanho as i64);
            lema_classes_concat(o.take(ini as int), f.take(ini as int), ob, fb);
            lema_trechos_push(o.take(ini as int), f.take(ini as int), meta@, ob, fb);
            assert(o.take(ini as int) + ob =~= o.take(fim as int));
            assert(f.take(ini as int) + fb =~= f.take(fim as int));
            vstd::arithmetic::mul::lemma_mul_is_distributive_add_other_way(block_size as int, k, 1);
        }
        meta.push(tamanho as i64);
        proof {
            k = k + 1;
        }
        ini = fim;
    }
    proof {
        assert(f.take(n as int) =~= f);
        assert(o.take(n as int) =~= o);
    }
    meta
}

/// Sorts every block of `block_size` elements of `arr` stably, the blocks
/// in parallel, and returns the metadata of the sorted blocks: each block
/// is the stable sort of the same block of the input.
pub fn ordena_blocos<T: Ord + Copy + Send + Sync>(arr: &mut [T], block_size: usize, par_sort_local: bool) -> (r: Vec<i64>)
    requires
        ordem_total::<T>(),
        block_size >= 1,
        block_size <= i64::MAX,
    ensures
        final(arr)@.len() == old(arr)@.len(),
        mesmas_classes(old(arr)@, final(arr)@),
        metadata_valida(final(arr)@, r@),
        r@.len() >= 1 <==> old(arr)@.len() >= 1,
        forall|i: int| 0 <= i < r@.len() ==> #[trigger] r@[i] > 0,
        forall|i: int| 0 <= i < r@.len() ==> #[trigger] r@[i] == fim_bloco(i, block_size as int, block_size as int, old(arr)@.len() as int) - inicio_bloco(i, block_size as int),
        trechos_estaveis(old(arr)@, final(arr)@, r@),
{
    let ghost o = arr@;
    ordena_blocos_par(arr, block_size, par_sort_local);
    metadata_dos_blocos::<T>(arr.len(), block_size, Ghost(o), Ghost(arr@))
}

/// Sorts `arr[ini..fim]` stably, leaving the rest as it is.
fn ordena_faixa<T: Ord>(arr: &mut [T], ini: usize, fim: usize)
    requires
        ordem_total::<T>(),
        ini <= fim <= old(arr)@.len(),
    ensures
        final(arr)@.len() == old(arr)@.len(),
        final(arr)@.take(ini as int) == old(arr)@.take(ini as int),
        final(arr)@.skip(fim as int) == old(arr)@.skip(fim as int),
        ordenacao_estavel(old(arr)@.subrange(ini as int, fim as int), final(arr)@.subrange(ini as int, fim as int)),
{
    let ghost o = arr@;
    let (antes, resto) = arr.split_at_mut(ini);
    let (meio, depois) = resto.split_at_mut(fim - ini);
    let ghost m0 = meio@;
    ordena_std(meio);
    proof {
        assert(meio@.len() == fim - ini);
    }
    assert(final(arr)@.take(ini as int) =~= o.take(ini as int));
    assert(final(arr)@.skip(fim as int) =~= o.skip(fim as int));
    assert(final(arr)@.subrange(ini as int, fim as int) =~= meio@);
    assert(o.subrange(ini as int, fim as int) =~= m0);
}

/// Sorts every block of `block_size` elements of `arr`, one after the
/// other, with std's stable sort.
fn ordena_blocos_seq<T: Ord>(arr: &mut [T], block_size: usize)
    requires
        ordem_total::<T>(),
        block_size >= 1,
    ensures
        final(arr)@.len() == old(arr)@.len(),
        forall|i: int|
            0 <= i && inicio_bloco(i, block_size as int) < old(arr)@.len() ==> ordenacao_estavel(
                #[trigger] old(arr)@.subrange(
                    inicio_bloco(i, block_size as int),
                    fim_bloco(i, block_size as int, block_size as int, old(arr)@.len() as int),
                ),
                final(arr)@.subrange(
                    inicio_bloco(i, block_size as int),
                    fim_bloco(i, block_size as int, block_size as int, old(arr)@.len() as int),
                ),
            ),
{
    let ghost o = arr@;
    let n = arr.len();
    let mut ini: usize = 0;
    let ghost mut k: int = 0;
    while ini < n
        invariant
            ordem_total::<T>(),
            block_size >= 1,
            n == o.len(),
            arr@.len() == n,
            ini <= n,
            k >= 0,
            ini < n ==> ini == k * block_size,
            ini == n ==> forall|i: int| #![trigger inicio_bloco(i, block_size as int)] i >= k ==> inicio_bloco(i, block_size as int) >= n,
            arr@.skip(ini as int) == o.skip(ini as int),
            forall|i: int|
                0 <= i < k ==> ordenacao_estavel(
                    #[trigger] o.subrange(inicio_bloco(i, block_size as int), fim_bloco(i, block_size as int, block_size as int, n as int)),
                    arr@.subrange(inicio_bloco(i, block_size as int), fim_bloco(i, block_size as int, block_size as int, n as int)),
                ),
            forall|i: int| 0 <= i < k ==> #[trigger] fim_bloco(i, block_size as int, block_size as int, n as int) <= ini,
        decreases n - ini,
    {
        let tamanho = if block_size < n - ini { block_size } else { n - ini };
        let fim = ini + tamanho;
        let ghost antes = arr@;
        ordena_faixa(arr, ini, fim);
        proof {
            assert(inicio_bloco(k, block_size as int) == ini);
            assert(fim_bloco(k, block_size as int, block_size as int, n as int) == fim);
            assert(antes.subrange(ini as int, fim as int) =~= o.subrange(ini as int, fim as int)) by {
                assert(antes.skip(ini as int) == o.skip(ini as int));
                assert forall|t: int| ini <= t < fim implies antes[t] == o[t] by {
                    assert(antes.skip(ini as int)[t - ini] == o.skip(ini as int)[t - ini]);
                }
            }
            assert forall|i: int| 0 <= i < k implies #[trigger] arr@.subrange(inicio_bloco(i, block_size as int), fim_bloco(i, block_size as int, block_size as int, n as int))
                == antes.subrange(inicio_bloco(i, block_size as int), fim_bloco(i, block_size as int, block_size as int, n as int)) by {
                let a = inicio_bloco(i, block_size as int);
                let b = fim_bloco(i, block_size as int, block_size as int, n as int);
                assert(0 <= a <= b <= ini);
                assert forall|t: int| a <= t < b implies arr@[t] == antes[t] by {
                    assert(arr@.take(ini as int)[t] == antes.take(ini as int)[t]);
                }
                assert(arr@.subrange(a, b) =~= antes.subrange(a, b));
            }
            assert(arr@.skip(fim as int) =~= o.skip(fim as int)) by {
                assert(antes.skip(fim as int) =~= o.skip(fim as int)) by {
                    assert forall|t: int| 0 <= t < n - fim implies antes.skip(fim as int)[t] == o.skip(fim as int)[t] by {
                        assert(antes.skip(ini as int)[t + tamanho] == o.skip(ini as int)[t + tamanho]);
                    }
                }
            }
            vstd::arithmetic::mul::lemma_mul_is_distributive_add_other_way(block_size as int, k, 1);
            if fim == n {
                assert forall|i: int| #![trigger inicio_bloco(i, block_size as int)] i >= k + 1 implies inicio_bloco(i, block_size as int) >= n by {
                    vstd::arithmetic::mul::lemma_mul_inequality(k + 1, i, block_size as int);
                    vstd::arithmetic::mul::lemma_mul_is_commutative(i, block_size as int);
                    vstd::arithmetic::mul::lemma_mul_is_commutative(k + 1, block_size as int);
                }
            }
            k = k + 1;
        }
        ini = fim;
    }
}

/// Sorts a block by sorting pieces of `sub_sort_size` elements and merging
/// them bottom-up, one level at a time, with the shortcut for pieces already
/// in order.
pub fn ordena_bloco_por_subsorts<T: Ord + Copy>(bloco: &mut [T], sub_sort_size: usize, folha_galopante: bool)
    requires
        ordem_total::<T>(),
        1 <= sub_sort_size,
        old(bloco)@.len() <= usize::MAX / 64,
    ensures
        ordenacao_estavel(old(bloco)@, final(bloco)@),
{
    if bloco.len() <= sub_sort_size {
        ordena_std(bloco);
        return;
    }
    let ghost o = bloco@;
    ordena_blocos_seq(bloco, sub_sort_size);
    let metadata = metadata_dos_blocos::<T>(bloco.len(), sub_sort_size, Ghost(o), Ghost(bloco@));
    let ghost f = bloco@;
    proof {
        lema_meta_divide(f, metadata@, 0);
        assert forall|i: int| 0 <= i < metadata@.len() implies #[trigger] metadata@[i] != i64::MIN by {
            assert(metadata@[i] > 0);
        }
    }
    let offsets = block_offsets(metadata.as_slice());
    proof {
        assert(offsets@[0] == 0) by {
            assert(metadata@.take(0) =~= Seq::<i64>::empty());
        }
    }
    let mut buffer = vec![bloco[0]; bloco.len()];
    crate::bottom_up::bottom_up_merge_pim_sequencial(
        bloco,
        buffer.as_mut_slice(),
        metadata.as_slice(),
        offsets.as_slice(),
        false,
        true,
        folha_galopante,
    );
    proof {
        crate::especificacao::lema_estavel_por_classes(o, f, bloco@);
    }
}

/// Sorts every block of `block_size` elements of `arr` with
/// `ordena_bloco_por_subsorts`, the blocks in parallel: rayon's
/// `par_chunks_mut`, which hands out non-overlapping chunks of exactly
/// `block_size` elements but the last, and `for_each`, which runs the
/// closure on every chunk.
#[verifier::external_body]
fn ordena_blocos_subsorts_par<T: Ord + Copy + Send + Sync>(arr: &mut [T], block_size: usize, sub_sort_size: usize, folha_galopante: bool)
    requires
        ordem_total::<T>(),
        block_size >= 1,
        1 <= sub_sort_size,
        old(arr)@.len() <= usize::MAX / 64,
    ensures
        final(arr)@.len() == old(arr)@.len(),
        forall|i: int|
            0 <= i && inicio_bloco(i, block_size as int) < old(arr)@.len() ==> ordenacao_estavel(
                #[trigger] old(arr)@.subrange(
                    inicio_bloco(i, block_size as int),
                    fim_bloco(i, block_size as int, block_size as int, old(arr)@.len() as int),
                ),
                final(arr)@.subrange(
                    inicio_bloco(i, block_size as int),
                    fim_bloco(i, block_size as int, block_size as int, old(arr)@.len() as int),
                ),
            ),
{
    arr.par_chunks_mut(block_size).for_each(|bloco| ordena_bloco_por_subsorts(bloco, sub_sort_size, folha_galopante));
}

/// Sorts every block of `block_size` elements of `arr` by sub-sorts of
/// `sub_sort_size` elements, the blocks in parallel, and returns the
/// metadata of the sorted blocks: each block is the stable sort of the same
/// block of the input.
pub fn ordena_blocos_por_subsorts<T: Ord + Copy + Send + Sync>(
    arr: &mut [T],
    block_size: usize,
    sub_sort_size: usize,
    folha_galopante: bool,
) -> (r: Vec<i64>)
    requires
        ordem_total::<T>(),
        1 <= block_size <= i64::MAX,
        1 <= sub_sort_size,
        old(arr)@.len() <= usize::MAX / 64,
    ensures
        final(arr)@.len() == old(arr)@.len(),
        mesmas_classes(old(arr)@, final(arr)@),
        metadata_valida(final(arr)@, r@),
        r@.len() >= 1 <==> old(arr)@.len() >= 1,
        forall|i: int| 0 <= i < r@.len() ==> #[trigger] r@[i] > 0,
        forall|i: int| 0 <= i < r@.len() ==> #[trigger] r@[i] == fim_bloco(i, block_size as int, block_size as int, old(arr)@.len() as int) - inicio_bloco(i, block_size as int),
        trechos_estaveis(old(arr)@, final(arr)@, r@),
{
    let ghost o = arr@;
    ordena_blocos_subsorts_par(arr, block_size, sub_sort_size, folha_galopante);
    metadata_dos_blocos::<T>(arr.len(), block_size, Ghost(o), Ghost(arr@))
}

} // verus!
