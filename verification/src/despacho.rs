use vstd::prelude::*;
use crate::{PimConfig, PimError, CustoComparacao, try_pim_sort_with_config, resposta_da_ordenacao, folha_esperada};
use crate::ordem::ordem_total;
use crate::especificacao::{ordenacao_estavel, run_crescente, run_decrescente};

verus! {

/// A key type with a declared comparison profile: `COMPARACAO_CARA` is true
/// when comparing two keys dereferences into memory outside the slice.
pub trait Chave: Ord + Copy + Send + Sync {
    const COMPARACAO_CARA: bool;
}

impl Chave for u8 { const COMPARACAO_CARA: bool = false; }
impl Chave for u16 { const COMPARACAO_CARA: bool = false; }
impl Chave for u32 { const COMPARACAO_CARA: bool = false; }
impl Chave for u64 { const COMPARACAO_CARA: bool = false; }
impl Chave for u128 { const COMPARACAO_CARA: bool = false; }
impl Chave for usize { const COMPARACAO_CARA: bool = false; }
impl Chave for i8 { const COMPARACAO_CARA: bool = false; }
impl Chave for i16 { const COMPARACAO_CARA: bool = false; }
impl Chave for i32 { const COMPARACAO_CARA: bool = false; }
impl Chave for i64 { const COMPARACAO_CARA: bool = false; }
impl Chave for i128 { const COMPARACAO_CARA: bool = false; }
impl Chave for isize { const COMPARACAO_CARA: bool = false; }
impl Chave for char { const COMPARACAO_CARA: bool = false; }
impl Chave for bool { const COMPARACAO_CARA: bool = false; }

impl<const N: usize> Chave for [u8; N] { const COMPARACAO_CARA: bool = false; }

impl<'a> Chave for &'a str { const COMPARACAO_CARA: bool = true; }

impl<'a> Chave for &'a [u8] { const COMPARACAO_CARA: bool = true; }

/// The comparison cost of the profile.
pub open spec fn custo_do_perfil(comparacao_cara: bool) -> CustoComparacao {
    if comparacao_cara {
        CustoComparacao::Indireta
    } else {
        CustoComparacao::Embutida
    }
}

/// The default configuration with `workers` workers, turned to the
/// indirect profile when comparisons are expensive.
pub open spec fn config_do_perfil(comparacao_cara: bool, workers: usize) -> PimConfig {
    PimConfig {
        workers,
        l3_bytes: 50_331_648usize,
        memory_limit_bytes: None,
        custo_comparacao: custo_do_perfil(comparacao_cara),
        min_gallop: if comparacao_cara { 7usize } else { 24usize },
        min_segmento_pway: if comparacao_cara { 2_048usize } else { crate::cut::MIN_SEG },
        tarefas_por_worker: crate::cut::TAREFAS_POR_THREAD,
        bloco_override: None,
        janelas_amostra: 8usize,
        tamanho_janela_amostra: 96usize,
        run_curto: 128usize,
        run_medio_minimo: 16usize,
        runs_via_kway: true,
        folha_override: 0usize,
    }
}

/// The default configuration, turned to the indirect profile when
/// comparisons are expensive.
fn config_para_perfil(comparacao_cara: bool) -> (r: PimConfig)
    ensures
        r.memory_limit_bytes is None,
        r.custo_comparacao == custo_do_perfil(comparacao_cara),
        r.min_gallop == (if comparacao_cara { 7usize } else { 24 }),
        r.folha_override == 0,
        r.workers >= 1,
        r == config_do_perfil(comparacao_cara, r.workers),
{
    let config = PimConfig::default();
    if comparacao_cara {
        config.comparacao_indireta()
    } else {
        config
    }
}

/// Stable sort of `arr` under `config`: `Ok` with `arr` sorted stably, or
/// an error with `arr` as it was, when the auxiliary buffer cannot be had
/// (over `memory_limit_bytes`, or refused by the allocator).
pub fn try_sort_com_config<T: Ord + Copy + Send + Sync>(arr: &mut [T], config: PimConfig) -> (r: Result<(), PimError>)
    requires
        ordem_total::<T>(),
        old(arr)@.len() <= usize::MAX / 64,
    ensures
        r is Ok ==> ordenacao_estavel(old(arr)@, final(arr)@),
        r is Err ==> final(arr)@ == old(arr)@,
        r matches Err(PimError::MemoriaInsuficiente { necessario, limite }) ==> config.memory_limit_bytes == Some(limite) && necessario > limite,
        old(arr)@.len() <= 1 || old(arr)@.len() <= folha_esperada(config, vstd::layout::size_of::<T>() as int) ==> r is Ok,
        resposta_da_ordenacao(old(arr)@, final(arr)@, config, r),
{
    try_pim_sort_with_config(arr, config)
}

/// Stable sort of `arr` under `config`. The sort cannot go on without its
/// auxiliary buffer: when that is refused the error is handed back and
/// `arr` is left as it was.
pub fn sort_com_config<T: Ord + Copy + Send + Sync>(arr: &mut [T], config: PimConfig) -> (r: Result<(), PimError>)
    requires
        ordem_total::<T>(),
        old(arr)@.len() <= usize::MAX / 64,
    ensures
        r is Ok ==> ordenacao_estavel(old(arr)@, final(arr)@),
        r is Err ==> final(arr)@ == old(arr)@,
        r matches Err(PimError::MemoriaInsuficiente { necessario, limite }) ==> config.memory_limit_bytes == Some(limite) && necessario > limite,
        old(arr)@.len() <= 1 || old(arr)@.len() <= folha_esperada(config, vstd::layout::size_of::<T>() as int) ==> r is Ok,
        resposta_da_ordenacao(old(arr)@, final(arr)@, config, r),
{
    try_pim_sort_with_config(arr, config)
}

/// Stable sort of `arr` with the default configuration, tuned for expensive
/// comparisons when `comparacao_cara`. No memory limit is set, so the only
/// error is a buffer that the allocator refuses, and `arr` is then as it
/// was. The answer is that of the profile's configuration with the workers
/// of the current rayon pool (`resposta_da_ordenacao`): in particular `Ok`
/// whenever the route taken reserves no buffer.
pub fn sort_com_perfil<T: Ord + Copy + Send + Sync>(arr: &mut [T], comparacao_cara: bool) -> (r: Result<(), PimError>)
    requires
        ordem_total::<T>(),
        old(arr)@.len() <= usize::MAX / 64,
    ensures
        r is Ok ==> ordenacao_estavel(old(arr)@, final(arr)@),
        r is Err ==> final(arr)@ == old(arr)@ && r matches Err(PimError::FalhaAoReservarMemoria { .. }),
        old(arr)@.len() <= 1 || old(arr)@.len() <= crate::folha_calculada(
            custo_do_perfil(comparacao_cara),
            vstd::layout::size_of::<T>() as int,
        ) ==> r is Ok,
        run_crescente(old(arr)@) || run_decrescente(old(arr)@) ==> r is Ok,
        r matches Err(PimError::FalhaAoReservarMemoria { necessario }) ==> necessario >= crate::bytes_necessarios(
            old(arr)@.len() as int,
            vstd::layout::size_of::<T>() as int,
            0,
        ),
        exists|w: usize| w >= 1 && #[trigger] resposta_da_ordenacao(
            old(arr)@,
            final(arr)@,
            config_do_perfil(comparacao_cara, w),
            r,
        ),
{
    let config = config_para_perfil(comparacao_cara);
    let r = sort_com_config(arr, config);
    proof {
        assert(resposta_da_ordenacao(old(arr)@, final(arr)@, config_do_perfil(comparacao_cara, config.workers), r));
    }
    r
}

/// Stable sort of `arr`, tuned by the declared profile of its key type.
/// The only error is a buffer that the allocator refuses, and `arr` is then
/// as it was. The answer is that of the profile's configuration with the
/// workers of the current rayon pool (`resposta_da_ordenacao`): in
/// particular `Ok` whenever the route taken reserves no buffer.
pub fn sort<T: Chave>(arr: &mut [T]) -> (r: Result<(), PimError>)
    requires
        ordem_total::<T>(),
        old(arr)@.len() <= usize::MAX / 64,
    ensures
        r is Ok ==> ordenacao_estavel(old(arr)@, final(arr)@),
        r is Err ==> final(arr)@ == old(arr)@ && r matches Err(PimError::FalhaAoReservarMemoria { .. }),
        old(arr)@.len() <= 1 || old(arr)@.len() <= crate::folha_calculada(
            custo_do_perfil(T::COMPARACAO_CARA),
            vstd::layout::size_of::<T>() as int,
        ) ==> r is Ok,
        run_crescente(old(arr)@) || run_decrescente(old(arr)@) ==> r is Ok,
        r matches Err(PimError::FalhaAoReservarMemoria { necessario }) ==> necessario >= crate::bytes_necessarios(
            old(arr)@.len() as int,
            vstd::layout::size_of::<T>() as int,
            0,
        ),
        exists|w: usize| w >= 1 && #[trigger] resposta_da_ordenacao(
            old(arr)@,
            final(arr)@,
            config_do_perfil(T::COMPARACAO_CARA, w),
            r,
        ),
{
    let config = config_para_perfil(T::COMPARACAO_CARA);
    let r = sort_com_config(arr, config);
    proof {
        assert(resposta_da_ordenacao(old(arr)@, final(arr)@, config_do_perfil(T::COMPARACAO_CARA, config.workers), r));
    }
    r
}

} // verus!
