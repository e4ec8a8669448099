use vstd::prelude::*;
use crate::ordem::{ordem_total, menor_igual, compara_le};
use crate::especificacao::{ordenacao_estavel, lema_estavel_por_classes, run_crescente, run_decrescente};
use crate::metadata::{metadata_valida, soma_runs, lema_meta_divide, tamanho_run};
use crate::bottom_up::{bottom_up_merge_pim_pway, parallel_reverse};

pub mod ordem;
pub mod especificacao;
pub mod pim_kernel;
pub mod cut;
pub mod metadata;
pub mod bottom_up;
pub mod blocos;
pub mod despacho;
pub mod amostra;
pub mod multicorte;
pub mod kway;
pub mod leis;
pub mod random_path;
pub mod costura;

pub use metadata::detect_global_trend;

verus! {

/// Smallest total for which a P-way merge is considered.
pub const PWAY_MIN_TOTAL: usize = 128;

/// Default block size of the P-way block path.
pub const PWAY_BLOCK_SIZE: usize = 1_920;

/// How expensive a key comparison is: embedded keys compare contiguous
/// bytes; indirect ones dereference into scattered memory.
#[derive(Clone, Copy, Debug, PartialEq, Eq, Structural)]
pub enum CustoComparacao {
    Embutida,
    Indireta,
}

/// Tuning of the sort.
#[derive(Clone, Copy, Debug)]
pub struct PimConfig {
    /// Workers that the sort may use.
    pub workers: usize,
    /// Shared cache budget, in bytes, for the block size of chaotic input.
    pub l3_bytes: usize,
    /// Largest auxiliary buffer, in bytes, that the sort may reserve.
    pub memory_limit_bytes: Option<usize>,
    pub custo_comparacao: CustoComparacao,
    /// Consecutive wins before the adaptive kernel gallops.
    pub min_gallop: usize,
    /// Smallest piece of a P-way merge.
    pub min_segmento_pway: usize,
    /// Pieces per worker in a P-way merge.
    pub tarefas_por_worker: usize,
    /// Block size for chaotic input, in place of the computed one.
    pub bloco_override: Option<usize>,
    /// Windows of the input sample.
    pub janelas_amostra: usize,
    /// Comparisons per window of the input sample.
    pub tamanho_janela_amostra: usize,
    /// Mean run length up to which runs count as short.
    pub run_curto: usize,
    /// Smallest mean run length for which merging runs pays.
    pub run_medio_minimo: usize,
    pub runs_via_kway: bool,
    /// Leaf size, in place of the computed one, when positive.
    pub folha_override: usize,
}

/// The number of threads of the current rayon pool
/// (`rayon::current_num_threads`); nothing is promised of it.
#[verifier::external_body]
fn threads_atuais() -> usize {
    rayon::current_num_threads()
}

impl Default for PimConfig {
    fn default() -> (r: Self)
        ensures
            r.workers >= 1,
            r.l3_bytes == 48 * 1024 * 1024,
            r.memory_limit_bytes is None,
            r.custo_comparacao == CustoComparacao::Embutida,
            r.min_gallop == 24,
            r.min_segmento_pway == crate::cut::MIN_SEG,
            r.tarefas_por_worker == crate::cut::TAREFAS_POR_THREAD,
            r.bloco_override is None,
            r.janelas_amostra == 8,
            r.tamanho_janela_amostra == 96,
            r.run_curto == 128,
            r.run_medio_minimo == 16,
            r.runs_via_kway,
            r.folha_override == 0,
    {
        let t = threads_atuais();
        PimConfig {
            workers: if t > 1 { t } else { 1 },
            l3_bytes: 48 * 1024 * 1024,
            memory_limit_bytes: None,
            custo_comparacao: CustoComparacao::Embutida,
            min_gallop: 24,
            min_segmento_pway: crate::cut::MIN_SEG,
            tarefas_por_worker: crate::cut::TAREFAS_POR_THREAD,
            bloco_override: None,
            janelas_amostra: 8,
            tamanho_janela_amostra: 96,
            run_curto: 128,
            run_medio_minimo: 16,
            runs_via_kway: true,
            folha_override: 0,
        }
    }
}

impl PimConfig {
    /// The profile for keys whose comparison dereferences: an earlier
    /// gallop and smaller P-way pieces.
    pub fn comparacao_indireta(self) -> (r: Self)
        ensures
            r == (PimConfig {
                custo_comparacao: CustoComparacao::Indireta,
                min_gallop: 7,
                min_segmento_pway: 2_048,
                ..self
            }),
    {
        let mut config = self;
        config.custo_comparacao = CustoComparacao::Indireta;
        config.min_gallop = 7;
        config.min_segmento_pway = 2_048;
        config
    }

    /// The workers, at least one.
    pub fn workers_efetivos(&self) -> (r: usize)
        ensures
            r == (if self.workers > 1 { self.workers } else { 1 }),
    {
        if self.workers > 1 { self.workers } else { 1 }
    }
}

/// The leaf size: the override when positive, else what fits in a 32 KiB
/// L1, between a floor (512 for embedded keys, 256 for indirect ones) and
/// 4096.
pub open spec fn folha_esperada(config: PimConfig, tamanho_elemento: int) -> int {
    if config.folha_override > 0 {
        config.folha_override as int
    } else {
        folha_calculada(config.custo_comparacao, tamanho_elemento)
    }
}

/// The leaf size without an override: what fits in a 32 KiB L1, between
/// the floor of the comparison cost (512 embedded, 256 indirect) and 4096.
pub open spec fn folha_calculada(custo: CustoComparacao, tamanho_elemento: int) -> int {
    let por_l1: int = 32_768int / (if tamanho_elemento > 1 { tamanho_elemento } else { 1int });
    let piso: int = match custo {
        CustoComparacao::Embutida => 512,
        CustoComparacao::Indireta => 256,
    };
    if por_l1 < piso {
        piso
    } else if por_l1 > 4_096 {
        4_096
    } else {
        por_l1
    }
}

/// The leaf size for elements of type `T`.
pub fn tamanho_folha_config<T>(config: PimConfig) -> (r: usize)
    ensures
        r == folha_esperada(config, vstd::layout::size_of::<T>() as int),
{
    if config.folha_override > 0 {
        return config.folha_override;
    }
    let tamanho = core::mem::size_of::<T>();
    let por_l1 = 32_768 / (if tamanho > 1 { tamanho } else { 1 });
    let piso: usize = match config.custo_comparacao {
        CustoComparacao::Embutida => 512,
        CustoComparacao::Indireta => 256,
    };
    if por_l1 < piso {
        piso
    } else if por_l1 > 4_096 {
        4_096
    } else {
        por_l1
    }
}

/// Why the sort could not reserve its auxiliary buffer.
#[derive(Clone, Copy, Debug, PartialEq, Eq, Structural)]
pub enum PimError {
    /// The buffer needs more than the configured limit.
    MemoriaInsuficiente { necessario: usize, limite: usize },
    /// The allocator refused the buffer.
    FalhaAoReservarMemoria { necessario: usize },
}

/// The shape that the sample finds in the input.
#[derive(Clone, Copy, Debug, PartialEq, Eq, Structural)]
pub enum PerfilEntrada {
    RunsLongos,
    RunsCurtos,
    Caotica,
}

/// Whether a merge of `total` elements with `workers` workers is worth
/// cutting into P-way pieces: at least two workers and room for two pieces.
pub fn deve_usar_pway(total: usize, workers: usize, config: PimConfig) -> (r: bool)
    ensures
        r == (workers >= 2 && total as int / (if config.min_segmento_pway > 1 { config.min_segmento_pway as int } else { 1int }) >= 2),
{
    workers >= 2 && total / (if config.min_segmento_pway > 1 { config.min_segmento_pway } else { 1 }) >= 2
}

/// The workers that each of `merges_simultaneos` concurrent merges gets:
/// the workers shared out, rounded up.
pub fn workers_por_merge(workers: usize, merges_simultaneos: usize) -> (r: usize)
    ensures
        r == ({
            let w = if workers > 1 { workers as int } else { 1 };
            let m = if merges_simultaneos > 1 { merges_simultaneos as int } else { 1 };
            let soma = if w + m - 1 > usize::MAX { usize::MAX as int } else { w + m - 1 };
            soma / m
        }),
{
    let workers = if workers > 1 { workers } else { 1 };
    let merges = if merges_simultaneos > 1 { merges_simultaneos } else { 1 };
    workers.saturating_add(merges - 1) / merges
}


/// Direction of the pair at `i`: ascending when `s[i] <= s[i + 1]`.
pub open spec fn sobe<T: Ord>(s: Seq<T>, i: int) -> bool {
    menor_igual(s[i], s[i + 1])
}

/// Number of positions `i` in `(ini, fim)` where the direction of the
/// pair at `i` differs from that of the pair before it.
pub open spec fn mudancas_direcao<T: Ord>(s: Seq<T>, ini: int, fim: int) -> int
    decreases fim - ini,
{
    if fim <= ini + 1 {
        0
    } else {
        mudancas_direcao(s, ini, fim - 1) + (if sobe(s, fim - 1) != sobe(s, fim - 2) { 1int } else { 0int })
    }
}

/// Start of sample window `j` of `janelas`, each of `largura` comparisons,
/// spread over `disponiveis` comparisons.
pub open spec fn inicio_janela(j: int, janelas: int, largura: int, disponiveis: int) -> int {
    if janelas == 1 {
        0
    } else {
        j * (disponiveis - largura) / (janelas - 1)
    }
}

/// Direction changes in the first `j` sample windows.
pub open spec fn mudancas_amostra<T: Ord>(s: Seq<T>, j: int, janelas: int, largura: int, disponiveis: int) -> int
    decreases j,
{
    if j <= 0 {
        0
    } else {
        let ini = inicio_janela(j - 1, janelas, largura, disponiveis);
        mudancas_amostra(s, j - 1, janelas, largura, disponiveis) + mudancas_direcao(s, ini, ini + largura)
    }
}

/// `x` saturated at `usize::MAX`.
pub open spec fn satura(x: int) -> int {
    if x > usize::MAX { usize::MAX as int } else { x }
}

/// The shape that the sample of `s` shows under `config`.
pub open spec fn perfil_esperado<T: Ord>(s: Seq<T>, config: PimConfig) -> PerfilEntrada {
    let disponiveis = if s.len() == 0 { 0 } else { s.len() - 1 };
    if disponiveis < 32 {
        PerfilEntrada::RunsLongos
    } else {
        let janelas: int = if config.janelas_amostra < 3 {
            3
        } else if config.janelas_amostra > 32 {
            32
        } else {
            config.janelas_amostra as int
        };
        let largura: int = if config.tamanho_janela_amostra < 16 {
            16
        } else if config.tamanho_janela_amostra > disponiveis {
            disponiveis
        } else {
            config.tamanho_janela_amostra as int
        };
        let mudancas = mudancas_amostra(s, janelas, janelas, largura, disponiveis);
        let comparacoes = janelas * (largura - 1);
        let trechos = mudancas + janelas;
        if mudancas == 0 {
            PerfilEntrada::RunsLongos
        } else if satura(mudancas * 100) >= satura(comparacoes * 18) {
            PerfilEntrada::Caotica
        } else if comparacoes / trechos <= config.run_curto {
            PerfilEntrada::RunsCurtos
        } else {
            PerfilEntrada::RunsLongos
        }
    }
}

/// `x * y` saturated at `usize::MAX`.
pub(crate) fn mul_saturada(x: usize, y: usize) -> (r: usize)
    ensures
        r == satura(x * y),
{
    if y == 0 || x <= usize::MAX / y {
        proof {
            if y > 0 {
                vstd::arithmetic::div_mod::lemma_fundamental_div_mod(usize::MAX as int, y as int);
                vstd::arithmetic::mul::lemma_mul_inequality(x as int, (usize::MAX / y) as int, y as int);
                vstd::arithmetic::mul::lemma_mul_is_commutative(y as int, (usize::MAX / y) as int);
            }
        }
        x * y
    } else {
        proof {
            vstd::arithmetic::div_mod::lemma_fundamental_div_mod(usize::MAX as int, y as int);
            vstd::arithmetic::mul::lemma_mul_inequality((usize::MAX / y + 1) as int, x as int, y as int);
            vstd::arithmetic::mul::lemma_mul_is_distributive_add_other_way(y as int, (usize::MAX / y) as int, 1);
            vstd::arithmetic::mul::lemma_mul_is_commutative(y as int, (usize::MAX / y) as int);
            vstd::arithmetic::mul::lemma_mul_is_commutative(y as int, (usize::MAX / y + 1) as int);
        }
        usize::MAX
    }
}

/// A sequence that is one run never changes direction.
pub(crate) proof fn lema_mudancas_zero<T: Ord>(s: Seq<T>, ini: int, fim: int)
    requires
        0 <= ini,
        fim < s.len(),
        run_crescente(s) || run_decrescente(s),
    ensures
        mudancas_direcao(s, ini, fim) == 0,
    decreases fim - ini,
{
    if fim > ini + 1 {
        lema_mudancas_zero(s, ini, fim - 1);
        if run_crescente(s) {
            assert(menor_igual(s[fim - 1], s[fim]));
            assert(menor_igual(s[fim - 2], s[fim - 1]));
        } else {
            assert(crate::ordem::menor(s[fim], s[fim - 1]));
            assert(crate::ordem::menor(s[fim - 1], s[fim - 2]));
        }
    }
}

/// Counts the direction changes of one sample window.
fn mudancas_na_janela<T: Ord>(arr: &[T], inicio: usize, fim: usize) -> (r: usize)
    requires
        ordem_total::<T>(),
        inicio + 1 < fim < arr@.len(),
    ensures
        r == mudancas_direcao(arr@, inicio as int, fim as int),
        r <= fim - inicio - 1,
{
    let mut ascendente = compara_le(&arr[inicio], &arr[inicio + 1]);
    let mut mudancas: usize = 0;
    let mut i = inicio + 1;
    while i < fim
        invariant
            ordem_total::<T>(),
            inicio + 1 <= i <= fim,
            fim < arr@.len(),
            ascendente == sobe(arr@, i - 1),
            mudancas == mudancas_direcao(arr@, inicio as int, i as int),
            mudancas <= i - inicio - 1,
        decreases fim - i,
    {
        let atual = compara_le(&arr[i], &arr[i + 1]);
        if atual != ascendente {
            mudancas = mudancas + 1;
            ascendente = atual;
        }
        i = i + 1;
    }
    mudancas
}

/// Classifies the input by a sample of windows spread over it: no
/// direction change means long runs; changes in at least 18% of the
/// comparisons mean chaos; else the mean run length decides between short
/// and long runs.
pub fn classifica_entrada<T: Ord>(arr: &[T], config: PimConfig) -> (r: PerfilEntrada)
    requires
        ordem_total::<T>(),
        arr@.len() <= usize::MAX / 64,
    ensures
        r == perfil_esperado(arr@, config),
        run_crescente(arr@) || run_decrescente(arr@) ==> r == PerfilEntrada::RunsLongos,
{
    let comparacoes_disponiveis = if arr.len() == 0 { 0 } else { arr.len() - 1 };
    if comparacoes_disponiveis < 32 {
        return PerfilEntrada::RunsLongos;
    }
    let janelas: usize = if config.janelas_amostra < 3 {
        3
    } else if config.janelas_amostra > 32 {
        32
    } else {
        config.janelas_amostra
    };
    let largura: usize = if config.tamanho_janela_amostra < 16 {
        16
    } else if config.tamanho_janela_amostra > comparacoes_disponiveis {
        comparacoes_disponiveis
    } else {
        config.tamanho_janela_amostra
    };
    let mut mudancas: usize = 0;
    let mut comparacoes: usize = 0;
    let mut janela: usize = 0;
    while janela < janelas
        invariant
            ordem_total::<T>(),
            arr@.len() <= usize::MAX / 64,
            comparacoes_disponiveis == arr@.len() - 1,
            32 <= comparacoes_disponiveis,
            3 <= janelas <= 32,
            16 <= largura <= comparacoes_disponiveis,
            janela <= janelas,
            comparacoes == janela * (largura - 1),
            mudancas == mudancas_amostra(arr@, janela as int, janelas as int, largura as int, comparacoes_disponiveis as int),
            mudancas <= comparacoes,
            run_crescente(arr@) || run_decrescente(arr@) ==> mudancas == 0,
        decreases janelas - janela,
    {
        let ghost ini = inicio_janela(janela as int, janelas as int, largura as int, comparacoes_disponiveis as int);
        proof {
            vstd::arithmetic::mul::lemma_mul_inequality(janela as int, (janelas - 1) as int, (comparacoes_disponiveis - largura) as int);
            vstd::arithmetic::mul::lemma_mul_is_commutative((janelas - 1) as int, (comparacoes_disponiveis - largura) as int);
            vstd::arithmetic::div_mod::lemma_div_multiples_vanish((comparacoes_disponiveis - largura) as int, (janelas - 1) as int);
            vstd::arithmetic::div_mod::lemma_div_is_ordered(
                janela * (comparacoes_disponiveis - largura),
                (janelas - 1) * (comparacoes_disponiveis - largura),
                (janelas - 1) as int,
            );
            vstd::arithmetic::mul::lemma_mul_nonnegative(janela as int, (comparacoes_disponiveis - largura) as int);
            vstd::arithmetic::div_mod::lemma_div_pos_is_pos(janela * (comparacoes_disponiveis - largura), (janelas - 1) as int);
            vstd::arithmetic::mul::lemma_mul_upper_bound(janela as int, 32, (comparacoes_disponiveis - largura) as int, comparacoes_disponiveis as int);
            vstd::arithmetic::mul::lemma_mul_is_distributive_add_other_way((largura - 1) as int, janela as int, 1);
            vstd::arithmetic::mul::lemma_mul_upper_bound(janela + 1, 32, (largura - 1) as int, comparacoes_disponiveis as int);
        }
        let inicio = janela * (comparacoes_disponiveis - largura) / (janelas - 1);
        let fim = inicio + largura;
        let m = mudancas_na_janela(arr, inicio, fim);
        proof {
            if run_crescente(arr@) || run_decrescente(arr@) {
                lema_mudancas_zero(arr@, inicio as int, fim as int);
            }
        }
        mudancas = mudancas + m;
        comparacoes = comparacoes + (largura - 1);
        janela = janela + 1;
    }
    proof {
        vstd::arithmetic::mul::lemma_mul_upper_bound(janelas as int, 32, (largura - 1) as int, comparacoes_disponiveis as int);
    }
    let trechos = mudancas + janelas;
    if mudancas == 0 {
        PerfilEntrada::RunsLongos
    } else if mul_saturada(mudancas, 100) >= mul_saturada(comparacoes, 18) {
        PerfilEntrada::Caotica
    } else {
        let media_run = comparacoes / trechos;
        if media_run <= config.run_curto {
            PerfilEntrada::RunsCurtos
        } else {
            PerfilEntrada::RunsLongos
        }
    }
}


/// Bytes of the auxiliary buffer: `n` elements of `tamanho` bytes and
/// `extras` more, or `usize::MAX` when that does not fit.
pub open spec fn bytes_necessarios(n: int, tamanho: int, extras: int) -> int {
    if n * tamanho > usize::MAX || n * tamanho + extras > usize::MAX {
        usize::MAX as int
    } else {
        n * tamanho + extras
    }
}

/// A larger extra never needs fewer bytes.
proof fn lema_bytes_crescem(n: int, tamanho: int, extras: int)
    requires
        n >= 0,
        tamanho >= 0,
        extras >= 0,
    ensures
        bytes_necessarios(n, tamanho, extras) >= bytes_necessarios(n, tamanho, 0),
{
}

/// What a sort of `o` under `config` answers, `f` being the slice after it
/// and `r` the answer:
/// - `Ok` with `f` the stable sort of `o`, or an error with `f` equal to `o`;
/// - `Ok` whenever no auxiliary buffer is needed: up to a leaf, or when
///   `o` is already one run (ascending, or strictly descending);
/// - `MemoriaInsuficiente` only over the configured limit,
///   `FalhaAoReservarMemoria` only within it, each with the bytes asked for,
///   never fewer than those of a copy of `o`;
/// - `MemoriaInsuficiente` whenever a buffer is needed (more than a leaf,
///   more than a block, not one run) and a copy of `o` is over the limit;
/// - exactly: `Ok` when the route taken needs no buffer, and
///   `MemoriaInsuficiente` over the limit when it does (`pede_buffer`).
pub open spec fn resposta_da_ordenacao<T: Ord>(o: Seq<T>, f: Seq<T>, config: PimConfig, r: Result<(), PimError>) -> bool {
    let n = o.len() as int;
    let tamanho = vstd::layout::size_of::<T>() as int;
    let minimo = bytes_necessarios(n, tamanho, 0);
    let um_run = run_crescente(o) || run_decrescente(o);
    &&& r is Ok ==> ordenacao_estavel(o, f)
    &&& r is Err ==> f == o
    &&& (n <= folha_esperada(config, tamanho) || um_run) ==> r is Ok
    &&& erros_da_reserva(config, minimo, r)
    &&& (n > folha_esperada(config, tamanho) && n > bloco_esperado(n, config, tamanho) && !um_run)
        ==> excede_o_limite(config, minimo, r)
    &&& !pede_buffer(o, config, tamanho) ==> r is Ok
    &&& pede_buffer(o, config, tamanho) ==> excede_o_limite(config, minimo, r)
}

/// Whether the sort of `o` under `config` reserves an auxiliary buffer:
/// never up to a leaf; on the route of runs (long runs, or short runs whose
/// mean length reaches `run_medio_minimo`) when `o` is not one run; on the
/// route of blocks when `o` is longer than a block.
pub open spec fn pede_buffer<T: Ord>(o: Seq<T>, config: PimConfig, tamanho: int) -> bool {
    let n = o.len() as int;
    let um_run = run_crescente(o) || run_decrescente(o);
    let por_blocos = n > bloco_esperado(n, config, tamanho);
    if n <= folha_esperada(config, tamanho) {
        false
    } else {
        match perfil_esperado(o, config) {
            PerfilEntrada::RunsLongos => !um_run,
            PerfilEntrada::RunsCurtos => if config.run_medio_minimo > 0 {
                let total = crate::metadata::runs_gulosos(o, 0).len() as int;
                let runs = if total > 1 { total } else { 1 };
                if n / runs >= config.run_medio_minimo { !um_run } else { por_blocos }
            } else {
                por_blocos
            },
            PerfilEntrada::Caotica => por_blocos,
        }
    }
}

/// The answer of reserving a buffer of `necessario` bytes under `config`:
/// over the limit `MemoriaInsuficiente`; within it, the buffer or the
/// allocator's refusal.
pub open spec fn resposta_reserva(config: PimConfig, necessario: int, r: Result<(), PimError>) -> bool {
    match config.memory_limit_bytes {
        Some(l) if necessario > l => r == Err::<(), PimError>(
            PimError::MemoriaInsuficiente { necessario: necessario as usize, limite: l },
        ),
        _ => r is Ok || r == Err::<(), PimError>(PimError::FalhaAoReservarMemoria { necessario: necessario as usize }),
    }
}

/// The errors of a sort whose buffer needs at least `minimo` bytes:
/// `MemoriaInsuficiente` only over the configured limit,
/// `FalhaAoReservarMemoria` only within it, each with the bytes asked for,
/// never fewer than `minimo`.
pub open spec fn erros_da_reserva(config: PimConfig, minimo: int, r: Result<(), PimError>) -> bool {
    match r {
        Err(PimError::MemoriaInsuficiente { necessario, limite }) => config.memory_limit_bytes == Some(limite)
            && necessario > limite && necessario >= minimo,
        Err(PimError::FalhaAoReservarMemoria { necessario }) => necessario >= minimo && match config.memory_limit_bytes {
            Some(l) => necessario <= l,
            None => true,
        },
        Ok(_) => true,
    }
}

/// When a buffer of at least `minimo` bytes is over the configured limit,
/// the answer is `MemoriaInsuficiente`.
pub open spec fn excede_o_limite(config: PimConfig, minimo: int, r: Result<(), PimError>) -> bool {
    match config.memory_limit_bytes {
        Some(l) => minimo > l ==> r matches Err(PimError::MemoriaInsuficiente { .. }),
        None => true,
    }
}

/// Reserving `bytes_necessarios(n, tamanho, extras)` bytes answers with
/// the errors of a buffer of at least a copy's bytes.
proof fn lema_reserva_erros(config: PimConfig, n: int, tamanho: int, extras: int, r: Result<(), PimError>)
    requires
        n >= 0,
        tamanho >= 0,
        extras >= 0,
        resposta_reserva(config, bytes_necessarios(n, tamanho, extras), r),
    ensures
        erros_da_reserva(config, bytes_necessarios(n, tamanho, 0), r),
        excede_o_limite(config, bytes_necessarios(n, tamanho, 0), r),
{
    lema_bytes_crescem(n, tamanho, extras);
}

/// Whether the allocator grants room for exactly `n` elements of `T`
/// (`Vec::try_reserve_exact` on an empty vector, dropped at once). The
/// answer depends on the allocator and the machine; nothing is promised.
#[verifier::external_body]
fn consegue_reservar<T>(n: usize) -> bool {
    let mut sonda: Vec<T> = Vec::new();
    sonda.try_reserve_exact(n).is_ok()
}

/// Reserves the auxiliary buffer of the sort: refused when it needs more
/// bytes than the configured limit, or when the allocator refuses it.
fn reserva_buffer<T: Copy>(arr: &[T], config: PimConfig, extras_bytes: usize) -> (r: Result<Vec<T>, PimError>)
    requires
        arr@.len() >= 1,
    ensures
        ({
            let necessario = bytes_necessarios(arr@.len() as int, vstd::layout::size_of::<T>() as int, extras_bytes as int);
            match config.memory_limit_bytes {
                Some(limite) if necessario > limite => r == Err::<Vec<T>, PimError>(
                    PimError::MemoriaInsuficiente { necessario: necessario as usize, limite },
                ),
                _ => match r {
                    Ok(buf) => buf@.len() == arr@.len(),
                    Err(e) => e == PimError::FalhaAoReservarMemoria { necessario: necessario as usize },
                },
            }
        }),
{
    let tamanho = core::mem::size_of::<T>();
    let necessario = match arr.len().checked_mul(tamanho) {
        Some(bytes) => match bytes.checked_add(extras_bytes) {
            Some(total) => total,
            None => usize::MAX,
        },
        None => usize::MAX,
    };
    if let Some(limite) = config.memory_limit_bytes {
        if necessario > limite {
            return Err(PimError::MemoriaInsuficiente { necessario, limite });
        }
    }
    let concedido = consegue_reservar::<T>(arr.len());
    monta_buffer(arr, necessario, concedido)
}

/// The buffer of the sort once the allocator has answered `concedido` for
/// the room of `arr.len()` elements: granted, a buffer of that many
/// elements; refused, `FalhaAoReservarMemoria` with the bytes asked for.
fn monta_buffer<T: Copy>(arr: &[T], necessario: usize, concedido: bool) -> (r: Result<Vec<T>, PimError>)
    requires
        arr@.len() >= 1,
    ensures
        concedido ==> r is Ok && r->Ok_0@.len() == arr@.len(),
        !concedido ==> r == Err::<Vec<T>, PimError>(PimError::FalhaAoReservarMemoria { necessario }),
{
    if !concedido {
        return Err(PimError::FalhaAoReservarMemoria { necessario });
    }
    Ok(vec![arr[0]; arr.len()])
}

/// The block size for chaotic input under `config` with elements of
/// `tamanho` bytes.
pub open spec fn bloco_esperado(n: int, config: PimConfig, tamanho: int) -> int {
    match config.bloco_override {
        Some(bloco) => if bloco > 2 { bloco as int } else { 2 },
        None => {
            let t: int = if config.workers > 1 { config.workers as int } else { 1 };
            let orcamento: int = if t == 1 { config.l3_bytes as int } else { (config.l3_bytes / 6) as int };
            let por_thread = orcamento / t;
            let elem: int = if tamanho > 1 { tamanho } else { 1 };
            let divisor: int = if satura(3 * elem) / 2 > 1 { satura(3 * elem) / 2 } else { 1 };
            let b_cache = por_thread / divisor;
            let b_balanco: int = if t > 1 { n / satura(4 * t) } else { usize::MAX as int };
            let b = if b_cache < b_balanco { b_cache } else { b_balanco };
            if b < 4096 {
                4096int
            } else if b > 8 * 1024 * 1024 {
                8 * 1024 * 1024int
            } else {
                b
            }
        },
    }
}

/// The block size for chaotic input: what fits a worker's share of the
/// shared cache with its buffer, but no more than a quarter of a worker's
/// share of the input, between 4096 and 8 Mi elements; or the override.
pub fn bloco_aleatorio_config<T>(n: usize, config: PimConfig) -> (r: usize)
    ensures
        r == bloco_esperado(n as int, config, vstd::layout::size_of::<T>() as int),
{
    if let Some(bloco) = config.bloco_override {
        return if bloco > 2 { bloco } else { 2 };
    }
    let t = config.workers_efetivos();
    let orcamento_efetivo = if t == 1 { config.l3_bytes } else { config.l3_bytes / 6 };
    let por_thread = orcamento_efetivo / t;
    let tamanho = core::mem::size_of::<T>();
    let elem = if tamanho > 1 { tamanho } else { 1 };
    let meio = mul_saturada(3, elem) / 2;
    let divisor = if meio > 1 { meio } else { 1 };
    let b_cache = por_thread / divisor;
    let b_balanco = if t > 1 { n / mul_saturada(4, t) } else { usize::MAX };
    let b = if b_cache < b_balanco { b_cache } else { b_balanco };
    if b < 4096 {
        4096
    } else if b > 8 * 1024 * 1024 {
        8 * 1024 * 1024
    } else {
        b
    }
}

/// The bytes of metadata and offsets for `runs` runs, saturated.
fn extras_de_runs(runs: usize) -> (r: usize)
    ensures
        r == satura(runs * 16),
{
    mul_saturada(runs, 16)
}

/// Sorts chaotic input: blocks of the computed size are sorted stably in
/// parallel, then merged bottom-up with P-way merges. The buffer is
/// reserved before anything is moved, so a refusal leaves `arr` as it was.
pub fn try_pim_sort_blocos<T: Ord + Copy + Send + Sync>(arr: &mut [T], config: PimConfig) -> (r: Result<(), PimError>)
    requires
        ordem_total::<T>(),
        old(arr)@.len() <= usize::MAX / 64,
    ensures
        r is Ok ==> ordenacao_estavel(old(arr)@, final(arr)@),
        r is Err ==> final(arr)@ == old(arr)@,
        r matches Err(PimError::MemoriaInsuficiente { necessario, limite }) ==> config.memory_limit_bytes == Some(limite) && necessario > limite,
        ({
            let n = old(arr)@.len() as int;
            let tamanho = vstd::layout::size_of::<T>() as int;
            let bloco = bloco_esperado(n, config, tamanho);
            if n <= bloco {
                r is Ok
            } else {
                resposta_reserva(config, bytes_necessarios(n, tamanho, satura(((n - 1) / bloco + 1) * 16)), r)
            }
        }),
        erros_da_reserva(config, bytes_necessarios(old(arr)@.len() as int, vstd::layout::size_of::<T>() as int, 0), r),
        old(arr)@.len() > bloco_esperado(old(arr)@.len() as int, config, vstd::layout::size_of::<T>() as int) ==> excede_o_limite(
            config,
            bytes_necessarios(old(arr)@.len() as int, vstd::layout::size_of::<T>() as int, 0),
            r,
        ),
{
    let bloco = bloco_aleatorio_config::<T>(arr.len(), config);
    if arr.len() <= bloco {
        crate::blocos::ordena_bloco(arr, false);
        return Ok(());
    }
    let runs = (arr.len() - 1) / bloco + 1;
    let extras = extras_de_runs(runs);
    let reserva = reserva_buffer(arr, config, extras);
    proof {
        let rr: Result<(), PimError> = match reserva {
            Ok(_) => Ok(()),
            Err(e) => Err(e),
        };
        lema_reserva_erros(config, arr@.len() as int, vstd::layout::size_of::<T>() as int, extras as int, rr);
    }
    let mut buffer = match reserva {
        Ok(b) => b,
        Err(e) => {
            return Err(e);
        },
    };
    let ghost o = arr@;
    let metadata = crate::blocos::ordena_blocos(arr, bloco, false);
    let ghost f = arr@;
    proof {
        lema_meta_divide(f, metadata@, 0);
        lema_sem_min(f, metadata@);
    }
    let offsets = crate::metadata::block_offsets(metadata.as_slice());
    proof {
        assert(offsets@[0] == 0) by {
            assert(metadata@.take(0) =~= Seq::<i64>::empty());
        }
    }
    bottom_up_merge_pim_pway(
        arr,
        buffer.as_mut_slice(),
        metadata.as_slice(),
        offsets.as_slice(),
        false,
        config.workers_efetivos(),
        1,
        config,
        false,
    );
    proof {
        lema_estavel_por_classes(o, f, arr@);
    }
    Ok(())
}

/// No run of a decomposition holds `i64::MIN` elements.
proof fn lema_sem_min<T: Ord>(s: Seq<T>, meta: Seq<i64>)
    requires
        metadata_valida(s, meta),
        s.len() <= i64::MAX,
    ensures
        forall|i: int| 0 <= i < meta.len() ==> #[trigger] meta[i] != i64::MIN,
    decreases meta.len(),
{
    if meta.len() > 0 {
        let h = tamanho_run(meta.last());
        lema_sem_min(s.take(s.len() - h), meta.drop_last());
        assert forall|i: int| 0 <= i < meta.len() implies #[trigger] meta[i] != i64::MIN by {
            if i < meta.len() - 1 {
                assert(meta[i] == meta.drop_last()[i]);
            }
        }
    }
}


/// Sorts input made of runs, given their metadata: a single run is left as
/// it is or reversed; otherwise the runs are merged bottom-up through the
/// buffer, reserved before anything is moved: by k-way merges when
/// `runs_via_kway` (galloping leaves for indirect keys), else by P-way ones.
fn try_pim_sort_runs_com_metadata<T: Ord + Copy + Send + Sync>(
    arr: &mut [T],
    config: PimConfig,
    metadata: Vec<i64>,
) -> (r: Result<(), PimError>)
    requires
        ordem_total::<T>(),
        old(arr)@.len() <= usize::MAX / 64,
        old(arr)@.len() >= 1,
        metadata_valida(old(arr)@, metadata@),
    ensures
        r is Ok ==> ordenacao_estavel(old(arr)@, final(arr)@),
        r is Err ==> final(arr)@ == old(arr)@,
        r matches Err(PimError::MemoriaInsuficiente { necessario, limite }) ==> config.memory_limit_bytes == Some(limite) && necessario > limite,
        metadata@.len() == 1 ==> r is Ok,
        metadata@.len() != 1 ==> resposta_reserva(
            config,
            bytes_necessarios(old(arr)@.len() as int, vstd::layout::size_of::<T>() as int, satura(metadata@.len() as int * 16)),
            r,
        ),
        erros_da_reserva(config, bytes_necessarios(old(arr)@.len() as int, vstd::layout::size_of::<T>() as int, 0), r),
        metadata@.len() != 1 ==> excede_o_limite(
            config,
            bytes_necessarios(old(arr)@.len() as int, vstd::layout::size_of::<T>() as int, 0),
            r,
        ),
{
    let ghost o = arr@;
    proof {
        lema_meta_divide(o, metadata@, 0);
        lema_sem_min(o, metadata@);
    }
    if metadata.len() == 1 {
        proof {
            crate::bottom_up::lema_um_run(o, metadata@);
            crate::bottom_up::lema_um_run_estavel(o, metadata@[0]);
        }
        if metadata[0] < 0 {
            parallel_reverse(arr);
        }
        return Ok(());
    }
    let extras = extras_de_runs(metadata.len());
    let reserva = reserva_buffer(arr, config, extras);
    proof {
        let rr: Result<(), PimError> = match reserva {
            Ok(_) => Ok(()),
            Err(e) => Err(e),
        };
        lema_reserva_erros(config, arr@.len() as int, vstd::layout::size_of::<T>() as int, extras as int, rr);
    }
    let mut buffer = match reserva {
        Ok(b) => b,
        Err(e) => {
            return Err(e);
        },
    };
    let offsets = crate::metadata::block_offsets(metadata.as_slice());
    proof {
        assert(offsets@[0] == 0) by {
            assert(metadata@.take(0) =~= Seq::<i64>::empty());
        }
    }
    if config.runs_via_kway {
        let folha = tamanho_folha_config::<T>(config);
        let galope = config.custo_comparacao == CustoComparacao::Indireta;
        crate::kway::bottom_up_merge_pim_kway(
            arr,
            buffer.as_mut_slice(),
            metadata.as_slice(),
            offsets.as_slice(),
            folha,
            false,
            galope,
        );
    } else {
        bottom_up_merge_pim_pway(
            arr,
            buffer.as_mut_slice(),
            metadata.as_slice(),
            offsets.as_slice(),
            false,
            config.workers_efetivos(),
            1,
            config,
            true,
        );
    }
    Ok(())
}

/// Sorts input made of runs: detects the runs, then merges them.
fn try_pim_sort_runs<T: Ord + Copy + Send + Sync>(arr: &mut [T], config: PimConfig) -> (r: Result<(), PimError>)
    requires
        ordem_total::<T>(),
        old(arr)@.len() <= usize::MAX / 64,
        old(arr)@.len() >= 1,
    ensures
        r is Ok ==> ordenacao_estavel(old(arr)@, final(arr)@),
        r is Err ==> final(arr)@ == old(arr)@,
        r matches Err(PimError::MemoriaInsuficiente { necessario, limite }) ==> config.memory_limit_bytes == Some(limite) && necessario > limite,
        run_crescente(old(arr)@) || run_decrescente(old(arr)@) ==> r is Ok,
        erros_da_reserva(config, bytes_necessarios(old(arr)@.len() as int, vstd::layout::size_of::<T>() as int, 0), r),
        !(run_crescente(old(arr)@) || run_decrescente(old(arr)@)) ==> excede_o_limite(
            config,
            bytes_necessarios(old(arr)@.len() as int, vstd::layout::size_of::<T>() as int, 0),
            r,
        ),
{
    let metadata = detect_global_trend(arr);
    proof {
        if !(run_crescente(arr@) || run_decrescente(arr@)) && metadata@.len() == 1 {
            crate::bottom_up::lema_um_run(arr@, metadata@);
        }
        if !(run_crescente(arr@) || run_decrescente(arr@)) {
            assert(metadata@.len() != 0) by {
                if metadata@.len() == 0 {
                    assert(run_crescente(arr@));
                }
            }
        }
    }
    let r = try_pim_sort_runs_com_metadata(arr, config, metadata);
    proof {
        if !(run_crescente(old(arr)@) || run_decrescente(old(arr)@)) {
            assert(metadata@.len() >= 2);
        }
    }
    r
}

/// Stable sort of `arr` under `config`. Up to a leaf it is one stable
/// sort; otherwise the sample decides: long runs are detected and merged,
/// short runs are merged only when the metadata shows a mean run of at
/// least `run_medio_minimo`, and chaotic input is sorted by blocks that are
/// then merged. An error comes only from reserving the auxiliary buffer:
/// over `memory_limit_bytes`, or refused by the allocator; it is returned
/// before anything is moved.
pub fn try_pim_sort_with_config<T: Ord + Copy + Send + Sync>(arr: &mut [T], config: PimConfig) -> (r: Result<(), PimError>)
    requires
        ordem_total::<T>(),
        old(arr)@.len() <= usize::MAX / 64,
    ensures
        r is Ok ==> ordenacao_estavel(old(arr)@, final(arr)@),
        r is Err ==> final(arr)@ == old(arr)@,
        resposta_da_ordenacao(old(arr)@, final(arr)@, config, r),
{
    if arr.len() <= 1 {
        proof {
            crate::especificacao::lema_ordenada_estavel(arr@);
        }
        return Ok(());
    }
    if arr.len() <= tamanho_folha_config::<T>(config) {
        crate::blocos::ordena_bloco(arr, false);
        return Ok(());
    }
    let perfil = classifica_entrada(arr, config);
    if perfil == PerfilEntrada::RunsCurtos && config.run_medio_minimo > 0 {
        let metadata = detect_global_trend(arr);
        proof {
            if metadata@.len() == 1 {
                crate::bottom_up::lema_um_run(arr@, metadata@);
            }
            if metadata@.len() == 0 {
                assert(run_crescente(arr@));
            }
        }
        let runs = if metadata.len() > 1 { metadata.len() } else { 1 };
        if arr.len() / runs >= config.run_medio_minimo {
            return try_pim_sort_runs_com_metadata(arr, config, metadata);
        }
        return try_pim_sort_blocos(arr, config);
    }
    match perfil {
        PerfilEntrada::RunsLongos => try_pim_sort_runs(arr, config),
        PerfilEntrada::RunsCurtos | PerfilEntrada::Caotica => try_pim_sort_blocos(arr, config),
    }
}

#[verifier::external_type_specification]
#[verifier::external_body]
pub struct ExThreadPool(rayon::ThreadPool);

#[verifier::external_type_specification]
#[verifier::external_body]
pub struct ExThreadPoolBuildError(rayon::ThreadPoolBuildError);

/// Builds a rayon thread pool of `workers` threads
/// (`ThreadPoolBuilder::new().num_threads(workers).build()`). Whether the
/// operating system grants the threads is not known in advance: nothing is
/// promised of the result.
#[verifier::external_body]
fn constroi_pool(workers: usize) -> (r: Result<rayon::ThreadPool, rayon::ThreadPoolBuildError>) {
    rayon::ThreadPoolBuilder::new().num_threads(workers).build()
}

/// Runs `try_pim_sort_with_config` on `arr` inside `pool`
/// (`ThreadPool::install`, which runs the closure once, on a thread of the
/// pool, and hands back its result), so the result is what that function's
/// contract states.
#[verifier::external_body]
fn ordena_no_pool<T: Ord + Copy + Send + Sync>(pool: &rayon::ThreadPool, arr: &mut [T], config: PimConfig) -> (r: Result<(), PimError>)
    requires
        ordem_total::<T>(),
        old(arr)@.len() <= usize::MAX / 64,
    ensures
        resposta_da_ordenacao(old(arr)@, final(arr)@, config, r),
{
    pool.install(|| try_pim_sort_with_config(arr, config))
}

/// `config` with its workers capped at the `workers` of an executor.
pub open spec fn config_no_executor(config: PimConfig, workers: usize) -> PimConfig {
    let w: usize = if config.workers > 1 { config.workers } else { 1 };
    PimConfig { workers: if w < workers { w } else { workers }, ..config }
}

/// A sorter with a thread pool of its own.
pub struct PimExecutor {
    pool: rayon::ThreadPool,
    workers: usize,
}

impl PimExecutor {
    /// The workers of the pool.
    pub closed spec fn num_workers(&self) -> usize {
        self.workers
    }

    /// An executor with a pool of `workers` threads (at least one), or the
    /// error of building the pool.
    pub fn new(workers: usize) -> (r: Result<Self, rayon::ThreadPoolBuildError>)
        ensures
            r matches Ok(e) ==> e.num_workers() == (if workers > 1 { workers } else { 1 }),
    {
        let workers = if workers > 1 { workers } else { 1 };
        match constroi_pool(workers) {
            Ok(pool) => Ok(PimExecutor { pool, workers }),
            Err(e) => Err(e),
        }
    }

    /// Stable sort of `arr` under `config`, in this executor's pool, with
    /// no more workers than the pool has.
    pub fn try_sort<T: Ord + Copy + Send + Sync>(&self, arr: &mut [T], config: PimConfig) -> (r: Result<(), PimError>)
        requires
            ordem_total::<T>(),
            old(arr)@.len() <= usize::MAX / 64,
        ensures
            r is Ok ==> ordenacao_estavel(old(arr)@, final(arr)@),
            r is Err ==> final(arr)@ == old(arr)@,
            r matches Err(PimError::MemoriaInsuficiente { necessario, limite }) ==> config.memory_limit_bytes == Some(limite) && necessario > limite,
            old(arr)@.len() <= 1 || old(arr)@.len() <= folha_esperada(config, vstd::layout::size_of::<T>() as int) ==> r is Ok,
            resposta_da_ordenacao(old(arr)@, final(arr)@, config_no_executor(config, self.num_workers()), r),
    {
        let mut config = config;
        let w = config.workers_efetivos();
        config.workers = if w < self.workers { w } else { self.workers };
        ordena_no_pool(&self.pool, arr, config)
    }

    /// Stable sort of `arr` under `config`, in this executor's pool. The
    /// sort cannot go on without its auxiliary buffer: when that is refused
    /// the error is handed back and `arr` is left as it was.
    pub fn sort<T: Ord + Copy + Send + Sync>(&self, arr: &mut [T], config: PimConfig) -> (r: Result<(), PimError>)
        requires
            ordem_total::<T>(),
            old(arr)@.len() <= usize::MAX / 64,
        ensures
            r is Ok ==> ordenacao_estavel(old(arr)@, final(arr)@),
            r is Err ==> final(arr)@ == old(arr)@,
            r matches Err(PimError::MemoriaInsuficiente { necessario, limite }) ==> config.memory_limit_bytes == Some(limite) && necessario > limite,
            old(arr)@.len() <= 1 || old(arr)@.len() <= folha_esperada(config, vstd::layout::size_of::<T>() as int) ==> r is Ok,
            resposta_da_ordenacao(old(arr)@, final(arr)@, config_no_executor(config, self.num_workers()), r),
    {
        self.try_sort(arr, config)
    }

    /// The workers of the pool.
    pub fn workers(&self) -> (r: usize)
        ensures
            r == self.num_workers(),
    {
        self.workers
    }
}

/// Sorts `arr` by blocks of `block_size` elements (at least 2), sorted
/// stably in parallel (each block itself in parallel when
/// `par_sort_local`), then merged bottom-up with P-way merges that use
/// `workers` workers, joining without a merge the neighbours already in
/// order when `costura_bordas`.
pub fn pim_sort_pway_blocos_com_config<T: Ord + Copy + Send + Sync>(
    arr: &mut [T],
    block_size: usize,
    costura_bordas: bool,
    par_sort_local: bool,
    workers: usize,
    config: PimConfig,
)
    requires
        ordem_total::<T>(),
        old(arr)@.len() <= usize::MAX / 64,
    ensures
        ordenacao_estavel(old(arr)@, final(arr)@),
{
    let block_size = if block_size > 2 { block_size } else { 2 };
    if arr.len() <= block_size {
        crate::blocos::ordena_bloco(arr, par_sort_local);
        return;
    }
    let ghost o = arr@;
    let metadata = crate::blocos::ordena_blocos(arr, block_size, par_sort_local);
    let ghost f = arr@;
    proof {
        lema_meta_divide(f, metadata@, 0);
        lema_sem_min(f, metadata@);
    }
    let offsets = crate::metadata::block_offsets(metadata.as_slice());
    proof {
        assert(offsets@[0] == 0) by {
            assert(metadata@.take(0) =~= Seq::<i64>::empty());
        }
    }
    let mut buffer = vec![arr[0]; arr.len()];
    bottom_up_merge_pim_pway(
        arr,
        buffer.as_mut_slice(),
        metadata.as_slice(),
        offsets.as_slice(),
        false,
        workers,
        1,
        config,
        costura_bordas,
    );
    proof {
        lema_estavel_por_classes(o, f, arr@);
    }
}

/// Sorts `arr` by blocks of `block_size` elements (at least 2), each block
/// sorted by sub-sorts of `sub_sort_size` elements (between 2 and the
/// block) merged bottom-up, the blocks in parallel; the blocks are then
/// merged bottom-up with P-way merges as `pim_sort_pway_blocos_com_config`
/// does.
pub fn pim_sort_pway_blocos_subsorts_com_config<T: Ord + Copy + Send + Sync>(
    arr: &mut [T],
    block_size: usize,
    sub_sort_size: usize,
    costura_bordas: bool,
    workers: usize,
    config: PimConfig,
    folha_galopante: bool,
)
    requires
        ordem_total::<T>(),
        old(arr)@.len() <= usize::MAX / 64,
    ensures
        ordenacao_estavel(old(arr)@, final(arr)@),
{
    let block_size = if block_size > 2 { block_size } else { 2 };
    let sub_sort_size = if sub_sort_size < 2 { 2 } else if sub_sort_size > block_size { block_size } else { sub_sort_size };
    if arr.len() <= block_size {
        crate::blocos::ordena_bloco_por_subsorts(arr, sub_sort_size, folha_galopante);
        return;
    }
    let ghost o = arr@;
    let metadata = crate::blocos::ordena_blocos_por_subsorts(arr, block_size, sub_sort_size, folha_galopante);
    let ghost f = arr@;
    proof {
        lema_meta_divide(f, metadata@, 0);
        lema_sem_min(f, metadata@);
    }
    let offsets = crate::metadata::block_offsets(metadata.as_slice());
    proof {
        assert(offsets@[0] == 0) by {
            assert(metadata@.take(0) =~= Seq::<i64>::empty());
        }
    }
    let mut buffer = vec![arr[0]; arr.len()];
    bottom_up_merge_pim_pway(
        arr,
        buffer.as_mut_slice(),
        metadata.as_slice(),
        offsets.as_slice(),
        false,
        workers,
        1,
        config,
        costura_bordas,
    );
    proof {
        lema_estavel_por_classes(o, f, arr@);
    }
}

} // verus!
