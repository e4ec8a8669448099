use vstd::prelude::*;
use crate::ordem::{ordem_total, equivalentes, compara, Comparacao};
use crate::{sobe, mudancas_direcao, inicio_janela, mudancas_amostra};

verus! {

/// The route that the sort takes for an input.
#[derive(Clone, Copy, Debug, PartialEq, Eq, Structural)]
pub enum Rota {
    /// No order to exploit: sort blocks, then merge them.
    Caotica,
    /// Long runs: detect them and merge them.
    RunsLongos,
    /// Runs too short for merging them to pay.
    RunsCurtos,
}

/// Smallest mean run length for which merging the runs pays.
pub const RUN_MEDIO_MINIMO: usize = 16;

/// The route once the runs are counted: one run at most is long runs; a
/// mean run under `RUN_MEDIO_MINIMO` is short runs; else the guess stands.
pub open spec fn rota_reclassificada(n: int, num_runs: int, palpite: Rota) -> Rota {
    if num_runs <= 1 {
        Rota::RunsLongos
    } else if n / num_runs < RUN_MEDIO_MINIMO {
        Rota::RunsCurtos
    } else {
        palpite
    }
}

/// Corrects the sample's guess by the number of runs that the metadata
/// found in `n` elements.
pub fn reclassifica_por_metadata(n: usize, num_runs: usize, palpite: Rota) -> (r: Rota)
    ensures
        r == rota_reclassificada(n as int, num_runs as int, palpite),
{
    if num_runs <= 1 {
        return Rota::RunsLongos;
    }
    let run_medio = n / num_runs;
    if run_medio < RUN_MEDIO_MINIMO {
        return Rota::RunsCurtos;
    }
    palpite
}

/// What a sample of windows counts in the input.
#[derive(Clone, Copy, Debug, PartialEq, Eq, Structural)]
pub struct ContagemAmostra {
    /// Pairs whose direction differs from that of the pair before.
    pub mudancas: usize,
    /// Pairs of equal keys.
    pub empates: usize,
    /// Pairs compared.
    pub comparacoes: usize,
    /// Windows without a change of direction.
    pub janelas_monotonas: usize,
    /// Windows sampled.
    pub janelas: usize,
}

/// Pairs of equal keys at the positions `i` in `(ini, fim)`.
pub open spec fn empates_janela<T: Ord>(s: Seq<T>, ini: int, fim: int) -> int
    decreases fim - ini,
{
    if fim <= ini + 1 {
        0
    } else {
        empates_janela(s, ini, fim - 1) + (if equivalentes(s[fim - 1], s[fim]) { 1int } else { 0int })
    }
}

/// Pairs of equal keys in the first `j` sample windows.
pub open spec fn empates_amostra<T: Ord>(s: Seq<T>, j: int, janelas: int, largura: int, disponiveis: int) -> int
    decreases j,
{
    if j <= 0 {
        0
    } else {
        let ini = inicio_janela(j - 1, janelas, largura, disponiveis);
        empates_amostra(s, j - 1, janelas, largura, disponiveis) + empates_janela(s, ini, ini + largura)
    }
}

/// Windows without a change of direction among the first `j`.
pub open spec fn monotonas_amostra<T: Ord>(s: Seq<T>, j: int, janelas: int, largura: int, disponiveis: int) -> int
    decreases j,
{
    if j <= 0 {
        0
    } else {
        let ini = inicio_janela(j - 1, janelas, largura, disponiveis);
        monotonas_amostra(s, j - 1, janelas, largura, disponiveis)
            + (if mudancas_direcao(s, ini, ini + largura) == 0 { 1int } else { 0int })
    }
}

/// The windows asked for, between 1 and 64.
pub open spec fn janelas_efetivas(janelas: int) -> int {
    if janelas < 1 { 1 } else if janelas > 64 { 64 } else { janelas }
}

/// The window width asked for, between 8 and the pairs available.
pub open spec fn largura_efetiva(largura: int, disponiveis: int) -> int {
    if largura < 8 { 8 } else if largura > disponiveis { disponiveis } else { largura }
}

/// What the sample of `s` with `janelas` windows of `largura` pairs counts:
/// with fewer than 8 pairs, one monotone window and nothing else; else,
/// over the windows sampled, the changes of direction, the equal pairs and
/// the windows without a change of direction.
pub open spec fn contagem_da_amostra<T: Ord>(s: Seq<T>, janelas: int, largura: int, r: ContagemAmostra) -> bool {
    let disponiveis: int = if s.len() == 0 { 0 } else { s.len() - 1 };
    if disponiveis < 8 {
        r == (ContagemAmostra { mudancas: 0, empates: 0, comparacoes: 0, janelas_monotonas: 1, janelas: 1 })
    } else {
        let j = janelas_efetivas(janelas);
        let l = largura_efetiva(largura, disponiveis);
        &&& r.janelas == j
        &&& r.comparacoes == j * (l - 1)
        &&& r.mudancas == mudancas_amostra(s, j, j, l, disponiveis)
        &&& r.empates == empates_amostra(s, j, j, l, disponiveis)
        &&& r.janelas_monotonas == monotonas_amostra(s, j, j, l, disponiveis)
    }
}

/// Counts the direction changes and the equal pairs of one window.
fn conta_janela<T: Ord>(arr: &[T], inicio: usize, fim: usize) -> (r: (usize, usize))
    requires
        ordem_total::<T>(),
        inicio + 1 < fim < arr@.len(),
    ensures
        r.0 == mudancas_direcao(arr@, inicio as int, fim as int),
        r.1 == empates_janela(arr@, inicio as int, fim as int),
        r.0 <= fim - inicio - 1,
        r.1 <= fim - inicio - 1,
{
    let mut ascendente = compara(&arr[inicio], &arr[inicio + 1]) != Comparacao::Maior;
    let mut mudancas: usize = 0;
    let mut empates: usize = 0;
    let mut i = inicio + 1;
    while i < fim
        invariant
            ordem_total::<T>(),
            inicio + 1 <= i <= fim,
            fim < arr@.len(),
            ascendente == sobe(arr@, i - 1),
            mudancas == mudancas_direcao(arr@, inicio as int, i as int),
            empates == empates_janela(arr@, inicio as int, i as int),
            mudancas <= i - inicio - 1,
            empates <= i - inicio - 1,
        decreases fim - i,
    {
        let ord = compara(&arr[i], &arr[i + 1]);
        if ord == Comparacao::Igual {
            empates = empates + 1;
        }
        let atual = ord != Comparacao::Maior;
        if atual != ascendente {
            mudancas = mudancas + 1;
            ascendente = atual;
        }
        i = i + 1;
    }
    (mudancas, empates)
}

/// Samples `janelas` windows (1 to 64) of `largura` pairs (at least 8, at
/// most all) spread evenly over the input, and counts in them the changes
/// of direction, the equal pairs and the windows without a change. With
/// fewer than 8 pairs nothing is sampled and the input counts as one
/// monotone window.
pub fn conta_amostra<T: Ord>(arr: &[T], janelas: usize, largura: usize) -> (r: ContagemAmostra)
    requires
        ordem_total::<T>(),
        arr@.len() <= usize::MAX / 64,
    ensures
        contagem_da_amostra(arr@, janelas as int, largura as int, r),
{
    let disponiveis = if arr.len() == 0 { 0 } else { arr.len() - 1 };
    if disponiveis < 8 {
        return ContagemAmostra { mudancas: 0, empates: 0, comparacoes: 0, janelas_monotonas: 1, janelas: 1 };
    }
    let janelas: usize = if janelas < 1 { 1 } else if janelas > 64 { 64 } else { janelas };
    let largura: usize = if largura < 8 { 8 } else if largura > disponiveis { disponiveis } else { largura };
    let mut mudancas: usize = 0;
    let mut empates: usize = 0;
    let mut comparacoes: usize = 0;
    let mut monotonas: usize = 0;
    let mut j: usize = 0;
    while j < janelas
        invariant
            ordem_total::<T>(),
            arr@.len() <= usize::MAX / 64,
            disponiveis == arr@.len() - 1,
            8 <= disponiveis,
            1 <= janelas <= 64,
            8 <= largura <= disponiveis,
            j <= janelas,
            comparacoes == j * (largura - 1),
            mudancas == mudancas_amostra(arr@, j as int, janelas as int, largura as int, disponiveis as int),
            empates == empates_amostra(arr@, j as int, janelas as int, largura as int, disponiveis as int),
            monotonas == monotonas_amostra(arr@, j as int, janelas as int, largura as int, disponiveis as int),
            mudancas <= comparacoes,
            empates <= comparacoes,
            monotonas <= j,
        decreases janelas - j,
    {
        let ghost ini = inicio_janela(j as int, janelas as int, largura as int, disponiveis as int);
        let inicio = if janelas == 1 {
            0
        } else {
            proof {
                vstd::arithmetic::mul::lemma_mul_inequality(j as int, (janelas - 1) as int, (disponiveis - largura) as int);
                vstd::arithmetic::mul::lemma_mul_is_commutative((janelas - 1) as int, (disponiveis - largura) as int);
                vstd::arithmetic::div_mod::lemma_div_multiples_vanish((disponiveis - largura) as int, (janelas - 1) as int);
                vstd::arithmetic::div_mod::lemma_div_is_ordered(
                    j * (disponiveis - largura),
                    (janelas - 1) * (disponiveis - largura),
                    (janelas - 1) as int,
                );
                vstd::arithmetic::mul::lemma_mul_nonnegative(j as int, (disponiveis - largura) as int);
                vstd::arithmetic::div_mod::lemma_div_pos_is_pos(j * (disponiveis - largura), (janelas - 1) as int);
                vstd::arithmetic::mul::lemma_mul_upper_bound(j as int, 64, (disponiveis - largura) as int, disponiveis as int);
            }
            j * (disponiveis - largura) / (janelas - 1)
        };
        proof {
            vstd::arithmetic::mul::lemma_mul_is_distributive_add_other_way((largura - 1) as int, j as int, 1);
            vstd::arithmetic::mul::lemma_mul_upper_bound(j + 1, 64, (largura - 1) as int, disponiveis as int);
        }
        let fim = inicio + largura;
        let (m, e) = conta_janela(arr, inicio, fim);
        mudancas = mudancas + m;
        empates = empates + e;
        if m == 0 {
            monotonas = monotonas + 1;
        }
        comparacoes = comparacoes + (largura - 1);
        j = j + 1;
    }
    ContagemAmostra { mudancas, empates, comparacoes, janelas_monotonas: monotonas, janelas }
}

} // verus!
