use vstd::prelude::*;
use crate::ordem::{ordem_total, menor_igual, equivalentes, lema_preordem_total};
use crate::especificacao::{
    ordenada, ordenacao_estavel, classe, corte_no_rank, lema_corte_unico, lema_classe_concat, lema_classe_nenhum,
};
use crate::metadata::{junta_metadata, runs_gulosos};
use crate::especificacao::{run_crescente, run_decrescente};
use crate::amostra::{
    contagem_da_amostra, ContagemAmostra, janelas_efetivas, largura_efetiva, monotonas_amostra, rota_reclassificada,
    Rota, RUN_MEDIO_MINIMO,
};
use crate::{
    mudancas_direcao, mudancas_amostra, inicio_janela, sobe, perfil_esperado, resposta_da_ordenacao, bloco_esperado,
    PerfilEntrada, PimConfig, PimError,
};
use crate::multicorte::{lema_membro, corte_multi, soma, todas_ordenadas, precede, lema_corte_geral, lema_soma_menor};

verus! {

/// Keys that tie select the same elements.
proof fn lema_classe_equivalente<T: Ord>(s: Seq<T>, x: T, y: T)
    requires
        ordem_total::<T>(),
        equivalentes(x, y),
    ensures
        classe(s, x) == classe(s, y),
{
    lema_preordem_total::<T>();
    let px = |z: T| equivalentes(z, x);
    let py = |z: T| equivalentes(z, y);
    assert(px =~= py);
}

/// The class of a sequence that ends in `y`, for a key that `y` ties with,
/// ends in `y`; for any other key, `y` adds nothing to it.
proof fn lema_classe_ultimo<T: Ord>(s: Seq<T>, x: T)
    requires
        ordem_total::<T>(),
        s.len() > 0,
    ensures
        equivalentes(s.last(), x) ==> classe(s, x) == classe(s.drop_last(), x).push(s.last()),
        !equivalentes(s.last(), x) ==> classe(s, x) == classe(s.drop_last(), x),
{
    assert(s =~= s.drop_last() + seq![s.last()]);
    lema_classe_concat(s.drop_last(), seq![s.last()], x);
    if equivalentes(s.last(), x) {
        reveal(Seq::filter);
        assert(classe(seq![s.last()], x) =~= seq![s.last()]);
    } else {
        lema_classe_nenhum(seq![s.last()], x);
    }
}

/// The stable sort is unique: two sequences that both stably sort the same
/// input are the same sequence. Hence every sort of this library, under any
/// configuration, profile or executor, gives the same output for the same
/// input.
pub proof fn lei_ordenacao_estavel_unica<T: Ord>(o: Seq<T>, r1: Seq<T>, r2: Seq<T>)
    requires
        ordem_total::<T>(),
        ordenacao_estavel(o, r1),
        ordenacao_estavel(o, r2),
    ensures
        r1 == r2,
{
    lema_unica_por_classes(r1, r2);
}

proof fn lema_unica_por_classes<T: Ord>(r1: Seq<T>, r2: Seq<T>)
    requires
        ordem_total::<T>(),
        r1.len() == r2.len(),
        ordenada(r1),
        ordenada(r2),
        forall|x: T| #[trigger] classe(r1, x) == classe(r2, x),
    ensures
        r1 == r2,
    decreases r1.len(),
{
    lema_preordem_total::<T>();
    if r1.len() == 0 {
        assert(r1 =~= r2);
    } else {
        let n = r1.len() as int;
        let y1 = r1.last();
        let y2 = r2.last();
        // each last element is a greatest element of both sequences
        assert(ordenacao_estavel(r2, r1)) by {
            assert forall|x: T| #[trigger] classe(r1, x) == classe(r2, x) by {}
        }
        assert(ordenacao_estavel(r1, r2)) by {
            assert forall|x: T| #[trigger] classe(r2, x) == classe(r1, x) by {
                assert(classe(r1, x) == classe(r2, x));
            }
        }
        lema_membro(r2, r1, n - 1);
        lema_membro(r1, r2, n - 1);
        let p = choose|p: int| 0 <= p < r2.len() && r2[p] == y1;
        let q = choose|q: int| 0 <= q < r1.len() && r1[q] == y2;
        if p < n - 1 {
            assert(menor_igual(r2[p], r2[n - 1]));
        }
        if q < n - 1 {
            assert(menor_igual(r1[q], r1[n - 1]));
        }
        assert(equivalentes(y1, y2));
        // the classes of the last key end in the last elements
        lema_classe_ultimo(r1, y1);
        lema_classe_ultimo(r2, y1);
        lema_classe_equivalente(r2, y1, y2);
        assert(classe(r1, y1) == classe(r2, y1));
        assert(classe(r1, y1).last() == y1);
        assert(classe(r2, y1).last() == y2);
        assert(y1 == y2);
        // what is left before them has the same classes
        let s1 = r1.drop_last();
        let s2 = r2.drop_last();
        assert forall|x: T| #[trigger] classe(s1, x) == classe(s2, x) by {
            lema_classe_ultimo(r1, x);
            lema_classe_ultimo(r2, x);
            assert(classe(r1, x) == classe(r2, x));
            if equivalentes(y1, x) {
                assert(classe(s1, x) =~= classe(r1, x).drop_last());
                assert(classe(s2, x) =~= classe(r2, x).drop_last());
            }
        }
        assert(ordenada(s1)) by {
            assert forall|i: int, j: int| 0 <= i < j < s1.len() implies #[trigger] menor_igual(s1[i], s1[j]) by {
                assert(menor_igual(r1[i], r1[j]));
            }
        }
        assert(ordenada(s2)) by {
            assert forall|i: int, j: int| 0 <= i < j < s2.len() implies #[trigger] menor_igual(s2[i], s2[j]) by {
                assert(menor_igual(r2[i], r2[j]));
            }
        }
        lema_unica_por_classes(s1, s2);
        assert(r1 =~= s1.push(y1));
        assert(r2 =~= s2.push(y2));
    }
}

/// The two ways of cutting a merge agree: at every rank there is one valid
/// cut, so the diagonal binary search and the elimination search return the
/// same cut.
pub proof fn lei_cortes_concordam<T: Ord>(a: Seq<T>, b: Seq<T>, k: int, i1: int, i2: int)
    requires
        ordem_total::<T>(),
        ordenada(a),
        ordenada(b),
        corte_no_rank(a, b, k, i1),
        corte_no_rank(a, b, k, i2),
    ensures
        i1 == i2,
{
    lema_corte_unico(a, b, i1, k - i1, i2, k - i2);
}

/// An element occurs in a sequence as often as in its class.
proof fn lema_contagem_classe<T: Ord>(s: Seq<T>, e: T)
    requires
        ordem_total::<T>(),
    ensures
        s.to_multiset().count(e) == classe(s, e).to_multiset().count(e),
    decreases s.len(),
{
    broadcast use vstd::multiset::group_multiset_axioms;

    lema_preordem_total::<T>();
    if s.len() == 0 {
        crate::especificacao::lema_classe_vazia(s, e);
    } else {
        let s2 = s.drop_last();
        let y = s.last();
        lema_contagem_classe(s2, e);
        assert(s =~= s2.push(y));
        s2.to_multiset_ensures();
        lema_classe_ultimo(s, e);
        if equivalentes(y, e) {
            classe(s2, e).to_multiset_ensures();
        } else {
            assert(y != e);
        }
    }
}

/// A stable sort is a permutation: it holds every element as many times as
/// the input does.
pub proof fn lei_permutacao<T: Ord>(o: Seq<T>, r: Seq<T>)
    requires
        ordem_total::<T>(),
        ordenacao_estavel(o, r),
    ensures
        o.to_multiset() == r.to_multiset(),
{
    assert forall|e: T| #[trigger] o.to_multiset().count(e) == r.to_multiset().count(e) by {
        lema_contagem_classe(o, e);
        lema_contagem_classe(r, e);
        assert(classe(r, e) == classe(o, e));
    }
    assert(o.to_multiset() =~= r.to_multiset());
}

/// Multi-sequence selection has one answer per rank: two cuts of the same
/// sorted runs that take the same number of elements take the same number
/// from each run. So the parallel partition of a k-way merge and the
/// sequential merge agree on which run every tie comes from.
pub proof fn lei_corte_multi_unico<T: Ord>(s: Seq<Seq<T>>, c1: Seq<int>, c2: Seq<int>)
    requires
        ordem_total::<T>(),
        todas_ordenadas(s),
        corte_multi(s, c1),
        corte_multi(s, c2),
        soma(c1) == soma(c2),
    ensures
        c1 == c2,
{
    lema_preordem_total::<T>();
    if c1 != c2 {
        if forall|t: int| 0 <= t < c1.len() ==> #[trigger] c1[t] <= c2[t] {
            lema_soma_menor(c1, c2);
        }
        if forall|t: int| 0 <= t < c2.len() ==> #[trigger] c2[t] <= c1[t] {
            lema_soma_menor(c2, c1);
        }
        let i = choose|i: int| 0 <= i < c1.len() && #[trigger] c1[i] > c2[i];
        let j = choose|j: int| 0 <= j < c2.len() && #[trigger] c2[j] > c1[j];
        assert(0 <= c2[i] && c1[i] <= s[i].len());
        assert(0 <= c1[j] && c2[j] <= s[j].len());
        let x = s[i][c1[i] - 1];
        let y = s[j][c1[j]];
        lema_corte_geral(s, c1, i, c1[i] - 1, j, c1[j]);
        lema_corte_geral(s, c2, j, c1[j], i, c1[i] - 1);
        assert(precede(i, x, j, y));
        assert(precede(j, y, i, x));
    }
}

/// The stitching of run metadata is a monoid on the blocks of one
/// sequence that overlap by one element: the empty metadata is its
/// identity, and it is associative; whatever the grouping, the result is
/// the greedy decomposition of the whole. So blocks can be stitched in any
/// order of a parallel reduce.
pub proof fn lei_junta_associativa<T: Ord>(u: Seq<T>, i: int, j: int)
    requires
        ordem_total::<T>(),
        0 <= i < j < u.len(),
        u.len() <= i64::MAX,
    ensures
        junta_metadata(Seq::<i64>::empty(), runs_gulosos(u, 0)) == runs_gulosos(u, 0),
        junta_metadata(runs_gulosos(u, 0), Seq::<i64>::empty()) == runs_gulosos(u, 0),
        junta_metadata(
            junta_metadata(runs_gulosos(u.take(i + 1), 0), runs_gulosos(u.subrange(i, j + 1), 0)),
            runs_gulosos(u.skip(j), 0),
        ) == junta_metadata(
            runs_gulosos(u.take(i + 1), 0),
            junta_metadata(runs_gulosos(u.subrange(i, j + 1), 0), runs_gulosos(u.skip(j), 0)),
        ),
        junta_metadata(
            junta_metadata(runs_gulosos(u.take(i + 1), 0), runs_gulosos(u.subrange(i, j + 1), 0)),
            runs_gulosos(u.skip(j), 0),
        ) == runs_gulosos(u, 0),
{
    let v = u.take(j + 1);
    crate::costura::lema_junta_gulosos(v, i + 1);
    assert(v.take(i + 1) =~= u.take(i + 1));
    assert(v.skip(i) =~= u.subrange(i, j + 1));
    crate::costura::lema_junta_gulosos(u, j + 1);
    let w = u.skip(i);
    crate::costura::lema_junta_gulosos(w, j - i + 1);
    assert(w.take(j - i + 1) =~= u.subrange(i, j + 1));
    assert(w.skip(j - i) =~= u.skip(j));
    crate::costura::lema_junta_gulosos(u, i + 1);
}

/// A window's count of direction changes is never negative.
proof fn lema_mudancas_direcao_nao_negativas<T: Ord>(s: Seq<T>, ini: int, fim: int)
    ensures
        mudancas_direcao(s, ini, fim) >= 0,
    decreases fim - ini,
{
    if fim > ini + 1 {
        lema_mudancas_direcao_nao_negativas(s, ini, fim - 1);
    }
}

/// The direction changes of the first `j` windows are never negative.
proof fn lema_mudancas_amostra_nao_negativas<T: Ord>(s: Seq<T>, j: int, janelas: int, largura: int, disponiveis: int)
    ensures
        mudancas_amostra(s, j, janelas, largura, disponiveis) >= 0,
    decreases j,
{
    if j > 0 {
        lema_mudancas_amostra_nao_negativas(s, j - 1, janelas, largura, disponiveis);
        let ini = inicio_janela(j - 1, janelas, largura, disponiveis);
        lema_mudancas_direcao_nao_negativas(s, ini, ini + largura);
    }
}

/// Sampled windows that change direction nowhere are all monotone.
proof fn lema_sem_mudancas_todas_monotonas<T: Ord>(s: Seq<T>, j: int, janelas: int, largura: int, disponiveis: int)
    requires
        j >= 0,
        mudancas_amostra(s, j, janelas, largura, disponiveis) == 0,
    ensures
        monotonas_amostra(s, j, janelas, largura, disponiveis) == j,
    decreases j,
{
    if j > 0 {
        let ini = inicio_janela(j - 1, janelas, largura, disponiveis);
        lema_mudancas_amostra_nao_negativas(s, j - 1, janelas, largura, disponiveis);
        lema_mudancas_direcao_nao_negativas(s, ini, ini + largura);
        lema_sem_mudancas_todas_monotonas(s, j - 1, janelas, largura, disponiveis);
    }
}

/// At most `j` of the first `j` windows are monotone.
proof fn lema_monotonas_no_maximo<T: Ord>(s: Seq<T>, j: int, janelas: int, largura: int, disponiveis: int)
    requires
        j >= 0,
    ensures
        0 <= monotonas_amostra(s, j, janelas, largura, disponiveis) <= j,
    decreases j,
{
    if j > 0 {
        lema_monotonas_no_maximo(s, j - 1, janelas, largura, disponiveis);
    }
}

/// Window `j` of `janelas`, of `largura` pairs, lies within the
/// `disponiveis` pairs.
proof fn lema_janela_dentro(j: int, janelas: int, largura: int, disponiveis: int)
    requires
        0 <= j < janelas,
        0 <= largura <= disponiveis,
    ensures
        0 <= inicio_janela(j, janelas, largura, disponiveis),
        inicio_janela(j, janelas, largura, disponiveis) + largura <= disponiveis,
{
    if janelas != 1 {
        let d = disponiveis - largura;
        vstd::arithmetic::mul::lemma_mul_inequality(j, janelas - 1, d);
        vstd::arithmetic::mul::lemma_mul_is_commutative(janelas - 1, d);
        vstd::arithmetic::div_mod::lemma_div_multiples_vanish(d, janelas - 1);
        vstd::arithmetic::div_mod::lemma_div_is_ordered(j * d, (janelas - 1) * d, janelas - 1);
        vstd::arithmetic::mul::lemma_mul_nonnegative(j, d);
        vstd::arithmetic::div_mod::lemma_div_pos_is_pos(j * d, janelas - 1);
    }
}

/// An input that is one run changes direction in no sampled window.
proof fn lema_monotona_sem_mudancas<T: Ord>(s: Seq<T>, j: int, janelas: int, largura: int, disponiveis: int)
    requires
        0 <= j <= janelas,
        0 <= largura <= disponiveis,
        disponiveis < s.len(),
        run_crescente(s) || run_decrescente(s),
    ensures
        mudancas_amostra(s, j, janelas, largura, disponiveis) == 0,
    decreases j,
{
    if j > 0 {
        lema_monotona_sem_mudancas(s, j - 1, janelas, largura, disponiveis);
        lema_janela_dentro(j - 1, janelas, largura, disponiveis);
        let ini = inicio_janela(j - 1, janelas, largura, disponiveis);
        crate::lema_mudancas_zero(s, ini, ini + largura);
    }
}

/// What the sample counts: a window is monotone exactly when it changes
/// direction nowhere, whatever ties it holds. So no more windows are
/// monotone than are sampled; when no sampled window changes direction,
/// every one is monotone; and an input that is one run (non-decreasing, or
/// strictly decreasing) changes direction in no window, so all its windows
/// are monotone.
pub proof fn lei_amostra_monotona<T: Ord>(s: Seq<T>, janelas: int, largura: int, r: ContagemAmostra)
    requires
        ordem_total::<T>(),
        contagem_da_amostra(s, janelas, largura, r),
    ensures
        r.janelas_monotonas <= r.janelas,
        r.mudancas == 0 ==> r.janelas_monotonas == r.janelas,
        run_crescente(s) || run_decrescente(s) ==> r.mudancas == 0 && r.janelas_monotonas == r.janelas,
{
    let d: int = if s.len() == 0 { 0 } else { s.len() - 1 };
    if d >= 8 {
        let j = janelas_efetivas(janelas);
        let l = largura_efetiva(largura, d);
        lema_monotonas_no_maximo(s, j, j, l, d);
        if r.mudancas == 0 {
            lema_sem_mudancas_todas_monotonas(s, j, j, l, d);
        }
        if run_crescente(s) || run_decrescente(s) {
            lema_monotona_sem_mudancas(s, j, j, l, d);
            lema_sem_mudancas_todas_monotonas(s, j, j, l, d);
        }
    }
}

/// Once the runs are counted, the sample's guess is corrected only where
/// the count contradicts it: at most one run is long runs, a mean run under
/// `RUN_MEDIO_MINIMO` is short runs, and otherwise the guess stands,
/// whatever it was.
pub proof fn lei_reclassificacao(n: int, num_runs: int, palpite: Rota)
    ensures
        num_runs <= 1 ==> rota_reclassificada(n, num_runs, palpite) == Rota::RunsLongos,
        num_runs > 1 && n / num_runs < RUN_MEDIO_MINIMO ==> rota_reclassificada(n, num_runs, palpite) == Rota::RunsCurtos,
        num_runs > 1 && n / num_runs >= RUN_MEDIO_MINIMO ==> rota_reclassificada(n, num_runs, palpite) == palpite,
        rota_reclassificada(n, num_runs, palpite) == palpite || rota_reclassificada(n, num_runs, palpite)
            == Rota::RunsLongos || rota_reclassificada(n, num_runs, palpite) == Rota::RunsCurtos,
{
}

/// The sample of the classifier reaches the end of the input: its last
/// window ends there. So an input that changes direction at its very end
/// is not taken for long runs, when a mean run of a window's width counts
/// as short (`run_curto` at least the window width): it is chaos or short
/// runs.
pub proof fn lei_classificacao_ve_o_fim<T: Ord>(s: Seq<T>, config: PimConfig)
    requires
        ordem_total::<T>(),
        s.len() >= 33,
        16 <= config.tamanho_janela_amostra <= s.len() - 1,
        config.run_curto >= config.tamanho_janela_amostra,
        sobe(s, s.len() - 2) != sobe(s, s.len() - 3),
    ensures
        perfil_esperado(s, config) != PerfilEntrada::RunsLongos,
{
    let d: int = s.len() - 1;
    let jj: int = if config.janelas_amostra < 3 {
        3
    } else if config.janelas_amostra > 32 {
        32
    } else {
        config.janelas_amostra as int
    };
    let l: int = config.tamanho_janela_amostra as int;
    vstd::arithmetic::div_mod::lemma_div_multiples_vanish(d - l, jj - 1);
    assert(inicio_janela(jj - 1, jj, l, d) == d - l);
    lema_mudancas_amostra_nao_negativas(s, jj - 1, jj, l, d);
    lema_mudancas_direcao_nao_negativas(s, d - l, d - 1);
    assert(mudancas_direcao(s, d - l, d) >= 1);
    let m = mudancas_amostra(s, jj, jj, l, d);
    assert(m >= 1);
    let comparacoes = jj * (l - 1);
    vstd::arithmetic::mul::lemma_mul_nonnegative(jj, l - 1);
    vstd::arithmetic::div_mod::lemma_div_is_ordered_by_denominator(comparacoes, jj, m + jj);
    vstd::arithmetic::mul::lemma_mul_is_commutative(jj, l - 1);
    vstd::arithmetic::div_mod::lemma_div_multiples_vanish(l - 1, jj);
    assert(comparacoes / (m + jj) <= l - 1);
}

/// Chaotic input (as the sample finds it) that fits in one block is
/// sorted without an auxiliary buffer: the answer is `Ok`, the stable sort,
/// whatever the memory limit.
pub proof fn lei_caotica_de_um_bloco<T: Ord>(o: Seq<T>, f: Seq<T>, config: PimConfig, r: Result<(), PimError>)
    requires
        resposta_da_ordenacao(o, f, config, r),
        perfil_esperado(o, config) == PerfilEntrada::Caotica,
        o.len() <= bloco_esperado(o.len() as int, config, vstd::layout::size_of::<T>() as int),
    ensures
        r is Ok,
        ordenacao_estavel(o, f),
{
}

} // verus!
