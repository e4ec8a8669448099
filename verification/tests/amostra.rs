use adaptive_parallel_insertion_merge::amostra::{conta_amostra, reclassifica_por_metadata, ContagemAmostra, Rota, RUN_MEDIO_MINIMO};

fn taxas(c: &ContagemAmostra) -> (f64, f64) {
    let d = if c.comparacoes > 1 { c.comparacoes } else { 1 } as f64;
    (c.mudancas as f64 / d, c.empates as f64 / d)
}

#[test]
fn metadata_corrige_o_palpite_da_amostra() {
    assert_eq!(
        reclassifica_por_metadata(4_000_000, 457_867, Rota::RunsLongos),
        Rota::RunsCurtos
    );

    assert_eq!(
        reclassifica_por_metadata(4_000_000, 4_008, Rota::RunsLongos),
        Rota::RunsLongos
    );

    assert_eq!(
        reclassifica_por_metadata(1_000_000, 1, Rota::Caotica),
        Rota::RunsLongos
    );
}

#[test]
fn reclassificacao_mantem_o_palpite_com_runs_medios_suficientes() {
    assert_eq!(reclassifica_por_metadata(160, 10, Rota::Caotica), Rota::Caotica);
    assert_eq!(reclassifica_por_metadata(159, 10, Rota::Caotica), Rota::RunsCurtos);
    assert_eq!(reclassifica_por_metadata(0, 0, Rota::RunsCurtos), Rota::RunsLongos);
    assert_eq!(RUN_MEDIO_MINIMO, 16);
}

#[test]
fn empate_separa_cardinalidade_de_direcao() {
    let a: Vec<u64> = (0..10_000).collect();
    let s = conta_amostra(&a, 8, 96);
    let (mudanca, empate) = taxas(&s);
    assert_eq!(mudanca, 0.0);
    assert_eq!(empate, 0.0);
    assert_eq!(s.janelas_monotonas, s.janelas);

    let b: Vec<u64> = (0..10_000).map(|i| i / 400).collect();
    let s = conta_amostra(&b, 8, 96);
    let (mudanca, empate) = taxas(&s);
    assert_eq!(mudanca, 0.0);
    assert!(empate > 0.9, "empate {}", empate);
}

#[test]
fn aleatorio_bate_a_taxa_de_inversao_local() {
    let mut x = 0x243F6A8885A308D3u64;
    let v: Vec<u64> = (0..200_000)
        .map(|_| {
            x ^= x << 13;
            x ^= x >> 7;
            x ^= x << 17;
            x
        })
        .collect();
    let s = conta_amostra(&v, 16, 96);
    let (mudanca, empate) = taxas(&s);
    assert!(mudanca > 0.60 && mudanca < 0.72, "taxa {}", mudanca);
    assert!(empate < 0.01);
}

#[test]
fn invertido_com_repetidos_engana_a_amostra_mas_nao_o_metadata() {
    let mut v: Vec<u64> = (0..200_000u64).map(|i| i % 500).collect();
    v.sort();
    v.reverse();
    let s = conta_amostra(&v, 8, 96);
    let (mudanca, empate) = taxas(&s);
    assert!(mudanca < 0.10, "taxa_mudanca {}", mudanca);
    assert!(empate > 0.90, "taxa_empate {}", empate);
}

#[test]
fn amostra_pequena_conta_uma_janela_monotona() {
    let v: Vec<u32> = vec![5, 1, 4, 2, 3];
    assert_eq!(
        conta_amostra(&v, 8, 96),
        ContagemAmostra { mudancas: 0, empates: 0, comparacoes: 0, janelas_monotonas: 1, janelas: 1 }
    );
}

#[test]
fn amostra_conta_mudancas_e_empates_exatos() {
    // one window over all 11 pairs: directions of pairs 1..10 against their predecessors
    let v: Vec<u32> = vec![1, 2, 2, 1, 0, 0, 3, 4, 1, 1, 1, 2];
    let s = conta_amostra(&v, 1, 100);
    assert_eq!(s.janelas, 1);
    assert_eq!(s.comparacoes, 10);
    // pairs: (1,2)up (2,2)up (2,1)down (1,0)down (0,0)up (0,3)up (3,4)up (4,1)down (1,1)up (1,1)up (1,2)up
    assert_eq!(s.mudancas, 4);
    assert_eq!(s.empates, 4);
    assert_eq!(s.janelas_monotonas, 0);
}
