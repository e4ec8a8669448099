use adaptive_parallel_insertion_merge::bottom_up::{copia_faixas_disjuntas, parallel_reverse};
use adaptive_parallel_insertion_merge::metadata::{block_offsets, detect_global_trend, generate_sequential_metadata};
use adaptive_parallel_insertion_merge::{
    classifica_entrada, deve_usar_pway, pim_sort_pway_blocos_com_config, pim_sort_pway_blocos_subsorts_com_config,
    try_pim_sort_blocos, try_pim_sort_with_config, workers_por_merge, PerfilEntrada, PimConfig, PimError, PimExecutor,
    CustoComparacao,
};

#[derive(Clone, Copy, Debug)]
struct K {
    chave: u32,
    indice: u32,
}

impl PartialEq for K {
    fn eq(&self, other: &Self) -> bool {
        self.chave == other.chave
    }
}
impl Eq for K {}
impl PartialOrd for K {
    fn partial_cmp(&self, other: &Self) -> Option<std::cmp::Ordering> {
        Some(self.cmp(other))
    }
}
impl Ord for K {
    fn cmp(&self, other: &Self) -> std::cmp::Ordering {
        self.chave.cmp(&other.chave)
    }
}

fn proximo(estado: &mut u64) -> u64 {
    *estado ^= *estado << 13;
    *estado ^= *estado >> 7;
    *estado ^= *estado << 17;
    *estado
}

fn pares(v: &[K]) -> Vec<(u32, u32)> {
    v.iter().map(|x| (x.chave, x.indice)).collect()
}

#[test]
fn pway_dinamico_sem_escudo_bate_sort_estavel_em_entrada_caotica() {
    let pool = rayon::ThreadPoolBuilder::new().num_threads(2).build().unwrap();
    pool.install(|| {
        let mut estado = 0xD1B54A32D192ED03u64;
        let base: Vec<K> = (0..50_000u32)
            .map(|indice| K {
                chave: (proximo(&mut estado) % 97) as u32,
                indice,
            })
            .collect();
        let mut esperado = base.clone();
        esperado.sort();
        let config = PimConfig::default();
        let workers = rayon::current_num_threads();

        for (bloco, costura) in [(512, true), (512, false), (2_048, true)] {
            let mut entrada = base.clone();
            pim_sort_pway_blocos_com_config(&mut entrada, bloco, costura, true, workers, config);
            assert_eq!(pares(&entrada), pares(&esperado), "bloco={bloco}, costura={costura}");
        }

        let mut entrada = base.clone();
        pim_sort_pway_blocos_com_config(&mut entrada, 2_048, true, false, workers, config);
        assert_eq!(pares(&entrada), pares(&esperado), "sort local");

        let mut entrada = base.clone();
        try_pim_sort_with_config(&mut entrada, config).unwrap();
        assert_eq!(pares(&entrada), pares(&esperado), "fallback aleatorio de pim_sort");

        for sub_bloco in [32, 64, 128, 240, 480, 960] {
            let mut entrada = base.clone();
            pim_sort_pway_blocos_subsorts_com_config(&mut entrada, 1_920, sub_bloco, true, workers, config, false);
            assert_eq!(pares(&entrada), pares(&esperado), "sub-sort={sub_bloco}");
        }

        let mut entrada = base.clone();
        try_pim_sort_blocos(&mut entrada, config).unwrap();
        assert_eq!(pares(&entrada), pares(&esperado), "sem escudo");
    });
}

#[test]
fn pway_exige_workers_e_segmentos_suficientes() {
    let config = PimConfig::default();
    let minimo = config.min_segmento_pway * 2;
    assert!(!deve_usar_pway(minimo, 1, config));
    assert!(!deve_usar_pway(minimo - 1, 8, config));
    assert!(deve_usar_pway(minimo, 2, config));
}

#[test]
fn classificador_separa_runs_longos_curtos_e_caos() {
    let config = PimConfig::default();
    let ordenado: Vec<u32> = (0..4_096).collect();
    assert_eq!(classifica_entrada(&ordenado, config), PerfilEntrada::RunsLongos);

    let serra: Vec<u32> = (0..4_096).map(|i| i % 50).collect();
    assert_eq!(classifica_entrada(&serra, config), PerfilEntrada::RunsCurtos);

    let mut estado = 0xD1B5_4A32_9C7E_1023u64;
    let aleatorio: Vec<u64> = (0..4_096).map(|_| proximo(&mut estado)).collect();
    assert_eq!(classifica_entrada(&aleatorio, config), PerfilEntrada::Caotica);
}

#[test]
fn configuracao_preserva_estabilidade_em_runs_e_caos() {
    let mut estado = 0xA24B_1CD3_958E_F760u64;
    let mut config = PimConfig::default();
    config.workers = 2;
    config.bloco_override = Some(256);
    config.min_segmento_pway = 128;
    let executor = PimExecutor::new(2).unwrap();

    for forma in 0..3 {
        let mut entrada: Vec<K> = (0..20_000u32)
            .map(|indice| {
                let chave = match forma {
                    0 => indice % 97,
                    1 => indice % 50,
                    _ => proximo(&mut estado) as u32 % 5_000,
                };
                K { chave, indice }
            })
            .collect();
        if forma == 0 {
            for i in (1..entrada.len()).step_by(2) {
                entrada.swap(i - 1, i);
            }
        }

        let mut esperado = entrada.clone();
        esperado.sort();
        executor.try_sort(&mut entrada, config).unwrap();
        assert_eq!(pares(&entrada), pares(&esperado), "forma={forma}");
    }
}

#[test]
fn limite_de_memoria_e_recuperavel_antes_da_fase_de_blocos() {
    let mut estado = 0x45F8_71A9_BCE0_1234u64;
    let mut entrada: Vec<u64> = (0..8_192).map(|_| proximo(&mut estado)).collect();
    let antes = entrada.clone();
    let mut config = PimConfig::default();
    config.bloco_override = Some(256);
    config.memory_limit_bytes = Some(64);

    assert!(matches!(
        try_pim_sort_with_config(&mut entrada, config),
        Err(PimError::MemoriaInsuficiente { .. })
    ));
    assert_eq!(entrada, antes, "o erro nao pode deixar blocos parcialmente ordenados");
}

#[test]
fn atalho_de_faixa_invertida_mantem_a_ordem_estavel() {
    let a = [K { chave: 10, indice: 0 }, K { chave: 11, indice: 1 }];
    let b = [K { chave: 1, indice: 2 }, K { chave: 2, indice: 3 }];
    let mut destino = [K { chave: 0, indice: 0 }; 4];
    assert!(copia_faixas_disjuntas(&a, &b, &mut destino));
    assert_eq!(pares(&destino), vec![(1, 2), (2, 3), (10, 0), (11, 1)]);
}

#[test]
fn faixas_entrelacadas_nao_sao_copiadas() {
    let a = [1u32, 5];
    let b = [3u32, 7];
    let mut destino = [0u32; 4];
    assert!(!copia_faixas_disjuntas(&a, &b, &mut destino));
    assert_eq!(destino, [0, 0, 0, 0]);
}

#[test]
fn metadata_do_exemplo_do_paper() {
    let v: Vec<u32> = vec![2, 4, 6, 3, 1, 9, 8, 5, 7, 10];
    assert_eq!(detect_global_trend(&v), vec![3, -2, -3, 2]);
    assert_eq!(generate_sequential_metadata(&v), vec![3, -2, -3, 2]);
    assert_eq!(block_offsets(&[3, -2, -3, 2]), vec![0, 3, 5, 8, 10]);
}

#[test]
fn metadata_grande_cobre_a_entrada() {
    let v: Vec<u32> = (0..200_000u32).map(|i| (i / 7) % 1000).collect();
    let meta = detect_global_trend(&v);
    let soma: i64 = meta.iter().map(|x| x.abs()).sum();
    assert_eq!(soma, 200_000);
    assert!(meta.iter().all(|&x| x != 0));
}

#[test]
fn reverso_paralelo_inverte_entradas_grandes() {
    let mut v: Vec<u32> = (0..250_001).collect();
    parallel_reverse(&mut v);
    assert_eq!(v[0], 250_000);
    assert_eq!(v[250_000], 0);
    assert!(v.windows(2).all(|w| w[0] == w[1] + 1));
}

#[test]
fn run_unico_descendente_e_revertido() {
    let mut v: Vec<u64> = (0..100_000u64).rev().collect();
    let mut config = PimConfig::default();
    config.folha_override = 64;
    try_pim_sort_with_config(&mut v, config).unwrap();
    assert!(v.windows(2).all(|w| w[0] <= w[1]));
    assert_eq!(v[0], 0);
}

#[test]
fn runs_por_kway_e_por_pway_dao_o_mesmo() {
    let mut estado = 0x9999_1234_ABCD_0001u64;
    let base: Vec<K> = (0..120_000u32)
        .map(|indice| K { chave: ((indice / 300) * 7 + (proximo(&mut estado) % 3) as u32) % 4000, indice })
        .collect();
    let mut esperado = base.clone();
    esperado.sort();
    for via_kway in [true, false] {
        for indireta in [false, true] {
            let mut config = PimConfig::default();
            config.runs_via_kway = via_kway;
            config.folha_override = 256;
            if indireta {
                config = config.comparacao_indireta();
            }
            assert_eq!(config.custo_comparacao == CustoComparacao::Indireta, indireta);
            let mut v = base.clone();
            try_pim_sort_with_config(&mut v, config).unwrap();
            assert_eq!(pares(&v), pares(&esperado), "kway={via_kway} indireta={indireta}");
        }
    }
}

#[test]
fn executor_limita_os_workers_ao_pool() {
    let executor = PimExecutor::new(0).unwrap();
    assert_eq!(executor.workers(), 1);
    let mut v: Vec<i64> = (0..30_000).map(|i| (i * 7919) % 30_011 - 15_000).collect();
    let mut e = v.clone();
    e.sort();
    executor.sort(&mut v, PimConfig::default()).unwrap();
    assert_eq!(v, e);
}

#[test]
fn configuracao_padrao_e_perfil_indireto() {
    let c = PimConfig::default();
    assert!(c.workers >= 1);
    assert_eq!(c.min_gallop, 24);
    assert_eq!(c.custo_comparacao, CustoComparacao::Embutida);
    let i = c.comparacao_indireta();
    assert_eq!(i.custo_comparacao, CustoComparacao::Indireta);
    assert_eq!(i.min_gallop, 7);
    assert_eq!(i.min_segmento_pway, 2_048);
    assert_eq!(i.workers, c.workers);
    assert_eq!(workers_por_merge(8, 3), 3);
    assert_eq!(workers_por_merge(0, 0), 1);
}

#[test]
fn limite_de_memoria_vale_na_rota_de_runs() {
    let mut entrada: Vec<u64> = (0..5_000u64).chain(0..5_000u64).collect();
    let antes = entrada.clone();
    let mut config = PimConfig::default();
    config.bloco_override = Some(1_000_000);
    config.memory_limit_bytes = Some(64);
    assert_eq!(classifica_entrada(&entrada, config), PerfilEntrada::RunsLongos);
    assert!(matches!(
        try_pim_sort_with_config(&mut entrada, config),
        Err(PimError::MemoriaInsuficiente { limite: 64, .. })
    ));
    assert_eq!(entrada, antes);

    let mut um_run: Vec<u64> = (0..10_000u64).rev().collect();
    assert!(try_pim_sort_with_config(&mut um_run, config).is_ok());
    assert_eq!(um_run, (0..10_000u64).collect::<Vec<_>>());
}
