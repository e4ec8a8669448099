use adaptive_parallel_insertion_merge::despacho::{sort, sort_com_perfil};
use adaptive_parallel_insertion_merge::{try_pim_sort_with_config, PimConfig, PimExecutor};

#[derive(Clone, Copy, Debug)]
struct K {
    k: u8,
    i: u32,
}
impl PartialEq for K {
    fn eq(&self, o: &Self) -> bool {
        self.k == o.k
    }
}
impl Eq for K {}
impl PartialOrd for K {
    fn partial_cmp(&self, o: &Self) -> Option<std::cmp::Ordering> {
        Some(self.cmp(o))
    }
}
impl Ord for K {
    fn cmp(&self, o: &Self) -> std::cmp::Ordering {
        self.k.cmp(&o.k)
    }
}

fn pares(v: &[K]) -> Vec<(u8, u32)> {
    v.iter().map(|x| (x.k, x.i)).collect()
}

fn entrada() -> Vec<K> {
    let mut x = 0x1357_9BDF_2468_ACE0u64;
    (0..30_000u32)
        .map(|i| {
            x ^= x << 13;
            x ^= x >> 7;
            x ^= x << 17;
            K { k: (x % 7) as u8, i }
        })
        .collect()
}

#[test]
fn toda_configuracao_da_a_mesma_ordenacao_estavel() {
    let base = entrada();
    let mut esperado = base.clone();
    esperado.sort();
    let mut saidas: Vec<Vec<K>> = Vec::new();

    let mut v = base.clone();
    sort_com_perfil(&mut v, false).unwrap();
    saidas.push(v);
    let mut v = base.clone();
    sort_com_perfil(&mut v, true).unwrap();
    saidas.push(v);
    for (bloco, folha, kway) in [(Some(300), 0, true), (None, 128, false), (Some(5_000), 2_000, true)] {
        let mut config = PimConfig::default();
        config.bloco_override = bloco;
        config.folha_override = folha;
        config.runs_via_kway = kway;
        let mut v = base.clone();
        try_pim_sort_with_config(&mut v, config).unwrap();
        saidas.push(v);
    }
    let executor = PimExecutor::new(3).unwrap();
    let mut v = base.clone();
    executor.try_sort(&mut v, PimConfig::default()).unwrap();
    saidas.push(v);

    for s in &saidas {
        assert_eq!(pares(s), pares(&esperado));
    }
}

#[test]
fn ordenacao_e_uma_permutacao() {
    let base: Vec<u16> = (0..20_000u32).map(|i| ((i * 40503) % 1031) as u16).collect();
    let mut v = base.clone();
    sort(&mut v).unwrap();
    let mut contagem_antes = vec![0usize; 1031];
    let mut contagem_depois = vec![0usize; 1031];
    for &x in &base {
        contagem_antes[x as usize] += 1;
    }
    for &x in &v {
        contagem_depois[x as usize] += 1;
    }
    assert_eq!(contagem_antes, contagem_depois);
    assert!(v.windows(2).all(|w| w[0] <= w[1]));
}
