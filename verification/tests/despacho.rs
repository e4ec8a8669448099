use adaptive_parallel_insertion_merge::despacho::{sort, sort_com_perfil, sort_com_config, try_sort_com_config, Chave};
use adaptive_parallel_insertion_merge::{PimConfig, PimError};

#[derive(Clone, Copy, Debug)]
struct K {
    k: u32,
    i: u32,
}
impl PartialEq for K {
    fn eq(&self, o: &Self) -> bool {
        self.k == o.k
    }
}
impl Eq for K {}
impl PartialOrd for K {
    fn partial_cmp(&self, o: &Self) -> Option<std::cmp::Ordering> {
        Some(self.cmp(o))
    }
}
impl Ord for K {
    fn cmp(&self, o: &Self) -> std::cmp::Ordering {
        self.k.cmp(&o.k)
    }
}

struct Rng(u64);
impl Rng {
    fn next(&mut self) -> u64 {
        self.0 ^= self.0 << 13;
        self.0 ^= self.0 >> 7;
        self.0 ^= self.0 << 17;
        self.0
    }
    fn ate(&mut self, n: u64) -> u64 {
        if n == 0 { 0 } else { self.next() % n }
    }
}

#[test]
fn os_dois_perfis_dao_a_mesma_saida_estavel() {
    let mut r = Rng(0x9E3779B97F4A7C15);
    for t in 0..120 {
        let n = 20_000 + (t * 373) as usize;
        let card = [3u32, 60, 900_000][t % 3];
        let mut v: Vec<K> = (0..n as u32).map(|i| K { k: r.ate(card as u64) as u32, i }).collect();
        if t % 2 == 0 {
            v.sort();
            for _ in 0..n / 200 {
                let (a, b) = (r.ate(n as u64) as usize, r.ate(n as u64) as usize);
                v.swap(a, b);
            }
        }
        let mut esperado = v.clone();
        esperado.sort();

        let mut barata = v.clone();
        sort_com_perfil(&mut barata, false).unwrap();
        let mut cara = v.clone();
        sort_com_perfil(&mut cara, true).unwrap();

        let e: Vec<_> = esperado.iter().map(|x| (x.k, x.i)).collect();
        assert_eq!(barata.iter().map(|x| (x.k, x.i)).collect::<Vec<_>>(), e, "perfil barato divergiu, t={t}");
        assert_eq!(cara.iter().map(|x| (x.k, x.i)).collect::<Vec<_>>(), e, "perfil caro divergiu, t={t}");
    }
}

#[test]
fn perfis_declarados_batem_com_a_medicao() {
    assert!(!<u64 as Chave>::COMPARACAO_CARA);
    assert!(!<[u8; 32] as Chave>::COMPARACAO_CARA);

    assert!(<&'static str as Chave>::COMPARACAO_CARA);
    assert!(<&'static [u8] as Chave>::COMPARACAO_CARA);
}

#[test]
fn referencias_de_texto_sem_lifetime_static_entram_no_despacho() {
    let arena = [String::from("zeta"), String::from("alfa"), String::from("beta")];
    let mut refs: Vec<&str> = arena.iter().map(String::as_str).collect();
    sort(&mut refs).unwrap();
    assert_eq!(refs, ["alfa", "beta", "zeta"]);
}

#[test]
fn despacho_ordena_chaves_primitivas_e_bytes() {
    let mut v: Vec<i32> = (0..10_000).map(|i| (i * 7919) % 1000 - 500).collect();
    let mut e = v.clone();
    e.sort();
    sort(&mut v).unwrap();
    assert_eq!(v, e);

    let mut w: Vec<[u8; 4]> = (0..5_000u32).map(|i| ((i * 2654435761u32) >> 7).to_be_bytes()).collect();
    let mut we = w.clone();
    we.sort();
    sort(&mut w).unwrap();
    assert_eq!(w, we);

    let dados: Vec<Vec<u8>> = (0..3_000u32).map(|i| format!("{:05}", (i * 37) % 3000).into_bytes()).collect();
    let mut fatias: Vec<&[u8]> = dados.iter().map(|d| d.as_slice()).collect();
    let mut fe = fatias.clone();
    fe.sort();
    sort(&mut fatias).unwrap();
    assert_eq!(fatias, fe);
}

#[test]
fn despacho_vazio_e_unitario_dao_ok() {
    let mut v: Vec<u64> = Vec::new();
    assert_eq!(sort(&mut v), Ok(()));
    let mut u = vec![42u64];
    assert_eq!(sort_com_perfil(&mut u, true), Ok(()));
    assert_eq!(u, vec![42]);
}

#[test]
fn limite_de_memoria_devolve_erro_e_deixa_a_entrada() {
    let mut estado = Rng(0x1234_5678_9ABC_DEF1);
    let mut v: Vec<u64> = (0..10_000).map(|_| estado.next()).collect();
    let antes = v.clone();
    let mut config = PimConfig::default();
    config.memory_limit_bytes = Some(1_000);
    match try_sort_com_config(&mut v, config) {
        Err(PimError::MemoriaInsuficiente { necessario, limite }) => {
            assert_eq!(limite, 1_000);
            assert!(necessario > limite);
        }
        outro => panic!("esperava MemoriaInsuficiente, veio {outro:?}"),
    }
    assert_eq!(v, antes);
    assert!(sort_com_config(&mut v, config).is_err());
    assert_eq!(v, antes);
}

#[test]
fn perfil_ordena_entrada_decrescente_sem_buffer() {
    let mut arr: Vec<u64> = (0..50_000u64).rev().collect();
    assert!(sort_com_perfil(&mut arr, true).is_ok());
    assert_eq!(arr, (0..50_000u64).collect::<Vec<_>>());
    let mut arr: Vec<u64> = (0..50_000u64).rev().collect();
    assert!(sort_com_perfil(&mut arr, false).is_ok());
    assert_eq!(arr, (0..50_000u64).collect::<Vec<_>>());
}
