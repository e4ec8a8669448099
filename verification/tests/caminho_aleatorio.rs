use adaptive_parallel_insertion_merge::random_path::{build_blocos, build_min_runs, runs_minimos, sort_blocos, sort_caotico, CHUNK, MIN_RUN};

#[derive(Clone, Copy, Debug)]
struct K {
    k: u16,
    i: u32,
}
impl PartialEq for K {
    fn eq(&self, o: &Self) -> bool {
        self.k == o.k
    }
}
impl Eq for K {}
impl PartialOrd for K {
    fn partial_cmp(&self, o: &Self) -> Option<std::cmp::Ordering> {
        Some(self.cmp(o))
    }
}
impl Ord for K {
    fn cmp(&self, o: &Self) -> std::cmp::Ordering {
        self.k.cmp(&o.k)
    }
}

fn pares(v: &[K]) -> Vec<(u16, u32)> {
    v.iter().map(|x| (x.k, x.i)).collect()
}

fn entrada(n: u32, card: u64) -> Vec<K> {
    let mut x = 0x0123_4567_89AB_CDEFu64;
    (0..n)
        .map(|i| {
            x ^= x << 13;
            x ^= x >> 7;
            x ^= x << 17;
            K { k: (x % card) as u16, i }
        })
        .collect()
}

#[test]
fn runs_minimos_respeitam_o_tamanho_minimo() {
    let mut v: Vec<u32> = vec![9, 8, 7, 1, 2, 3, 5, 4, 6, 0, 0, 1];
    let meta = runs_minimos(&mut v, 4);
    assert_eq!(meta, vec![4, 4, 4]);
    assert_eq!(v, vec![1, 7, 8, 9, 2, 3, 4, 5, 0, 0, 1, 6]);

    let mut w: Vec<u32> = vec![5, 4, 3, 2, 1];
    assert_eq!(runs_minimos(&mut w, 2), vec![5]);
    assert_eq!(w, vec![1, 2, 3, 4, 5]);
}

#[test]
fn runs_do_caminho_caotico_cobrem_a_entrada() {
    let base = entrada(200_000, 1000);
    let mut v = base.clone();
    let meta = build_min_runs(&mut v, MIN_RUN);
    assert!(meta.iter().all(|&m| m > 0));
    assert_eq!(meta.iter().sum::<i64>(), 200_000);
    let mut ini = 0usize;
    for &m in &meta {
        let fim = ini + m as usize;
        assert!(v[ini..fim].windows(2).all(|w| w[0] <= w[1]));
        assert!(fim - ini >= MIN_RUN || fim % CHUNK == 0 || fim == v.len());
        ini = fim;
    }
}

#[test]
fn blocos_tem_os_tamanhos_esperados() {
    let mut v: Vec<u32> = (0..10u32).rev().collect();
    assert_eq!(build_blocos(&mut v, 4), vec![4, 4, 2]);
    assert_eq!(v, vec![6, 7, 8, 9, 2, 3, 4, 5, 0, 1]);
    let mut w: Vec<u32> = vec![3, 1, 2];
    assert_eq!(build_blocos(&mut w, 100), vec![3]);
    assert_eq!(w, vec![1, 2, 3]);
    let mut z: Vec<u32> = Vec::new();
    assert!(build_blocos(&mut z, 5).is_empty());
}

#[test]
fn caminho_caotico_e_por_blocos_ordenam_estavelmente() {
    for (n, card) in [(3_000u32, 50u64), (150_000, 7), (150_000, 60_000)] {
        let base = entrada(n, card);
        let mut esperado = base.clone();
        esperado.sort();
        let mut v = base.clone();
        sort_caotico(&mut v, MIN_RUN);
        assert_eq!(pares(&v), pares(&esperado), "caotico n={n} card={card}");
        let mut v = base.clone();
        sort_blocos(&mut v, 4_096);
        assert_eq!(pares(&v), pares(&esperado), "blocos n={n} card={card}");
    }
}

#[test]
fn runs_naturais_mais_longos_ficam_inteiros() {
    let mut v: Vec<u32> = vec![3, 2, 1, 4, 5, 0];
    assert_eq!(runs_minimos(&mut v, 2), vec![3, 2, 1]);
    assert_eq!(v, vec![1, 2, 3, 4, 5, 0]);
    let mut w: Vec<u32> = vec![3, 2, 1, 4, 5, 0];
    assert_eq!(runs_minimos(&mut w, 4), vec![4, 2]);
    assert_eq!(w, vec![1, 2, 3, 4, 0, 5]);
}

#[test]
fn runs_nao_atravessam_chunks() {
    let mut v: Vec<u32> = (0..(CHUNK as u32 + 10)).collect();
    assert_eq!(build_min_runs(&mut v, MIN_RUN), vec![CHUNK as i64, 10]);
    let mut d: Vec<u32> = (0..(2 * CHUNK as u32 + 1)).rev().collect();
    assert_eq!(build_min_runs(&mut d, MIN_RUN), vec![CHUNK as i64, CHUNK as i64, 1]);
    assert!(d[..CHUNK].windows(2).all(|w| w[0] < w[1]));
    assert_eq!(d[0], CHUNK as u32 + 1);
}
