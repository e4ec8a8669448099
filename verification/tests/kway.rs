use adaptive_parallel_insertion_merge::kway::{
    bottom_up_merge_pim_kway, kway_merge_tiled, merge_level, parallel_kway_pim_merge, pim_parallel_merge, tile_elems,
};
use adaptive_parallel_insertion_merge::metadata::{block_offsets, detect_global_trend, generate_sequential_metadata, merge_metadata_pure};
use adaptive_parallel_insertion_merge::multicorte::multiseq_partition;

#[derive(Clone, Copy, Debug)]
struct K {
    k: u32,
    i: u32,
}
impl PartialEq for K {
    fn eq(&self, o: &Self) -> bool {
        self.k == o.k
    }
}
impl Eq for K {}
impl PartialOrd for K {
    fn partial_cmp(&self, o: &Self) -> Option<std::cmp::Ordering> {
        Some(self.cmp(o))
    }
}
impl Ord for K {
    fn cmp(&self, o: &Self) -> std::cmp::Ordering {
        self.k.cmp(&o.k)
    }
}

struct Rng(u64);
impl Rng {
    fn next(&mut self) -> u64 {
        self.0 ^= self.0 << 13;
        self.0 ^= self.0 >> 7;
        self.0 ^= self.0 << 17;
        self.0
    }
    fn ate(&mut self, n: u64) -> u64 {
        if n == 0 { 0 } else { self.next() % n }
    }
}

fn pares(v: &[K]) -> Vec<(u32, u32)> {
    v.iter().map(|x| (x.k, x.i)).collect()
}

fn runs(r: &mut Rng, ns: usize, max: u64, card: u64) -> Vec<Vec<K>> {
    let mut idx = 0u32;
    (0..ns)
        .map(|_| {
            let n = r.ate(max) as usize;
            let mut v: Vec<K> = (0..n)
                .map(|_| {
                    let x = K { k: r.ate(card) as u32, i: idx };
                    idx += 1;
                    x
                })
                .collect();
            v.sort();
            v
        })
        .collect()
}

fn referencia(rs: &[Vec<K>]) -> Vec<K> {
    let mut e: Vec<K> = rs.concat();
    e.sort();
    e
}

#[test]
fn selecao_multissequencia_corta_no_rank() {
    let mut r = Rng(0x5151_7777_0000_1111);
    for _ in 0..300 {
        let ns = 1 + r.ate(8) as usize;
        let rs = runs(&mut r, ns, 40, 6);
        let total: usize = rs.iter().map(|x| x.len()).sum();
        let fatias: Vec<&[K]> = rs.iter().map(|x| x.as_slice()).collect();
        let ordem = referencia(&rs);
        for rank in 0..=total {
            let mut out = vec![0usize; ns];
            multiseq_partition(&fatias, rank, &mut out);
            assert_eq!(out.iter().sum::<usize>(), rank);
            let mut tomados: Vec<K> = Vec::new();
            for (i, &c) in out.iter().enumerate() {
                tomados.extend_from_slice(&rs[i][..c]);
            }
            tomados.sort();
            assert_eq!(pares(&tomados), pares(&ordem[..rank]), "rank={rank}");
        }
    }
}

#[test]
fn kway_em_ladrilhos_bate_a_referencia() {
    let mut r = Rng(0x1111_2222_3333_4444);
    for t in 0..200 {
        let ns = 1 + r.ate(8) as usize;
        let card = [2u64, 9, 500, 1 << 30][r.ate(4) as usize];
        let mut rs = runs(&mut r, ns, 3_000, card);
        if ns >= 3 && rs.iter().all(|x| x.is_empty()) {
            rs[0].push(K { k: 1, i: 999_999 });
        }
        let fatias: Vec<&[K]> = rs.iter().map(|x| x.as_slice()).collect();
        let total: usize = rs.iter().map(|x| x.len()).sum();
        let mut d = vec![K { k: 0, i: 0 }; total];
        kway_merge_tiled(&fatias, &mut d);
        assert_eq!(pares(&d), pares(&referencia(&rs)), "t={t} ns={ns}");

        let mut d = vec![K { k: 0, i: 0 }; total];
        parallel_kway_pim_merge(&fatias, &mut d, 16, t % 2 == 0);
        assert_eq!(pares(&d), pares(&referencia(&rs)), "paralelo t={t} ns={ns}");
    }
    assert!((128..=2048).contains(&tile_elems::<K>()));
    assert_eq!(tile_elems::<u64>(), 512);
    assert_eq!(tile_elems::<[u8; 4096]>(), 128);
}

#[test]
fn merge_paralelo_de_pivos_bate_a_referencia() {
    let mut r = Rng(0xDEAD_BEEF_0101_0202);
    for t in 0..300 {
        let rs = runs(&mut r, 2, 2_000, [2u64, 30, 1 << 20][t % 3]);
        let (a, b) = (&rs[0], &rs[1]);
        for a_esq in [true, false] {
            let mut d = vec![K { k: 0, i: 0 }; a.len() + b.len()];
            pim_parallel_merge(a, b, &mut d, a_esq, 8, t % 2 == 0);
            let esperado = if a_esq { referencia(&rs) } else { referencia(&[b.clone(), a.clone()]) };
            assert_eq!(pares(&d), pares(&esperado), "t={t} a_esq={a_esq}");
        }
    }
}

#[test]
fn nivel_de_merge_junta_segmentos_dois_a_dois() {
    let src = [1u32, 4, 9, 2, 3, 0, 5, 6, 7, 8];
    let lens = [3usize, 2, 4, 1];
    let mut dst = [0u32; 10];
    let out = merge_level(&src, &lens, &mut dst);
    assert_eq!(out, vec![5, 5]);
    assert_eq!(dst, [1, 2, 3, 4, 9, 0, 5, 6, 7, 8]);
    let lens = [3usize, 2, 5];
    let out = merge_level(&src, &lens, &mut dst);
    assert_eq!(out, vec![5, 5]);
    assert_eq!(&dst[5..], &[0, 5, 6, 7, 8]);
}

#[test]
fn bottom_up_kway_ordena_pelos_runs() {
    let mut r = Rng(0x0F0F_F0F0_1234_4321);
    for t in 0..6 {
        let n = [5_000usize, 60_000, 400_000][t % 3];
        let base: Vec<K> = (0..n as u32)
            .map(|i| K { k: ((i / 50) * 13 + r.ate(4) as u32) % 10_000, i })
            .collect();
        let mut esperado = base.clone();
        esperado.sort();
        for into_buf in [false, true] {
            let mut v = base.clone();
            let meta = detect_global_trend(&v);
            let offsets = block_offsets(&meta);
            let mut buf = vec![K { k: 0, i: 0 }; n];
            bottom_up_merge_pim_kway(&mut v, &mut buf, &meta, &offsets, 512, into_buf, t % 2 == 1);
            let saida = if into_buf { &buf } else { &v };
            assert_eq!(pares(saida), pares(&esperado), "t={t} into_buf={into_buf}");
        }
    }
}

#[test]
fn entrada_monotona_longa_e_um_run() {
    let crescente: Vec<u32> = (0..100_000u32).map(|x| x / 3).collect();
    assert_eq!(detect_global_trend(&crescente), vec![100_000]);
    let decrescente: Vec<u32> = (0..100_000u32).rev().collect();
    assert_eq!(detect_global_trend(&decrescente), vec![-100_000]);
}

#[test]
fn costura_de_blocos_e_associativa() {
    // Blocks [1,3], [3,2], [2,4] of [1,3,2,4].
    let a = vec![2i64];
    let b = vec![-2i64];
    let c = vec![2i64];
    let esquerda = merge_metadata_pure(merge_metadata_pure(a.clone(), b.clone()), c.clone());
    let direita = merge_metadata_pure(a, merge_metadata_pure(b, c));
    assert_eq!(esquerda, vec![2, 2]);
    assert_eq!(direita, vec![2, 2]);
}

#[test]
fn deteccao_longa_bate_a_leitura_sequencial() {
    let alternada: Vec<u32> = (0..200_000u32).map(|x| x % 2).collect();
    assert_eq!(detect_global_trend(&alternada), generate_sequential_metadata(&alternada));
    let mut x = 0x9E37_79B9_7F4A_7C15u64;
    let aleatoria: Vec<u32> = (0..150_000)
        .map(|_| {
            x ^= x << 13;
            x ^= x >> 7;
            x ^= x << 17;
            (x % 5) as u32
        })
        .collect();
    assert_eq!(detect_global_trend(&aleatoria), generate_sequential_metadata(&aleatoria));
    let dentes: Vec<u32> = (0..120_000u32).map(|x| if x % 3 == 1 { 9 } else { x % 3 }).collect();
    assert_eq!(detect_global_trend(&dentes), generate_sequential_metadata(&dentes));
}
