use adaptive_parallel_insertion_merge::pim_kernel::{
    merge_ro, pim_adaptive, pim_back, pim_back_adaptativo, pim_front, pim_front_adaptativo, pim_merge_a_asc_b_desc,
    pim_merge_par, pim_pure, pim_split, pim_split_paper,
};

#[derive(Clone, Copy, Debug)]
struct K {
    chave: u32,
    ordem: u32,
}
impl PartialEq for K {
    fn eq(&self, outro: &Self) -> bool {
        self.chave == outro.chave
    }
}
impl Eq for K {}
impl PartialOrd for K {
    fn partial_cmp(&self, outro: &Self) -> Option<std::cmp::Ordering> {
        Some(self.cmp(outro))
    }
}
impl Ord for K {
    fn cmp(&self, outro: &Self) -> std::cmp::Ordering {
        self.chave.cmp(&outro.chave)
    }
}

fn pares(v: &[K]) -> Vec<(u32, u32)> {
    v.iter().map(|x| (x.chave, x.ordem)).collect()
}

fn exemplo() -> ([K; 5], [K; 5], Vec<K>) {
    let a = [
        K { chave: 1, ordem: 0 }, K { chave: 2, ordem: 1 }, K { chave: 2, ordem: 2 },
        K { chave: 7, ordem: 3 }, K { chave: 9, ordem: 4 },
    ];
    let b = [
        K { chave: 2, ordem: 5 }, K { chave: 3, ordem: 6 }, K { chave: 6, ordem: 7 },
        K { chave: 7, ordem: 8 }, K { chave: 10, ordem: 9 },
    ];
    let mut esperado = vec![a[0]; 10];
    esperado[..5].copy_from_slice(&a);
    esperado[5..].copy_from_slice(&b);
    esperado.sort();
    (a, b, esperado)
}

#[test]
fn frente_e_tras_adaptativos_preservam_estabilidade() {
    let (a, b, esperado) = exemplo();

    let mut frente = [a[0]; 10];
    pim_front_adaptativo(&a, &b, &mut frente, 2);
    assert_eq!(pares(&frente), pares(&esperado));

    let mut bidirecional = [a[0]; 10];
    let (df, dt) = bidirecional.split_at_mut(5);
    rayon::join(
        || pim_front_adaptativo(&a, &b, df, 2),
        || pim_back_adaptativo(&a, &b, dt, 2),
    );
    assert_eq!(pares(&bidirecional), pares(&esperado));
}

#[test]
fn todos_os_nucleos_dao_o_merge_estavel() {
    let (a, b, esperado) = exemplo();
    let e = pares(&esperado);
    let mut d = [a[0]; 10];
    merge_ro(&a, &b, &mut d);
    assert_eq!(pares(&d), e);
    let mut d = [a[0]; 10];
    pim_pure(&a, &b, &mut d);
    assert_eq!(pares(&d), e);
    let mut d = [a[0]; 10];
    pim_adaptive(&a, &b, &mut d);
    assert_eq!(pares(&d), e);
    let mut d = [a[0]; 10];
    pim_front(&a, &b, &mut d);
    assert_eq!(pares(&d), e);
    let mut d = [a[0]; 10];
    pim_back(&a, &b, &mut d);
    assert_eq!(pares(&d), e);
    let mut d = [a[0]; 10];
    pim_merge_par(&a, &b, &mut d, 2);
    assert_eq!(pares(&d), e);
}

#[test]
fn merge_com_b_decrescente() {
    let a = [1u32, 4, 6, 9];
    let b_desc = [8u32, 5, 5, 2];
    let mut d = [0u32; 8];
    pim_merge_a_asc_b_desc(&a, &b_desc, &mut d);
    assert_eq!(d, [1, 2, 4, 5, 5, 6, 8, 9]);
}

#[test]
fn split_divide_no_meio_do_merge() {
    let a: Vec<u32> = vec![1, 3, 5, 7, 9, 11, 13, 15, 17, 19];
    let b: Vec<u32> = vec![2, 4, 6, 8, 10, 12, 14, 16, 18, 20];
    let (i, j) = pim_split(&a, &b);
    assert_eq!(i + j, 10);
    assert_eq!((i, j), (5, 5));
    let (i, j) = pim_split_paper(&a, &b);
    assert!(i <= a.len() && j <= b.len());
}

#[test]
fn merge_paralelo_em_grande() {
    let a: Vec<u64> = (0..50_000u64).map(|x| x * 2).collect();
    let b: Vec<u64> = (0..30_000u64).map(|x| x * 3).collect();
    let mut e = a.clone();
    e.extend_from_slice(&b);
    e.sort();
    let mut d = vec![0u64; 80_000];
    pim_merge_par(&a, &b, &mut d, 1024);
    assert_eq!(d, e);
}
