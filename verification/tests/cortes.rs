use adaptive_parallel_insertion_merge::cut::{
    corte_diagonal, corte_eliminacao, merge_back, merge_bidirecional, merge_front, pway_merge_frente,
    pway_merge_frente_adaptativo, pway_merge_frente_auto, pway_merge_frente_auto_adaptativo, pway_merge_plano,
    pway_merge_por_ponta, trisect_merge_corte, Nucleo, Plano,
};

#[derive(Clone, Copy, Debug, PartialEq, Eq)]
struct K {
    k: u32,
    i: u32,
}
impl PartialOrd for K {
    fn partial_cmp(&self, o: &Self) -> Option<std::cmp::Ordering> {
        Some(self.cmp(o))
    }
}
impl Ord for K {
    fn cmp(&self, o: &Self) -> std::cmp::Ordering {
        self.k.cmp(&o.k)
    }
}

struct Rng(u64);
impl Rng {
    fn next(&mut self) -> u64 {
        self.0 ^= self.0 << 13;
        self.0 ^= self.0 >> 7;
        self.0 ^= self.0 << 17;
        self.0
    }
    fn ate(&mut self, n: u64) -> u64 {
        if n == 0 { 0 } else { self.next() % n }
    }
}

fn par(r: &mut Rng, m: usize, n: usize, card: u32) -> (Vec<K>, Vec<K>) {
    let mut idx = 0u32;
    let mut a: Vec<K> = (0..m)
        .map(|_| {
            let x = K { k: r.ate(card as u64) as u32, i: idx };
            idx += 1;
            x
        })
        .collect();
    let mut b: Vec<K> = (0..n)
        .map(|_| {
            let x = K { k: r.ate(card as u64) as u32, i: idx };
            idx += 1;
            x
        })
        .collect();
    a.sort();
    b.sort();
    (a, b)
}

fn merge_ref(a: &[K], b: &[K]) -> Vec<K> {
    let (mut ii, mut jj) = (0, 0);
    let mut esp = Vec::with_capacity(a.len() + b.len());
    while ii < a.len() && jj < b.len() {
        if a[ii] <= b[jj] {
            esp.push(a[ii]);
            ii += 1
        } else {
            esp.push(b[jj]);
            jj += 1
        }
    }
    esp.extend_from_slice(&a[ii..]);
    esp.extend_from_slice(&b[jj..]);
    esp
}

fn pares(v: &[K]) -> Vec<(u32, u32)> {
    v.iter().map(|x| (x.k, x.i)).collect()
}

/// The front fraction that the trisected merge takes: `frac` of the total,
/// between 5% and 49%, at least one element.
fn k_trisect(total: usize, frac: f64) -> usize {
    let f = frac.clamp(0.05, 0.49);
    ((total as f64 * f) as usize).max(1)
}

/// The front and back pieces of a P-way merge: `frac` of the total, between
/// `1/(2p)` and 45%.
fn k_pway(total: usize, p: usize, frac: f64) -> usize {
    let f = frac.clamp(1.0 / (2.0 * p as f64), 0.45);
    ((total as f64) * f) as usize
}

#[test]
fn exemplo_do_paper_20_elementos() {
    let a: Vec<u32> = vec![1, 3, 5, 7, 9, 11, 13, 15, 17, 19];
    let b: Vec<u32> = vec![2, 4, 6, 8, 10, 12, 14, 16, 18, 20];
    assert_eq!(corte_diagonal(8, &a, &b), (4, 4));
    assert_eq!(corte_eliminacao(8, &a, &b), (4, 4));

    assert_eq!(a[4].min(b[4]), 9);
}

#[test]
fn os_dois_cortes_concordam_e_valem_as_invariantes() {
    let mut r = Rng(0x243F6A8885A308D3);
    for _ in 0..3000 {
        let m = r.ate(60) as usize;
        let n = r.ate(60) as usize;
        let card = [2u32, 6, 30, 5000][r.ate(4) as usize];
        let (a, b) = par(&mut r, m, n, card);
        let esperado = merge_ref(&a, &b);

        for k in 0..=(m + n) {
            let (i, j) = corte_diagonal(k, &a, &b);
            let (i2, j2) = corte_eliminacao(k, &a, &b);
            assert_eq!((i, j), (i2, j2), "diagonal != eliminacao em k={k}");
            assert_eq!(i + j, k);

            if i > 0 && j < n {
                assert!(a[i - 1] <= b[j]);
            }
            if j > 0 && i < m {
                assert!(b[j - 1] < a[i]);
            }

            let mut pref = a[..i].to_vec();
            pref.extend_from_slice(&b[..j]);
            pref.sort();
            let mut alvo = esperado[..k].to_vec();
            alvo.sort();
            assert_eq!(pref, alvo, "corte errado em k={k}");
        }
    }
}

#[test]
fn trisect_bate_o_merge_estavel_de_referencia() {
    let mut r = Rng(0x13198A2E03707344);
    for t in 0..4000 {
        let m = r.ate(150) as usize;
        let n = r.ate(150) as usize;
        let card = [2u32, 9, 40, 9999][r.ate(4) as usize];
        let (a, b) = par(&mut r, m, n, card);
        let esperado = merge_ref(&a, &b);
        let frac = [0.1f64, 0.25, 0.4, 0.49][r.ate(4) as usize];

        let mut got = vec![K { k: 0, i: 0 }; m + n];
        trisect_merge_corte(&a, &b, &mut got, k_trisect(m + n, frac), false);
        assert_eq!(pares(&got), pares(&esperado), "trisect divergiu: t={t} m={m} n={n} frac={frac}");
    }
}

#[test]
fn trisect_galopante_bate_a_referencia() {
    let mut r = Rng(0xA4093822299F31D0);
    for t in 0..4000 {
        let (m, n) = (r.ate(150) as usize, r.ate(150) as usize);
        let card = [2u32, 9, 40, 9999][r.ate(4) as usize];
        let (a, b) = par(&mut r, m, n, card);
        let esperado = merge_ref(&a, &b);
        let frac = [0.1f64, 0.25, 0.33, 0.4, 0.49][r.ate(5) as usize];
        let mut got = vec![K { k: 0, i: 0 }; m + n];
        trisect_merge_corte(&a, &b, &mut got, k_trisect(m + n, frac), true);
        assert_eq!(pares(&got), pares(&esperado), "t={t} m={m} n={n} frac={frac}");
    }
}

#[test]
fn pway_bate_a_referencia_em_varios_p_e_fracoes() {
    let mut r = Rng(0xBE5466CF34E90C6C);
    for t in 0..1500 {
        let (m, n) = (r.ate(900) as usize, r.ate(900) as usize);
        let card = [2u32, 11, 60, 99999][r.ate(4) as usize];
        let (a, b) = par(&mut r, m, n, card);
        let esp = pares(&merge_ref(&a, &b));
        let p = [3usize, 4, 8, 17, 32, 98][r.ate(6) as usize];
        let frac = [0.02f64, 0.05, 1.0 / p as f64, 0.2][r.ate(4) as usize];

        let mut g1 = vec![K { k: 0, i: 0 }; m + n];
        pway_merge_por_ponta(&a, &b, &mut g1, p, k_pway(m + n, p, frac), false);
        assert_eq!(pares(&g1), esp, "pway_merge t={t} m={m} n={n} p={p} frac={frac}");

        let mut g2 = vec![K { k: 0, i: 0 }; m + n];
        pway_merge_por_ponta(&a, &b, &mut g2, p, k_pway(m + n, p, frac), true);
        assert_eq!(pares(&g2), esp, "pway_merge_gallop t={t} m={m} n={n} p={p} frac={frac}");
    }
}

#[test]
fn pway_frente_bate_a_referencia() {
    let mut r = Rng(0xC0AC29B7C97C50DD);
    for t in 0..1500 {
        let (m, n) = (r.ate(1200) as usize, r.ate(1200) as usize);
        let card = [2u32, 11, 60, 99999][r.ate(4) as usize];
        let (a, b) = par(&mut r, m, n, card);
        let e = pares(&merge_ref(&a, &b));

        let p = [2usize, 3, 8, 17, 32, 98][r.ate(6) as usize];
        for galope in [false, true] {
            let mut g = vec![K { k: 0, i: 0 }; m + n];
            pway_merge_frente(&a, &b, &mut g, p, galope);
            assert_eq!(pares(&g), e, "frente t={t} m={m} n={n} p={p} galope={galope}");
            let mut g = vec![K { k: 0, i: 0 }; m + n];
            pway_merge_frente_auto(&a, &b, &mut g, [1, 2, 8, 32][r.ate(4) as usize], galope);
            assert_eq!(pares(&g), e, "frente_auto t={t}");
        }
    }
}

#[test]
fn pway_plano_e_frente_adaptativa_batem_a_referencia() {
    let mut r = Rng(0x452821E638D01377);
    for t in 0..400 {
        let (m, n) = (r.ate(1200) as usize, r.ate(1200) as usize);
        let card = [2u32, 11, 60, 99999][r.ate(4) as usize];
        let (a, b) = par(&mut r, m, n, card);
        let e = pares(&merge_ref(&a, &b));
        let total = m + n;
        let p = [3usize, 4, 9, 24][r.ate(4) as usize];
        let k_frente = total / (p + 1);
        let k_tras = total / (2 * p);
        for galope in [false, true] {
            let mut g = vec![K { k: 0, i: 0 }; total];
            pway_merge_plano(&a, &b, &mut g, Plano { p, k_frente, k_tras }, galope);
            assert_eq!(pares(&g), e, "plano t={t} p={p} galope={galope}");
        }
        let mut g = vec![K { k: 0, i: 0 }; total];
        pway_merge_frente_adaptativo(&a, &b, &mut g, p, 3);
        assert_eq!(pares(&g), e, "frente adaptativo t={t}");
        let mut g = vec![K { k: 0, i: 0 }; total];
        pway_merge_frente_auto_adaptativo(&a, &b, &mut g, 4, 64, 4, 7);
        assert_eq!(pares(&g), e, "frente auto adaptativo t={t}");
    }
}

#[test]
fn teorema_bidirecional_vale_em_todo_k() {
    let mut r = Rng(0x0BADC0FFEE123457);
    for _ in 0..200 {
        let (m, n) = (r.ate(40) as usize, r.ate(40) as usize);
        let (a, b) = par(&mut r, m, n, 5);
        let e = pares(&merge_ref(&a, &b));
        for k in 0..=(m + n) {
            let mut frente = vec![K { k: 0, i: 0 }; k];
            merge_front(&a, &b, &mut frente);
            let mut tras = vec![K { k: 0, i: 0 }; m + n - k];
            merge_back(&a, &b, &mut tras);
            frente.extend_from_slice(&tras);
            assert_eq!(pares(&frente), e, "k={k}");
            for nucleo in [Nucleo::Linear, Nucleo::Galope, Nucleo::Adaptativo(2)] {
                let mut d = vec![K { k: 0, i: 0 }; m + n];
                merge_bidirecional(&a, &b, &mut d, k, nucleo);
                assert_eq!(pares(&d), e, "bidirecional k={k}");
            }
        }
    }
}
