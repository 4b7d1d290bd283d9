use toolkit::noise::{build_perm, cell_hash2, cell_hash3, default_perm, hash_u32, Noise, NoiseKind};

#[test]
fn hash_u32_known_values() {
    assert_eq!(hash_u32(0), 0);
    assert_eq!(hash_u32(1), 1753845952);
    assert_eq!(hash_u32(12345), 2435775735);
}

#[test]
fn build_perm_is_a_doubled_permutation() {
    for seed in [0u32, 1, 42, 0xdead_beef] {
        let p = build_perm(seed);
        assert_eq!(p.len(), 512);
        let mut seen = [false; 256];
        for i in 0..256 {
            assert!(!seen[p[i] as usize]);
            seen[p[i] as usize] = true;
            assert_eq!(p[i + 256], p[i]);
        }
    }
}

#[test]
fn build_perm_known_prefix() {
    let p = build_perm(0);
    assert_eq!(&p[..8], &[24, 122, 148, 81, 250, 242, 40, 160]);
    assert_eq!(p[255], 241);
    let q = build_perm(42);
    assert_eq!(&q[..8], &[205, 137, 139, 190, 8, 148, 93, 220]);
    assert_eq!(q[255], 183);
}

#[test]
fn default_perm_is_seed_zero() {
    assert_eq!(default_perm(), build_perm(0));
}

#[test]
fn noise_table_lookup_wraps() {
    let n = Noise::new(42);
    assert_eq!(n.seed, 42);
    let p = build_perm(42);
    assert_eq!(n.p(0), p[0]);
    assert_eq!(n.p(256), p[0]);
    assert_eq!(n.p(-1), p[255]);
    assert_eq!(n.p(300), p[44]);
}

#[test]
fn different_seeds_give_different_tables() {
    assert_ne!(build_perm(1), build_perm(2));
}

#[test]
fn noise_kinds_are_distinct() {
    assert_ne!(NoiseKind::Perlin, NoiseKind::Simplex);
    assert_eq!(NoiseKind::Value, NoiseKind::Value);
}

#[test]
fn cell_hashes_known_values() {
    assert_eq!(cell_hash2(7, -3, 5), 1111591435);
    assert_eq!(cell_hash3(7, -3, 5, 2), (1855510680, 2804120538));
    assert_eq!(cell_hash3(7, -3, 5, 2).1, hash_u32(cell_hash3(7, -3, 5, 2).0));
}
