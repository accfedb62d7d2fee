use spectral::modular::{mul_mod, powermod};
use spectral::prime_cache::{get_factors_all, PrimeLore};
use spectral::rader::{find_generator, passes_test, power_table, DFTRader};

#[test]
fn smallest_factor_of_small_numbers() {
    let mut lore = PrimeLore::new();
    assert_eq!(lore.find(0), 0);
    assert_eq!(lore.find(1), 1);
    assert_eq!(lore.find(2), 2);
    assert_eq!(lore.find(9), 3);
    assert_eq!(lore.find(97), 97);
    assert_eq!(lore.find(1001), 7);
}

#[test]
fn smallest_factor_beyond_warm_range() {
    let mut lore = PrimeLore::new();
    assert_eq!(lore.find(1031), 1031);
    assert_eq!(lore.find(1031 * 1033), 1031);
    assert_eq!(lore.find(65537), 65537);
    assert_eq!(lore.find(65537 * 3), 3);
}

#[test]
fn prime_far_above_marker_does_not_hide_smaller_factors() {
    let mut lore = PrimeLore::new();
    assert_eq!(lore.find(2053), 2053);
    assert_eq!(lore.find(1031 * 1033), 1031);
    assert_eq!(lore.find(1031 * 1033 * 1039), 1031);
}

#[test]
fn factor_query_is_stable() {
    let mut lore = PrimeLore::new();
    let first = lore.find(4097);
    let _ = lore.find(123457);
    let _ = get_factors_all(&mut lore, 999_983 * 2);
    assert_eq!(lore.find(4097), first);
    assert_eq!(first, 17);
}

#[test]
fn factors_all_of_composites() {
    let mut lore = PrimeLore::new();
    assert_eq!(get_factors_all(&mut lore, 360), (vec![2, 2, 2, 3, 3, 5], 6));
    assert_eq!(get_factors_all(&mut lore, 2048), (vec![2; 11], 11));
    assert_eq!(get_factors_all(&mut lore, 1031 * 1033), (vec![1031, 1033], 2));
}

#[test]
fn factors_all_edge_cases() {
    let mut lore = PrimeLore::new();
    assert_eq!(get_factors_all(&mut lore, 0), (vec![], 0));
    assert_eq!(get_factors_all(&mut lore, 1), (vec![], 0));
    assert_eq!(get_factors_all(&mut lore, 2), (vec![2], 1));
    assert_eq!(get_factors_all(&mut lore, 97), (vec![97], 1));
}

#[test]
fn factors_multiply_back() {
    let mut lore = PrimeLore::new();
    for n in [2usize, 12, 97, 360, 1024, 4095, 65536, 1_000_000, 999_983 * 6] {
        let (f, count) = get_factors_all(&mut lore, n);
        assert_eq!(f.len(), count);
        assert_eq!(f.iter().product::<usize>(), n);
        assert!(f.windows(2).all(|w| w[0] <= w[1]));
    }
}

#[test]
fn modular_power() {
    assert_eq!(powermod(3, 4, 7), 4);
    assert_eq!(powermod(2, 10, 1000), 24);
    assert_eq!(powermod(5, 0, 7), 1);
    assert_eq!(powermod(5, 0, 1), 0);
    assert_eq!(powermod(10, 3, 7), 6);
    assert_eq!(powermod(u64::MAX as usize, 2, 1_000_000_007), 114_944_269);
}

#[test]
fn modular_product() {
    assert_eq!(mul_mod(6, 7, 10), 2);
    assert_eq!(mul_mod(usize::MAX, usize::MAX, 7), (usize::MAX % 7) * (usize::MAX % 7) % 7);
}

#[test]
fn generator_search() {
    let mut lore = PrimeLore::new();
    let (f6, _) = get_factors_all(&mut lore, 6);
    assert_eq!(find_generator(7, &f6), Some(3));
    assert!(!passes_test(2, 7, &f6));
    let (f10, _) = get_factors_all(&mut lore, 10);
    assert_eq!(find_generator(11, &f10), Some(2));
    let (f22, _) = get_factors_all(&mut lore, 22);
    assert_eq!(find_generator(23, &f22), Some(5));
}

#[test]
fn powers_modulo() {
    assert_eq!(power_table(3, 7, 6), vec![1, 3, 2, 6, 4, 5]);
    assert_eq!(power_table(2, 5, 0), Vec::<usize>::new());
    assert_eq!(power_table(4, 1, 3), vec![0, 0, 0]);
}

#[test]
fn rader_tables_for_seven() {
    let mut lore = PrimeLore::new();
    let r = DFTRader::new(&mut lore, 7).unwrap();
    assert_eq!(r.size(), 7);
    assert_eq!(r.generator(), 3);
    assert_eq!(r.generator_inverse(), 5);
    assert_eq!(r.permutation(), &vec![1, 3, 2, 6, 4, 5]);
    assert_eq!(r.inverse_permutation(), &vec![1, 5, 4, 6, 2, 3]);
}

#[test]
fn rader_tables_for_eleven() {
    let mut lore = PrimeLore::new();
    let r = DFTRader::new(&mut lore, 11).unwrap();
    assert_eq!(r.generator(), 2);
    assert_eq!(r.generator_inverse(), 6);
    let mut seen = r.permutation().clone();
    seen.sort();
    assert_eq!(seen, (1..11).collect::<Vec<usize>>());
}

#[test]
fn warm_table_lists_primes_below_limit() {
    let lore = PrimeLore::new();
    let primes = lore.primes();
    assert_eq!(primes.len(), 172);
    assert_eq!(primes[0], 2);
    assert_eq!(*primes.last().unwrap(), 1021);
    assert!(primes.windows(2).all(|w| w[0] < w[1]));
    assert_eq!(lore.last_prime(), 1021);
}

#[test]
fn found_prime_enters_list() {
    let mut lore = PrimeLore::new();
    assert_eq!(lore.find(65537), 65537);
    assert!(lore.primes().contains(&65537));
    assert_eq!(lore.last_prime(), 1021);
    assert_eq!(lore.find(1031), 1031);
    assert!(lore.primes().contains(&1031));
    assert!(lore.primes().windows(2).all(|w| w[0] < w[1]));
}
