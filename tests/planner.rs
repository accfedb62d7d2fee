use spectral::bluestein::{next_power_of_two, DFTBluestein};
use spectral::kernels::{DftKernel, Kernel1, Kernel2, Kernel3, Kernel4, Kernel5, Kernel6, Kernel8};
use spectral::plan::{find_dft, Algorithm, Plan, Planner};
use spectral::prime_cache::PrimeLore;
use spectral::radix::DFTRadix;

#[test]
fn kernel_sizes() {
    assert_eq!(Kernel1::size(), 1);
    assert_eq!(Kernel2::size(), 2);
    assert_eq!(Kernel3::size(), 3);
    assert_eq!(Kernel4::size(), 4);
    assert_eq!(Kernel5::size(), 5);
    assert_eq!(Kernel6::size(), 6);
    assert_eq!(Kernel8::size(), 8);
}

#[test]
fn small_sizes_use_kernels() {
    let mut planner = Planner::new();
    for n in [1usize, 2, 3, 4, 5, 6, 8] {
        let id = find_dft(&mut planner, n);
        let plan = planner.plan(id);
        assert_eq!(plan.kind(), Algorithm::Kernel);
        assert_eq!(plan.size(), n);
        assert!(plan.is_inplace());
    }
}

#[test]
fn composite_size_uses_mixed_radix() {
    let mut planner = Planner::new();
    let id = find_dft(&mut planner, 12);
    let plan = planner.plan(id);
    assert_eq!(plan.kind(), Algorithm::MixedRadix);
    assert!(!plan.is_inplace());
    match plan {
        Plan::MixedRadix { radix, dft_p, dft_q } => {
            assert_eq!(radix.radix(), 2);
            assert_eq!(radix.columns(), 6);
            assert_eq!(planner.plan(dft_p.unwrap()).size(), 2);
            assert_eq!(planner.plan(dft_q.unwrap()).size(), 6);
            assert_eq!(planner.plan(dft_q.unwrap()).kind(), Algorithm::Kernel);
        }
        _ => panic!("expected a mixed-radix plan"),
    }
}

#[test]
fn prime_size_uses_rader() {
    let mut planner = Planner::new();
    for n in [7usize, 11, 13, 97] {
        let id = find_dft(&mut planner, n);
        let plan = planner.plan(id);
        assert_eq!(plan.kind(), Algorithm::Rader);
        assert_eq!(plan.size(), n);
        match plan {
            Plan::Rader { rader, dft_n1 } => {
                assert_eq!(rader.size(), n);
                assert_eq!(planner.plan(*dft_n1).size(), n - 1);
            }
            _ => panic!("expected a Rader plan"),
        }
    }
}

#[test]
fn rader_for_eleven_has_mixed_radix_sub_plan() {
    let mut planner = Planner::new();
    let id = find_dft(&mut planner, 11);
    match planner.plan(id) {
        Plan::Rader { dft_n1, .. } => {
            assert_eq!(planner.plan(*dft_n1).kind(), Algorithm::MixedRadix);
        }
        _ => panic!("expected a Rader plan"),
    }
}

#[test]
fn audio_size_plan() {
    let mut planner = Planner::new();
    let id = find_dft(&mut planner, 2048);
    let plan = planner.plan(id);
    assert_eq!(plan.kind(), Algorithm::MixedRadix);
    match plan {
        Plan::MixedRadix { radix, .. } => {
            assert_eq!(radix.radix(), 2);
            assert_eq!(radix.columns(), 1024);
        }
        _ => panic!("expected a mixed-radix plan"),
    }
}

#[test]
fn same_size_same_plan() {
    let mut planner = Planner::new();
    let a = find_dft(&mut planner, 360);
    let built = planner.num_plans();
    let b = find_dft(&mut planner, 360);
    assert_eq!(a, b);
    assert_eq!(planner.num_plans(), built);
    let c = find_dft(&mut planner, 6);
    let d = find_dft(&mut planner, 6);
    assert_eq!(c, d);
}

#[test]
fn sub_plans_are_shared() {
    let mut planner = Planner::new();
    let six = find_dft(&mut planner, 6);
    let id = find_dft(&mut planner, 12);
    match planner.plan(id) {
        Plan::MixedRadix { dft_q, .. } => assert_eq!(dft_q.unwrap(), six),
        _ => panic!("expected a mixed-radix plan"),
    }
}

#[test]
fn radix_twiddle_exponents() {
    let mut lore = PrimeLore::new();
    let r = DFTRadix::new(&mut lore, 12);
    assert_eq!(r.size(), 12);
    assert_eq!(r.radix(), 2);
    assert_eq!(r.columns(), 6);
    assert_eq!(r.twiddles(), &vec![0, 0, 0, 0, 0, 0, 0, 1, 2, 3, 4, 5]);
    let r = DFTRadix::new(&mut lore, 9);
    assert_eq!(r.twiddles(), &vec![0, 0, 0, 0, 1, 2, 0, 2, 4]);
}

#[test]
fn radix_of_prime_has_one_column() {
    let mut lore = PrimeLore::new();
    let r = DFTRadix::new(&mut lore, 13);
    assert_eq!(r.radix(), 13);
    assert_eq!(r.columns(), 1);
    assert_eq!(r.twiddles(), &vec![0; 13]);
}

#[test]
fn power_of_two_rounding() {
    assert_eq!(next_power_of_two(0), 1);
    assert_eq!(next_power_of_two(1), 1);
    assert_eq!(next_power_of_two(13), 16);
    assert_eq!(next_power_of_two(16), 16);
    assert_eq!(next_power_of_two(17), 32);
    assert_eq!(next_power_of_two(2 * 2048 - 1), 4096);
}

#[test]
fn bluestein_tables() {
    let b = DFTBluestein::new(4, 8);
    assert_eq!(b.size(), 4);
    assert_eq!(b.conv_size(), 8);
    assert_eq!(b.chirp(), &vec![0, 1, 4, 1]);
    assert_eq!(
        b.kernel_sources(),
        vec![Some(0), Some(1), Some(2), Some(3), None, Some(3), Some(2), Some(1)]
    );
}

#[test]
fn bluestein_tables_for_prime() {
    let nb = next_power_of_two(2 * 7 - 1);
    assert_eq!(nb, 16);
    let b = DFTBluestein::new(7, nb);
    assert_eq!(b.chirp(), &vec![0, 1, 4, 9, 2, 11, 8]);
    let src = b.kernel_sources();
    assert_eq!(src.len(), 16);
    assert_eq!(src[9], None);
    assert_eq!(src[10], Some(6));
    assert_eq!(src[15], Some(1));
}
