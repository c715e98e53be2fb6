use gridlock::bits::{bits_from_bytes, bits_to_bytes};
use gridlock::grid_lock::{is_prime_number, GridLock, GridLockError, M, N, NOISE_BOUND, P};
use gridlock::random::{ChiDistribution, UmiformZ};
use gridlock::z::{inner_product, sum, Z};

fn round_trip(grid_lock: &mut GridLock, bytes: Vec<u8>) -> Vec<u8> {
    let secret_key = grid_lock.gen_secret_key();
    let public_key = grid_lock.gen_public_key(&secret_key).unwrap();
    let message = bits_from_bytes(&bytes);
    let encrypted = grid_lock.encrypt(&public_key, &message).unwrap();
    let decrypted = grid_lock.decrypt(&secret_key, &encrypted).unwrap();
    bits_to_bytes(&decrypted)
}

#[test]
fn test_gridlock() {
    let mut grid_lock = GridLock::new();
    let secret_key = grid_lock.gen_secret_key();
    let public_key = grid_lock.gen_public_key(&secret_key).unwrap();
    let message = bits_from_bytes(&[0b10101010]);
    let encrypted = grid_lock.encrypt(&public_key, &message).unwrap();
    let decrypted = grid_lock.decrypt(&secret_key, &encrypted).unwrap();
    assert_eq!(bits_to_bytes(&message), bits_to_bytes(&decrypted));
}

#[test]
fn default_parameters() {
    let grid_lock = GridLock::new();
    assert_eq!((grid_lock.n, grid_lock.m, grid_lock.p), (N, M, P));
    assert_eq!((N, M, P), (64, 594, 4099));
    assert_eq!(grid_lock.eta, NOISE_BOUND);
}

#[test]
fn small_parameters_round_trip_single_byte() {
    let mut grid_lock = GridLock::with_parameters(16, 43, 263, Some(7)).unwrap();
    assert_eq!(round_trip(&mut grid_lock, vec![0b10101010]), vec![0b10101010]);
}

#[test]
fn small_parameters_round_trip_bytes() {
    let mut grid_lock = GridLock::with_parameters(16, 43, 263, None).unwrap();
    assert_eq!(round_trip(&mut grid_lock, vec![2, 1, 3, 7]), vec![2, 1, 3, 7]);
}

#[test]
fn round_trip_failure_rate_is_low() {
    let mut grid_lock = GridLock::with_parameters(16, 43, 263, Some(12345)).unwrap();
    let mut failures = 0;
    for trial in 0..200u32 {
        let bytes = vec![(trial % 256) as u8, (trial * 7 % 256) as u8];
        if round_trip(&mut grid_lock, bytes.clone()) != bytes {
            failures += 1;
        }
    }
    assert!(failures < 2);
}

#[test]
fn seeded_engines_agree() {
    let mut a = GridLock::with_parameters(16, 43, 263, Some(99)).unwrap();
    let mut b = GridLock::with_parameters(16, 43, 263, Some(99)).unwrap();
    assert_eq!(a.gen_secret_key(), b.gen_secret_key());
}

#[test]
fn invalid_parameters_are_refused() {
    for (n, m, p) in [(16, 43, 264), (16, 43, 251), (16, 43, 521), (16, 0, 263), (0, 1, 2), (300, 10, 65537)] {
        assert_eq!(
            GridLock::with_parameters(n, m, p, Some(1)).err(),
            Some(GridLockError::InvalidParameters)
        );
    }
    assert!(GridLock::with_parameters(16, 43, 257, Some(1)).is_ok());
    assert!(GridLock::with_parameters(2, 3, 5, Some(1)).is_ok());
}

#[test]
fn primality() {
    let primes: Vec<usize> = (0..60).filter(|&p| is_prime_number(p)).collect();
    assert_eq!(primes, vec![2, 3, 5, 7, 11, 13, 17, 19, 23, 29, 31, 37, 41, 43, 47, 53, 59]);
    assert!(is_prime_number(4099));
    assert!(is_prime_number(263));
    assert!(!is_prime_number(4097));
    assert!(!is_prime_number(289));
}

#[test]
fn secret_key_shape() {
    let mut grid_lock = GridLock::with_parameters(16, 43, 263, Some(3)).unwrap();
    let s = grid_lock.gen_secret_key();
    assert_eq!(s.len(), 16);
    assert!(s.iter().all(|z| z.modulus == 263 && z.value < 263));
}

#[test]
fn public_key_rows_are_noisy_inner_products() {
    let mut grid_lock = GridLock::with_parameters(16, 43, 263, Some(4)).unwrap();
    let s = grid_lock.gen_secret_key();
    let pk = grid_lock.gen_public_key(&s).unwrap();
    assert_eq!(pk.len(), 43);
    for (a, b) in &pk {
        assert_eq!(a.len(), 16);
        let noise = b.sub(inner_product(a, &s, 263));
        assert!(noise.distance_to_zero() <= NOISE_BOUND);
    }
}

#[test]
fn public_key_refuses_short_secret_key() {
    let mut grid_lock = GridLock::with_parameters(16, 43, 263, Some(5)).unwrap();
    let mut s = grid_lock.gen_secret_key();
    s.pop();
    assert_eq!(grid_lock.gen_public_key(&s).err(), Some(GridLockError::InvalidKeyLength));
}

#[test]
fn encrypt_with_empty_subset() {
    let mut grid_lock = GridLock::with_parameters(16, 43, 263, Some(6)).unwrap();
    let s = grid_lock.gen_secret_key();
    let pk = grid_lock.gen_public_key(&s).unwrap();
    let ct = grid_lock.encrypt_with_subset(&pk, &[], &[true, false, true]).unwrap();
    assert_eq!(ct.len(), 3);
    for (a, _) in &ct {
        assert_eq!(a, &vec![Z::new(0, 263); 16]);
    }
    assert_eq!(ct[0].1.value, 131);
    assert_eq!(ct[1].1.value, 0);
    assert_eq!(ct[2].1.value, 131);
    assert_eq!(grid_lock.decrypt(&s, &ct).unwrap(), vec![true, false, true]);
}

#[test]
fn encrypt_with_subset_sums_rows() {
    let mut grid_lock = GridLock::with_parameters(16, 43, 263, Some(8)).unwrap();
    let s = grid_lock.gen_secret_key();
    let pk = grid_lock.gen_public_key(&s).unwrap();
    let ct = grid_lock.encrypt_with_subset(&pk, &[1, 5], &[false, true]).unwrap();
    for j in 0..16 {
        assert_eq!(ct[0].0[j], pk[1].0[j].add(pk[5].0[j]));
    }
    assert_eq!(ct[0].1, pk[1].1.add(pk[5].1));
    assert_eq!(ct[1].1, pk[1].1.add(pk[5].1).add(Z::new(131, 263)));
    assert_eq!(grid_lock.decrypt(&s, &ct).unwrap(), vec![false, true]);
}

#[test]
fn encrypt_refuses_misshapen_key() {
    let mut grid_lock = GridLock::with_parameters(16, 43, 263, Some(9)).unwrap();
    let s = grid_lock.gen_secret_key();
    let mut pk = grid_lock.gen_public_key(&s).unwrap();
    pk.pop();
    assert_eq!(grid_lock.encrypt(&pk, &[true]).err(), Some(GridLockError::InvalidKeyLength));
}

#[test]
fn decrypt_refuses_short_secret_key() {
    let mut grid_lock = GridLock::with_parameters(16, 43, 263, Some(10)).unwrap();
    let s = grid_lock.gen_secret_key();
    let pk = grid_lock.gen_public_key(&s).unwrap();
    let ct = grid_lock.encrypt(&pk, &[true, false]).unwrap();
    let short = s[..15].to_vec();
    assert_eq!(grid_lock.decrypt(&short, &ct).err(), Some(GridLockError::InvalidKeyLength));
}

#[test]
fn decrypt_refuses_short_ciphertext_vector() {
    let mut grid_lock = GridLock::with_parameters(16, 43, 263, Some(11)).unwrap();
    let s = grid_lock.gen_secret_key();
    let pk = grid_lock.gen_public_key(&s).unwrap();
    let mut ct = grid_lock.encrypt(&pk, &[true, false]).unwrap();
    ct[1].0.pop();
    assert_eq!(grid_lock.decrypt(&s, &ct).err(), Some(GridLockError::InvalidCiphertext));
}

#[test]
fn decrypt_decodes_nearest_point() {
    let grid_lock = GridLock::with_parameters(2, 3, 5, Some(1)).unwrap();
    let s = vec![Z::new(1, 5), Z::new(2, 5)];
    let a = vec![Z::new(3, 5), Z::new(4, 5)];
    // <a, s> = 3 + 8 = 11 = 1 mod 5; anchors are 0 and 2.
    let ct: Vec<(Vec<Z>, Z)> = (0..5).map(|b| (a.clone(), Z::new(b, 5))).collect();
    assert_eq!(grid_lock.decrypt(&s, &ct).unwrap(), vec![false, false, false, true, true]);
}

#[test]
fn field_operations() {
    let a = Z::new(250, 263);
    let b = Z::new(20, 263);
    assert_eq!(a.add(b).value, 7);
    assert_eq!(b.sub(a).value, 33);
    assert_eq!(a.sub(b).value, 230);
    assert_eq!(a.mul(b).value, 5000 % 263);
    assert_eq!(Z::new(600, 263).value, 74);
    let mut c = a;
    c.add_assign(b);
    assert_eq!(c, Z::new(7, 263));
    for x in 0..263 {
        let x = Z::new(x, 263);
        for y in [0usize, 1, 131, 262] {
            let y = Z::new(y, 263);
            assert!(x.add(y).value < 263 && x.sub(y).value < 263 && x.mul(y).value < 263);
        }
    }
}

#[test]
fn distances() {
    let p = 263;
    let a = Z::new(10, p);
    let b = Z::new(250, p);
    assert_eq!(a.distance_to(&b), 23);
    assert_eq!(b.distance_to(&a), 23);
    assert_eq!(a.distance_to(&a), 0);
    assert_eq!(Z::new(100, p).distance_to(&Z::new(20, p)), 80);
    assert_eq!(b.distance_to_zero(), 13);
    assert_eq!(a.distance_to_zero(), 10);
    assert_eq!(Z::new(131, p).distance_to_zero(), 131);
    assert_eq!(Z::new(132, p).distance_to_zero(), 131);
    for v in 0..p {
        let x = Z::new(v, p);
        assert!(x.distance_to_zero() <= p / 2);
        assert_eq!(x.distance_to_zero(), x.distance_to(&Z::new(0, p)));
    }
}

#[test]
fn sums_and_inner_products() {
    let p = 7;
    let xs = vec![Z::new(3, p), Z::new(5, p), Z::new(6, p)];
    assert_eq!(sum(&xs, p), Z::new(0, p));
    assert_eq!(sum(&[], p), Z::new(0, p));
    let ys = vec![Z::new(2, p), Z::new(1, p), Z::new(4, p)];
    assert_eq!(inner_product(&xs, &ys, p), Z::new(35, p));
    assert_eq!(inner_product(&xs[..2], &ys[..2], p).value, 4);
}

#[test]
fn uniform_sampler_stays_in_range() {
    let mut grid_lock = GridLock::with_parameters(16, 43, 263, Some(13)).unwrap();
    let u = UmiformZ::new_inclusive(Z::new(5, 263), Z::new(9, 263));
    let v = UmiformZ::new(Z::new(5, 263), Z::new(7, 263));
    let mut seen = [false; 10];
    for _ in 0..500 {
        let x = u.sample(&mut grid_lock.rng);
        assert!(x.value >= 5 && x.value <= 9 && x.modulus == 263);
        seen[x.value] = true;
        let y = v.sample(&mut grid_lock.rng);
        assert!(y.value == 5 || y.value == 6);
    }
    assert!(seen[5..10].iter().all(|&b| b));
}

#[test]
fn noise_is_small() {
    let mut grid_lock = GridLock::with_parameters(16, 43, 263, Some(14)).unwrap();
    let chi = ChiDistribution::new(2, 263);
    let mut nonzero = 0;
    for _ in 0..500 {
        let e = chi.get(&mut grid_lock.rng);
        assert!(e.distance_to_zero() <= 2);
        assert!(e.value <= 2 || e.value >= 261);
        if e.value != 0 {
            nonzero += 1;
        }
    }
    assert!(nonzero > 0);
}

#[test]
fn subsets_are_increasing_and_in_range() {
    let mut grid_lock = GridLock::with_parameters(16, 43, 263, Some(15)).unwrap();
    let mut total = 0;
    for _ in 0..200 {
        let s = grid_lock.choose_subset();
        assert!(s.windows(2).all(|w| w[0] < w[1]));
        assert!(s.iter().all(|&i| i < 43));
        total += s.len();
    }
    assert!(total > 50 && total < 400);
}

#[test]
fn bytes_to_bits_and_back() {
    let bits = bits_from_bytes(&[0b10101010, 1]);
    assert_eq!(
        bits,
        vec![true, false, true, false, true, false, true, false, false, false, false, false, false, false, false, true]
    );
    assert_eq!(bits_to_bytes(&bits), vec![0b10101010, 1]);
    assert_eq!(bits_to_bytes(&[true, true]), vec![0b11000000]);
    assert_eq!(bits_to_bytes(&[]), Vec::<u8>::new());
    let all: Vec<u8> = (0..=255).collect();
    assert_eq!(bits_to_bytes(&bits_from_bytes(&all)), all);
}
