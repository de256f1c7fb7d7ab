use gelo::shield::shield_k_for_batch;

#[test]
fn shield_k_for_batch_lands_on_pow2() {
    let cases = [
        (1usize, 15usize, 16usize),
        (8, 8, 16),
        (12, 20, 32),
        (16, 16, 32),
        (24, 8, 32),
        (32, 32, 64),
        (48, 16, 64),
        (56, 8, 64),
        (64, 64, 128),
    ];
    for (n, expected_k, expected_stacked) in cases {
        let k = shield_k_for_batch(n, 8);
        assert_eq!(k, expected_k, "n={n}: got k={k}, want {expected_k}");
        assert_eq!(n + k, expected_stacked, "n={n}: stacked={n}+{k}");
        assert!((n + k).is_power_of_two(), "n+k={} not pow2", n + k);
        assert!(k >= 8, "k_base floor violated at n={n}, k={k}");
    }
}

#[test]
fn shield_k_for_batch_n0_returns_k_base() {
    assert_eq!(shield_k_for_batch(0, 8), 8);
}
