use rust_fractal::random::{coin_bits, random_coins, random_words};

#[test]
fn coin_bits_least_significant_first() {
    let coins = coin_bits(&vec![0b1011u64, u64::MAX]);
    assert_eq!(coins.len(), 128);
    assert_eq!(&coins[..5], &[true, true, false, true, false]);
    assert!(coins[5..64].iter().all(|&c| !c));
    assert!(coins[64..].iter().all(|&c| c));
}

#[test]
fn coin_bits_top_bit() {
    let coins = coin_bits(&vec![1u64 << 63]);
    assert!(coins[63]);
    assert!(coins[..63].iter().all(|&c| !c));
}

#[test]
fn coin_bits_is_reproducible() {
    let words = vec![0x0123_4567_89ab_cdefu64, 42];
    assert_eq!(coin_bits(&words), coin_bits(&words));
}

#[test]
fn random_words_have_requested_length_and_vary() {
    let w = random_words(64);
    assert_eq!(w.len(), 64);
    assert!(w.iter().any(|&x| x != w[0]));
    assert_eq!(random_words(0).len(), 0);
}

#[test]
fn random_coins_have_requested_length_and_vary() {
    for n in [0usize, 1, 63, 64, 65, 1000] {
        assert_eq!(random_coins(n).len(), n);
    }
    let c = random_coins(1000);
    assert!(c.iter().any(|&b| b) && c.iter().any(|&b| !b));
}
