use rforests::value::{is_nan_bits, order_key, value_le, POS_INFINITY_BITS};

#[test]
fn order_keys_follow_numeric_order() {
    let xs = [f64::NEG_INFINITY, -3.5, -1.0, -0.0, 0.0, 1e-300, 1.0, 2.5, f64::MAX, f64::INFINITY];
    for w in xs.windows(2) {
        assert!(order_key(w[0].to_bits()) <= order_key(w[1].to_bits()));
        assert!(value_le(w[0].to_bits(), w[1].to_bits()));
    }
    assert!(order_key((-2.0f64).to_bits()) < order_key((-1.0f64).to_bits()));
    assert!(!value_le(2.0f64.to_bits(), 1.0f64.to_bits()));
}

#[test]
fn zeros_share_a_key() {
    assert_eq!(order_key((-0.0f64).to_bits()), order_key(0.0f64.to_bits()));
    assert!(value_le((-0.0f64).to_bits(), 0.0f64.to_bits()));
    assert!(value_le(0.0f64.to_bits(), (-0.0f64).to_bits()));
}

#[test]
fn nan_is_recognised() {
    assert!(is_nan_bits(f64::NAN.to_bits()));
    assert!(is_nan_bits((-f64::NAN).to_bits()));
    assert!(!is_nan_bits(f64::INFINITY.to_bits()));
    assert!(!is_nan_bits(1.0f64.to_bits()));
    assert_eq!(POS_INFINITY_BITS, f64::INFINITY.to_bits());
}
