use fortunes_algorithm::scalar::Scalar;

fn scalar(value: f64) -> Scalar {
    let bits = value.to_bits();
    let magnitude = (bits & 0x7FFF_FFFF_FFFF_FFFF) as i64;
    if bits >> 63 == 1 {
        Scalar::new(-magnitude)
    } else {
        Scalar::new(magnitude)
    }
}

#[test]
fn scalar_order_follows_doubles() {
    let values = [-1.5, -0.0, 0.0, 0.25, 1.0, 3.5, f64::INFINITY, f64::NEG_INFINITY];
    for a in values {
        for b in values {
            assert_eq!(scalar(a).lt(&scalar(b)), a < b);
            assert_eq!(scalar(a).le(&scalar(b)), a <= b);
            assert_eq!(scalar(a).same(&scalar(b)), a == b);
        }
    }
}
