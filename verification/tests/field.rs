use pss::galois::{GfError, GF};
use rand::SeedableRng;

fn gf(v: u32) -> GF {
    GF { val: v }
}

#[test]
fn init_rejects_bad_widths() {
    assert!(GF::init(0).is_err());
    assert!(GF::init(30).is_err());
    assert!(GF::init(255).is_err());
    match GF::init(0) {
        Err(GfError::UnsupportedWidth) => {}
        _ => panic!("width zero must be rejected"),
    }
}

#[test]
fn init_supported_widths() {
    for w in 1..=16u8 {
        let t = GF::init(w).unwrap();
        assert_eq!(t.w(), w);
        assert_eq!(t.order(), 1u32 << w);
        assert_eq!(t.num_bytes(), ((w as usize) + 7) / 8);
    }
}

#[test]
fn addition_is_xor() {
    let t = GF::init(8).unwrap();
    assert_eq!(t.add(gf(0b1100), gf(0b1010)), gf(0b0110));
    assert_eq!(t.add(gf(7), GF::zero()), gf(7));
    assert_eq!(t.add(gf(7), gf(7)), GF::zero());
    assert_eq!(t.sub(gf(7), gf(3)), t.add(gf(7), gf(3)));
    assert_eq!(t.neg(gf(99)), gf(99));
}

#[test]
fn addition_laws_small_field() {
    let t = GF::init(4).unwrap();
    for a in 0..16u32 {
        for b in 0..16u32 {
            assert_eq!(t.add(gf(a), gf(b)), t.add(gf(b), gf(a)));
            for c in 0..16u32 {
                assert_eq!(
                    t.add(t.add(gf(a), gf(b)), gf(c)),
                    t.add(gf(a), t.add(gf(b), gf(c)))
                );
            }
        }
    }
}

#[test]
fn multiplication_laws_small_field() {
    let t = GF::init(4).unwrap();
    for a in 0..16u32 {
        assert_eq!(t.mul(gf(a), GF::one()), gf(a));
        assert_eq!(t.mul(gf(a), GF::zero()), GF::zero());
        for b in 0..16u32 {
            assert_eq!(t.mul(gf(a), gf(b)), t.mul(gf(b), gf(a)));
            for c in 0..16u32 {
                assert_eq!(
                    t.mul(t.mul(gf(a), gf(b)), gf(c)),
                    t.mul(gf(a), t.mul(gf(b), gf(c)))
                );
                assert_eq!(
                    t.mul(gf(a), t.add(gf(b), gf(c))),
                    t.add(t.mul(gf(a), gf(b)), t.mul(gf(a), gf(c)))
                );
            }
        }
    }
}

#[test]
fn known_products_width_8() {
    // In GF(2^8) with the x^8 + x^4 + x^3 + x^2 + 1 polynomial, doubling the
    // top bit wraps through the reduction.
    let t = GF::init(8).unwrap();
    assert_eq!(t.mul(gf(2), gf(0x80)), gf(0x1D));
    assert_eq!(t.mul(gf(1), gf(0xAB)), gf(0xAB));
}

#[test]
fn division_cancels_multiplication() {
    let t = GF::init(8).unwrap();
    for a in 1..256u32 {
        for b in [0u32, 1, 2, 77, 130, 255] {
            let prod = t.mul(gf(a), gf(b));
            assert_eq!(t.div(prod, gf(a)), gf(b));
        }
        let inv = t.div(GF::one(), gf(a));
        assert_eq!(t.mul(inv, gf(a)), GF::one());
    }
}

#[test]
fn inverses_width_4_all_elements() {
    let t = GF::init(4).unwrap();
    for a in 1..16u32 {
        let inv = t.div(GF::one(), gf(a));
        assert_eq!(t.mul(gf(a), inv), GF::one());
    }
}

#[test]
fn serialization_round_trip_width_8() {
    let t = GF::init(8).unwrap();
    for a in 0..256u32 {
        let bytes = t.serialize(gf(a));
        assert_eq!(bytes.len(), 1);
        let back = t.deserialize(&bytes);
        assert_eq!(back, gf(a));
    }
}

#[test]
fn serialization_round_trip_wide_fields() {
    for w in [4u8, 9, 12, 17, 20] {
        let t = GF::init(w).unwrap();
        let order = t.order();
        for a in [0u32, 1, 2, order / 2, order - 2, order - 1] {
            let bytes = t.serialize(gf(a));
            assert_eq!(bytes.len(), t.num_bytes());
            assert_eq!(t.deserialize(&bytes), gf(a));
        }
    }
}

#[test]
fn serialization_is_little_endian() {
    let t = GF::init(12).unwrap();
    let bytes = t.serialize(gf(0x0A0B));
    assert_eq!(bytes, vec![0x0B, 0x0A]);
}

#[test]
fn elem_from_reduces_out_of_range_values() {
    let t = GF::init(4).unwrap();
    for v in 0..16u32 {
        assert_eq!(t.elem_from(v), gf(v));
    }
    // The field polynomial itself reduces to zero.
    assert_eq!(t.elem_from(0x13), GF::zero());
    // x^4 = x + 1 under x^4 + x + 1.
    assert_eq!(t.elem_from(0x10), gf(0x3));
    let r = t.elem_from(0xFFFF_FFFF);
    assert!(r.val < 16);
}

#[test]
fn rand_stays_in_field() {
    let t = GF::init(4).unwrap();
    let mut rng = rand::rngs::StdRng::seed_from_u64(1);
    for _ in 0..1000 {
        let x = GF::rand(&t, &mut rng);
        assert!(x.val < 16);
    }
}

#[test]
fn is_zero_matches_value() {
    assert!(GF::zero().is_zero());
    assert!(!GF::one().is_zero());
}
