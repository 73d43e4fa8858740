use pss::galois::{GfTables, GF};
use pss::math::lagrange_coeffs;
use pss::protocol::ProtocolIDBuilder;
use pss::sharing::{PackedSharing, ProtoErrorKind};
use rand::SeedableRng;

fn gf(v: u32) -> GF {
    GF { val: v }
}

fn gfv(vals: &[u32]) -> Vec<GF> {
    vals.iter().map(|&v| GF { val: v }).collect()
}

fn setup() -> (GfTables, PackedSharing) {
    // W = 8, n = 4 parties, degree 2 (np = 3), one packed secret at GF(4).
    let t = GF::init(8).unwrap();
    let pss = PackedSharing::new(&t, 2, 4, gfv(&[4]));
    (t, pss)
}

#[test]
fn parameters_are_reported() {
    let (_t, pss) = setup();
    assert_eq!(pss.num_parties(), 4);
    assert_eq!(pss.num_secrets(), 1);
    assert_eq!(pss.degree(), 2);
}

#[test]
fn position_helpers() {
    let t = GF::init(8).unwrap();
    assert_eq!(PackedSharing::default_pos(&t, 4, 2), gfv(&[4, 5]));
    assert_eq!(PackedSharing::share_pos(&t, 3), gfv(&[0, 1, 2]));
    let pos = PackedSharing::wire_to_pos(&t, 4, 2, &vec![0, 1, 7]);
    assert_eq!(pos, gfv(&[6, 7, 13]));
}

#[test]
fn deterministic_share_matches_interpolation() {
    // Shares with pads [3, 5]: the degree-2 polynomial through (4, 7),
    // (0, 3) and (1, 5) evaluated at the share positions 0..4.
    let (t, pss) = setup();
    let shares = pss.share_with_pads(&t, &gfv(&[7]), &gfv(&[3, 5]));
    assert_eq!(shares.len(), 4);
    assert_eq!(shares[0], gf(3));
    assert_eq!(shares[1], gf(5));
    // Interpolate the defining points onto positions 2 and 3 directly.
    let m = lagrange_coeffs(&t, &gfv(&[4, 0, 1]), &gfv(&[2, 3]));
    let expect = m.dot(&t, &gfv(&[7, 3, 5]));
    assert_eq!(shares[2], expect[0]);
    assert_eq!(shares[3], expect[1]);
    // Checked reconstruction returns the secret.
    assert_eq!(pss.recon(&t, &shares), Ok(gfv(&[7])));
}

#[test]
fn tampered_share_is_detected() {
    let (t, pss) = setup();
    let mut shares = pss.share_with_pads(&t, &gfv(&[7]), &gfv(&[3, 5]));
    shares[0] = t.add(shares[0], gf(1));
    assert_eq!(pss.recon(&t, &shares), Err(ProtoErrorKind::MaliciousBehavior));
}

#[test]
fn any_single_bit_flip_is_detected() {
    let (t, pss) = setup();
    let mut rng = rand::rngs::StdRng::seed_from_u64(11);
    let secrets = gfv(&[123]);
    let shares = pss.share(&t, &secrets, &mut rng);
    for i in 0..shares.len() {
        for bit in 0..8u32 {
            let mut bad = shares.clone();
            bad[i] = t.add(bad[i], gf(1 << bit));
            assert_eq!(
                pss.recon(&t, &bad),
                Err(ProtoErrorKind::MaliciousBehavior),
                "flip of bit {bit} in share {i} went unnoticed"
            );
        }
    }
}

#[test]
fn recon_rejects_wrong_share_count() {
    let (t, pss) = setup();
    let shares = gfv(&[1, 2, 3]);
    assert_eq!(pss.recon(&t, &shares), Err(ProtoErrorKind::InputLength));
}

#[test]
fn share_then_reconstruct_round_trip() {
    let (t, pss) = setup();
    let mut rng = rand::rngs::StdRng::seed_from_u64(2);
    for s in [0u32, 1, 77, 200, 255] {
        let secrets = gfv(&[s]);
        let shares = pss.share(&t, &secrets, &mut rng);
        assert_eq!(shares.len(), 4);
        assert_eq!(pss.semihon_recon(&t, &shares), secrets);
        assert_eq!(pss.recon(&t, &shares), Ok(secrets));
    }
}

#[test]
fn multiple_packed_secrets_round_trip() {
    let t = GF::init(8).unwrap();
    // n = 5 parties, degree 3 (np = 4), two packed secrets.
    let pss = PackedSharing::new(&t, 3, 5, gfv(&[5, 6]));
    let mut rng = rand::rngs::StdRng::seed_from_u64(3);
    let secrets = gfv(&[42, 17]);
    let shares = pss.share(&t, &secrets, &mut rng);
    assert_eq!(shares.len(), 5);
    assert_eq!(pss.recon(&t, &shares), Ok(secrets));
}

#[test]
fn sharing_is_linear() {
    let (t, pss) = setup();
    let mut rng = rand::rngs::StdRng::seed_from_u64(4);
    let a = gfv(&[100]);
    let b = gfv(&[29]);
    let sa = pss.share(&t, &a, &mut rng);
    let sb = pss.share(&t, &b, &mut rng);
    let sum: Vec<GF> = sa.iter().zip(sb.iter()).map(|(&x, &y)| t.add(x, y)).collect();
    let rec = pss.semihon_recon(&t, &sum);
    assert_eq!(rec, vec![t.add(a[0], b[0])]);
}

#[test]
fn static_coeff_helpers_match_instance() {
    let (t, pss) = setup();
    let coeffs = PackedSharing::compute_share_coeffs(&t, 2, 4, &gfv(&[4]));
    let mut rng = rand::rngs::StdRng::seed_from_u64(5);
    let shares = PackedSharing::share_using_coeffs(&t, &gfv(&[9]), &coeffs, 1, &mut rng);
    assert_eq!(shares.len(), 4);
    let rcoeffs = PackedSharing::compute_recon_coeffs(&t, 2, 4, &gfv(&[4]));
    let recon = PackedSharing::recon_using_coeffs(&t, &shares, &rcoeffs);
    assert_eq!(recon[0], gf(9));
    // The instance getter exposes the same secret-row coefficients.
    let inst = pss.recon_coeffs(&t);
    assert_eq!(inst.num_rows(), 1);
    assert_eq!(inst.num_cols(), 3);
    for j in 0..3 {
        assert_eq!(inst.get(0, j), rcoeffs.get(0, j));
    }
}

#[test]
fn rand_sharings_reconstruct_consistently() {
    let (t, pss) = setup();
    let mut rng = rand::rngs::StdRng::seed_from_u64(6);
    for _ in 0..50 {
        let shares = pss.rand(&t, &mut rng);
        assert_eq!(shares.len(), 4);
        assert!(pss.recon(&t, &shares).is_ok());
    }
}

#[test]
fn rand_secrets_look_uniform() {
    // W = 4: tally the reconstructed secret of many random sharings and
    // check no value is wildly over- or under-represented.
    let t = GF::init(4).unwrap();
    let pss = PackedSharing::new(&t, 2, 4, gfv(&[4]));
    let mut rng = rand::rngs::StdRng::seed_from_u64(7);
    let mut counts = [0u32; 16];
    let rounds = 3200;
    for _ in 0..rounds {
        let shares = pss.rand(&t, &mut rng);
        let secrets = pss.semihon_recon(&t, &shares);
        counts[secrets[0].val as usize] += 1;
    }
    let expected = rounds / 16;
    for (v, &c) in counts.iter().enumerate() {
        assert!(
            c > expected / 2 && c < expected * 2,
            "value {v} occurred {c} times out of {rounds}"
        );
    }
}

#[test]
fn protocol_id_builder_counts_children() {
    let parent: Vec<u8> = vec![7, 8];
    let mut b = ProtocolIDBuilder::new(&parent, 4);
    assert_eq!(b.next(), Some(vec![7, 8, 0]));
    assert_eq!(b.next(), Some(vec![7, 8, 1]));
    assert_eq!(b.next(), Some(vec![7, 8, 2]));
}

#[test]
fn protocol_id_builder_carries_across_bytes() {
    let parent: Vec<u8> = vec![1];
    let mut b = ProtocolIDBuilder::new(&parent, 300);
    // Two counter bytes: 300 needs nine bits.
    let first = b.next().unwrap();
    assert_eq!(first, vec![1, 0, 0]);
    let mut last = first;
    for _ in 0..256 {
        last = b.next().unwrap();
    }
    assert_eq!(last, vec![1, 0, 1]);
}

#[test]
fn protocol_id_builder_exhausts() {
    let parent: Vec<u8> = vec![];
    let mut b = ProtocolIDBuilder::new(&parent, 2);
    assert!(b.next().is_some());
    let mut steps = 1;
    while b.next().is_some() {
        steps += 1;
        assert!(steps <= 300);
    }
    // One counter byte: 255 children before the counter overflows.
    assert_eq!(steps, 255);
}

#[test]
fn full_degree_sharing_has_no_redundancy() {
    // With d = n - 1 every share defines the polynomial: recon cannot
    // detect tampering, but round trips still hold.
    let t = GF::init(8).unwrap();
    let pss = PackedSharing::new(&t, 3, 4, gfv(&[4]));
    let mut rng = rand::rngs::StdRng::seed_from_u64(9);
    let secrets = gfv(&[211]);
    let shares = pss.share(&t, &secrets, &mut rng);
    assert_eq!(pss.recon(&t, &shares), Ok(secrets.clone()));
    let mut bad = shares.clone();
    bad[0] = t.add(bad[0], gf(1));
    // No redundant shares are left over, so the corruption passes unseen.
    assert!(pss.recon(&t, &bad).is_ok());
}

#[test]
fn protocol_id_builder_zero_capacity() {
    // A bound of one child needs no counter bytes, and the builder is
    // immediately exhausted.
    let parent: Vec<u8> = vec![3];
    let mut b = ProtocolIDBuilder::new(&parent, 1);
    assert!(b.next().is_none());
}
