use bench::big::SignedBig;
use bench::blob_encode::{
    empty_blob, empty_market_limbs, write_mark_price, write_quote_multiplier,
    BLOB_ACCOUNT_OFFSET, BLOB_DATA_BYTES_COUNT, BLOB_MARK_PRICE_INDEX,
    BLOB_QUOTE_MULTIPLIER_INDEX, BLOB_WIDTH,
};
use bench::digest::{proof_digest, short_hex, versioned_hash, with_version};
use bench::hash::HashOut;
use bench::kzg::{
    blob_data_hash, blob_pub_data_hash, brp_roots_of_unity, build_blob_evaluation,
    build_wrapper_input, compute_pce_opening, eval_blob_polynomial, kzg_versioned_hash,
    market_data_hash, packed_blob_to_canonical, packed_blob_to_scalars, pce_evaluation_point,
    scalar_to_be32, version_and_reserved_bytes_hash, wrapper_delta_evaluation_point, MarketLimbs,
    KzgStep, Scalar, DEFAULT_TRUSTED_SETUP_PATH,
};
use bench::kzg_setup::read_setup;
use num::BigUint;

/// A sponge that keeps what it was fed recognisable.
fn sponge(v: &Vec<u64>) -> HashOut {
    let mut h = HashOut { e0: v.len() as u64, e1: 7, e2: 11, e3: 13 };
    for x in v {
        h.e1 = h.e1.wrapping_mul(0x9e37_79b9).wrapping_add(*x);
        h.e2 = h.e2.wrapping_mul(31).wrapping_add(*x ^ h.e1);
        h.e3 = h.e3.wrapping_add(h.e2).rotate_left(5);
    }
    h
}

fn two(a: HashOut, b: HashOut) -> HashOut {
    sponge(&vec![a.e0, a.e1, a.e2, a.e3, b.e0, b.e1, b.e2, b.e3])
}

fn order() -> BigUint {
    BigUint::new(vec![
        0x0000_0001,
        0xffff_ffff,
        0xfffe_5bfe,
        0x53bd_a402,
        0x09a1_d805,
        0x3339_d808,
        0x299d_7d48,
        0x73ed_a753,
    ])
}

fn scalar(v: &BigUint) -> Scalar {
    Scalar { digits: v.to_u32_digits() }
}

/// The 4096 roots of unity in bit-reversed order.
fn roots() -> Vec<Scalar> {
    let r = order();
    let one = BigUint::from(1u32);
    let g = BigUint::from(7u32).modpow(&((&r - &one) / BigUint::from(4096u32)), &r);
    let mut powers = Vec::new();
    let mut p = one;
    for _ in 0..BLOB_WIDTH {
        powers.push(p.clone());
        p = p * &g % &r;
    }
    assert_eq!(p, BigUint::from(1u32));
    (0..BLOB_WIDTH).map(|i| scalar(&powers[(i as u32).reverse_bits() as usize >> 20])).collect()
}

/// A setup whose secret is 1: it commits to a blob by the blob's first element.
fn setup() -> Vec<u8> {
    setup_text().into_bytes()
}

fn setup_text() -> String {
    let g1 = "97f1d3a73197d7942695638c4fa9ac0fc3688c4f9774b905a14e3a3f171bac586c55e83ff97a1aeffb3af00adb22c6bb";
    let g2 = "93e02b6052719f607dacd3a088274f65596bd0d09920b61ab5da61bbdc7f5049334cf11213945d57e5ac7d055d042b7e024aa2b2f08f0a91260805272dc51051c6e47ad4fa403b02b4510b647ae3d1770bac0326a805bbefd48056c8c121bdb8";
    let nothing = format!("c0{}", "00".repeat(47));
    let mut text = String::from("4096\n65\n");
    for i in 0..4096 {
        text.push_str(if i == 0 { g1 } else { &nothing });
        text.push('\n');
    }
    for _ in 0..65 {
        text.push_str(g2);
        text.push('\n');
    }
    for _ in 0..4096 {
        text.push_str(g1);
        text.push('\n');
    }
    text
}

#[test]
fn test_kzg_versioned_hash_is_versioned() {
    let blob = empty_blob();
    let canonical = packed_blob_to_canonical(&blob);
    let kvh = kzg_versioned_hash(&canonical, &setup(), "s").expect("versioned hash over empty blob");
    assert_eq!(kvh[0], 0x01, "versioned hash must carry the 0x01 version byte");
    assert!(kvh[1..].iter().any(|&b| b != 0), "versioned hash tail is degenerate");
    // Every setup commits to the empty blob by the point at infinity.
    assert_eq!(
        kvh[..8],
        [0x01, 0x06, 0x57, 0xf3, 0x75, 0x54, 0xc7, 0x81]
    );
    assert_eq!(DEFAULT_TRUSTED_SETUP_PATH, "bench/assets/trusted_setup.txt");
}

#[test]
fn commitments_follow_the_blob() {
    let setup = setup();
    let mut blob = empty_blob();
    blob[30] = 1;
    let kvh = kzg_versioned_hash(&packed_blob_to_canonical(&blob), &setup, "s").unwrap();
    let generator = [
        0x97, 0xf1, 0xd3, 0xa7, 0x31, 0x97, 0xd7, 0x94, 0x26, 0x95, 0x63, 0x8c, 0x4f, 0xa9, 0xac,
        0x0f, 0xc3, 0x68, 0x8c, 0x4f, 0x97, 0x74, 0xb9, 0x05, 0xa1, 0x4e, 0x3a, 0x3f, 0x17, 0x1b,
        0xac, 0x58, 0x6c, 0x55, 0xe8, 0x3f, 0xf9, 0x7a, 0x1a, 0xef, 0xfb, 0x3a, 0xf0, 0x0a, 0xdb,
        0x22, 0xc6, 0xbb,
    ];
    assert_eq!(kvh, versioned_hash(&generator));
}

#[test]
fn unreadable_setups_and_blobs_are_refused() {
    let blob = packed_blob_to_canonical(&empty_blob());
    for text in ["", "4096\n64\n", "4096 65", "x"] {
        let e = kzg_versioned_hash(&blob, &text.as_bytes().to_vec(), "a/setup.txt").unwrap_err();
        assert_eq!(e.step, KzgStep::Setup);
        assert_eq!(
            e.message(),
            "the public Ethereum KZG ceremony trusted setup must exist at a/setup.txt \
             (see docs/decisions/ADR-0005)"
        );
        assert_eq!(
            e.cause().unwrap(),
            "load trusted setup from a/setup.txt: \
             InvalidTrustedSetup(\"Invalid trusted setup: C_KZG_BADARGS\")"
        );
    }
    let no_points = setup_text().replace("97f1", "07f1").into_bytes();
    let e = kzg_versioned_hash(&blob, &no_points, "p").unwrap_err();
    assert_eq!(
        (e.step, e.detail.as_str()),
        (KzgStep::Setup, "InvalidTrustedSetup(\"Invalid trusted setup: C_KZG_BADARGS\")")
    );
    let setup = setup();
    let e = kzg_versioned_hash(&vec![0u8; 31], &setup, "p").unwrap_err();
    assert_eq!(
        e.message(),
        "c-kzg Blob::from_bytes: \
         InvalidBytesLength(\"Invalid byte length. Expected 131072 got 31\")"
    );
    assert_eq!(e.cause(), None);
    let mut out_of_range = blob.clone();
    for b in out_of_range[..32].iter_mut() {
        *b = 0xff;
    }
    let e = kzg_versioned_hash(&out_of_range, &setup, "p").unwrap_err();
    assert_eq!(e.message(), "c-kzg blob_to_kzg_commitment: CError(C_KZG_BADARGS)");
}

#[test]
fn setups_may_be_laid_out_in_any_way() {
    let mut blob = empty_blob();
    blob[30] = 1;
    let canonical = packed_blob_to_canonical(&blob);
    let expected = kzg_versioned_hash(&canonical, &setup(), "s").unwrap();
    let text = setup_text();
    let lines: Vec<&str> = text.lines().collect();
    let layouts = [
        format!("\n {}\u{b} and the rest", lines.join("\r\n\t")),
        format!("04096 65 {}", lines[2..].concat()).replace("97f1d3", "97\nF1 D3"),
    ];
    for layout in layouts {
        let got = kzg_versioned_hash(&canonical, &layout.into_bytes(), "s");
        assert_eq!(got, Ok(expected));
    }
    let points = read_setup(&text.replace("97f1d3", "97f1d 3").into_bytes()).unwrap();
    assert_eq!(&points.g1_lagrange[..5], &[0x97, 0xf1, 0x0d, 0x3a, 0x73]);
    assert!(read_setup(&text[..text.len() - 3].as_bytes().to_vec()).is_none());
    assert!(read_setup(&text.replace("4096\n65", "4096\n-65").into_bytes()).is_none());
}

#[test]
fn canonical_blobs_have_a_zero_in_front_of_every_element() {
    let packed: Vec<u8> = (0..BLOB_DATA_BYTES_COUNT).map(|i| (i % 251) as u8).collect();
    let canonical = packed_blob_to_canonical(&packed);
    assert_eq!(canonical.len(), 131_072);
    for i in [0usize, 1, 17, 4095] {
        assert_eq!(canonical[32 * i], 0);
        assert_eq!(canonical[32 * i + 1..32 * i + 32], packed[31 * i..31 * i + 31]);
    }
}

#[test]
fn digests_are_sha256() {
    assert_eq!(proof_digest(b"abc"), "ba7816bf8f01cfea");
    assert_eq!(versioned_hash(b"abc")[..4], [0x01, 0x78, 0x16, 0xbf]);
    let mut full = [0xabu8; 32];
    full[7] = 0x05;
    assert_eq!(short_hex(&full), "ababababababab05");
    assert_eq!(with_version(full)[..2], [0x01, 0xab]);
}

#[test]
fn market_slots_are_written_in_place() {
    let mut blob = empty_blob();
    assert_eq!(blob.len(), 126_976);
    assert!(blob.iter().all(|b| *b == 0));
    write_mark_price(&mut blob, 3, 0x0102_0304);
    assert_eq!(blob[BLOB_MARK_PRICE_INDEX + 12..BLOB_MARK_PRICE_INDEX + 16], [1, 2, 3, 4]);
    write_quote_multiplier(&mut blob, 254, 0xabcd);
    let at = BLOB_QUOTE_MULTIPLIER_INDEX + 508;
    assert_eq!(blob[at..at + 2], [0xab, 0xcd]);
    assert_eq!(at + 2, BLOB_ACCOUNT_OFFSET);
    assert_eq!(blob.iter().filter(|b| **b != 0).count(), 6);
    let market = empty_market_limbs();
    assert_eq!(market.len(), 255);
    assert!(market.iter().all(|m| *m == MarketLimbs::default()));
}

#[test]
fn market_slots_are_written_in_any_order() {
    let mut a = empty_blob();
    write_mark_price(&mut a, 1, 77);
    write_mark_price(&mut a, 2, 88);
    write_quote_multiplier(&mut a, 1, 5);
    let mut b = empty_blob();
    write_quote_multiplier(&mut b, 1, 5);
    write_mark_price(&mut b, 2, 88);
    write_mark_price(&mut b, 1, 77);
    assert_eq!(a, b);
    assert!(a[..BLOB_MARK_PRICE_INDEX].iter().all(|x| *x == 0));
    assert!(a[BLOB_ACCOUNT_OFFSET..].iter().all(|x| *x == 0));
}

#[test]
fn reserved_bytes_are_read_big_endian() {
    let mut blob = empty_blob();
    blob[0] = 1;
    blob[1] = 2;
    blob[2] = 3;
    blob[33] = 4;
    assert_eq!(
        version_and_reserved_bytes_hash(&blob, &sponge),
        sponge(&vec![0x0102, 0x0300_0000, 0, 0, 0, 0, 0, 0, 4])
    );
}

#[test]
fn market_data_is_read_by_kind() {
    let m = |n: u64| MarketLimbs {
        mark_price: n,
        funding_is_negative: n == 2,
        funding_limb_hi: n + 10,
        funding_limb_lo: n + 20,
        quote_multiplier: n + 30,
    };
    assert_eq!(
        market_data_hash(&vec![m(1), m(2)], &sponge),
        sponge(&vec![1, 2, 0, 11, 21, 1, 12, 22, 31, 32])
    );
}

#[test]
fn account_leaves_are_read_seven_bytes_at_a_time() {
    let mut blob = empty_blob();
    blob[BLOB_ACCOUNT_OFFSET] = 1;
    blob[BLOB_ACCOUNT_OFFSET + 13] = 2;
    blob[BLOB_DATA_BYTES_COUNT - 1] = 3;
    let mut limbs = vec![0u64; 17_589];
    limbs[0] = 1 << 48;
    limbs[1] = 2;
    // One byte is left over for the last element.
    limbs[17_588] = 3;
    assert_eq!(blob_pub_data_hash(&blob, &sponge), sponge(&limbs));
    let root = HashOut { e0: 1, e1: 2, e2: 3, e3: 4 };
    assert_eq!(
        wrapper_delta_evaluation_point(&blob, root, &sponge, &two),
        two(sponge(&limbs), root)
    );
}

#[test]
fn blob_data_is_compressed_from_the_left() {
    let blob = empty_blob();
    let market = empty_market_limbs();
    let root = HashOut { e0: 1, e1: 2, e2: 3, e3: 4 };
    let reserved = version_and_reserved_bytes_hash(&blob, &sponge);
    let prices = market_data_hash(&market, &sponge);
    assert_eq!(
        blob_data_hash(&blob, &market, root, &sponge, &two),
        two(two(reserved, prices), root)
    );
}

#[test]
fn opening_points_are_reduced() {
    let max = HashOut { e0: u64::MAX, e1: u64::MAX, e2: u64::MAX, e3: u64::MAX };
    let x = pce_evaluation_point(HashOut::zero(), &[0u8; 32], &|_: &Vec<u64>| max);
    let all_ones = (BigUint::from(1u32) << 256u32) - BigUint::from(1u32);
    assert_eq!(BigUint::new(x.digits.clone()), all_ones % order());
    let small = pce_evaluation_point(HashOut::zero(), &[5u8; 32], &|v: &Vec<u64>| {
        assert_eq!(v.len(), 36);
        HashOut { e0: v[4], e1: 1, e2: 0, e3: 0 }
    });
    assert_eq!(small.digits, vec![5, 0, 1]);
    assert_eq!(scalar_to_be32(&small)[23..], [1, 0, 0, 0, 0, 0, 0, 0, 5]);
    assert_eq!(scalar_to_be32(&scalar(&BigUint::from(0u32))), [0u8; 32]);
}

#[test]
fn roots_are_read_from_their_list() {
    let read = brp_roots_of_unity("1,0,52435875175126190479447740508185965837690552500527637822603658699938581184514");
    assert_eq!(read.len(), 3);
    assert_eq!(read[0].digits, vec![1]);
    assert!(read[1].digits.is_empty());
    // One more than the order.
    assert_eq!(read[2].digits, vec![1]);
}

#[test]
fn blob_elements_are_read_big_endian() {
    let mut blob = empty_blob();
    blob[30] = 9;
    blob[31] = 1;
    let scalars = packed_blob_to_scalars(&blob);
    assert_eq!(scalars.len(), 4096);
    assert_eq!(scalars[0].digits, vec![9]);
    assert_eq!(BigUint::new(scalars[1].digits.clone()), BigUint::from(1u32) << 240u32);
}

#[test]
fn constant_polynomials_are_constant() {
    let roots = roots();
    let c = scalar(&BigUint::from(42u32));
    let blob: Vec<Scalar> = (0..BLOB_WIDTH).map(|_| c.clone()).collect();
    let x = scalar(&BigUint::from(123_456_789u32));
    assert_eq!(eval_blob_polynomial(&blob, &x, &roots).digits, vec![42]);
}

#[test]
fn the_identity_is_evaluated_to_its_argument() {
    let roots = roots();
    let x = scalar(&((BigUint::from(1u32) << 200u32) + BigUint::from(17u32)));
    assert_eq!(eval_blob_polynomial(&roots, &x, &roots).digits, x.digits);
}

#[test]
fn polynomials_at_a_root_are_the_element() {
    let roots = roots();
    let blob: Vec<Scalar> = (0..BLOB_WIDTH).map(|i| scalar(&BigUint::from(i))).collect();
    let y = eval_blob_polynomial(&blob, &roots[77], &roots);
    assert_eq!(y.digits, vec![77]);
}

#[test]
fn wrapper_inputs_carry_the_opening() {
    let roots = roots();
    let setup = setup();
    let market = empty_market_limbs();
    let root = HashOut { e0: 1, e1: 2, e2: 3, e3: 4 };
    let input =
        build_wrapper_input(empty_blob(), &market, root, [9u8; 32], &setup, "s", &roots, &sponge, &two)
            .unwrap();
    assert_eq!(input.batch_commitment, [9u8; 32]);
    assert_eq!(input.kzg_versioned_hash[0], 1);
    assert_eq!(input.blob_bytes, empty_blob());
    let (x, y) = compute_pce_opening(
        &empty_blob(),
        &market,
        root,
        &input.kzg_versioned_hash,
        &roots,
        &sponge,
        &two,
    );
    assert_eq!(input.blob_polynomial_opening_x, x);
    assert_eq!(input.blob_polynomial_opening_y, y);
    assert_ne!(x, [0u8; 32]);
    // The empty blob is the zero polynomial.
    assert_eq!(y, [0u8; 32]);
    assert!(build_wrapper_input(
        empty_blob(),
        &market,
        root,
        [9u8; 32],
        &b"no setup".to_vec(),
        "s",
        &roots,
        &sponge,
        &two
    )
    .is_err());
}

#[test]
fn blob_evaluations_carry_their_market_details() {
    let roots = roots();
    let root = HashOut { e0: 1, e1: 2, e2: 3, e3: 4 };
    let evaluation = build_blob_evaluation(
        empty_blob(),
        &empty_market_limbs(),
        root,
        vec!["detail".to_string()],
        &setup(),
        "s",
        &roots,
        &sponge,
        &two,
    )
    .unwrap();
    assert_eq!(evaluation.account_delta_tree_root, root);
    assert_eq!(evaluation.public_market_details, vec!["detail".to_string()]);
    assert_eq!(evaluation.blob_polynomial_opening_y, [0u8; 32]);
}

#[test]
fn signed_numbers_have_sign_and_magnitude() {
    let n = SignedBig::from_i128(-0x1_0000_0002);
    assert_eq!((n.sign, n.digits), (-1, vec![2, 1]));
    let z = SignedBig::from_i128(0);
    assert_eq!((z.sign, z.digits), (0, vec![]));
    let p = SignedBig::from_i128(7);
    assert_eq!((p.sign, p.digits), (1, vec![7]));
}
