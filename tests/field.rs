use prio_field::field::{
    merge_vector, rand, split, split_with_masks, Field126, Field32, Field64, Field80, FieldElement,
    FieldError, MAX_ROOTS,
};
use prio_field::prng::random_element;
use prio_field::util::reconstruct_shares;

fn elem<F: FieldElement>(x: u128) -> F {
    F::from_integer(x)
}

#[test]
fn test_accumulate() {
    let mut lhs = vec![Field32::zero(); 10];
    lhs.iter_mut().for_each(|f| *f = Field32::from_integer(1));
    let mut rhs = vec![Field32::zero(); 10];
    rhs.iter_mut().for_each(|f| *f = Field32::from_integer(2));

    merge_vector(&mut lhs, &rhs).unwrap();

    lhs.iter().for_each(|f| assert_eq!(*f, Field32::from_integer(3)));
    rhs.iter().for_each(|f| assert_eq!(*f, Field32::from_integer(2)));

    let wrong_len = vec![Field32::zero(); 9];
    let result = merge_vector(&mut lhs, &wrong_len);
    assert!(matches!(result, Err(FieldError::InputSizeMismatch)));
}

fn field_element_test<F: FieldElement>() {
    let int_modulus = F::modulus();
    let int_one = 1u128;
    let zero = F::zero();
    let one = F::one();
    let two = elem::<F>(2);
    let four = elem::<F>(4);

    // add
    assert_eq!(elem::<F>(int_modulus - int_one).add(&one), zero);
    assert_eq!(one.add(&one), two);
    assert_eq!(two.add(&elem::<F>(int_modulus)), two);

    // sub
    assert_eq!(zero.sub(&one), elem::<F>(int_modulus - int_one));
    assert_eq!(one.sub(&one), zero);
    assert_eq!(two.sub(&elem::<F>(int_modulus)), two);
    assert_eq!(one.sub(&elem::<F>(int_modulus - int_one)), two);

    // add + sub
    for _ in 0..100 {
        let f = random_element::<F>().unwrap();
        let g = random_element::<F>().unwrap();
        assert_eq!(f.add(&g).sub(&f).sub(&g), zero);
        assert_eq!(f.add(&g).sub(&g), f);
        assert_eq!(f.add(&g).sub(&f), g);
    }

    // mul
    assert_eq!(two.mul(&two), four);
    assert_eq!(two.mul(&one), two);
    assert_eq!(two.mul(&zero), zero);
    assert_eq!(one.mul(&elem::<F>(int_modulus)), zero);

    // div
    assert_eq!(four.div(&two), two);
    assert_eq!(two.div(&two), one);
    assert_eq!(zero.div(&two), zero);
    assert_eq!(two.div(&zero), zero); // Undefined behavior
    assert_eq!(zero.inv(), zero); // Undefined behavior

    // mul + div
    for _ in 0..100 {
        let f = random_element::<F>().unwrap();
        if f == zero {
            println!("skipped zero");
            continue;
        }
        assert_eq!(f.mul(&f.inv()), one);
        assert_eq!(f.inv().mul(&f), one);
    }

    // pow
    assert_eq!(two.pow(0), one);
    assert_eq!(two.pow(int_one), two);
    assert_eq!(two.pow(2), four);
    assert_eq!(two.pow(int_modulus - int_one), one);
    assert_eq!(two.pow(int_modulus), two);

    // roots
    let mut int_order = F::generator_order();
    for l in 0..MAX_ROOTS + 1 {
        assert_eq!(
            F::generator().pow(int_order),
            F::root(l).unwrap(),
            "failure for F::root({})",
            l
        );
        int_order = int_order >> int_one;
    }

    // serialization
    let test_inputs = vec![
        zero,
        one,
        random_element::<F>().unwrap(),
        elem::<F>(int_modulus - int_one),
    ];
    for want in test_inputs.iter() {
        let mut bytes = vec![];
        want.append_to(&mut bytes);
        let got = F::read_from(&bytes).unwrap();
        assert_eq!(got, *want);
        assert_eq!(bytes.len(), F::BYTES);
    }
}

#[test]
fn test_field32() {
    field_element_test::<Field32>();
}

#[test]
fn test_field64() {
    field_element_test::<Field64>();
}

#[test]
fn test_field80() {
    field_element_test::<Field80>();
}

#[test]
fn test_field126() {
    field_element_test::<Field126>();
}

#[test]
fn moduli_and_orders() {
    assert_eq!(Field32::modulus(), 4293918721);
    assert_eq!(Field64::modulus(), 15564440312192434177);
    assert_eq!(Field80::modulus(), 779190469673491460259841);
    assert_eq!(Field126::modulus(), 74769074762901517850839147140769382401);
    assert_eq!(Field32::generator_order(), 1 << 20);
    assert_eq!(Field64::generator_order(), 1 << 59);
    assert_eq!(Field80::generator_order(), 1 << 72);
    assert_eq!(Field126::generator_order(), 1 << 118);
    assert_eq!((Field32::BYTES, Field64::BYTES, Field80::BYTES, Field126::BYTES), (4, 8, 10, 16));
}

#[test]
fn roots_beyond_the_table_are_absent() {
    assert!(Field32::root(MAX_ROOTS + 1).is_none());
    assert!(Field126::root(MAX_ROOTS + 1).is_none());
    assert_eq!(Field32::root(0).unwrap(), Field32::one());
    // the square root of unity of order two is -1
    assert_eq!(Field64::root(1).unwrap(), Field64::one().neg());
}

#[test]
fn generator_has_exact_order() {
    let g = Field80::generator();
    let half = Field80::generator_order() >> 1;
    assert_eq!(g.pow(half), Field80::one().neg());
    assert_eq!(g.pow(half << 1), Field80::one());
}

#[test]
fn exact_arithmetic_values() {
    let a = Field32::from_integer(4293918720);
    assert_eq!(a.mul(&a), Field32::one());
    assert_eq!(Field32::from_integer(3).neg().to_integer(), 4293918718);
    assert_eq!(Field32::from_integer(7).pow(3).to_integer(), 343);
    assert_eq!(Field32::from_integer(4293918721 + 5).to_integer(), 5);
    let big = Field126::from_integer(1 << 125);
    assert_eq!(
        big.mul(&Field126::from_integer(2)).to_integer(),
        (1u128 << 126) - 74769074762901517850839147140769382401
    );
    assert_eq!(Field64::from_integer(3).inv().mul(&Field64::from_integer(3)), Field64::one());
}

#[test]
fn byte_encoding_is_little_endian() {
    let mut out = vec![9u8];
    Field80::from_integer(0x0102).append_to(&mut out);
    assert_eq!(out, vec![9, 2, 1, 0, 0, 0, 0, 0, 0, 0, 0]);
    assert_eq!(Field32::read_from(&[1, 2, 3, 4, 99]).unwrap().to_integer(), 0x04030201);
}

#[test]
fn read_errors() {
    assert_eq!(Field64::read_from(&[1, 2, 3]), Err(FieldError::FromBytesShortRead));
    assert_eq!(Field32::read_from(&[0xff; 4]), Err(FieldError::FromBytesModulusOverflow));
    assert_eq!(Field32::read_from(&[1, 0, 0xf0, 0xff]), Err(FieldError::FromBytesModulusOverflow));
    assert_eq!(Field32::read_from(&[0, 0, 0xf0, 0xff]).unwrap().to_integer(), 4293918720);
    assert_eq!(Field32::try_from_random(&[1, 2]), Err(FieldError::FromBytesShortRead));
}

#[test]
fn random_bytes_are_masked() {
    // 0xff.. in 16 bytes masks to 2^126 - 1, which is above the modulus
    assert_eq!(Field126::try_from_random(&[0xff; 16]), Err(FieldError::FromBytesModulusOverflow));
    let mut bytes = vec![5u8];
    bytes.extend_from_slice(&[0u8; 14]);
    bytes.push(0xc0);
    assert_eq!(Field126::try_from_random(&bytes).unwrap().to_integer(), 5);
    assert_eq!(Field126::read_from(&bytes), Err(FieldError::FromBytesModulusOverflow));
}

#[test]
fn rand_gives_requested_length() {
    let v = rand::<Field64>(17).unwrap();
    assert_eq!(v.len(), 17);
    assert!(rand::<Field32>(0).unwrap().is_empty());
}

#[test]
fn split_reconstructs_input() {
    let inp: Vec<Field80> = (0..7).map(|i| Field80::from_integer(i * 1000 + 3)).collect();
    for num_shares in 1..5 {
        let shares = split(&inp, num_shares).unwrap();
        assert_eq!(shares.len(), num_shares);
        let mut acc = vec![Field80::zero(); inp.len()];
        for s in shares.iter() {
            assert_eq!(s.len(), inp.len());
            merge_vector(&mut acc, s).unwrap();
        }
        assert_eq!(acc, inp);
    }
    assert!(split(&inp, 0).unwrap().is_empty());
}

#[test]
fn split_with_masks_exact() {
    let inp = vec![Field32::from_integer(10), Field32::from_integer(0)];
    let masks = vec![
        vec![Field32::from_integer(3), Field32::from_integer(1)],
        vec![Field32::from_integer(4), Field32::from_integer(2)],
    ];
    let shares = split_with_masks(&inp, masks.clone());
    assert_eq!(shares.len(), 3);
    assert_eq!(shares[0], vec![Field32::from_integer(3), Field32::from_integer(4293918718)]);
    assert_eq!(shares[1], masks[0]);
    assert_eq!(shares[2], masks[1]);
    let two = reconstruct_shares(&shares[0], &shares[1]).unwrap();
    assert_eq!(reconstruct_shares(&two, &shares[2]).unwrap(), inp);
}
