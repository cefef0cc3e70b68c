use prio_field::field::{Field32, Field64, FieldElement, FieldError};
use prio_field::field::rand;
use prio_field::util::{
    deserialize, elements_from_integers, proof_length, reconstruct_shares, serialize,
    unpack_proof, unpack_proof_mut, vector_with_length, SerializeError,
};

fn secret_share(share: &mut [Field32]) -> Vec<Field32> {
    let share2 = rand::<Field32>(share.len()).unwrap();
    for (f1, f2) in share.iter_mut().zip(share2.iter()) {
        *f1 = f1.sub(f2);
    }
    share2
}

#[test]
fn test_unpack_share_mut() {
    let dim = 15;
    let len = proof_length(dim);

    let mut share = vec![Field32::from_integer(0); len];
    let unpacked = unpack_proof_mut(&mut share, dim).unwrap();
    *unpacked.f0 = Field32::from_integer(12);
    assert_eq!(share[dim], Field32::from_integer(12));

    let mut short_share = vec![Field32::from_integer(0); len - 1];
    assert!(matches!(
        unpack_proof_mut(&mut short_share, dim),
        Err(SerializeError::UnpackInputSizeMismatch)
    ));
}

#[test]
fn test_unpack_share() {
    let dim = 15;
    let len = proof_length(dim);

    let share = vec![Field64::from_integer(0); len];
    unpack_proof(&share, dim).unwrap();

    let short_share = vec![Field64::from_integer(0); len - 1];
    assert!(matches!(
        unpack_proof(&short_share, dim),
        Err(SerializeError::UnpackInputSizeMismatch)
    ));
}

#[test]
fn secret_sharing() {
    let mut share1 = vec![Field32::zero(); 10];
    share1[3] = Field32::from_integer(21);
    share1[8] = Field32::from_integer(123);

    let original_data = share1.clone();

    let share2 = secret_share(&mut share1);

    let reconstructed = reconstruct_shares(&share1, &share2).unwrap();
    assert_eq!(reconstructed, original_data);
}

#[test]
fn serialization() {
    let field = [Field32::from_integer(1), Field32::from_integer(0x99997)];
    let bytes = serialize(&field);
    let field_deserialized = deserialize::<Field32>(&bytes).unwrap();
    assert_eq!(field_deserialized, field);
}

#[test]
fn proof_length_values() {
    assert_eq!(proof_length(15), 34);
    assert_eq!(proof_length(0), 4);
    assert_eq!(proof_length(16), 16 + 3 + 32);
    assert_eq!(proof_length(3), 3 + 3 + 4);
}

#[test]
fn proof_layout_round_trip() {
    let dim = 15;
    let mut proof = vector_with_length::<Field32>(proof_length(dim));
    assert_eq!(proof.len(), 34);
    {
        let u = unpack_proof_mut(&mut proof, dim).unwrap();
        *u.f0 = Field32::from_integer(12);
        *u.g0 = Field32::from_integer(13);
        *u.h0 = Field32::from_integer(14);
        u.data[2] = Field32::from_integer(7);
        u.points_h_packed[15] = Field32::from_integer(99);
        assert_eq!(u.data.len(), 15);
        assert_eq!(u.points_h_packed.len(), 16);
    }
    for (i, x) in proof.iter().enumerate() {
        let want = match i {
            2 => 7,
            15 => 12,
            16 => 13,
            17 => 14,
            33 => 99,
            _ => 0,
        };
        assert_eq!(*x, Field32::from_integer(want));
    }
    let v = unpack_proof(&proof, dim).unwrap();
    assert_eq!(*v.f0, Field32::from_integer(12));
    assert_eq!(*v.g0, Field32::from_integer(13));
    assert_eq!(*v.h0, Field32::from_integer(14));
    assert_eq!(v.data[2], Field32::from_integer(7));
    assert_eq!(v.points_h_packed[15], Field32::from_integer(99));
}

#[test]
fn reconstruct_mismatched_lengths() {
    let a = vec![Field32::one(); 3];
    let b = vec![Field32::one(); 4];
    assert!(reconstruct_shares(&a, &b).is_none());
    assert_eq!(reconstruct_shares(&a, &a).unwrap(), vec![Field32::from_integer(2); 3]);
}

#[test]
fn serialized_bytes_layout() {
    let bytes = serialize(&[Field32::from_integer(0x0201)]);
    let mut want = vec![1u8, 0, 0, 0, 0, 0, 0, 0, 1, 2];
    want.extend_from_slice(&[0u8; 14]);
    assert_eq!(bytes, want);
}

#[test]
fn deserialize_errors() {
    assert!(matches!(deserialize::<Field32>(&[1, 0, 0]), Err(SerializeError::Bincode(_))));
    let too_big = serialize(&[Field64::from_integer(5)]);
    let mut bytes = too_big.clone();
    bytes[8..24].copy_from_slice(&[0xff; 16]);
    assert!(matches!(
        deserialize::<Field64>(&bytes),
        Err(SerializeError::Field(FieldError::FromBytesModulusOverflow))
    ));
    assert_eq!(
        elements_from_integers::<Field32>(&[4293918721]),
        Err(FieldError::FromBytesModulusOverflow)
    );
    assert_eq!(
        elements_from_integers::<Field32>(&[4293918720, 0]).unwrap(),
        vec![Field32::from_integer(4293918720), Field32::zero()]
    );
}

#[test]
fn writing_f0_leaves_other_positions_zero() {
    let dim = 15;
    let mut share = vec![Field32::from_integer(0); proof_length(dim)];
    assert_eq!(share.len(), 34);
    {
        let unpacked = unpack_proof_mut(&mut share, dim).unwrap();
        *unpacked.f0 = Field32::from_integer(12);
    }
    for (i, x) in share.iter().enumerate() {
        let want = if i == 15 { 12 } else { 0 };
        assert_eq!(x.to_integer(), want);
    }
}

#[test]
fn random_vectors_are_not_constant() {
    let v = rand::<Field64>(32).unwrap();
    assert!(v.iter().any(|x| *x != v[0]));
}

#[test]
fn deserialize_round_trip_extremes() {
    let data = [Field32::zero(), Field32::one(), Field32::from_integer(4293918720)];
    let mut bytes = serialize(&data);
    assert_eq!(deserialize::<Field32>(&bytes).unwrap(), data.to_vec());
    bytes.extend_from_slice(&[7, 7, 7]);
    assert_eq!(deserialize::<Field32>(&bytes).unwrap(), data.to_vec());
    assert!(deserialize::<Field32>(&bytes[..bytes.len() - 4]).is_err());
}
