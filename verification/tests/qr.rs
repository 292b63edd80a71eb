use paperback_core::v0::pdf::qr::{
    generate_codes, generate_one_code, split_data, Joiner, Part, PartMeta, PartType,
    MAX_DATA_LENGTH,
};
use paperback_core::v0::pdf::Error;
use paperback_core::v0::wire::text::{Base, MultibaseError};
use paperback_core::v0::wire::{FromWire, TextError, ToWire, WireError};
use rand::{rngs::OsRng, seq::SliceRandom, RngCore};

fn random_bytes(n: usize) -> Vec<u8> {
    let mut bytes = vec![0u8; n];
    OsRng.fill_bytes(&mut bytes);
    bytes
}

#[test]
fn split_join_qr_parts() {
    for len in [1usize, 2, 604, 605, 606, 1210, 5000] {
        let data = random_bytes(len);
        let mut parts = split_data(PartType::MainDocumentData, &data);
        assert_eq!(parts.len(), (len + MAX_DATA_LENGTH - 1) / MAX_DATA_LENGTH);
        let mut joiner = Joiner::new();
        assert_eq!(joiner.remaining(), None);
        assert!(!joiner.complete());
        parts.shuffle(&mut OsRng);
        let total = parts.len();
        for (i, part) in parts.into_iter().enumerate() {
            assert!(!joiner.complete());
            joiner.add_part(part).unwrap();
            assert_eq!(joiner.remaining(), Some(total - i - 1));
        }
        assert!(joiner.complete());
        assert_eq!(joiner.combine_parts().unwrap(), data);
    }
}

#[test]
fn split_of_nothing() {
    assert!(split_data(PartType::MainDocumentData, &[]).is_empty());
    assert_eq!(Joiner::new().combine_parts(), Ok(vec![]));
}

#[test]
fn parts_of_split_data() {
    let data = random_bytes(700);
    let parts = split_data(PartType::MainDocumentData, &data);
    assert_eq!(parts.len(), 2);
    assert_eq!(parts[0].index(), 0);
    assert_eq!(parts[1].index(), 1);
    assert_eq!(parts[0].data(), &data[..605].to_vec());
    assert_eq!(parts[1].data(), &data[605..].to_vec());
    let meta = PartMeta { version: 0, data_type: PartType::MainDocumentData, num_parts: 2 };
    assert_eq!(parts[0].meta(), meta);
    assert_eq!(parts[1].meta(), meta);
}

#[test]
fn part_wire_roundtrip() {
    let data = random_bytes(700);
    let parts = split_data(PartType::MainDocumentData, &data);
    let wire = parts[1].to_wire();
    assert_eq!(&wire[..6], &[b'P', b'b', 0, b'D', 2, 1]);
    assert_eq!(&wire[6..], &data[605..]);
    let part = Part::from_wire(&wire).unwrap();
    assert_eq!(part.index(), 1);
    assert_eq!(part.data(), parts[1].data());
    assert_eq!(part.meta(), parts[1].meta());
    assert_eq!(PartType::MainDocumentData.to_wire(), vec![b'D']);
    assert_eq!(PartType::from_wire(&[b'D']), Ok(PartType::MainDocumentData));
    assert_eq!(parts[1].meta().to_wire(), vec![0, b'D', 2]);
    assert_eq!(PartMeta::from_wire(&[0, b'D', 2]), Ok(parts[1].meta()));
}

#[test]
fn parts_that_are_none() {
    assert_eq!(Part::from_wire(&[b'P']).unwrap_err(), WireError::Insufficient);
    assert_eq!(Part::from_wire(&[b'P', b'c', 0, b'D', 1, 0]).unwrap_err(), WireError::UnexpectedTag);
    assert_eq!(
        Part::from_wire(&[b'P', b'b', 0, b'E', 1, 0]).unwrap_err(),
        WireError::UnknownPartType
    );
    assert_eq!(Part::from_wire(&[b'P', b'b', 0]).unwrap_err(), WireError::Insufficient);
    assert_eq!(Part::from_wire(&[b'P', b'b', 0, b'D', 1]).unwrap_err(), WireError::Insufficient);
    assert!(Part::from_wire(&[b'P', b'b', 0, b'D', 1, 0]).unwrap().data().is_empty());
}

#[test]
fn joining_qr_codes() {
    let data = random_bytes(1500);
    let parts = split_data(PartType::MainDocumentData, &data);
    let mut joiner = Joiner::new();
    for part in parts.iter().rev() {
        joiner.add_qr_part(&part.to_wire_multibase(Base::Base10)).unwrap();
    }
    assert_eq!(joiner.combine_parts().unwrap(), data);
    assert_eq!(
        joiner.add_qr_part(""),
        Err(Error::ParseQrData(TextError::Multibase(MultibaseError::InvalidBaseString)))
    );
    assert_eq!(
        joiner.add_qr_part("f5062"),
        Err(Error::ParseQrData(TextError::Wire(WireError::Insufficient)))
    );
    assert_eq!(joiner.combine_parts().unwrap(), data);
}

#[test]
fn parts_that_do_not_belong() {
    let data = random_bytes(1500);
    let other = random_bytes(700);
    let parts = split_data(PartType::MainDocumentData, &data);
    let others = split_data(PartType::MainDocumentData, &other);
    let mut joiner = Joiner::new();
    joiner.add_part(parts[2].clone()).unwrap();
    assert_eq!(joiner.remaining(), Some(2));
    assert_eq!(joiner.add_part(others[0].clone()), Err(Error::MismatchedQrCode));
    assert_eq!(joiner.combine_parts(), Err(Error::MissingQrSegment { idx: 0 }));
    joiner.add_part(parts[0].clone()).unwrap();
    assert_eq!(joiner.combine_parts(), Err(Error::MissingQrSegment { idx: 1 }));
    // a part again takes its own place
    joiner.add_part(parts[0].clone()).unwrap();
    assert_eq!(joiner.remaining(), Some(1));
    joiner.add_part(parts[1].clone()).unwrap();
    assert_eq!(joiner.combine_parts().unwrap(), data);
}

#[test]
fn parts_of_another_version() {
    let first = Part::from_wire(&[b'P', b'b', 1, b'D', 2, 0, 7]).unwrap();
    let second = Part::from_wire(&[b'P', b'b', 1, b'D', 2, 1, 8]).unwrap();
    let mut joiner = Joiner::new();
    // the first part sets what the others have to say
    joiner.add_part(first).unwrap();
    assert_eq!(joiner.add_part(second), Err(Error::WrongPaperbackVersion { version: 1 }));
    assert_eq!(joiner.remaining(), Some(1));
}

#[test]
fn part_with_an_index_beyond_the_parts() {
    let part = Part::from_wire(&[b'P', b'b', 0, b'D', 2, 5, 7]).unwrap();
    let mut joiner = Joiner::new();
    assert_eq!(joiner.add_part(part), Err(Error::MismatchedQrCode));
    assert_eq!(joiner.remaining(), Some(2));
}

#[test]
fn codes_of_data() {
    let data = random_bytes(1300);
    let (texts, codes) = generate_codes(PartType::MainDocumentData, &data);
    assert_eq!(texts.len(), 3);
    assert_eq!(codes.len(), 3);
    let mut joiner = Joiner::new();
    for (text, code) in texts.iter().zip(codes.iter()) {
        assert!(text.starts_with('9'));
        assert!(text.chars().all(|c| c.is_ascii_digit()));
        assert_eq!(Part::from_wire_multibase(text).unwrap().to_wire(), *code);
        joiner.add_qr_part(text).unwrap();
    }
    assert_eq!(joiner.combine_parts().unwrap(), data);
    let (text, code) = generate_one_code(&[0, 1, 0]);
    assert_eq!(text, "90256");
    assert_eq!(code, vec![0, 1, 0]);
}
