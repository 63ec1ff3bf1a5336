use mysql_srv::{fullpacket, onepacket, U24_MAX};

type NomResult<'a> = nom::IResult<&'a [u8], (u8, &'a [u8])>;

fn nom_fullpacket(i: &[u8]) -> NomResult<'_> {
    let (i, _) = nom::bytes::complete::tag(&[0xff, 0xff, 0xff][..])(i)?;
    let (i, seq) = nom::bytes::complete::take(1u8)(i)?;
    let (i, bytes) = nom::bytes::complete::take(U24_MAX)(i)?;
    Ok((i, (seq[0], bytes)))
}

fn nom_onepacket(i: &[u8]) -> NomResult<'_> {
    let (i, length) = nom::number::complete::le_u24(i)?;
    let (i, seq) = nom::bytes::complete::take(1u8)(i)?;
    let (i, bytes) = nom::bytes::complete::take(length)(i)?;
    Ok((i, (seq[0], bytes)))
}

fn samples() -> Vec<Vec<u8>> {
    let mut full = vec![0xff, 0xff, 0xff, 3];
    full.extend(vec![7u8; U24_MAX]);
    let mut full_and_more = full.clone();
    full_and_more.extend([0x01, 0, 0, 4, 0x10]);
    let mut short_of_full = full.clone();
    short_of_full.pop();
    vec![
        vec![],
        vec![0x01],
        vec![0x01, 0, 0],
        vec![0x01, 0, 0, 0],
        vec![0x01, 0, 0, 0, 0x10],
        vec![0x01, 0, 0, 0, 0x10, 0x20],
        vec![0x05, 0, 0, 0, 0x10, 0x20],
        vec![0, 0, 0, 9],
        vec![0x00, 0x01, 0x00, 2],
        vec![0xff, 0xff],
        vec![0xff, 0xff, 0xff],
        vec![0xff, 0xff, 0xff, 1, 2, 3],
        vec![0xff, 0xff, 0xfe, 1, 2, 3],
        full,
        full_and_more,
        short_of_full,
    ]
}

#[test]
fn one_packet_agrees_with_the_combinators() {
    for sample in samples() {
        match (onepacket(&sample), nom_onepacket(&sample)) {
            (Ok(ours), Ok(theirs)) => assert_eq!(ours, theirs),
            (Err(_), Err(_)) => {}
            (ours, theirs) => panic!("{:?} against {:?}", ours.is_ok(), theirs.is_ok()),
        }
    }
}

#[test]
fn full_packet_agrees_with_the_combinators() {
    for sample in samples() {
        match (fullpacket(&sample), nom_fullpacket(&sample)) {
            (Ok(ours), Ok(theirs)) => assert_eq!(ours, theirs),
            (Err(_), Err(_)) => {}
            (ours, theirs) => panic!("{:?} against {:?}", ours.is_ok(), theirs.is_ok()),
        }
    }
}
