use minigit::errors::GitError;
use minigit::transfer::{
    build_want_request, head_file_contents, parse_advertisement, parse_upload_pack_response,
    ref_file_contents, select_head_target, HeadResolution, Ref,
};

const H: &str = "ce013625030ba8dba906f756967f9e9ca394464a";

fn pkt(payload: &str) -> Vec<u8> {
    let mut out = format!("{:04x}", payload.len() + 4).into_bytes();
    out.extend(payload.as_bytes());
    out
}

fn advertisement() -> Vec<u8> {
    let mut data = pkt("# service=git-upload-pack\n");
    data.extend(b"0000");
    data.extend(pkt(&format!("{} HEAD\0multi_ack agent=git/2.0\n", H)));
    data.extend(pkt(&format!("{} refs/heads/master\n", H)));
    data.extend(b"0000");
    data
}

#[test]
fn test_parse_advertisement() {
    let data = advertisement();
    let (refs, caps) = parse_advertisement(&data).unwrap();
    assert_eq!(refs.len(), 2);
    assert_eq!(refs[0].name, b"HEAD".to_vec());
    assert_eq!(refs[0].hash, H.as_bytes().to_vec());
    assert_eq!(refs[1].name, b"refs/heads/master".to_vec());
    assert_eq!(caps.len(), 2);
    assert_eq!(caps[0], b"multi_ack".to_vec());
    assert_eq!(caps[1], b"agent=git/2.0".to_vec());
}

#[test]
fn test_advertisement_rejects_bad_service() {
    let mut data = pkt("# service=git-receive-pack\n");
    data.extend(b"0000");
    data.extend(pkt(&format!("{} refs/heads/master\n", H)));
    data.extend(b"0000");
    assert_eq!(parse_advertisement(&data), Err(GitError::ProtocolError));
}

#[test]
fn test_advertisement_rejects_late_capabilities() {
    let mut data = pkt("# service=git-upload-pack\n");
    data.extend(b"0000");
    data.extend(pkt(&format!("{} refs/heads/master\n", H)));
    data.extend(pkt(&format!("{} refs/heads/other\0caps\n", H)));
    data.extend(b"0000");
    assert_eq!(parse_advertisement(&data), Err(GitError::ProtocolError));
}

#[test]
fn test_build_want_request() {
    let refs = vec![
        Ref {
            name: b"HEAD".to_vec(),
            hash: H.as_bytes().to_vec(),
        },
        Ref {
            name: b"refs/heads/master".to_vec(),
            hash: H.as_bytes().to_vec(),
        },
        Ref {
            name: b"refs/tags/v1".to_vec(),
            hash: H.as_bytes().to_vec(),
        },
    ];
    let body = build_want_request(&refs);
    let expected = format!("0042want {}\0agent=git/1.8.1\n00000009done\n0000", H);
    assert_eq!(body, expected.into_bytes());
}

#[test]
fn test_parse_upload_pack_response() {
    let mut data = b"0008NAK\n".to_vec();
    data.extend(b"PACKthe-rest");
    let pack = parse_upload_pack_response(&data).unwrap();
    assert_eq!(pack, b"PACKthe-rest".to_vec());
    let mut bad = b"0008ACK\n".to_vec();
    bad.extend(b"PACKthe-rest");
    assert_eq!(parse_upload_pack_response(&bad), Err(GitError::ProtocolError));
    assert_eq!(
        parse_upload_pack_response(b"0008NAK\n0000"),
        Err(GitError::ProtocolError)
    );
    assert_eq!(
        parse_upload_pack_response(b"0008NAK\n"),
        Err(GitError::BadPktLine)
    );
}

#[test]
fn test_select_head_target_unique() {
    let refs = vec![
        Ref {
            name: b"HEAD".to_vec(),
            hash: H.as_bytes().to_vec(),
        },
        Ref {
            name: b"refs/heads/master".to_vec(),
            hash: H.as_bytes().to_vec(),
        },
        Ref {
            name: b"refs/heads/dev".to_vec(),
            hash: b"1111111111111111111111111111111111111111".to_vec(),
        },
    ];
    assert_eq!(
        select_head_target(&refs),
        HeadResolution::Unique(b"refs/heads/master".to_vec())
    );
}

#[test]
fn test_select_head_target_edges() {
    let head = Ref {
        name: b"HEAD".to_vec(),
        hash: H.as_bytes().to_vec(),
    };
    let master = Ref {
        name: b"refs/heads/master".to_vec(),
        hash: H.as_bytes().to_vec(),
    };
    let other = Ref {
        name: b"refs/heads/other".to_vec(),
        hash: H.as_bytes().to_vec(),
    };
    assert_eq!(
        select_head_target(&vec![head.clone(), master.clone(), other]),
        HeadResolution::Ambiguous
    );
    assert_eq!(
        select_head_target(&vec![head.clone()]),
        HeadResolution::NoMatch
    );
    assert_eq!(select_head_target(&vec![master]), HeadResolution::NoHead);
}

#[test]
fn test_ref_file_contents() {
    assert_eq!(
        ref_file_contents(H.as_bytes()),
        format!("{}\n", H).into_bytes()
    );
    assert_eq!(
        head_file_contents(b"refs/heads/master"),
        b"ref: refs/heads/master\n".to_vec()
    );
}
