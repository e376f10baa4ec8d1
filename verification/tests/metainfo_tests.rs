use rustorrent::bencode::{dict_insert, BencodeString, BencodeValue};
use rustorrent::metainfo::{Info, MetaInfoError, Metainfo};
use sha1::{Digest, Sha1};

fn single_file_torrent() -> BencodeValue {
    let mut info: Vec<(String, BencodeValue)> = Vec::new();
    dict_insert(&mut info, "length".to_string(), BencodeValue::Int(16384));
    dict_insert(
        &mut info,
        "name".to_string(),
        BencodeValue::String(BencodeString::String("foo.bin".to_string())),
    );
    dict_insert(&mut info, "piece length".to_string(), BencodeValue::Int(16384));
    dict_insert(
        &mut info,
        "pieces".to_string(),
        BencodeValue::String(BencodeString::Bytes(vec![0xAB; 20])),
    );
    let mut top: Vec<(String, BencodeValue)> = Vec::new();
    dict_insert(
        &mut top,
        "announce".to_string(),
        BencodeValue::String(BencodeString::String(
            "http://tracker.example/announce".to_string(),
        )),
    );
    dict_insert(&mut top, "creation date".to_string(), BencodeValue::Int(1000000000));
    dict_insert(&mut top, "info".to_string(), BencodeValue::Dict(info));
    BencodeValue::Dict(top)
}

#[test]
fn test_single_file_metainfo() {
    let m = Metainfo::new(single_file_torrent()).unwrap();
    assert_eq!(m.announce, "http://tracker.example/announce");
    assert_eq!(m.creation_date, Some(1000000000));
    match &m.info {
        Info::SingleFile(f) => {
            assert_eq!(f.name, "foo.bin");
            assert_eq!(f.length, 16384);
            assert_eq!(f.base_info.piece_length, 16384);
            assert_eq!(f.base_info.pieces, vec![0xAB; 20]);
        }
        _ => panic!("expected a single-file torrent"),
    }
}

#[test]
fn test_multi_file_metainfo() {
    let mut file1: Vec<(String, BencodeValue)> = Vec::new();
    dict_insert(&mut file1, "length".to_string(), BencodeValue::Int(10000));
    dict_insert(
        &mut file1,
        "path".to_string(),
        BencodeValue::List(vec![BencodeValue::String(BencodeString::String(
            "a.bin".to_string(),
        ))]),
    );
    let mut file2: Vec<(String, BencodeValue)> = Vec::new();
    dict_insert(&mut file2, "length".to_string(), BencodeValue::Int(6384));
    dict_insert(
        &mut file2,
        "path".to_string(),
        BencodeValue::List(vec![
            BencodeValue::String(BencodeString::String("sub".to_string())),
            BencodeValue::String(BencodeString::String("b.bin".to_string())),
        ]),
    );
    let mut info: Vec<(String, BencodeValue)> = Vec::new();
    dict_insert(
        &mut info,
        "files".to_string(),
        BencodeValue::List(vec![BencodeValue::Dict(file1), BencodeValue::Dict(file2)]),
    );
    dict_insert(
        &mut info,
        "name".to_string(),
        BencodeValue::String(BencodeString::String("dir".to_string())),
    );
    dict_insert(&mut info, "piece length".to_string(), BencodeValue::Int(16384));
    dict_insert(
        &mut info,
        "pieces".to_string(),
        BencodeValue::String(BencodeString::Bytes(vec![0x11; 20])),
    );
    let mut top: Vec<(String, BencodeValue)> = Vec::new();
    dict_insert(
        &mut top,
        "announce".to_string(),
        BencodeValue::String(BencodeString::String("http://t/a".to_string())),
    );
    dict_insert(&mut top, "info".to_string(), BencodeValue::Dict(info));

    let m = Metainfo::new(BencodeValue::Dict(top)).unwrap();
    match &m.info {
        Info::MultiFile(f) => {
            assert_eq!(f.name, "dir");
            assert_eq!(f.files.len(), 2);
            assert_eq!(f.files[0].length, 10000);
            assert_eq!(f.files[0].path, vec!["a.bin".to_string()]);
            assert_eq!(f.files[1].length, 6384);
            assert_eq!(f.files[1].path, vec!["sub".to_string(), "b.bin".to_string()]);
        }
        _ => panic!("expected a multi-file torrent"),
    }
}

#[test]
fn test_info_hash_matches_reference_digest() {
    let torrent = single_file_torrent();
    let expected = {
        let info = torrent.get_value("info").unwrap();
        let mut h = Sha1::new();
        h.update(info.encode());
        h.finalize().to_vec()
    };
    let m = Metainfo::new(torrent).unwrap();
    assert_eq!(m.get_info_hash().unwrap(), expected);
}

#[test]
fn test_metainfo_rejects_bad_documents() {
    assert!(matches!(
        Metainfo::new(BencodeValue::Int(3)),
        Err(MetaInfoError::InvalidBencodeValue)
    ));

    let mut top: Vec<(String, BencodeValue)> = Vec::new();
    dict_insert(&mut top, "announce".to_string(), BencodeValue::Int(1));
    match Metainfo::new(BencodeValue::Dict(top)) {
        Err(MetaInfoError::InvalidAttribute(e)) => assert_eq!(e.attribute, "announce"),
        _ => panic!("expected an announce error"),
    }

    let mut top: Vec<(String, BencodeValue)> = Vec::new();
    dict_insert(
        &mut top,
        "announce".to_string(),
        BencodeValue::String(BencodeString::String("http://t/a".to_string())),
    );
    match Metainfo::new(BencodeValue::Dict(top)) {
        Err(MetaInfoError::InvalidAttribute(e)) => assert_eq!(e.attribute, "info"),
        _ => panic!("expected an info error"),
    }
}
