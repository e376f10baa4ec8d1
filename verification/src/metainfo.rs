//! The torrent metainfo: the parsed `.torrent` dictionary.

use vstd::prelude::*;

use crate::bencode::{dict_get, BencodeString, BencodeValue};
use crate::sha1sum::sha1_of;

verus! {

/// The fields single- and multi-file torrents share.
#[derive(Debug)]
pub struct BaseInfo {
    pub pieces: Vec<u8>,
    pub piece_length: i64,
    pub private: Option<i64>,
}

/// A torrent holding one file.
#[derive(Debug)]
pub struct SingleFileInfo {
    pub base_info: BaseInfo,
    pub name: String,
    pub length: i64,
    pub md5sum: Option<String>,
}

/// One file of a multi-file torrent: its path components and length.
#[derive(Debug)]
pub struct FileData {
    pub path: Vec<String>,
    pub length: i64,
    pub md5sum: Option<String>,
}

/// A torrent holding a directory of files.
#[derive(Debug)]
pub struct MultiFileInfo {
    pub base_info: BaseInfo,
    pub name: String,
    pub files: Vec<FileData>,
}

/// The `info` dictionary: one file or many.
#[derive(Debug)]
pub enum Info {
    SingleFile(SingleFileInfo),
    MultiFile(MultiFileInfo),
}

/// The whole metainfo file, with the raw document kept for info hashing.
#[derive(Debug)]
pub struct Metainfo {
    pub torrent_content: BencodeValue,
    pub info: Info,
    pub announce: String,
    pub announce_list: Option<Vec<Vec<String>>>,
    pub creation_date: Option<i64>,
    pub comment: Option<String>,
    pub created_by: Option<String>,
    pub encoding: Option<String>,
}

/// A required attribute that is missing or of the wrong shape.
#[derive(Debug)]
pub struct AttributeError {
    pub attribute: String,
}

/// Why a metainfo document was rejected.
#[derive(Debug)]
pub enum MetaInfoError {
    InvalidAttribute(AttributeError),
    InvalidBencodeValue,
}

/// The top-level fields up to the `n`-th, in the order they are read
/// (announce, creation date, comment, created by, encoding), all parse.
pub open spec fn metainfo_head_ok(d: Seq<(String, BencodeValue)>, n: int) -> bool {
    &&& (n >= 1 ==> dict_get(d, "announce"@) matches Some(
        BencodeValue::String(BencodeString::String(_)),
    ))
    &&& (n >= 2 ==> opt_int_ok(d, "creation date"@))
    &&& (n >= 3 ==> opt_string_ok(d, "comment"@))
    &&& (n >= 4 ==> opt_string_ok(d, "created by"@))
    &&& (n >= 5 ==> opt_string_ok(d, "encoding"@))
}

/// The `info` dictionary parses, by its single- or multi-file branch.
pub open spec fn info_dict_ok(d: Seq<(String, BencodeValue)>) -> bool {
    match dict_get(d, "files"@) {
        Some(BencodeValue::List(_)) => multi_file_ok(d),
        None => single_file_ok(d),
        Some(_) => false,
    }
}

/// The whole metainfo document parses: a text `announce`, well-shaped
/// optional fields, an `info` dictionary that parses, and `announce-list`
/// absent or well-formed.
pub open spec fn metainfo_ok(d: Seq<(String, BencodeValue)>) -> bool {
    &&& dict_get(d, "announce"@) matches Some(BencodeValue::String(BencodeString::String(_)))
    &&& opt_int_ok(d, "creation date"@)
    &&& opt_string_ok(d, "comment"@)
    &&& opt_string_ok(d, "created by"@)
    &&& opt_string_ok(d, "encoding"@)
    &&& (match dict_get(d, "info"@) {
        Some(BencodeValue::Dict(id)) => info_dict_ok(id@),
        _ => false,
    })
    &&& (match dict_get(d, "announce-list"@) {
        None => true,
        Some(v) => announce_list_ok(v),
    })
}

/// The entries of the dictionary a bencode value holds, if it is one.
pub open spec fn as_dict(v: BencodeValue) -> Option<Seq<(String, BencodeValue)>> {
    match v {
        BencodeValue::Dict(d) => Some(d@),
        _ => None,
    }
}

/// The shared fields parse: `pieces` raw bytes, `piece length` an integer,
/// `private` absent or an integer.
pub open spec fn base_info_ok(d: Seq<(String, BencodeValue)>) -> bool {
    &&& dict_get(d, "pieces"@) matches Some(BencodeValue::String(BencodeString::Bytes(_)))
    &&& dict_get(d, "piece length"@) matches Some(BencodeValue::Int(_))
    &&& match dict_get(d, "private"@) {
        None => true,
        Some(BencodeValue::Int(_)) => true,
        Some(_) => false,
    }
}

/// The first shared field that fails to parse.
pub open spec fn base_info_err(d: Seq<(String, BencodeValue)>) -> Seq<char> {
    if !(dict_get(d, "pieces"@) matches Some(BencodeValue::String(BencodeString::Bytes(_)))) {
        "pieces"@
    } else if !(dict_get(d, "piece length"@) matches Some(BencodeValue::Int(_))) {
        "piece length"@
    } else {
        "private"@
    }
}

/// An integer-valued optional attribute is absent or an integer.
pub open spec fn opt_int_ok(d: Seq<(String, BencodeValue)>, key: Seq<char>) -> bool {
    match dict_get(d, key) {
        None => true,
        Some(BencodeValue::Int(_)) => true,
        Some(_) => false,
    }
}

/// A string-valued optional attribute is absent or a text string.
pub open spec fn opt_string_ok(d: Seq<(String, BencodeValue)>, key: Seq<char>) -> bool {
    match dict_get(d, key) {
        None => true,
        Some(BencodeValue::String(BencodeString::String(_))) => true,
        Some(_) => false,
    }
}

/// The view of an optional text attribute.
pub open spec fn opt_string_of(d: Seq<(String, BencodeValue)>, key: Seq<char>) -> Option<
    Seq<char>,
> {
    match dict_get(d, key) {
        Some(BencodeValue::String(BencodeString::String(s))) => Some(s@),
        _ => None,
    }
}

/// Reads an optional text attribute; a present non-text value is rejected
/// under the attribute's name.
fn get_opt_string(dict: &Vec<(String, BencodeValue)>, key: &str) -> (r: Result<
    Option<String>,
    MetaInfoError,
>)
    ensures
        opt_string_ok(dict@, key@) ==> (r matches Ok(o) && (match (o, opt_string_of(dict@, key@)) {
            (Some(a), Some(b)) => a@ == b,
            (None, None) => true,
            _ => false,
        })),
        !opt_string_ok(dict@, key@) ==> (r matches Err(MetaInfoError::InvalidAttribute(e))
            && e.attribute@ == key@),
{
    match crate::bencode::dict_lookup(dict, key) {
        None => Ok(None),
        Some(v) => match v {
            BencodeValue::String(BencodeString::String(s)) => Ok(Some(s.clone())),
            _ => Err(
                MetaInfoError::InvalidAttribute(AttributeError { attribute: key.to_owned() }),
            ),
        },
    }
}

/// Reads the shared fields out of an `info` dictionary.
pub fn dict_to_base_info(dict: &Vec<(String, BencodeValue)>) -> (r: Result<
    BaseInfo,
    MetaInfoError,
>)
    ensures
        base_info_ok(dict@) ==> (r matches Ok(b) && (match dict_get(dict@, "pieces"@) {
            Some(BencodeValue::String(BencodeString::Bytes(p))) => b.pieces@ == p@,
            _ => false,
        }) && (match dict_get(dict@, "piece length"@) {
            Some(BencodeValue::Int(l)) => b.piece_length == l,
            _ => false,
        }) && (match dict_get(dict@, "private"@) {
            Some(BencodeValue::Int(p)) => b.private == Some(p),
            _ => b.private is None,
        })),
        !base_info_ok(dict@) ==> (r matches Err(MetaInfoError::InvalidAttribute(e)) && e.attribute@
            == base_info_err(dict@)),
{
    let pieces = match crate::bencode::dict_lookup(dict, "pieces") {
        Some(BencodeValue::String(BencodeString::Bytes(b))) => b.clone(),
        _ => {
            return Err(
                MetaInfoError::InvalidAttribute(AttributeError { attribute: "pieces".to_owned() }),
            );
        },
    };
    let piece_length = match crate::bencode::dict_lookup(dict, "piece length") {
        Some(BencodeValue::Int(i)) => *i,
        _ => {
            return Err(
                MetaInfoError::InvalidAttribute(
                    AttributeError { attribute: "piece length".to_owned() },
                ),
            );
        },
    };
    let private = match crate::bencode::dict_lookup(dict, "private") {
        None => None,
        Some(BencodeValue::Int(i)) => Some(*i),
        Some(_) => {
            return Err(
                MetaInfoError::InvalidAttribute(AttributeError { attribute: "private".to_owned() }),
            );
        },
    };
    Ok(BaseInfo { pieces, piece_length, private })
}

/// The single-file fields parse: the shared fields, a text `name`, an
/// integer `length`, and `md5sum` absent or text.
pub open spec fn single_file_ok(d: Seq<(String, BencodeValue)>) -> bool {
    &&& base_info_ok(d)
    &&& dict_get(d, "name"@) matches Some(BencodeValue::String(BencodeString::String(_)))
    &&& dict_get(d, "length"@) matches Some(BencodeValue::Int(_))
    &&& opt_string_ok(d, "md5sum"@)
}

/// Reads a single-file `info` dictionary.
pub fn dict_to_single_file_info(dict: &Vec<(String, BencodeValue)>) -> (r: Result<
    SingleFileInfo,
    MetaInfoError,
>)
    ensures
        single_file_ok(dict@) ==> (r matches Ok(f) && (match dict_get(dict@, "name"@) {
            Some(BencodeValue::String(BencodeString::String(s))) => f.name@ == s@,
            _ => false,
        }) && (match dict_get(dict@, "length"@) {
            Some(BencodeValue::Int(l)) => f.length == l,
            _ => false,
        }) && (match dict_get(dict@, "pieces"@) {
            Some(BencodeValue::String(BencodeString::Bytes(p))) => f.base_info.pieces@ == p@,
            _ => false,
        }) && (match dict_get(dict@, "piece length"@) {
            Some(BencodeValue::Int(l)) => f.base_info.piece_length == l,
            _ => false,
        })),
        !single_file_ok(dict@) ==> r is Err,
{
    let base_info = dict_to_base_info(dict)?;
    let name = match crate::bencode::dict_lookup(dict, "name") {
        Some(BencodeValue::String(BencodeString::String(s))) => s.clone(),
        _ => {
            return Err(
                MetaInfoError::InvalidAttribute(AttributeError { attribute: "name".to_owned() }),
            );
        },
    };
    let length = match crate::bencode::dict_lookup(dict, "length") {
        Some(BencodeValue::Int(i)) => *i,
        _ => {
            return Err(
                MetaInfoError::InvalidAttribute(AttributeError { attribute: "length".to_owned() }),
            );
        },
    };
    let md5sum = get_opt_string(dict, "md5sum")?;
    Ok(SingleFileInfo { base_info, name, length, md5sum })
}

/// One file entry parses: a dictionary with a `path` list of text components
/// and an integer `length`.
pub open spec fn file_entry_ok(v: BencodeValue) -> bool {
    match as_dict(v) {
        None => false,
        Some(d) => {
            &&& match dict_get(d, "path"@) {
                Some(BencodeValue::List(items)) => forall|k: int|
                    0 <= k < items@.len() ==> (#[trigger] items@[k]) matches BencodeValue::String(
                        BencodeString::String(_),
                    ),
                _ => false,
            }
            &&& dict_get(d, "length"@) matches Some(BencodeValue::Int(_))
            &&& opt_string_ok(d, "md5sum"@)
        },
    }
}

/// Reads one file entry of a multi-file torrent.
pub fn parse_file(file: &BencodeValue) -> (r: Result<FileData, MetaInfoError>)
    ensures
        file_entry_ok(*file) ==> (r matches Ok(f) && (match as_dict(*file) {
            Some(d) => (match dict_get(d, "length"@) {
                Some(BencodeValue::Int(l)) => f.length == l,
                _ => false,
            }) && (match dict_get(d, "path"@) {
                Some(BencodeValue::List(items)) => f.path@.len() == items@.len() && forall|k: int|
                    0 <= k < items@.len() ==> (match items@[k] {
                        BencodeValue::String(BencodeString::String(s)) => (#[trigger] f.path@[
                            k
                        ])@ == s@,
                        _ => false,
                    }),
                _ => false,
            }),
            None => false,
        })),
        !file_entry_ok(*file) ==> r is Err,
{
    match file {
        BencodeValue::Dict(file_dict) => {
            let path_items = match crate::bencode::dict_lookup(file_dict, "path") {
                Some(BencodeValue::List(items)) => items,
                _ => {
                    return Err(
                        MetaInfoError::InvalidAttribute(
                            AttributeError { attribute: "path".to_owned() },
                        ),
                    );
                },
            };
            let mut path: Vec<String> = Vec::new();
            let mut k: usize = 0;
            while k < path_items.len()
                invariant
                    k <= path_items@.len(),
                    path@.len() == k,
                    (match as_dict(*file) {
                        Some(fd) => match dict_get(fd, "path"@) {
                            Some(BencodeValue::List(l)) => l == *path_items,
                            _ => false,
                        },
                        None => false,
                    }),
                    forall|q: int|
                        #![trigger path@[q]]
                        #![trigger path_items@[q]]
                        0 <= q < k ==> (match path_items@[q] {
                            BencodeValue::String(BencodeString::String(s)) => path@[q]@ == s@,
                            _ => false,
                        }),
                decreases path_items@.len() - k,
            {
                let ghost path_before = path@;
                match &path_items[k] {
                    BencodeValue::String(BencodeString::String(s)) => {
                        path.push(s.clone());
                        proof {
                            assert(path@[k as int] == path@.last());
                            assert forall|q: int|
                                #![trigger path@[q]]
                                #![trigger path_items@[q]]
                                0 <= q < k + 1 implies (match path_items@[q] {
                                BencodeValue::String(BencodeString::String(s2)) => path@[q]@
                                    == s2@,
                                _ => false,
                            }) by {
                                if q < k {
                                    assert(path@[q] == path_before[q]);
                                }
                            }
                        }
                    },
                    _ => {
                        return Err(
                            MetaInfoError::InvalidAttribute(
                                AttributeError { attribute: "path".to_owned() },
                            ),
                        );
                    },
                }
                k = k + 1;
            }
            let length = match crate::bencode::dict_lookup(file_dict, "length") {
                Some(BencodeValue::Int(i)) => *i,
                _ => {
                    return Err(
                        MetaInfoError::InvalidAttribute(
                            AttributeError { attribute: "length".to_owned() },
                        ),
                    );
                },
            };
            let md5sum = get_opt_string(file_dict, "md5sum")?;
            Ok(FileData { path, length, md5sum })
        },
        _ => Err(MetaInfoError::InvalidAttribute(AttributeError { attribute: "file".to_owned() })),
    }
}

/// The multi-file fields parse: the shared fields, a text `name`, and a
/// `files` list of well-formed file entries.
pub open spec fn multi_file_ok(d: Seq<(String, BencodeValue)>) -> bool {
    &&& base_info_ok(d)
    &&& dict_get(d, "name"@) matches Some(BencodeValue::String(BencodeString::String(_)))
    &&& match dict_get(d, "files"@) {
        Some(BencodeValue::List(items)) => forall|k: int|
            0 <= k < items@.len() ==> file_entry_ok(#[trigger] items@[k]),
        _ => false,
    }
}

/// Reads a multi-file `info` dictionary.
pub fn dict_to_multiple_file_info(dict: &Vec<(String, BencodeValue)>) -> (r: Result<
    MultiFileInfo,
    MetaInfoError,
>)
    ensures
        multi_file_ok(dict@) ==> (r matches Ok(f) && (match dict_get(dict@, "name"@) {
            Some(BencodeValue::String(BencodeString::String(s))) => f.name@ == s@,
            _ => false,
        }) && (match dict_get(dict@, "files"@) {
            Some(BencodeValue::List(items)) => f.files@.len() == items@.len(),
            _ => false,
        }) && (match dict_get(dict@, "pieces"@) {
            Some(BencodeValue::String(BencodeString::Bytes(p))) => f.base_info.pieces@ == p@,
            _ => false,
        }) && (match dict_get(dict@, "piece length"@) {
            Some(BencodeValue::Int(l)) => f.base_info.piece_length == l,
            _ => false,
        })),
        !multi_file_ok(dict@) ==> r is Err,
{
    let base_info = dict_to_base_info(dict)?;
    let name = match crate::bencode::dict_lookup(dict, "name") {
        Some(BencodeValue::String(BencodeString::String(s))) => s.clone(),
        _ => {
            return Err(
                MetaInfoError::InvalidAttribute(AttributeError { attribute: "name".to_owned() }),
            );
        },
    };
    let items = match crate::bencode::dict_lookup(dict, "files") {
        Some(BencodeValue::List(items)) => items,
        _ => {
            return Err(
                MetaInfoError::InvalidAttribute(AttributeError { attribute: "files".to_owned() }),
            );
        },
    };
    let mut files: Vec<FileData> = Vec::new();
    let mut k: usize = 0;
    while k < items.len()
        invariant
            k <= items@.len(),
            files@.len() == k,
            (match dict_get(dict@, "files"@) {
                Some(BencodeValue::List(l)) => l == *items,
                _ => false,
            }),
            forall|q: int| 0 <= q < k ==> file_entry_ok(#[trigger] items@[q]),
        decreases items@.len() - k,
    {
        let f = parse_file(&items[k])?;
        files.push(f);
        k = k + 1;
    }
    Ok(MultiFileInfo { base_info, name, files })
}

/// Whether the `info` dictionary is multi-file (it has a `files` list),
/// single-file (no `files` key), or malformed (`files` of another shape).
pub fn dict_to_info(dict: &Vec<(String, BencodeValue)>) -> (r: Result<Info, MetaInfoError>)
    ensures
        match dict_get(dict@, "files"@) {
            Some(BencodeValue::List(_)) => (multi_file_ok(dict@) ==> r matches Ok(
                Info::MultiFile(_),
            )) && (!multi_file_ok(dict@) ==> r is Err),
            None => (single_file_ok(dict@) ==> r matches Ok(Info::SingleFile(_))) && (
            !single_file_ok(dict@) ==> r is Err),
            Some(_) => r matches Err(MetaInfoError::InvalidAttribute(e)) && e.attribute@
                == "files"@,
        },
{
    match crate::bencode::dict_lookup(dict, "files") {
        Some(BencodeValue::List(_)) => {
            let info = dict_to_multiple_file_info(dict)?;
            Ok(Info::MultiFile(info))
        },
        None => {
            let info = dict_to_single_file_info(dict)?;
            Ok(Info::SingleFile(info))
        },
        Some(_) => Err(
            MetaInfoError::InvalidAttribute(AttributeError { attribute: "files".to_owned() }),
        ),
    }
}

/// Every tier of the announce list is a list of text URLs.
pub open spec fn announce_list_ok(v: BencodeValue) -> bool {
    match v {
        BencodeValue::List(tiers) => forall|k: int|
            0 <= k < tiers@.len() ==> (match #[trigger] tiers@[k] {
                BencodeValue::List(urls) => forall|q: int|
                    0 <= q < urls@.len() ==> (#[trigger] urls@[q]) matches BencodeValue::String(
                        BencodeString::String(_),
                    ),
                _ => false,
            }),
        _ => false,
    }
}

/// Reads the `announce-list` tiers.
pub fn convert_announce_list(value: &BencodeValue) -> (r: Result<Vec<Vec<String>>, MetaInfoError>)
    ensures
        announce_list_ok(*value) ==> (r matches Ok(t) && (match *value {
            BencodeValue::List(tiers) => t@.len() == tiers@.len(),
            _ => false,
        })),
        !announce_list_ok(*value) ==> (r matches Err(MetaInfoError::InvalidAttribute(e))
            && e.attribute@ == "announce-list"@),
{
    match value {
        BencodeValue::List(tiers) => {
            let mut result: Vec<Vec<String>> = Vec::new();
            let mut k: usize = 0;
            while k < tiers.len()
                invariant
                    k <= tiers@.len(),
                    result@.len() == k,
                    *value == BencodeValue::List(*tiers),
                    forall|q: int|
                        0 <= q < k ==> (match #[trigger] tiers@[q] {
                            BencodeValue::List(urls) => forall|w: int|
                                0 <= w < urls@.len() ==> (#[trigger] urls@[
                                    w
                                ]) matches BencodeValue::String(BencodeString::String(_)),
                            _ => false,
                        }),
                decreases tiers@.len() - k,
            {
                match &tiers[k] {
                    BencodeValue::List(urls) => {
                        let mut tier: Vec<String> = Vec::new();
                        let mut w: usize = 0;
                        while w < urls.len()
                            invariant
                                w <= urls@.len(),
                                *value == BencodeValue::List(*tiers),
                                k < tiers@.len(),
                                tiers@[k as int] == BencodeValue::List(*urls),
                                forall|t: int|
                                    0 <= t < w ==> (#[trigger] urls@[
                                        t
                                    ]) matches BencodeValue::String(BencodeString::String(_)),
                            decreases urls@.len() - w,
                        {
                            match &urls[w] {
                                BencodeValue::String(BencodeString::String(s)) => {
                                    tier.push(s.clone());
                                },
                                _ => {
                                    proof {
                                        assert(tiers@[k as int] == BencodeValue::List(*urls));
                                        assert(!(urls@[w as int]
                                            matches BencodeValue::String(
                                            BencodeString::String(_),
                                        )));
                                        assert(!announce_list_ok(*value)) by {
                                            if announce_list_ok(*value) {
                                                let tk = tiers@[k as int];
                                                match tk {
                                                    BencodeValue::List(us) => {
                                                        assert(us == *urls);
                                                        assert(urls@[w as int]
                                                            matches BencodeValue::String(
                                                            BencodeString::String(_),
                                                        ));
                                                    },
                                                    _ => {},
                                                }
                                            }
                                        }
                                    }
                                    return Err(
                                        MetaInfoError::InvalidAttribute(
                                            AttributeError {
                                                attribute: "announce-list".to_owned(),
                                            },
                                        ),
                                    );
                                },
                            }
                            w = w + 1;
                        }
                        result.push(tier);
                    },
                    _ => {
                        proof {
                            assert(!(tiers@[k as int] matches BencodeValue::List(_)));
                            assert(!announce_list_ok(*value));
                        }
                        return Err(
                            MetaInfoError::InvalidAttribute(
                                AttributeError { attribute: "announce-list".to_owned() },
                            ),
                        );
                    },
                }
                k = k + 1;
            }
            Ok(result)
        },
        _ => Err(
            MetaInfoError::InvalidAttribute(
                AttributeError { attribute: "announce-list".to_owned() },
            ),
        ),
    }
}

impl Metainfo {
    /// The raw document this metainfo was read from.
    pub open spec fn spec_content(self) -> BencodeValue {
        self.torrent_content
    }

    /// The document is a dictionary with an `info` entry, so the info hash
    /// is always available.
    pub open spec fn wf(self) -> bool {
        match as_dict(self.spec_content()) {
            Some(d) => dict_get(d, "info"@) is Some,
            None => false,
        }
    }

    /// Reads a whole metainfo document: it must be a dictionary with a text
    /// `announce`, an `info` dictionary that parses, and well-shaped
    /// optional fields.
    pub fn new(bencode_value: BencodeValue) -> (r: Result<Metainfo, MetaInfoError>)
        ensures
            !(bencode_value matches BencodeValue::Dict(_)) ==> r matches Err(
                MetaInfoError::InvalidBencodeValue,
            ),
            r matches Ok(m) ==> (m.wf() && m.spec_content() == bencode_value && (match as_dict(
                bencode_value,
            ) {
                Some(d) => (match dict_get(d, "announce"@) {
                    Some(BencodeValue::String(BencodeString::String(s))) => m.announce@ == s@,
                    _ => false,
                }) && (match dict_get(d, "creation date"@) {
                    Some(BencodeValue::Int(i)) => m.creation_date == Some(i),
                    _ => m.creation_date is None,
                }),
                None => false,
            })),
            (match as_dict(bencode_value) {
                Some(d) => {
                    &&& (metainfo_ok(d) ==> r is Ok)
                    &&& (!(dict_get(d, "announce"@) matches Some(
                        BencodeValue::String(BencodeString::String(_)),
                    )) ==> (r matches Err(MetaInfoError::InvalidAttribute(e)) && e.attribute@
                        == "announce"@))
                    &&& (metainfo_head_ok(d, 5) && !(dict_get(d, "info"@) matches Some(
                        BencodeValue::Dict(_),
                    )) ==> (r matches Err(MetaInfoError::InvalidAttribute(e)) && e.attribute@
                        == "info"@))
                },
                None => true,
            }),
    {
        match bencode_value {
            BencodeValue::Dict(_) => Metainfo::dict_to_metainfo(bencode_value),
            _ => Err(MetaInfoError::InvalidBencodeValue),
        }
    }

    /// The SHA-1 of the bencoded `info` dictionary: the torrent's identity
    /// on the wire.
    pub fn get_info_hash(&self) -> (r: Result<Vec<u8>, MetaInfoError>)
        ensures
            self.wf() ==> (r matches Ok(h) && (match as_dict(self.spec_content()) {
                Some(d) => match dict_get(d, "info"@) {
                    Some(info) => h@ == sha1_of(crate::bencode::encoder::spec_encode(info))
                        && h@.len() == 20,
                    None => false,
                },
                None => false,
            })),
            !self.wf() ==> (r matches Err(MetaInfoError::InvalidAttribute(e)) && e.attribute@
                == "info"@),
    {
        let info = match self.torrent_content.get_value("info") {
            Some(info) => info,
            None => {
                return Err(
                    MetaInfoError::InvalidAttribute(AttributeError { attribute: "info".to_owned() }),
                );
            },
        };
        let info_bencoded = info.encode();
        Ok(crate::sha1sum::sha1_digest(&info_bencoded))
    }

    /// Reads the fields out of the top-level dictionary, in the order the
    /// format names them.
    fn dict_to_metainfo(bencode_value: BencodeValue) -> (r: Result<Metainfo, MetaInfoError>)
        requires
            bencode_value matches BencodeValue::Dict(_),
        ensures
            r matches Ok(m) ==> (m.wf() && m.spec_content() == bencode_value && (match as_dict(
                bencode_value,
            ) {
                Some(d) => (match dict_get(d, "announce"@) {
                    Some(BencodeValue::String(BencodeString::String(s))) => m.announce@ == s@,
                    _ => false,
                }) && (match dict_get(d, "creation date"@) {
                    Some(BencodeValue::Int(i)) => m.creation_date == Some(i),
                    _ => m.creation_date is None,
                }) && (match (m.comment, opt_string_of(d, "comment"@)) {
                    (Some(a), Some(b)) => a@ == b,
                    (None, None) => true,
                    _ => false,
                }) && (match (m.created_by, opt_string_of(d, "created by"@)) {
                    (Some(a), Some(b)) => a@ == b,
                    (None, None) => true,
                    _ => false,
                }) && (match (m.encoding, opt_string_of(d, "encoding"@)) {
                    (Some(a), Some(b)) => a@ == b,
                    (None, None) => true,
                    _ => false,
                }) && (match dict_get(d, "announce-list"@) {
                    None => m.announce_list is None,
                    Some(v) => announce_list_ok(v) && m.announce_list is Some,
                }),
                None => false,
            })),
            (match as_dict(bencode_value) {
                Some(d) => {
                    &&& (metainfo_ok(d) ==> r is Ok)
                    &&& (!(dict_get(d, "announce"@) matches Some(
                        BencodeValue::String(BencodeString::String(_)),
                    )) ==> (r matches Err(MetaInfoError::InvalidAttribute(e)) && e.attribute@
                        == "announce"@))
                    &&& (metainfo_head_ok(d, 1) && !opt_int_ok(d, "creation date"@) ==> (
                    r matches Err(MetaInfoError::InvalidAttribute(e)) && e.attribute@
                        == "creation date"@))
                    &&& (metainfo_head_ok(d, 2) && !opt_string_ok(d, "comment"@) ==> (
                    r matches Err(MetaInfoError::InvalidAttribute(e)) && e.attribute@
                        == "comment"@))
                    &&& (metainfo_head_ok(d, 3) && !opt_string_ok(d, "created by"@) ==> (
                    r matches Err(MetaInfoError::InvalidAttribute(e)) && e.attribute@
                        == "created by"@))
                    &&& (metainfo_head_ok(d, 4) && !opt_string_ok(d, "encoding"@) ==> (
                    r matches Err(MetaInfoError::InvalidAttribute(e)) && e.attribute@
                        == "encoding"@))
                    &&& (metainfo_head_ok(d, 5) && !(dict_get(d, "info"@) matches Some(
                        BencodeValue::Dict(_),
                    )) ==> (r matches Err(MetaInfoError::InvalidAttribute(e)) && e.attribute@
                        == "info"@))
                },
                None => true,
            }),
    {
        let (announce, creation_date, comment, created_by, encoding, info, announce_list) = match &bencode_value {
            BencodeValue::Dict(dict) => {
                let announce = match crate::bencode::dict_lookup(dict, "announce") {
                    Some(BencodeValue::String(BencodeString::String(s))) => s.clone(),
                    _ => {
                        return Err(
                            MetaInfoError::InvalidAttribute(
                                AttributeError { attribute: "announce".to_owned() },
                            ),
                        );
                    },
                };
                let creation_date = match crate::bencode::dict_lookup(dict, "creation date") {
                    None => None,
                    Some(BencodeValue::Int(i)) => Some(*i),
                    Some(_) => {
                        return Err(
                            MetaInfoError::InvalidAttribute(
                                AttributeError { attribute: "creation date".to_owned() },
                            ),
                        );
                    },
                };
                let comment = get_opt_string(dict, "comment")?;
                let created_by = get_opt_string(dict, "created by")?;
                let encoding = get_opt_string(dict, "encoding")?;
                let info = match crate::bencode::dict_lookup(dict, "info") {
                    Some(BencodeValue::Dict(info_dict)) => dict_to_info(info_dict)?,
                    _ => {
                        return Err(
                            MetaInfoError::InvalidAttribute(
                                AttributeError { attribute: "info".to_owned() },
                            ),
                        );
                    },
                };
                let announce_list = match crate::bencode::dict_lookup(dict, "announce-list") {
                    None => None,
                    Some(v) => Some(convert_announce_list(v)?),
                };
                (announce, creation_date, comment, created_by, encoding, info, announce_list)
            },
            _ => {
                return Err(MetaInfoError::InvalidBencodeValue);
            },
        };
        Ok(
            Metainfo {
                torrent_content: bencode_value,
                info,
                announce,
                announce_list,
                creation_date,
                comment,
                created_by,
                encoding,
            },
        )
    }
}

} // verus!
