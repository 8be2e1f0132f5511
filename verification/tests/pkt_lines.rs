//! Lines of the wire protocol, and what is said in them.
use flate2::write::ZlibEncoder;
use flate2::Compression;
use gift::deal_pktlines::{read_all, read_pkt_line, write_pkt_line, PktError, PktLine};
use gift::get_packfile_by_network::{
    build_want_request, discover_refs, fetch_pack, info_refs_url, ls_remote, parse_advertisement,
    progress_of, read_pack_response, remote_url, NetError, Ref, RefAdvertisement,
};
use gift::object_db::ObjectDb;
use gift::parse_packfile::{
    build_pack, parse_pack, parse_pack_thin, read_loose_base, Kind, PackError,
};
use sha1::{Digest, Sha1};
use std::io::Write;

const BAND_PACK: u8 = 1;
const BAND_PROGRESS: u8 = 2;
const BAND_ERROR: u8 = 3;

fn pkt(line: &PktLine) -> Vec<u8> {
    let mut buf = Vec::new();
    write_pkt_line(&mut buf, line).unwrap();
    buf
}

fn data(s: &[u8]) -> PktLine {
    PktLine::Data(s.to_vec())
}

#[test]
fn roundtrip() {
    let mut buf = Vec::new();
    write_pkt_line(&mut buf, &PktLine::Data(b"a\n".to_vec())).unwrap();
    assert_eq!(buf, b"0006a\n");

    let mut f = Vec::new();
    write_pkt_line(&mut f, &PktLine::Flush).unwrap();
    assert_eq!(f, b"0000");

    let mut s = Vec::new();
    let original = PktLine::Data(b"want xyz\n".to_vec());
    write_pkt_line(&mut s, &original).unwrap();
    let decoded = read_pkt_line(&mut &s[..]).unwrap().unwrap();
    assert_eq!(decoded, original);
}

/// What a git server says of a repository with one commit and a tag.
fn real_advert() -> Vec<u8> {
    let id = "0a2a9bdb2d4bd52a4cbf1bdb5a0e4f27e1fd4e3c";
    let mut out = Vec::new();
    let caps = "multi_ack side-band-64k ofs-delta symref=HEAD:refs/heads/main agent=git/2.43.0";
    out.extend(pkt(&data(format!("{id} HEAD\0{caps}\n").as_bytes())));
    out.extend(pkt(&data(format!("{id} refs/heads/main\n").as_bytes())));
    out.extend(pkt(&data(format!("{id} refs/tags/v1\n").as_bytes())));
    out.extend(pkt(&PktLine::Flush));
    out
}

#[test]
fn matches_real_git() {
    let real = real_advert();
    let mut cur: &[u8] = &real;
    let mut lines = Vec::new();
    while let Some(line) = read_pkt_line(&mut cur).unwrap() {
        lines.push(line);
    }
    assert_eq!(lines.last(), Some(&PktLine::Flush));
    let mut reencoded = Vec::new();
    for line in &lines {
        write_pkt_line(&mut reencoded, line).unwrap();
    }
    assert_eq!(reencoded, real);
}

#[test]
fn encode_data_basic() {
    let mut buf = Vec::new();
    write_pkt_line(&mut buf, &PktLine::Data(b"a\n".to_vec())).unwrap();
    assert_eq!(buf, b"0006a\n");
}

#[test]
fn encode_uses_lowercase_hex() {
    let mut buf = Vec::new();
    write_pkt_line(&mut buf, &PktLine::Data(b"hello world".to_vec())).unwrap();
    assert_eq!(buf, b"000fhello world");
}

#[test]
fn encode_flush_delim_and_empty() {
    let mut f = Vec::new();
    write_pkt_line(&mut f, &PktLine::Flush).unwrap();
    assert_eq!(f, b"0000");

    let mut d = Vec::new();
    write_pkt_line(&mut d, &PktLine::Delim).unwrap();
    assert_eq!(d, b"0001");

    let mut e = Vec::new();
    write_pkt_line(&mut e, &PktLine::Data(Vec::new())).unwrap();
    assert_eq!(e, b"0004");
}

#[test]
fn decode_data_and_eof() {
    let mut buf: &[u8] = b"0006a\n";
    assert_eq!(read_pkt_line(&mut buf).unwrap(), Some(PktLine::Data(b"a\n".to_vec())));
    assert_eq!(read_pkt_line(&mut buf).unwrap(), None);
}

#[test]
fn decode_flush_and_delim() {
    let mut f: &[u8] = b"0000";
    assert_eq!(read_pkt_line(&mut f).unwrap(), Some(PktLine::Flush));
    let mut d: &[u8] = b"0001";
    assert_eq!(read_pkt_line(&mut d).unwrap(), Some(PktLine::Delim));
}

#[test]
fn decode_preserves_binary() {
    let mut buf: &[u8] = b"0009\x00\x01\x02\x03\x04";
    assert_eq!(read_pkt_line(&mut buf).unwrap(), Some(PktLine::Data(vec![0, 1, 2, 3, 4])));
}

#[test]
fn decode_truncated_prefix_errors() {
    let mut buf: &[u8] = b"00";
    assert!(read_pkt_line(&mut buf).is_err());
}

#[test]
fn broken_lines_are_told_apart() {
    let read = |b: &[u8]| read_pkt_line(&mut &b[..]);
    assert_eq!(read(b"00"), Err(PktError::TruncatedPrefix));
    assert_eq!(read(b"\xff\xfe00"), Err(PktError::PrefixNotText));
    assert_eq!(read(b"00zz"), Err(PktError::PrefixNotHex));
    assert_eq!(read(b"+006ab"), Err(PktError::PrefixNotHex));
    assert_eq!(read(b"0003"), Err(PktError::ReservedLength));
    assert_eq!(read(b"0008ab"), Err(PktError::TruncatedPayload));
    let mut buf = Vec::new();
    let long = PktLine::Data(vec![0; 65517]);
    assert_eq!(write_pkt_line(&mut buf, &long), Err(PktError::PayloadTooLarge));
    assert!(buf.is_empty());
    let longest = PktLine::Data(vec![7; 65516]);
    assert_eq!(&pkt(&longest)[..4], b"fff0");
    let both = [pkt(&data(b"x")), pkt(&PktLine::Delim), pkt(&longest)].concat();
    assert_eq!(read_all(&mut &both[..]).unwrap(), vec![data(b"x"), PktLine::Delim, longest]);
    let mut cur: &[u8] = b"0005x00zz0005y";
    assert_eq!(read_all(&mut cur), Err(PktError::PrefixNotHex));
    assert_eq!(cur, b"0005y");
}

#[test]
fn want_request_is_well_formed() {
    let bytes = real_advert();
    let mut cur: &[u8] = &bytes;
    let adv = parse_advertisement(&mut cur).unwrap();
    let body = build_want_request(&adv, &vec![]).unwrap();

    let mut cur: &[u8] = &body;
    let mut lines = Vec::new();
    while let Some(l) = read_pkt_line(&mut cur).unwrap() {
        lines.push(l);
    }
    let want_lines: Vec<&Vec<u8>> = lines
        .iter()
        .filter_map(|l| match l {
            PktLine::Data(p) if p.starts_with(b"want ") => Some(p),
            _ => None,
        })
        .collect();
    assert_eq!(want_lines.len(), 1);
    let first = String::from_utf8_lossy(want_lines[0]);
    assert!(first.starts_with("want "));
    assert!(first.contains("side-band-64k"));
    assert_eq!(lines[lines.len() - 2], PktLine::Flush);
    assert_eq!(lines[lines.len() - 1], PktLine::Data(b"done\n".to_vec()));
}

#[test]
fn advertisement_is_taken_apart() {
    let bytes = real_advert();
    let mut cur: &[u8] = &bytes;
    let adv = parse_advertisement(&mut cur).unwrap();
    let id = "0a2a9bdb2d4bd52a4cbf1bdb5a0e4f27e1fd4e3c";
    assert_eq!(adv.refs.len(), 3);
    assert_eq!(adv.refs[1].name, "refs/heads/main");
    assert_eq!(adv.refs[1].short_name(), "main");
    assert_eq!(adv.refs[2].short_name(), "v1");
    assert_eq!(adv.head_target.as_deref(), Some("refs/heads/main"));
    assert!(adv.has_cap("ofs-delta"));
    assert!(!adv.has_cap("thin-pack"));
    assert_eq!(adv.sha_of("refs/tags/v1"), Some(id));
    assert_eq!(adv.sha_of("refs/tags/v2"), None);
    assert_eq!(ls_remote(&adv)[1], format!("{id}\trefs/heads/main"));
}

#[test]
fn discovery_needs_its_service_line() {
    let mut reply = pkt(&data(b"# service=git-upload-pack\n"));
    reply.extend(pkt(&PktLine::Flush));
    reply.extend(real_advert());
    assert_eq!(discover_refs(&reply).unwrap().refs.len(), 3);
    assert_eq!(discover_refs(&real_advert()).unwrap_err(), NetError::NoServiceLine);
    let mut no_flush = pkt(&data(b"# service=git-upload-pack\n"));
    no_flush.extend(real_advert());
    assert_eq!(discover_refs(&no_flush).unwrap_err(), NetError::NoFlush);
    assert_eq!(
        discover_refs(b"00zz").unwrap_err(),
        NetError::Pkt(PktError::PrefixNotHex)
    );
}

#[test]
fn urls_of_a_remote() {
    assert_eq!(
        remote_url("https://h/r.git/", "/git-upload-pack"),
        "https://h/r.git/git-upload-pack"
    );
    assert_eq!(
        info_refs_url("https://h/r.git", "git-receive-pack"),
        "https://h/r.git/info/refs?service=git-receive-pack"
    );
}

#[test]
fn nothing_to_want_is_an_error() {
    let adv = RefAdvertisement { refs: vec![], caps: vec![], head_target: None };
    assert_eq!(build_want_request(&adv, &vec![]).unwrap_err(), NetError::NothingToWant);
}

#[test]
fn wants_name_each_id_once_and_haves_follow() {
    let a = "a".repeat(40);
    let b = "b".repeat(40);
    let r = |sha: &String, name: &str| Ref { sha: sha.clone(), name: name.to_string() };
    let adv = RefAdvertisement {
        refs: vec![r(&a, "HEAD"), r(&b, "refs/heads/x"), r(&a, "refs/heads/y")],
        caps: vec!["side-band-64k".to_string(), "ofs-delta".to_string()],
        head_target: None,
    };
    let have = "c".repeat(40);
    let body = build_want_request(&adv, &vec![have.clone()]).unwrap();
    let lines = read_all(&mut &body[..]).unwrap();
    let text: Vec<String> = lines
        .iter()
        .map(|l| match l {
            PktLine::Data(p) => String::from_utf8(p.clone()).unwrap(),
            PktLine::Flush => "0000".to_string(),
            PktLine::Delim => "0001".to_string(),
        })
        .collect();
    assert!(text[0].starts_with(&format!("want {a}")));
    assert_eq!(text[1], format!("want {b}\n"));
    assert_eq!(text[2], "0000");
    assert_eq!(text[3], format!("have {have}\n"));
    assert_eq!(text.last().unwrap(), "done\n");
}

#[test]
fn demux_assembles_channel_1() {
    let mut s = Vec::new();
    write_pkt_line(&mut s, &PktLine::Data(b"NAK\n".to_vec())).unwrap();
    let mut a = vec![BAND_PACK];
    a.extend_from_slice(b"PACK\x00\x00\x00\x02");
    write_pkt_line(&mut s, &PktLine::Data(a)).unwrap();
    let mut p = vec![BAND_PROGRESS];
    p.extend_from_slice(b"Counting objects");
    write_pkt_line(&mut s, &PktLine::Data(p)).unwrap();
    let mut b = vec![BAND_PACK];
    b.extend_from_slice(b"\x01\x02more");
    write_pkt_line(&mut s, &PktLine::Data(b)).unwrap();
    write_pkt_line(&mut s, &PktLine::Flush).unwrap();

    let mut cur: &[u8] = &s;
    let pack = read_pack_response(&mut cur).unwrap();
    assert_eq!(pack, b"PACK\x00\x00\x00\x02\x01\x02more");
    assert_eq!(fetch_pack(&s).unwrap(), pack);
    assert_eq!(progress_of(&s), "Counting objects");
}

#[test]
fn demux_channel_3_becomes_error() {
    let mut s = Vec::new();
    let mut e = vec![BAND_ERROR];
    e.extend_from_slice(b"not our ref");
    write_pkt_line(&mut s, &PktLine::Data(e)).unwrap();
    let mut cur: &[u8] = &s;
    assert!(read_pack_response(&mut cur).is_err());
    assert_eq!(fetch_pack(&s).unwrap_err(), NetError::Remote("not our ref".to_string()));
    let late = pkt(&data(b"\x02too late"));
    s.extend_from_slice(&late);
    assert_eq!(progress_of(&s), "");
    let mut cur: &[u8] = &s;
    assert!(read_pack_response(&mut cur).is_err());
    assert_eq!(cur, late);
    assert_eq!(fetch_pack(&pkt(&data(b"\x01nope"))).unwrap_err(), NetError::NotAPack);
}

fn deflate(b: &[u8]) -> Vec<u8> {
    let mut e = ZlibEncoder::new(Vec::new(), Compression::default());
    e.write_all(b).unwrap();
    e.finish().unwrap()
}

fn sha_of(kind: &str, b: &[u8]) -> [u8; 20] {
    let mut h = Sha1::new();
    h.update(format!("{kind} {}\0", b.len()).as_bytes());
    h.update(b);
    h.finalize().into()
}

/// A pack of raw items, with its head and its checksum.
fn pack_of(count: u32, items: &[Vec<u8>]) -> Vec<u8> {
    let mut p = b"PACK\x00\x00\x00\x02".to_vec();
    p.extend_from_slice(&count.to_be_bytes());
    for i in items {
        p.extend_from_slice(i);
    }
    let mut h = Sha1::new();
    h.update(&p);
    let digest: [u8; 20] = h.finalize().into();
    p.extend_from_slice(&digest);
    p
}

/// An item with a size below sixteen.
fn small_item(kind: u8, base: &[u8], content: &[u8]) -> Vec<u8> {
    let mut item = vec![kind << 4 | content.len() as u8];
    item.extend_from_slice(base);
    item.extend(deflate(content));
    item
}

#[test]
fn built_pack_is_read_back() {
    let objs = vec![
        (Kind::Blob, b"hello\n".to_vec()),
        (Kind::Commit, vec![b'x'; 5000]),
        (Kind::Tree, vec![]),
        (Kind::Tag, b"t".to_vec()),
    ];
    let pack = build_pack(&objs);
    let found = parse_pack(&pack).unwrap();
    assert_eq!(found.len(), 4);
    for (f, (kind, content)) in found.iter().zip(&objs) {
        assert_eq!(f.kind, *kind);
        assert_eq!(&f.data, content);
        assert_eq!(f.sha, sha_of(kind.name(), content));
    }
    assert_eq!(found[0].hex(), "ce013625030ba8dba906f756967f9e9ca394464a");
}

#[test]
fn deltas_are_applied() {
    let base = b"hello world\n";
    let base_item = small_item(3, &[], base);
    // copy 6 from 0, insert "git\n"
    let delta = [&[12u8, 10, 0x80 | 0x10, 6, 4][..], b"git\n"].concat();
    let back = base_item.len() as u8;
    let by_offset = small_item(6, &[back], &delta);
    let by_id = small_item(7, &sha_of("blob", base), &delta);
    let found = parse_pack(&pack_of(2, &[base_item.clone(), by_offset])).unwrap();
    assert_eq!(found[1].data, b"hello git\n");
    assert_eq!(found[1].kind, Kind::Blob);
    let found = parse_pack(&pack_of(2, &[base_item, by_id.clone()])).unwrap();
    assert_eq!(found[1].sha, sha_of("blob", b"hello git\n"));

    // The base may lie in the store.
    let thin = pack_of(1, &[by_id]);
    assert_eq!(parse_pack(&thin), Err(PackError::BaseNotInPack));
    let mut db = ObjectDb::new();
    let (oid, raw) = gift::object::hash_object(base);
    assert_eq!(parse_pack_thin(&thin, &db), Err(PackError::BaseMissing(oid)));
    db.insert(oid, raw);
    assert_eq!(parse_pack_thin(&thin, &db).unwrap()[0].data, b"hello git\n");
}

#[test]
fn broken_packs_are_told_apart() {
    assert_eq!(parse_pack(b"PACK"), Err(PackError::TooShort));
    let mut bad = pack_of(0, &[]);
    bad[0] = b'Q';
    assert_eq!(parse_pack(&bad), Err(PackError::BadMagic));
    let mut bad = pack_of(0, &[]);
    bad[7] = 3;
    assert_eq!(parse_pack(&bad), Err(PackError::BadVersion(3)));
    let mut bad = pack_of(0, &[]);
    let n = bad.len() - 1;
    bad[n] ^= 1;
    assert_eq!(parse_pack(&bad), Err(PackError::BadChecksum));
    assert_eq!(parse_pack(&pack_of(0, &[])).unwrap(), vec![]);
    let odd = small_item(5, &[], b"x");
    assert_eq!(parse_pack(&pack_of(1, &[odd])), Err(PackError::UnknownType(5)));
    assert_eq!(
        parse_pack(&pack_of(1, &[vec![0x31, 1, 2, 3]])),
        Err(PackError::Zlib)
    );
    let base = small_item(3, &[], b"abc");
    let far = small_item(6, &[120], &[3, 3, 0x90, 3]);
    assert_eq!(
        parse_pack(&pack_of(2, &[base.clone(), far])),
        Err(PackError::OffsetOutOfRange)
    );
    let between = small_item(6, &[1], &[3, 3, 0x90, 3]);
    assert_eq!(
        parse_pack(&pack_of(2, &[base.clone(), between])),
        Err(PackError::OffsetBaseMissing)
    );
    let back = base.len() as u8;
    let with = |delta: &[u8]| {
        parse_pack(&pack_of(2, &[base.clone(), small_item(6, &[back], delta)]))
    };
    assert_eq!(with(&[4, 3, 0x90, 3]), Err(PackError::DeltaBaseSize));
    assert_eq!(with(&[3, 9, 0x90, 9]), Err(PackError::DeltaCopyRange));
    assert_eq!(with(&[3, 2, 5, b'x']), Err(PackError::DeltaInsertRange));
    assert_eq!(with(&[3, 2, 0]), Err(PackError::DeltaZeroCommand));
    assert_eq!(with(&[3, 2, 0x90, 3]), Err(PackError::DeltaTargetSize));
    assert_eq!(with(&[3, 3, 0x90, 3]).unwrap()[1].data, b"abc");
}

#[test]
fn loose_bases_are_read() {
    assert_eq!(read_loose_base(b"blob 3\0abc"), Ok((Kind::Blob, b"abc".to_vec())));
    assert_eq!(read_loose_base(b"blob"), Err(PackError::LooseNoSpace));
    assert_eq!(read_loose_base(b"blob 3"), Err(PackError::LooseNoNul));
    assert_eq!(read_loose_base(b"bulb 3\0abc"), Err(PackError::LooseBadKind));
}
