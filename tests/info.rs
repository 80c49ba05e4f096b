use quake3::info::{InfoMap, InfoStr, InfoString, LimitError, INFO_LIMIT};
use quake3::qstr::{QStr, QString};

fn s(b: &[u8]) -> InfoString {
    InfoString::from_bytes(b.to_vec()).unwrap()
}

#[test]
fn infostr_from_bytes() {
    assert!(InfoStr::from_bytes(b"lorem ipsum").is_ok());

    assert!(InfoStr::from_bytes(b"lorem\0ipsum").is_err());
    assert!(InfoStr::from_bytes(b"lorem\\ipsum").is_err());

    assert!(InfoStr::from_bytes(b"lorem ipsum\0").is_err());
}

#[test]
fn infostring_from_bytes() {
    assert!(InfoString::from_bytes(b"lorem ipsum".to_vec()).is_ok());

    assert!(InfoString::from_bytes(b"lorem\0ipsum".to_vec()).is_err());
    assert!(InfoString::from_bytes(b"lorem\\ipsum".to_vec()).is_err());

    assert!(InfoString::from_bytes(b"lorem ipsum\0".to_vec()).is_err());
}

#[test]
fn infostring_error_positions() {
    assert_eq!(InfoStr::from_bytes(b"ab\0c\\d").unwrap_err().0, 4);
    assert_eq!(InfoStr::from_bytes(b"ab\0cd").unwrap_err().0, 2);
    let e = InfoString::from_bytes(b"x\\y".to_vec()).unwrap_err();
    assert_eq!(e.0, 1);
    assert_eq!(e.1, b"x\\y".to_vec());
}

#[test]
fn infomap_tryinsert() {
    let mut info: InfoMap<13> = InfoMap::new();

    // new entry below limit
    let res = info.try_insert(s(b"k0"), s(b"vA")).unwrap();
    assert_eq!(res, None);

    // new entry below limit
    let res = info.try_insert(s(b"k1"), s(b"vB")).unwrap();
    assert_eq!(res, None);

    // existing key below limit
    let res = info.try_insert(s(b"k1"), s(b"vC")).unwrap();
    assert_eq!(res, Some(s(b"vB")));

    // \k0\vA\k1\vC\ == 13 == limit
    let res = info.try_insert(s(b"k2"), s(b"vD"));
    assert_eq!(res, Err(LimitError(s(b"k2"), s(b"vD"))));
}

#[test]
fn infomap_limit_leaves_map_unchanged() {
    let mut info: InfoMap<13> = InfoMap::new();
    info.try_insert(s(b"k0"), s(b"vA")).unwrap();
    info.try_insert(s(b"k1"), s(b"vB")).unwrap();
    info.try_insert(s(b"k1"), s(b"vC")).unwrap();
    assert!(info.try_insert(s(b"k2"), s(b"vD")).is_err());
    assert_eq!(info.len(), 2);
    assert_eq!(info.serialize(), b"\\k0\\vA\\k1\\vC".to_vec());
    assert_eq!(info.serialize().len(), 12);
}

#[test]
fn infomap_exact_budget_fits() {
    let mut info: InfoMap<6> = InfoMap::new();
    assert_eq!(info.try_insert(s(b"ab"), s(b"c")).unwrap(), None);
    assert!(info.try_insert(s(b"d"), s(b"e")).is_err());
    // replacing the value keeps the key's place and may grow up to the budget
    assert_eq!(info.try_insert(s(b"ab"), s(b"x")).unwrap(), Some(s(b"c")));
    assert_eq!(info.try_insert(s(b"ab"), s(b"xy")).unwrap(), Some(s(b"x")));
    assert!(info.try_insert(s(b"ab"), s(b"xyz")).is_err());
}

#[test]
fn infomap_toowned() {
    let mut borrowed: InfoMap<42> = InfoMap::new();

    borrowed.try_insert(InfoStr::from_bytes(b"k0").unwrap().to_owned(), InfoStr::from_bytes(b"vA").unwrap().to_owned()).unwrap();
    borrowed.try_insert(InfoStr::from_bytes(b"k1").unwrap().to_owned(), InfoStr::from_bytes(b"vB").unwrap().to_owned()).unwrap();
    borrowed.try_insert(InfoStr::from_bytes(b"k2").unwrap().to_owned(), InfoStr::from_bytes(b"vC").unwrap().to_owned()).unwrap();

    let owned: InfoMap<42> = borrowed.to_owned();
    assert_eq!(borrowed.len(), owned.len());
    assert_eq!(borrowed.iter(), owned.iter());
}

#[test]
fn infomap_parse_infostr() {
    let parsed = InfoMap::<INFO_LIMIT>::parse(b"").unwrap();
    assert_eq!(0, parsed.len());

    let mut info: InfoMap<INFO_LIMIT> = InfoMap::new();

    info.try_insert(InfoStr::from_bytes(b"k0").unwrap().to_owned(), InfoStr::from_bytes(b"vA").unwrap().to_owned()).unwrap();
    info.try_insert(InfoStr::from_bytes(b"k1").unwrap().to_owned(), InfoStr::from_bytes(b"vB").unwrap().to_owned()).unwrap();
    info.try_insert(InfoStr::from_bytes(b"k2").unwrap().to_owned(), InfoStr::from_bytes(b"vC").unwrap().to_owned()).unwrap();

    let parsed = InfoMap::<INFO_LIMIT>::parse(b"\\k0\\vA\\k1\\vB\\k2\\vC").unwrap();
    assert_eq!(info.len(), parsed.len());
}

#[test]
fn infomap_parse_infostring() {
    let parsed = InfoMap::<INFO_LIMIT>::parse(b"").unwrap();
    assert_eq!(0, parsed.len());

    let mut info: InfoMap<INFO_LIMIT> = InfoMap::new();

    info.try_insert(s(b"k0"), s(b"vA")).unwrap();
    info.try_insert(s(b"k1"), s(b"vB")).unwrap();
    info.try_insert(s(b"k2"), s(b"vC")).unwrap();

    let parsed = InfoMap::<INFO_LIMIT>::parse(b"\\k0\\vA\\k1\\vB\\k2\\vC").unwrap();
    assert_eq!(info.len(), parsed.len());
    assert_eq!(info.iter(), parsed.iter());
}

#[test]
fn infomap_parse_rejects_malformed() {
    for bad in [
        &b"k0\\vA"[..],
        b"\\k0",
        b"\\k0\\",
        b"\\\\vA",
        b"\\k0\\vA\\",
        b"\\k0\\v\0A",
        b"\\k0\\vA\\k0\\vB",
    ] {
        assert!(InfoMap::<INFO_LIMIT>::parse(bad).is_err());
    }
    assert!(InfoMap::<5>::parse(b"\\k\\vvv").is_err());
    assert!(InfoMap::<5>::parse(b"\\k\\vv").is_ok());
}

#[test]
fn infomap_round_trip() {
    let wire = b"\\name\\UnnamedPlayer\\rate\\25000\\snaps\\20";
    let parsed = InfoMap::<INFO_LIMIT>::parse(wire).unwrap();
    assert_eq!(parsed.serialize(), wire.to_vec());
    let again = InfoMap::<INFO_LIMIT>::parse(&parsed.serialize()).unwrap();
    assert_eq!(again.iter(), parsed.iter());
    let (k, v) = parsed.get_index(1).unwrap();
    assert_eq!(k.as_bytes(), b"rate");
    assert_eq!(v.as_bytes(), b"25000");
    assert!(parsed.get_index(3).is_none());
}

#[test]
fn qstr_from_bytes() {
    assert!(QStr::from_bytes(b"lorem ipsum").is_ok());

    assert!(QStr::from_bytes(b"lorem\0ipsum").is_err());

    assert!(QStr::from_bytes(b"lorem ipsum\0").is_err());
}

#[test]
fn qstring_from_bytes() {
    assert!(QString::from_bytes(b"lorem ipsum".to_vec()).is_ok());

    assert!(QString::from_bytes(b"lorem\0ipsum".to_vec()).is_err());

    assert!(QString::from_bytes(b"lorem ipsum\0".to_vec()).is_err());
}

#[test]
fn qstring_nul_position() {
    let e = QString::from_bytes(b"lorem\0ipsum".to_vec()).unwrap_err();
    assert_eq!(e.0, 5);
    assert_eq!(QStr::from_bytes(b"\0").unwrap_err().0, 0);
    assert_eq!(QString::from_bytes(b"ab".to_vec()).unwrap().as_bytes(), b"ab");
}
