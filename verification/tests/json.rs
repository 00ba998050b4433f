//! Scanning JSON, packed names and decimal numbers.

use tlottie::error::{Error, JsonErrorKind, Limit};
use tlottie::json::Cursor;
use tlottie::names;
use tlottie::number::{is_finite, Number};
use tlottie::tree::{find_member, pack_name, read_array, read_object};

fn cursor(s: &str) -> Cursor<'_> {
    Cursor::new(s.as_bytes(), 16)
}

fn number(s: &str) -> Number {
    match cursor(s).read_number() {
        Ok(n) => n,
        Err(e) => panic!("{s}: {e:?}"),
    }
}

#[test]
fn cursors_move_by_bytes() {
    let mut c = cursor(" \t\r\nab");
    assert_eq!(c.pos(), 0);
    c.skip_ws();
    assert_eq!(c.pos(), 4);
    assert_eq!(c.peek(), Some(b'a'));
    assert_eq!(c.bump(), Some(b'a'));
    assert_eq!(c.expect(b'b'), Ok(()));
    assert_eq!(c.peek(), None);
    assert_eq!(c.bump(), None);
    assert_eq!(
        c.expect(b'x'),
        Err(Error::Json { offset: 6, kind: JsonErrorKind::UnexpectedEof })
    );
    let mut back = c.fork_at(4);
    assert_eq!(
        back.expect(b'x'),
        Err(Error::Json { offset: 4, kind: JsonErrorKind::UnexpectedByte(b'a') })
    );
}

#[test]
fn strings_keep_their_escapes() {
    let mut c = cursor(r#""a\"b" ."#);
    assert_eq!(c.read_string_bytes(), Ok(&br#"a\"b"#[..]));
    assert!(cursor(r#""open"#).read_string_bytes().is_err());
    assert!(cursor("x").read_string_bytes().is_err());
}

#[test]
fn values_are_skipped_whole() {
    for s in ["1", "-1.5e3", "true", "false", "null", r#""a""#, "[1,[2]]", r#"{"a":{"b":"}"}}"#] {
        let text = format!("{s} rest");
        let mut c = cursor(&text);
        assert_eq!(c.skip_value(), Ok(()), "{s}");
        assert_eq!(c.pos(), s.len(), "{s}");
    }
    let deep = "[".repeat(17);
    assert_eq!(
        cursor(&deep).skip_value(),
        Err(Error::LimitExceeded(Limit::NestingDepth))
    );
    for s in ["", "x", "tru", "[1", "\"a", "-"] {
        assert!(cursor(s).skip_value().is_err(), "{s}");
    }
}

#[test]
fn numbers_are_kept_as_written() {
    let n = number("-12.50e1");
    assert!(n.is_negative());
    assert_eq!(n.digits(), &[1, 2, 5, 0]);
    assert_eq!(n.scale(), -1);
    assert!(cursor("1e999").read_number().is_err());
    assert!(cursor("-1e999").read_number().is_err());
    assert!(cursor("0e999").read_number().is_ok());
    assert!(cursor("1e-9999").read_number().is_ok());
    assert!(cursor("1.7976931348623157e308").read_number().is_ok());
    assert!(cursor("1.7976931348623159e308").read_number().is_err());
}

#[test]
fn finite_means_representable() {
    assert!(is_finite(&[1], 308));
    assert!(!is_finite(&[1], 309));
    assert!(is_finite(&[0], 400));
    for s in ["179769313486231580793", "179769313486231570814", "17976931348623157"] {
        let digits: Vec<u8> = s.bytes().map(|b| b - b'0').collect();
        let scale = 309 - s.len() as i128;
        let text = format!("{s}e{scale}");
        let float: f64 = text.parse().unwrap();
        assert_eq!(is_finite(&digits, scale), float.is_finite(), "{text}");
    }
}

#[test]
fn numbers_are_ordered() {
    let cases = ["-1e3", "-2", "-0.5", "0", "1e-3", "0.5", "1", "2", "10", "99.5", "1e3"];
    for (i, a) in cases.iter().enumerate() {
        for (j, b) in cases.iter().enumerate() {
            assert_eq!(number(a).less_than(&number(b)), i < j, "{a} < {b}");
        }
    }
    assert!(!number("10").less_than(&number("1e1")));
    assert!(!number("-0").less_than(&number("0")));
}

#[test]
fn numbers_have_a_whole_part() {
    assert_eq!(number("12.9").whole_at_most(100), Some(12));
    assert_eq!(number("0.99").whole_at_most(100), Some(0));
    assert_eq!(number("1.5e2").whole_at_most(100), None);
    assert_eq!(number("1.5e2").whole_at_most(150), Some(150));
    assert_eq!(number("18446744073709551615").whole_at_most(u64::MAX), Some(u64::MAX));
    assert_eq!(number("18446744073709551616").whole_at_most(u64::MAX), None);
    assert!(number("-0.1").below_zero());
    assert!(!number("-0.0").below_zero());
}

#[test]
fn numbers_need_digits() {
    assert!(Number::new(false, vec![1, 10], 0).is_none());
    assert!(Number::new(false, vec![1], i128::MAX).is_none());
    let n = Number::new(true, vec![4, 2], 3).unwrap();
    assert_eq!((n.is_negative(), n.digits(), n.scale()), (true, &[4u8, 2][..], 3));
}

#[test]
fn names_are_packed_apart() {
    assert_eq!(pack_name(b"ks"), pack_name(b"ks"));
    assert_ne!(pack_name(b"ks"), pack_name(b"sk"));
    assert_ne!(pack_name(b"a"), pack_name(b"aa"));
    assert_ne!(pack_name(b"k"), pack_name(b""));
}

#[test]
fn objects_and_arrays_are_indexed() {
    let text = r#"{"a":1,"b":[2, 3],"a":4}"#;
    let c = cursor(text);
    let members = match read_object(&c, 0) {
        Ok(m) => m,
        Err(e) => panic!("{e:?}"),
    };
    assert_eq!(members.len(), 3);
    assert_eq!(find_member(&members, pack_name(b"a")), Some(text.rfind('4').unwrap()));
    assert_eq!(find_member(&members, pack_name(b"c")), None);
    let list = find_member(&members, pack_name(b"b")).unwrap();
    let items = read_array(&c, list);
    assert_eq!(items, Ok(vec![text.find('2').unwrap(), text.find('3').unwrap()]));
    assert!(read_object(&c, list).is_err());
    assert!(read_array(&c, 0).is_err());
}

#[test]
fn names_are_packed() {
    for (name, packed) in [
        ("a", names::NAME_A),
        ("ao", names::NAME_AO),
        ("assets", names::NAME_ASSETS),
        ("c", names::NAME_C),
        ("d", names::NAME_D),
        ("e", names::NAME_E),
        ("eo", names::NAME_EO),
        ("f12", names::NAME_F12),
        ("f3", names::NAME_F3),
        ("f4", names::NAME_F4),
        ("f5", names::NAME_F5),
        ("f6", names::NAME_F6),
        ("fitz", names::NAME_FITZ),
        ("fr", names::NAME_FR),
        ("g", names::NAME_G),
        ("h", names::NAME_H),
        ("hd", names::NAME_HD),
        ("i", names::NAME_I),
        ("id", names::NAME_ID),
        ("ind", names::NAME_IND),
        ("inv", names::NAME_INV),
        ("ip", names::NAME_IP),
        ("ir", names::NAME_IR),
        ("is", names::NAME_IS),
        ("it", names::NAME_IT),
        ("k", names::NAME_K),
        ("ks", names::NAME_KS),
        ("layers", names::NAME_LAYERS),
        ("lc", names::NAME_LC),
        ("lj", names::NAME_LJ),
        ("m", names::NAME_M),
        ("masksProperties", names::NAME_MASKS_PROPERTIES),
        ("ml", names::NAME_ML),
        ("mode", names::NAME_MODE),
        ("n", names::NAME_N),
        ("nm", names::NAME_NM),
        ("o", names::NAME_O),
        ("op", names::NAME_OP),
        ("or", names::NAME_OR),
        ("os", names::NAME_OS),
        ("p", names::NAME_P),
        ("parent", names::NAME_PARENT),
        ("pt", names::NAME_PT),
        ("r", names::NAME_R),
        ("refId", names::NAME_REF_ID),
        ("s", names::NAME_S),
        ("sa", names::NAME_SA),
        ("sc", names::NAME_SC),
        ("sh", names::NAME_SH),
        ("shapes", names::NAME_SHAPES),
        ("sk", names::NAME_SK),
        ("so", names::NAME_SO),
        ("sr", names::NAME_SR),
        ("st", names::NAME_ST),
        ("sw", names::NAME_SW),
        ("sy", names::NAME_SY),
        ("t", names::NAME_T),
        ("td", names::NAME_TD),
        ("tm", names::NAME_TM),
        ("tr", names::NAME_TR),
        ("tt", names::NAME_TT),
        ("ty", names::NAME_TY),
        ("v", names::NAME_V),
        ("w", names::NAME_W),
        ("x", names::NAME_X),
        ("y", names::NAME_Y),
        ("el", names::TYPE_EL),
        ("fl", names::TYPE_FL),
        ("gf", names::TYPE_GF),
        ("gr", names::TYPE_GR),
        ("gs", names::TYPE_GS),
        ("rc", names::TYPE_RC),
        ("rd", names::TYPE_RD),
        ("rp", names::TYPE_RP),
        ("sh", names::TYPE_SH),
        ("sr", names::TYPE_SR),
        ("st", names::TYPE_ST),
        ("tm", names::TYPE_TM),
        ("tr", names::TYPE_TR),
    ] {
        assert_eq!(pack_name(name.as_bytes()), packed, "{name}");
    }
}
