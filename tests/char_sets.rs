use font::char_sets::{
    Ascii, CharSetChar, CharSetStr, CodePage437, MacOsRoman, Utf16, Utf16BMPOnly, Utf8,
};

#[test]
fn test_char_sets() {
    println!("{:?}", CharSetStr::<CodePage437>::from_bytes(&[1u8, 2u8, 3u8]));
    let s = CharSetStr::<CodePage437>::from_bytes(&[1u8, 2u8, 3u8]).unwrap();
    println!("{}", s.to_string());
    assert_eq!(s.to_string(), "☺☻♥");
}

#[test]
fn test_utf16() {
    let bytes = [0x00, 0x4E, 0x00, 0x6F, 0x00, 0x72, 0x00, 0x6D, 0x00, 0x61, 0x00, 0x6C];
    println!("{:?}", CharSetStr::<Utf16>::from_bytes(&bytes));
    assert_eq!(CharSetStr::<Utf16>::from_bytes(&bytes).unwrap().to_string(), "Normal");
}

fn round_trip<T: CharSetChar + PartialEq + std::fmt::Debug>(c: T) {
    let bytes = c.get_bytes();
    assert_eq!(T::from_bytes(&bytes), Ok(c));
}

#[test]
fn char_round_trip_every_byte_set() {
    for b in 0u8..=255 {
        round_trip(CodePage437::from_bytes(&[b]).unwrap());
        round_trip(MacOsRoman::from_bytes(&[b]).unwrap());
        if b < 0x80 {
            round_trip(Ascii::from_bytes(&[b]).unwrap());
        }
    }
}

#[test]
fn char_round_trip_unicode_sets() {
    for c in ['a', 'é', '€', '\u{FFFD}', '😀', '\u{10FFFF}'] {
        round_trip(Utf8::from_native(c).unwrap());
        round_trip(Utf16::from_native(c).unwrap());
        if (c as u32) < 0x10000 {
            round_trip(Utf16BMPOnly::from_native(c).unwrap());
        }
    }
}

#[test]
fn utf8_encodings() {
    assert_eq!(Utf8::from_native('a').unwrap().get_bytes(), vec![0x61]);
    assert_eq!(Utf8::from_native('é').unwrap().get_bytes(), vec![0xC3, 0xA9]);
    assert_eq!(Utf8::from_native('€').unwrap().get_bytes(), vec![0xE2, 0x82, 0xAC]);
    assert_eq!(Utf8::from_native('😀').unwrap().get_bytes(), vec![0xF0, 0x9F, 0x98, 0x80]);
    assert_eq!(Utf8::from_bytes(&[0xE2, 0x82, 0xAC]).unwrap().as_native(), '€');
    assert!(Utf8::from_bytes(&[0xC0, 0x80]).is_err());
    assert!(Utf8::from_bytes(&[0xED, 0xA0, 0x80]).is_err());
    assert!(Utf8::from_bytes(&[0x61, 0x62]).is_err());
    assert!(Utf8::from_bytes(&[]).is_err());
}

#[test]
fn utf16_encodings() {
    assert_eq!(Utf16::from_native('😀').unwrap().get_bytes(), vec![0xD8, 0x3D, 0xDE, 0x00]);
    assert_eq!(Utf16::from_native('é').unwrap().get_bytes(), vec![0x00, 0xE9]);
    assert_eq!(Utf16::from_bytes(&[0xD8, 0x3D, 0xDE, 0x00]).unwrap().as_native(), '😀');
    assert!(Utf16::from_bytes(&[0x00, 0x41, 0x00, 0x42]).is_err());
    assert!(Utf16::from_bytes(&[0x00, 0x41, 0x00]).is_err());
    assert!(Utf16::from_bytes(&[0x00]).is_err());
}

#[test]
fn consume_failure_leaves_buffer() {
    let mut b = vec![0xE2, 0x82];
    assert!(Utf8::consume_bytes(&mut b).is_err());
    assert_eq!(b, vec![0xE2, 0x82]);
    let mut b = vec![0xD8, 0x00, 0x00, 0x41];
    assert!(Utf16::consume_bytes(&mut b).is_err());
    assert_eq!(b, vec![0xD8, 0x00, 0x00, 0x41]);
    let mut b = vec![0xDC, 0x00];
    assert!(Utf16BMPOnly::consume_bytes(&mut b).is_err());
    assert_eq!(b, vec![0xDC, 0x00]);
    let mut b = vec![0x80, 0x41];
    assert!(Ascii::consume_bytes(&mut b).is_err());
    assert_eq!(b, vec![0x80, 0x41]);
    let mut b = vec![0x41];
    assert!(Utf16::consume_bytes(&mut b).is_err());
    assert_eq!(b, vec![0x41]);
    let mut b: Vec<u8> = vec![];
    assert!(CodePage437::consume_bytes(&mut b).is_err());
    assert!(b.is_empty());
}

#[test]
fn consume_takes_one_character() {
    let mut b = vec![0xE2, 0x82, 0xAC, 0x41];
    assert_eq!(Utf8::consume_bytes(&mut b).unwrap().as_native(), '€');
    assert_eq!(b, vec![0x41]);
    let mut b = vec![0xD8, 0x3D, 0xDE, 0x00, 0x00, 0x41];
    assert_eq!(Utf16::consume_bytes(&mut b).unwrap().as_native(), '😀');
    assert_eq!(b, vec![0x00, 0x41]);
    let mut b = vec![0x00, 0x41, 0xD8, 0x00];
    assert_eq!(Utf16::consume_bytes(&mut b).unwrap().as_native(), 'A');
    assert_eq!(b, vec![0xD8, 0x00]);
}

#[test]
fn bmp_only_rejects_surrogates() {
    assert!(Utf16BMPOnly::from_bytes(&[0xD8, 0x00]).is_err());
    assert!(Utf16BMPOnly::from_bytes(&[0xD8, 0x3D, 0xDE, 0x00]).is_err());
    assert!(CharSetStr::<Utf16BMPOnly>::from_bytes(&[0xD8, 0x3D, 0xDE, 0x00]).is_err());
    assert!(Utf16BMPOnly::from_native('😀').is_err());
    assert!(Utf16::from_bytes(&[0xD8, 0x00]).is_err());
    assert_eq!(
        CharSetStr::<Utf16>::from_bytes(&[0xD8, 0x3D, 0xDE, 0x00]).unwrap().to_string(),
        "😀"
    );
    assert_eq!(Utf16BMPOnly::from_bytes(&[0x20, 0xAC]).unwrap().as_native(), '€');
}

#[test]
fn bytes_round_trip() {
    let text = "Héllo, wörld € 😀".as_bytes();
    let s = CharSetStr::<Utf8>::from_bytes(text).unwrap();
    assert_eq!(s.to_bytes(), text.to_vec());
    assert_eq!(s.len(), 16);
    let b = [0x00, 0x48, 0xD8, 0x3D, 0xDE, 0x00, 0x20, 0xAC];
    assert_eq!(CharSetStr::<Utf16>::from_bytes(&b).unwrap().to_bytes(), b.to_vec());
    let all: Vec<u8> = (0u8..=255).collect();
    assert_eq!(CharSetStr::<CodePage437>::from_bytes(&all).unwrap().to_bytes(), all);
    assert_eq!(CharSetStr::<MacOsRoman>::from_bytes(&all).unwrap().to_bytes(), all);
}

#[test]
fn from_bytes_reports_bytes_read() {
    assert_eq!(CharSetStr::<Ascii>::from_bytes(&[0x41, 0x42, 0x80, 0x43]).unwrap_err(), 2);
    assert_eq!(CharSetStr::<Utf8>::from_bytes(&[0xC3, 0xA9, 0xE2, 0x82]).unwrap_err(), 2);
    assert_eq!(CharSetStr::<Utf16>::from_bytes(&[0x00, 0x41, 0x00]).unwrap_err(), 2);
    assert_eq!(CharSetStr::<Utf16BMPOnly>::from_bytes(&[0xDC, 0x00]).unwrap_err(), 0);
}

#[test]
fn from_bytes_empty_is_empty_string() {
    let s = CharSetStr::<Utf8>::from_bytes(&[]).unwrap();
    assert!(s.is_empty());
    assert_eq!(s.to_string(), "");
}

#[test]
fn text_round_trip() {
    let text = "Héllo, wörld";
    assert_eq!(CharSetStr::<MacOsRoman>::from_string(text).unwrap().to_string(), text);
    assert_eq!(CharSetStr::<CodePage437>::from_string(text).unwrap().to_string(), text);
    assert_eq!(CharSetStr::<Utf16BMPOnly>::from_string(text).unwrap().to_string(), text);
    let wide = "a😀b€";
    assert_eq!(CharSetStr::<Utf8>::from_string(wide).unwrap().to_string(), wide);
    assert_eq!(CharSetStr::<Utf16>::from_string(wide).unwrap().to_string(), wide);
    assert_eq!(
        CharSetStr::<MacOsRoman>::from_string("Ä").unwrap().to_bytes(),
        vec![0x80]
    );
    assert_eq!(
        CharSetStr::<CodePage437>::from_string("☺A").unwrap().to_bytes(),
        vec![0x01, 0x41]
    );
}

#[test]
fn from_string_reports_byte_index() {
    assert_eq!(CharSetStr::<Ascii>::from_string("abé").unwrap_err(), 2);
    assert_eq!(CharSetStr::<Ascii>::from_string("éa€").unwrap_err(), 0);
    assert_eq!(CharSetStr::<MacOsRoman>::from_string("é😀").unwrap_err(), 2);
    assert_eq!(CharSetStr::<CodePage437>::from_string("a€").unwrap_err(), 1);
    assert_eq!(CharSetStr::<Utf16BMPOnly>::from_string("aé😀").unwrap_err(), 3);
}

#[test]
fn converts_between_sets() {
    let s = CharSetStr::<Utf8>::from_string("Ça").unwrap();
    let m = s.to_char_set_str::<MacOsRoman>().unwrap();
    assert_eq!(m.to_bytes(), vec![0x82, 0x61]);
    let c = s.to_char_set_str::<CodePage437>().unwrap();
    assert_eq!(c.to_bytes(), vec![0x80, 0x61]);
    assert!(s.to_char_set_str::<Ascii>().is_err());
}

#[test]
fn string_editing() {
    let mut s = CharSetStr::<Ascii>::from_string("hello world").unwrap();
    let tail = s.split_off(5);
    assert_eq!(s.to_string(), "hello");
    assert_eq!(tail.to_string(), " world");
    let drained = s.drain(1..3);
    assert_eq!(s.to_string(), "hlo");
    assert_eq!(drained.len(), 2);
    assert_eq!(drained[0].as_native(), 'e');
    s.retain(|c| c.as_native() != 'l');
    assert_eq!(s.to_string(), "ho");
    s.push(Ascii::from_native('!').unwrap());
    s.insert(0, Ascii::from_native('>').unwrap());
    assert_eq!(s.to_string(), ">ho!");
    assert_eq!(s.remove(1).as_native(), 'h');
    assert_eq!(s.pop().unwrap().as_native(), '!');
    assert_eq!(s.to_string(), ">o");
    s.truncate(1);
    assert_eq!(s.to_string(), ">");
    s.clear();
    assert!(s.is_empty());
    assert_eq!(CharSetStr::<Ascii>::new().len(), 0);
    assert!(CharSetStr::<Utf8>::default().is_empty());
    assert_eq!(CharSetStr::<Ascii>::with_capacity(4).len(), 0);
    let chars = vec![Utf8::from_native('x').unwrap(), Utf8::from_native('y').unwrap()];
    assert_eq!(CharSetStr::from_char_set_chars(chars).to_string(), "xy");
}

#[test]
fn mac_os_roman_table() {
    assert_eq!(MacOsRoman::from_bytes(&[0x41]).unwrap().as_native(), 'A');
    assert_eq!(MacOsRoman::from_bytes(&[0xDB]).unwrap().as_native(), '€');
    assert_eq!(MacOsRoman::from_bytes(&[0xF0]).unwrap().as_native(), '\u{F8FF}');
    assert_eq!(MacOsRoman::from_native('€').unwrap().get_bytes(), vec![0xDB]);
    assert!(MacOsRoman::from_bytes(&[0x41, 0x42]).is_err());
    assert!(Ascii::from_native('é').is_err());
    assert_eq!(CodePage437::from_bytes(&[0xFF]).unwrap().as_native(), '\u{202F}');
}
