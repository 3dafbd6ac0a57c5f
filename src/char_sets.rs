//! Characters of fixed character sets and strings made of them.

use vstd::arithmetic::div_mod::lemma_fundamental_div_mod_converse;
use vstd::prelude::*;
use vstd::utf8::{
    char_u32_cast, decode_first_scalar, encode_scalar, length_of_first_scalar, valid_first_scalar,
};

verus! {

/// Relies on `char::from_u32`: it gives the character whose scalar value is
/// `i`, and `None` where `i` is a surrogate or above 0x10FFFF.
pub assume_specification[ char::from_u32 ](i: u32) -> (r: Option<char>)
    ensures
        r is Some <==> (i <= 0x10FFFF && !(0xD800 <= i <= 0xDFFF)),
        r is Some ==> r->Some_0 as u32 == i,
;

/// Relies on `String::push`: it appends the character to the end of the
/// string.
pub assume_specification[ String::push ](string: &mut String, ch: char)
    ensures
        final(string)@ == old(string)@.push(ch),
;

/// A character of one fixed character set, with its byte encoding and its
/// Unicode scalar value.
pub trait CharSetChar: Sized {
    /// The character is one of the set.
    spec fn valid(&self) -> bool;

    /// The bytes that encode the character.
    spec fn spec_bytes(&self) -> Seq<u8>;

    /// The Unicode scalar value the character stands for.
    spec fn spec_native(&self) -> char;

    /// The character whose encoding starts `b`, if `b` starts with one.
    spec fn spec_first(b: Seq<u8>) -> Option<Self>;

    /// The character of the set that stands for `c`, if there is one.
    spec fn spec_from_native(c: char) -> Option<Self>;

    /// A character found at the front of `b` is a character of the set whose
    /// encoding is a non-empty prefix of `b`.
    proof fn lemma_first(b: Seq<u8>)
        ensures
            Self::spec_first(b) matches Some(c) ==> {
                &&& c.valid()
                &&& 0 < c.spec_bytes().len() <= b.len()
                &&& b.take(c.spec_bytes().len() as int) == c.spec_bytes()
            },
    ;

    /// The encoding of a character of the set is read back as that character.
    proof fn lemma_bytes(c: Self)
        requires
            c.valid(),
        ensures
            Self::spec_first(c.spec_bytes()) == Some(c),
    ;

    /// The character that stands for `c` has `c` as its scalar value.
    proof fn lemma_native(c: char)
        ensures
            Self::spec_from_native(c) matches Some(x) ==> x.valid() && x.spec_native() == c,
    ;

    /// Takes one character from the front of `bytes`; on failure `bytes` is
    /// left as it was.
    fn consume_bytes(bytes: &mut Vec<u8>) -> (r: Result<Self, ()>)
        ensures
            match Self::spec_first(old(bytes)@) {
                Some(c) => r == Ok::<Self, ()>(c) && final(bytes)@ == old(bytes)@.skip(
                    c.spec_bytes().len() as int,
                ),
                None => r == Err::<Self, ()>(()) && final(bytes)@ == old(bytes)@,
            },
    ;

    /// Reads `bytes` as exactly one character.
    fn from_bytes(bytes: &[u8]) -> (r: Result<Self, ()>)
        ensures
            ({
                let f = Self::spec_first(bytes@);
                if f is Some && f->Some_0.spec_bytes().len() == bytes@.len() {
                    r == Ok::<Self, ()>(f->Some_0)
                } else {
                    r == Err::<Self, ()>(())
                }
            }),
    ;

    /// The bytes that encode the character.
    fn get_bytes(&self) -> (r: Vec<u8>)
        ensures
            r@ == self.spec_bytes(),
    ;

    /// The Unicode scalar value of the character.
    fn as_native(&self) -> (r: char)
        ensures
            r == self.spec_native(),
    ;

    /// The character of the set that stands for `chr`.
    fn from_native(chr: char) -> (r: Result<Self, ()>)
        ensures
            match Self::spec_from_native(chr) {
                Some(c) => r == Ok::<Self, ()>(c),
                None => r == Err::<Self, ()>(()),
            },
    ;
}

/// The character that `b` encodes, where `b` is the encoding of exactly one
/// character.
pub open spec fn exact_char<T: CharSetChar>(b: Seq<u8>) -> Option<T> {
    match T::spec_first(b) {
        Some(c) => if c.spec_bytes().len() == b.len() {
            Some(c)
        } else {
            None
        },
        None => None,
    }
}

/// The one-byte encoding of a single-byte character.
pub open spec fn single(b: u8) -> Seq<u8> {
    seq![b]
}

/// Takes `n` bytes from the front of `bytes`.
fn drop_front(bytes: &mut Vec<u8>, n: usize)
    requires
        n <= old(bytes)@.len(),
    ensures
        final(bytes)@ == old(bytes)@.skip(n as int),
{
    let mut i: usize = 0;
    while i < n
        invariant
            i <= n,
            n <= old(bytes)@.len(),
            bytes@ == old(bytes)@.skip(i as int),
        decreases n - i,
    {
        bytes.remove(0);
        i = i + 1;
        assert(bytes@ =~= old(bytes)@.skip(i as int));
    }
}

/// A character of ASCII: a byte below 0x80.
#[derive(Clone, Copy, PartialEq, Eq, Debug)]
pub struct Ascii {
    data: u8,
}

impl Ascii {
    #[verifier::type_invariant]
    spec fn inv(self) -> bool {
        self.data < 0x80
    }
}

impl CharSetChar for Ascii {
    closed spec fn valid(&self) -> bool {
        self.data < 0x80
    }

    closed spec fn spec_bytes(&self) -> Seq<u8> {
        single(self.data)
    }

    closed spec fn spec_native(&self) -> char {
        self.data as char
    }

    closed spec fn spec_first(b: Seq<u8>) -> Option<Self> {
        if b.len() >= 1 && b[0] < 0x80 {
            Some(Ascii { data: b[0] })
        } else {
            None
        }
    }

    closed spec fn spec_from_native(c: char) -> Option<Self> {
        if (c as u32) < 0x80 {
            Some(Ascii { data: (c as u32) as u8 })
        } else {
            None
        }
    }

    proof fn lemma_first(b: Seq<u8>) {
        if b.len() >= 1 && b[0] < 0x80 {
            assert(b.take(1) =~= single(b[0]));
        }
    }

    proof fn lemma_bytes(c: Self) {
    }

    proof fn lemma_native(c: char) {
        if (c as u32) < 0x80 {
            char_u32_cast(c, c as u32);
            
        }
    }

    fn consume_bytes(bytes: &mut Vec<u8>) -> (r: Result<Self, ()>) {
        if bytes.len() < 1 || bytes[0] >= 0x80 {
            Err(())
        } else {
            let data = bytes.remove(0);
            assert(bytes@ =~= old(bytes)@.skip(1));
            Ok(Ascii { data })
        }
    }

    fn from_bytes(bytes: &[u8]) -> (r: Result<Self, ()>) {
        if bytes.len() != 1 || bytes[0] >= 0x80 {
            Err(())
        } else {
            Ok(Ascii { data: bytes[0] })
        }
    }

    fn get_bytes(&self) -> (r: Vec<u8>) {
        let r = vec![self.data];
        assert(r@ =~= single(self.data));
        r
    }

    fn as_native(&self) -> (r: char) {
        self.data as char
    }

    fn from_native(chr: char) -> (r: Result<Self, ()>) {
        let code = chr as u32;
        if code < 0x80 {
            Ok(Ascii { data: code as u8 })
        } else {
            Err(())
        }
    }
}

/// `i` is the first place of `t` that holds `c`.
pub open spec fn first_index(t: Seq<char>, c: char, i: int) -> bool {
    &&& 0 <= i < t.len()
    &&& t[i] == c
    &&& forall|j: int| 0 <= j < i ==> t[j] != c
}

/// The first place of `table` that holds `c`.
fn table_index(table: &[char], c: char) -> (r: Option<usize>)
    ensures
        match r {
            Some(i) => first_index(table@, c, i as int),
            None => forall|i: int| 0 <= i < table@.len() ==> table@[i] != c,
        },
{
    let mut i: usize = 0;
    while i < table.len()
        invariant
            i <= table@.len(),
            forall|j: int| 0 <= j < i ==> table@[j] != c,
        decreases table@.len() - i,
    {
        if table[i] == c {
            return Some(i);
        }
        i = i + 1;
    }
    None
}

/// The characters of IBM code page 437, by byte.
pub const CODE_PAGE_437_CHARS: [char; 256] = [
    '\0', '☺', '☻', '♥', '♦', '♣', '♠', '•', '◘', '○', '◙', '♂', '♀', '♪', '♫', '☼',
    '►', '◄', '↕', '‼', '¶', '§', '▬', '↨', '↑', '↓', '→', '←', '∟', '↔', '▲', '▼',
    ' ', '!', '"', '#', '$', '%', '&', '\'', '(', ')', '*', '+', ',', '-', '.', '/',
    '0', '1', '2', '3', '4', '5', '6', '7', '8', '9', ':', ';', '<', '=', '>', '?',
    '@', 'A', 'B', 'C', 'D', 'E', 'F', 'G', 'H', 'I', 'J', 'K', 'L', 'M', 'N', 'O',
    'P', 'Q', 'R', 'S', 'T', 'U', 'V', 'W', 'X', 'Y', 'Z', '[', '\\', ']', '^', '_',
    '`', 'a', 'b', 'c', 'd', 'e', 'f', 'g', 'h', 'i', 'j', 'k', 'l', 'm', 'n', 'o',
    'p', 'q', 'r', 's', 't', 'u', 'v', 'w', 'x', 'y', 'z', '{', '|', '}', '~', '⌂',
    'Ç', 'ü', 'é', 'â', 'ä', 'à', 'å', 'ç', 'ê', 'ë', 'è', 'ï', 'î', 'ì', 'Ä', 'Å',
    'É', 'æ', 'Æ', 'ô', 'ö', 'ò', 'û', 'ù', 'ÿ', 'Ö', 'Ü', '¢', '£', '¥', '₧', 'ƒ',
    'á', 'í', 'ó', 'ú', 'ñ', 'Ñ', 'ª', 'º', '¿', '⌐', '¬', '½', '¼', '¡', '«', '»',
    '░', '▒', '▓', '│', '┤', '╡', '╢', '╖', '╕', '╣', '║', '╗', '╝', '╜', '╛', '┐',
    '└', '┴', '┬', '├', '─', '┼', '╞', '╟', '╚', '╔', '╩', '╦', '╠', '═', '╬', '╧',
    '╨', '╤', '╥', '╙', '╘', '╒', '╓', '╫', '╪', '┘', '┌', '█', '▄', '▌', '▐', '▀',
    'α', 'ß', 'Γ', 'π', 'Σ', 'σ', 'µ', 'τ', 'Φ', 'Θ', 'Ω', 'δ', '∞', 'φ', 'ε', '∩',
    '≡', '±', '≥', '≤', '⌠', '⌡', '÷', '≈', '°', '∙', '·', '√', 'ⁿ', '²', '■', '\u{202F}',
];

/// A character of IBM code page 437, which gives a character to every byte.
#[derive(Clone, Copy, PartialEq, Eq, Debug)]
pub struct CodePage437 {
    data: u8,
}

impl CharSetChar for CodePage437 {
    closed spec fn valid(&self) -> bool {
        true
    }

    closed spec fn spec_bytes(&self) -> Seq<u8> {
        single(self.data)
    }

    closed spec fn spec_native(&self) -> char {
        CODE_PAGE_437_CHARS@[self.data as int]
    }

    closed spec fn spec_first(b: Seq<u8>) -> Option<Self> {
        if b.len() >= 1 {
            Some(CodePage437 { data: b[0] })
        } else {
            None
        }
    }

    closed spec fn spec_from_native(c: char) -> Option<Self> {
        if exists|i: int| first_index(CODE_PAGE_437_CHARS@, c, i) {
            Some(
                CodePage437 {
                    data: (choose|i: int| first_index(CODE_PAGE_437_CHARS@, c, i)) as u8,
                },
            )
        } else {
            None
        }
    }

    proof fn lemma_first(b: Seq<u8>) {
        if b.len() >= 1 {
            assert(b.take(1) =~= single(b[0]));
        }
    }

    proof fn lemma_bytes(c: Self) {
    }

    proof fn lemma_native(c: char) {
    }

    fn consume_bytes(bytes: &mut Vec<u8>) -> (r: Result<Self, ()>) {
        if bytes.len() < 1 {
            Err(())
        } else {
            let data = bytes.remove(0);
            assert(bytes@ =~= old(bytes)@.skip(1));
            Ok(CodePage437 { data })
        }
    }

    fn from_bytes(bytes: &[u8]) -> (r: Result<Self, ()>) {
        if bytes.len() != 1 {
            Err(())
        } else {
            Ok(CodePage437 { data: bytes[0] })
        }
    }

    fn get_bytes(&self) -> (r: Vec<u8>) {
        let r = vec![self.data];
        assert(r@ =~= single(self.data));
        r
    }

    fn as_native(&self) -> (r: char) {
        CODE_PAGE_437_CHARS[self.data as usize]
    }

    fn from_native(chr: char) -> (r: Result<Self, ()>) {
        match table_index(&CODE_PAGE_437_CHARS, chr) {
            Some(i) => Ok(CodePage437 { data: i as u8 }),
            None => Err(()),
        }
    }
}

/// The characters of Mac OS Roman for the bytes 0x80 to 0xFF; the bytes
/// below 0x80 are ASCII.
pub const MAC_OS_ROMAN_HIGH_CHARS: [char; 128] = [
    'Ä', 'Å', 'Ç', 'É', 'Ñ', 'Ö', 'Ü', 'á', 'à', 'â', 'ä', 'ã', 'å', 'ç', 'é', 'è',
    'ê', 'ë', 'í', 'ì', 'î', 'ï', 'ñ', 'ó', 'ò', 'ô', 'ö', 'õ', 'ú', 'ù', 'û', 'ü',
    '†', '°', '¢', '£', '§', '•', '¶', 'ß', '®', '©', '™', '´', '¨', '≠', 'Æ', 'Ø',
    '∞', '±', '≤', '≥', '¥', 'µ', '∂', '∑', '∏', 'π', '∫', 'ª', 'º', 'Ω', 'æ', 'ø',
    '¿', '¡', '¬', '√', 'ƒ', '≈', '∆', '«', '»', '…', '\u{202F}', 'À', 'Ã', 'Õ', 'Œ', 'œ',
    '–', '—', '“', '”', '‘', '’', '÷', '◊', 'ÿ', 'Ÿ', '⁄', '€', '‹', '›', 'ﬁ', 'ﬂ',
    '‡', '·', '‚', '„', '‰', 'Â', 'Ê', 'Á', 'Ë', 'È', 'Í', 'Î', 'Ï', 'Ì', 'Ó', 'Ô',
    '\u{F8FF}', 'Ò', 'Ú', 'Û', 'Ù', 'ı', 'ˆ', '˜', '¯', '˘', '˙', '˚', '¸', '˝', '˛', 'ˇ',
];

/// An entry of `MAC_OS_ROMAN_HIGH_CHARS` that marks its byte as standing for
/// no character.
pub const MAC_OS_ROMAN_UNMAPPED: char = '\0';

/// The byte stands for a character of Mac OS Roman.
pub open spec fn mac_os_roman_byte(b: u8) -> bool {
    b < 0x80 || MAC_OS_ROMAN_HIGH_CHARS@[b - 0x80] != MAC_OS_ROMAN_UNMAPPED
}

/// A character of Mac OS Roman.
#[derive(Clone, Copy, PartialEq, Eq, Debug)]
pub struct MacOsRoman {
    data: u8,
}

impl MacOsRoman {
    #[verifier::type_invariant]
    spec fn inv(self) -> bool {
        mac_os_roman_byte(self.data)
    }

    fn new(data: u8) -> (r: Result<Self, ()>)
        ensures
            mac_os_roman_byte(data) ==> r == Ok::<Self, ()>(MacOsRoman { data }),
            !mac_os_roman_byte(data) ==> r == Err::<Self, ()>(()),
    {
        if data < 0x80 {
            Ok(MacOsRoman { data })
        } else if MAC_OS_ROMAN_HIGH_CHARS[(data - 0x80) as usize] == MAC_OS_ROMAN_UNMAPPED {
            Err(())
        } else {
            Ok(MacOsRoman { data })
        }
    }
}

impl CharSetChar for MacOsRoman {
    closed spec fn valid(&self) -> bool {
        mac_os_roman_byte(self.data)
    }

    closed spec fn spec_bytes(&self) -> Seq<u8> {
        single(self.data)
    }

    closed spec fn spec_native(&self) -> char {
        if self.data < 0x80 {
            self.data as char
        } else {
            MAC_OS_ROMAN_HIGH_CHARS@[self.data - 0x80]
        }
    }

    closed spec fn spec_first(b: Seq<u8>) -> Option<Self> {
        if b.len() >= 1 && mac_os_roman_byte(b[0]) {
            Some(MacOsRoman { data: b[0] })
        } else {
            None
        }
    }

    closed spec fn spec_from_native(c: char) -> Option<Self> {
        if (c as u32) < 0x80 {
            Some(MacOsRoman { data: (c as u32) as u8 })
        } else if exists|i: int| first_index(MAC_OS_ROMAN_HIGH_CHARS@, c, i) {
            Some(
                MacOsRoman {
                    data: (0x80 + choose|i: int| first_index(MAC_OS_ROMAN_HIGH_CHARS@, c, i)) as u8,
                },
            )
        } else {
            None
        }
    }

    proof fn lemma_first(b: Seq<u8>) {
        if b.len() >= 1 {
            assert(b.take(1) =~= single(b[0]));
        }
    }

    proof fn lemma_bytes(c: Self) {
    }

    proof fn lemma_native(c: char) {
        if (c as u32) < 0x80 {
            char_u32_cast(c, c as u32);
        }
    }

    fn consume_bytes(bytes: &mut Vec<u8>) -> (r: Result<Self, ()>) {
        if bytes.len() < 1 {
            Err(())
        } else {
            let r = Self::new(bytes[0]);
            if r.is_ok() {
                bytes.remove(0);
                assert(bytes@ =~= old(bytes)@.skip(1));
            }
            r
        }
    }

    fn from_bytes(bytes: &[u8]) -> (r: Result<Self, ()>) {
        if bytes.len() != 1 {
            Err(())
        } else {
            Self::new(bytes[0])
        }
    }

    fn get_bytes(&self) -> (r: Vec<u8>) {
        let r = vec![self.data];
        assert(r@ =~= single(self.data));
        r
    }

    fn as_native(&self) -> (r: char) {
        if self.data < 0x80 {
            self.data as char
        } else {
            MAC_OS_ROMAN_HIGH_CHARS[(self.data - 0x80) as usize]
        }
    }

    fn from_native(chr: char) -> (r: Result<Self, ()>) {
        let code = chr as u32;
        if code < 0x80 {
            Ok(MacOsRoman { data: code as u8 })
        } else {
            match table_index(&MAC_OS_ROMAN_HIGH_CHARS, chr) {
                Some(i) => Self::new(0x80 + i as u8),
                None => Err(()),
            }
        }
    }
}

/// The 16-bit unit stored big-endian in the bytes `hi`, `lo`.
pub open spec fn be_u16(hi: u8, lo: u8) -> u16 {
    (hi as int * 256 + lo as int) as u16
}

/// The big-endian bytes of a 16-bit unit.
pub open spec fn unit_bytes(u: u16) -> Seq<u8> {
    seq![(u / 256) as u8, (u % 256) as u8]
}

/// A UTF-16 surrogate code unit.
pub open spec fn is_surrogate(u: u16) -> bool {
    0xD800 <= u <= 0xDFFF
}

proof fn lemma_unit(hi: u8, lo: u8)
    ensures
        be_u16(hi, lo) == hi as int * 256 + lo as int,
        unit_bytes(be_u16(hi, lo)) == seq![hi, lo],
{
    lemma_fundamental_div_mod_converse(hi as int * 256 + lo as int, 256, hi as int, lo as int);
    assert(unit_bytes(be_u16(hi, lo)) =~= seq![hi, lo]);
}

proof fn lemma_unit_bytes(u: u16)
    ensures
        be_u16(unit_bytes(u)[0], unit_bytes(u)[1]) == u,
{
    lemma_fundamental_div_mod_converse(u as int, 256, u as int / 256, u as int % 256);
}

fn unit_at(hi: u8, lo: u8) -> (r: u16)
    ensures
        r == be_u16(hi, lo),
{
    proof {
        lemma_unit(hi, lo);
    }
    (hi as u16) * 256 + (lo as u16)
}

fn push_unit(out: &mut Vec<u8>, u: u16)
    ensures
        final(out)@ == old(out)@ + unit_bytes(u),
{
    out.push((u / 256) as u8);
    out.push((u % 256) as u8);
    assert(out@ =~= old(out)@ + unit_bytes(u));
}

/// A character of UTF-16 restricted to the Basic Multilingual Plane: one
/// code unit that is not a surrogate.
#[derive(Clone, Copy, PartialEq, Eq, Debug)]
pub struct Utf16BMPOnly {
    data: u16,
}

impl Utf16BMPOnly {
    #[verifier::type_invariant]
    spec fn inv(self) -> bool {
        !is_surrogate(self.data)
    }
}

impl CharSetChar for Utf16BMPOnly {
    closed spec fn valid(&self) -> bool {
        !is_surrogate(self.data)
    }

    closed spec fn spec_bytes(&self) -> Seq<u8> {
        unit_bytes(self.data)
    }

    closed spec fn spec_native(&self) -> char {
        (self.data as u32) as char
    }

    closed spec fn spec_first(b: Seq<u8>) -> Option<Self> {
        if b.len() >= 2 && !is_surrogate(be_u16(b[0], b[1])) {
            Some(Utf16BMPOnly { data: be_u16(b[0], b[1]) })
        } else {
            None
        }
    }

    closed spec fn spec_from_native(c: char) -> Option<Self> {
        if (c as u32) < 0x10000 {
            Some(Utf16BMPOnly { data: (c as u32) as u16 })
        } else {
            None
        }
    }

    proof fn lemma_first(b: Seq<u8>) {
        if b.len() >= 2 {
            lemma_unit(b[0], b[1]);
            assert(b.take(2) =~= seq![b[0], b[1]]);
        }
    }

    proof fn lemma_bytes(c: Self) {
        lemma_unit_bytes(c.data);
    }

    proof fn lemma_native(c: char) {
        vstd::utf8::char_is_scalar(c);
        char_u32_cast(c, c as u32);
    }

    fn consume_bytes(bytes: &mut Vec<u8>) -> (r: Result<Self, ()>) {
        if bytes.len() < 2 {
            return Err(());
        }
        let u = unit_at(bytes[0], bytes[1]);
        if 0xD800 <= u && u <= 0xDFFF {
            return Err(());
        }
        drop_front(bytes, 2);
        Ok(Utf16BMPOnly { data: u })
    }

    fn from_bytes(bytes: &[u8]) -> (r: Result<Self, ()>) {
        if bytes.len() != 2 {
            return Err(());
        }
        let u = unit_at(bytes[0], bytes[1]);
        proof {
            lemma_unit(bytes@[0], bytes@[1]);
        }
        if 0xD800 <= u && u <= 0xDFFF {
            Err(())
        } else {
            Ok(Utf16BMPOnly { data: u })
        }
    }

    fn get_bytes(&self) -> (r: Vec<u8>) {
        let mut r = Vec::new();
        push_unit(&mut r, self.data);
        assert(r@ =~= unit_bytes(self.data));
        r
    }

    fn as_native(&self) -> (r: char) {
        proof {
            use_type_invariant(self);
        }
        let c = char::from_u32(self.data as u32).unwrap();
        proof {
            char_u32_cast(c, self.data as u32);
        }
        c
    }

    fn from_native(chr: char) -> (r: Result<Self, ()>) {
        let code = chr as u32;
        if code < 0x10000 {
            proof {
                vstd::utf8::char_is_scalar(chr);
            }
            Ok(Utf16BMPOnly { data: code as u16 })
        } else {
            Err(())
        }
    }
}

/// The UTF-16 encoding, big-endian, of a character: one code unit below
/// 0x10000, a surrogate pair above.
pub open spec fn utf16_bytes(c: char) -> Seq<u8> {
    let code = c as u32;
    if code < 0x10000 {
        unit_bytes(code as u16)
    } else {
        let v = code - 0x10000;
        unit_bytes((0xD800 + v / 0x400) as u16) + unit_bytes((0xDC00 + v % 0x400) as u16)
    }
}

/// The scalar value that the surrogate pair `high`, `low` stands for.
pub open spec fn pair_value(high: u16, low: u16) -> u32 {
    ((high - 0xD800) * 0x400 + (low - 0xDC00) + 0x10000) as u32
}

/// The character that UTF-16 bytes start with: a unit that is not a
/// surrogate, or a high surrogate followed by a low one.
pub open spec fn utf16_first(b: Seq<u8>) -> Option<char> {
    if b.len() < 2 {
        None
    } else {
        let u0 = be_u16(b[0], b[1]);
        if !is_surrogate(u0) {
            Some((u0 as u32) as char)
        } else if u0 <= 0xDBFF && b.len() >= 4 && 0xDC00 <= be_u16(b[2], b[3]) <= 0xDFFF {
            Some(pair_value(u0, be_u16(b[2], b[3])) as char)
        } else {
            None
        }
    }
}

/// A character of UTF-16, read and written big-endian.
#[derive(Clone, Copy, PartialEq, Eq, Debug)]
pub struct Utf16 {
    data: char,
}

/// The character that `b` starts with in UTF-16, and how many bytes it takes.
fn first_utf16(b: &[u8]) -> (r: Option<(Utf16, usize)>)
    ensures
        match utf16_first(b@) {
            Some(c) => r == Some((Utf16 { data: c }, utf16_bytes(c).len() as usize)),
            None => r is None,
        },
{
    if b.len() < 2 {
        return None;
    }
    let u0 = unit_at(b[0], b[1]);
    if !(0xD800 <= u0 && u0 <= 0xDFFF) {
        let c = char::from_u32(u0 as u32).unwrap();
        proof {
            char_u32_cast(c, u0 as u32);
        }
        return Some((Utf16 { data: c }, 2));
    }
    if u0 <= 0xDBFF && b.len() >= 4 {
        let u1 = unit_at(b[2], b[3]);
        if 0xDC00 <= u1 && u1 <= 0xDFFF {
            let code = ((u0 - 0xD800) as u32) * 0x400 + ((u1 - 0xDC00) as u32) + 0x10000;
            let c = char::from_u32(code).unwrap();
            proof {
                char_u32_cast(c, code);
            }
            return Some((Utf16 { data: c }, 4));
        }
    }
    None
}

impl CharSetChar for Utf16 {
    closed spec fn valid(&self) -> bool {
        true
    }

    closed spec fn spec_bytes(&self) -> Seq<u8> {
        utf16_bytes(self.data)
    }

    closed spec fn spec_native(&self) -> char {
        self.data
    }

    closed spec fn spec_first(b: Seq<u8>) -> Option<Self> {
        match utf16_first(b) {
            Some(c) => Some(Utf16 { data: c }),
            None => None,
        }
    }

    closed spec fn spec_from_native(c: char) -> Option<Self> {
        Some(Utf16 { data: c })
    }

    proof fn lemma_first(b: Seq<u8>) {
        if b.len() >= 2 {
            lemma_unit(b[0], b[1]);
            let u0 = be_u16(b[0], b[1]);
            if !is_surrogate(u0) {
                char_u32_cast(((u0 as u32) as char), u0 as u32);
                assert(b.take(2) =~= seq![b[0], b[1]]);
            } else if u0 <= 0xDBFF && b.len() >= 4 && 0xDC00 <= be_u16(b[2], b[3]) <= 0xDFFF {
                lemma_unit(b[2], b[3]);
                let u1 = be_u16(b[2], b[3]);
                let code = pair_value(u0, u1);
                let v = code - 0x10000;
                lemma_fundamental_div_mod_converse(
                    v as int,
                    0x400,
                    (u0 - 0xD800) as int,
                    (u1 - 0xDC00) as int,
                );
                char_u32_cast((code as char), code);
                assert(b.take(4) =~= seq![b[0], b[1]] + seq![b[2], b[3]]);
            }
        }
    }

    proof fn lemma_bytes(c: Self) {
        vstd::utf8::char_is_scalar(c.data);
        let code = c.data as u32;
        char_u32_cast(c.data, code);
        if code < 0x10000 {
            lemma_unit_bytes(code as u16);
        } else {
            let v = code - 0x10000;
            let hi = (0xD800 + v / 0x400) as u16;
            let lo = (0xDC00 + v % 0x400) as u16;
            lemma_unit_bytes(hi);
            lemma_unit_bytes(lo);
            lemma_fundamental_div_mod_converse(v as int, 0x400, v as int / 0x400, v as int % 0x400);
            assert(pair_value(hi, lo) == code);
        }
    }

    proof fn lemma_native(c: char) {
    }

    fn consume_bytes(bytes: &mut Vec<u8>) -> (r: Result<Self, ()>) {
        match first_utf16(bytes.as_slice()) {
            Some((c, n)) => {
                proof {
                    Self::lemma_first(bytes@);
                }
                drop_front(bytes, n);
                Ok(c)
            },
            None => Err(()),
        }
    }

    fn from_bytes(bytes: &[u8]) -> (r: Result<Self, ()>) {
        match first_utf16(bytes) {
            Some((c, n)) => if n == bytes.len() {
                Ok(c)
            } else {
                Err(())
            },
            None => Err(()),
        }
    }

    fn get_bytes(&self) -> (r: Vec<u8>) {
        let code = self.data as u32;
        let mut r = Vec::new();
        if code < 0x10000 {
            push_unit(&mut r, code as u16);
        } else {
            let v = code - 0x10000;
            push_unit(&mut r, (0xD800 + v / 0x400) as u16);
            push_unit(&mut r, (0xDC00 + v % 0x400) as u16);
        }
        assert(r@ =~= utf16_bytes(self.data));
        r
    }

    fn as_native(&self) -> (r: char) {
        self.data
    }

    fn from_native(chr: char) -> (r: Result<Self, ()>) {
        Ok(Utf16 { data: chr })
    }
}

/// The character that `b` starts with in UTF-8 from place `start`, and how
/// many bytes it takes.
fn first_utf8(b: &[u8], start: usize) -> (r: Option<(char, usize)>)
    requires
        start <= b@.len(),
    ensures
        ({
            let s = b@.skip(start as int);
            if valid_first_scalar(s) {
                r == Some((decode_first_scalar(s) as char, length_of_first_scalar(s) as usize))
            } else {
                r is None
            }
        }),
{
    let ghost s = b@.skip(start as int);
    let n = b.len() - start;
    if n < 1 {
        return None;
    }
    let b0 = b[start];
    let code: u32;
    let len: usize;
    if b0 <= 0x7F {
        code = (b0 & 0x7F) as u32;
        len = 1;
        assert(code <= 0x7F) by (bit_vector)
            requires
                code == (b0 & 0x7F) as u32,
        ;
    } else if 0xC0 <= b0 && b0 <= 0xDF {
        if n < 2 {
            return None;
        }
        let b1 = b[start + 1];
        if !(0x80 <= b1 && b1 <= 0xBF) {
            return None;
        }
        code = ((b0 & 0x1F) as u32) << 6 | ((b1 & 0x3F) as u32);
        len = 2;
        assert(code <= 0x7FF) by (bit_vector)
            requires
                code == ((b0 & 0x1F) as u32) << 6 | ((b1 & 0x3F) as u32),
        ;
        if code < 0x80 {
            return None;
        }
    } else if 0xE0 <= b0 && b0 <= 0xEF {
        if n < 3 {
            return None;
        }
        let b1 = b[start + 1];
        let b2 = b[start + 2];
        if !(0x80 <= b1 && b1 <= 0xBF && 0x80 <= b2 && b2 <= 0xBF) {
            return None;
        }
        code = ((b0 & 0x0F) as u32) << 12 | ((b1 & 0x3F) as u32) << 6 | ((b2 & 0x3F) as u32);
        len = 3;
        assert(code <= 0xFFFF) by (bit_vector)
            requires
                code == ((b0 & 0x0F) as u32) << 12 | ((b1 & 0x3F) as u32) << 6 | ((b2
                    & 0x3F) as u32),
        ;
        if code < 0x800 || (0xD800 <= code && code <= 0xDFFF) {
            return None;
        }
    } else if 0xF0 <= b0 && b0 <= 0xF7 {
        if n < 4 {
            return None;
        }
        let b1 = b[start + 1];
        let b2 = b[start + 2];
        let b3 = b[start + 3];
        if !(0x80 <= b1 && b1 <= 0xBF && 0x80 <= b2 && b2 <= 0xBF && 0x80 <= b3 && b3 <= 0xBF) {
            return None;
        }
        code = ((b0 & 0x07) as u32) << 18 | ((b1 & 0x3F) as u32) << 12 | ((b2 & 0x3F) as u32)
            << 6 | ((b3 & 0x3F) as u32);
        len = 4;
        if code < 0x10000 || code > 0x10FFFF {
            return None;
        }
    } else {
        return None;
    }
    assert(valid_first_scalar(s));
    assert(decode_first_scalar(s) == code);
    let c = char::from_u32(code).unwrap();
    proof {
        char_u32_cast(c, code);
    }
    Some((c, len))
}

/// The character UTF-8 bytes start with is encoded by exactly the bytes that
/// were read for it.
proof fn lemma_utf8_first(b: Seq<u8>)
    requires
        valid_first_scalar(b),
    ensures
        encode_scalar((decode_first_scalar(b) as char) as u32) == b.take(length_of_first_scalar(b)),
        0 < length_of_first_scalar(b) <= b.len(),
{
    let n = length_of_first_scalar(b);
    let t = b.take(n);
    assert(valid_first_scalar(t));
    assert(vstd::utf8::pop_first_scalar(t) =~= Seq::<u8>::empty());
    reveal_with_fuel(vstd::utf8::valid_utf8, 2);
    assert(vstd::utf8::valid_utf8(t));
    vstd::utf8::decode_utf8_first_scalar(t);
    assert(vstd::utf8::take_first_scalar(t) =~= t);
}

proof fn lemma_encode_utf8_single(c: char)
    ensures
        vstd::utf8::encode_utf8(seq![c]) == encode_scalar(c as u32),
{
    let s = seq![c];
    assert(s.drop_first() =~= Seq::<char>::empty());
    assert(vstd::utf8::encode_utf8(s.drop_first()) =~= Seq::<u8>::empty());
    assert(vstd::utf8::encode_utf8(s) =~= encode_scalar(c as u32));
}

/// A character of UTF-8.
#[derive(Clone, Copy, PartialEq, Eq, Debug)]
pub struct Utf8 {
    data: char,
}

impl CharSetChar for Utf8 {
    closed spec fn valid(&self) -> bool {
        true
    }

    closed spec fn spec_bytes(&self) -> Seq<u8> {
        encode_scalar(self.data as u32)
    }

    closed spec fn spec_native(&self) -> char {
        self.data
    }

    closed spec fn spec_first(b: Seq<u8>) -> Option<Self> {
        if valid_first_scalar(b) {
            Some(Utf8 { data: decode_first_scalar(b) as char })
        } else {
            None
        }
    }

    closed spec fn spec_from_native(c: char) -> Option<Self> {
        Some(Utf8 { data: c })
    }

    proof fn lemma_first(b: Seq<u8>) {
        if valid_first_scalar(b) {
            lemma_utf8_first(b);
        }
    }

    proof fn lemma_bytes(c: Self) {
        let s = seq![c.data];
        vstd::utf8::encode_utf8_first_scalar(s);
        lemma_encode_utf8_single(c.data);
        char_u32_cast(c.data, c.data as u32);
    }

    proof fn lemma_native(c: char) {
    }

    fn consume_bytes(bytes: &mut Vec<u8>) -> (r: Result<Self, ()>) {
        proof {
            assert(bytes@.skip(0) =~= bytes@);
        }
        match first_utf8(bytes.as_slice(), 0) {
            Some((c, n)) => {
                proof {
                    lemma_utf8_first(old(bytes)@);
                }
                drop_front(bytes, n);
                Ok(Utf8 { data: c })
            },
            None => Err(()),
        }
    }

    fn from_bytes(bytes: &[u8]) -> (r: Result<Self, ()>) {
        proof {
            assert(bytes@.skip(0) =~= bytes@);
            if valid_first_scalar(bytes@) {
                lemma_utf8_first(bytes@);
            }
        }
        match first_utf8(bytes, 0) {
            Some((c, n)) => if n == bytes.len() {
                Ok(Utf8 { data: c })
            } else {
                Err(())
            },
            None => Err(()),
        }
    }

    fn get_bytes(&self) -> (r: Vec<u8>) {
        let scalar = self.data as u32;
        proof {
            vstd::utf8::char_is_scalar(self.data);
        }
        let r = if scalar <= 0x7F {
            vec![(scalar & 0x7F) as u8]
        } else if scalar <= 0x7FF {
            vec![0xC0 | ((scalar >> 6) & 0x1F) as u8, 0x80 | (scalar & 0x3F) as u8]
        } else if scalar <= 0xFFFF {
            vec![
                0xE0 | ((scalar >> 12) & 0x0F) as u8,
                0x80 | ((scalar >> 6) & 0x3F) as u8,
                0x80 | (scalar & 0x3F) as u8,
            ]
        } else {
            vec![
                0xF0 | ((scalar >> 18) & 0x7) as u8,
                0x80 | ((scalar >> 12) & 0x3F) as u8,
                0x80 | ((scalar >> 6) & 0x3F) as u8,
                0x80 | (scalar & 0x3F) as u8,
            ]
        };
        assert(r@ =~= encode_scalar(scalar));
        r
    }

    fn as_native(&self) -> (r: char) {
        self.data
    }

    fn from_native(chr: char) -> (r: Result<Self, ()>) {
        Ok(Utf8 { data: chr })
    }
}

/// The characters read one after another from the front of `b`, and how many
/// bytes they take. Reading stops at the end of `b` or where no character
/// starts.
pub open spec fn decode_prefix<T: CharSetChar>(b: Seq<u8>) -> (Seq<T>, int)
    decreases b.len(),
{
    if b.len() == 0 {
        (seq![], 0)
    } else {
        match T::spec_first(b) {
            Some(c) => {
                let n = c.spec_bytes().len() as int;
                if 0 < n <= b.len() {
                    let rest = decode_prefix::<T>(b.skip(n));
                    (seq![c] + rest.0, n + rest.1)
                } else {
                    (seq![], 0)
                }
            },
            None => (seq![], 0),
        }
    }
}

/// The bytes of the characters of `s`, one after another.
pub open spec fn encode_all<T: CharSetChar>(s: Seq<T>) -> Seq<u8>
    decreases s.len(),
{
    if s.len() == 0 {
        seq![]
    } else {
        encode_all(s.drop_last()) + s.last().spec_bytes()
    }
}

/// The Unicode scalar values of the characters of `s`.
pub open spec fn natives<T: CharSetChar>(s: Seq<T>) -> Seq<char> {
    s.map_values(|c: T| c.spec_native())
}

/// Every character of `text` has a character in the set `T`.
pub open spec fn representable<T: CharSetChar>(text: Seq<char>) -> bool {
    forall|j: int| 0 <= j < text.len() ==> T::spec_from_native(text[j]) is Some
}

/// The characters of the set `T` that stand for the characters of `text`.
pub open spec fn from_natives<T: CharSetChar>(text: Seq<char>) -> Seq<T> {
    text.map_values(|c: char| T::spec_from_native(c)->Some_0)
}

/// `i` is the first place of `text` whose character has none in the set `T`.
pub open spec fn first_unrepresentable<T: CharSetChar>(text: Seq<char>, i: int) -> bool {
    &&& 0 <= i < text.len()
    &&& T::spec_from_native(text[i]) is None
    &&& representable::<T>(text.take(i))
}

proof fn lemma_encode_all_push<T: CharSetChar>(s: Seq<T>, i: int)
    requires
        0 <= i < s.len(),
    ensures
        encode_all(s.take(i + 1)) == encode_all(s.take(i)) + s[i].spec_bytes(),
{
    assert(s.take(i + 1).drop_last() =~= s.take(i));
}

proof fn lemma_encode_all_prepend<T: CharSetChar>(c: T, s: Seq<T>)
    ensures
        encode_all(seq![c] + s) == c.spec_bytes() + encode_all(s),
    decreases s.len(),
{
    if s.len() == 0 {
        assert(seq![c].drop_last() =~= Seq::<T>::empty());
        assert(encode_all(seq![c].drop_last()) =~= Seq::<u8>::empty());
        assert(seq![c] + s =~= seq![c]);
        assert(encode_all(seq![c]) =~= c.spec_bytes());
    } else {
        lemma_encode_all_prepend(c, s.drop_last());
        assert((seq![c] + s).drop_last() =~= seq![c] + s.drop_last());
        assert(encode_all(seq![c] + s) =~= c.spec_bytes() + encode_all(s));
    }
}

proof fn lemma_encode_utf8_append(a: Seq<char>, b: Seq<char>)
    ensures
        vstd::utf8::encode_utf8(a + b) == vstd::utf8::encode_utf8(a) + vstd::utf8::encode_utf8(b),
    decreases a.len(),
{
    if a.len() == 0 {
        assert(a + b =~= b);
        assert(vstd::utf8::encode_utf8(a) =~= Seq::<u8>::empty());
        assert(vstd::utf8::encode_utf8(a + b) =~= vstd::utf8::encode_utf8(a) + vstd::utf8::encode_utf8(b));
    } else {
        lemma_encode_utf8_append(a.drop_first(), b);
        assert((a + b).drop_first() =~= a.drop_first() + b);
        assert((a + b)[0] == a[0]);
        assert(vstd::utf8::encode_utf8(a + b) =~= vstd::utf8::encode_utf8(a) + vstd::utf8::encode_utf8(b));
    }
}

/// The characters of `s` whose place in `keep` is true, in their order.
pub open spec fn select<T>(s: Seq<T>, keep: Seq<bool>) -> Seq<T>
    decreases s.len(),
{
    if s.len() == 0 {
        seq![]
    } else {
        let before = select(s.drop_last(), keep.drop_last());
        if keep.last() {
            before.push(s.last())
        } else {
            before
        }
    }
}

/// A string of characters of one character set.
#[derive(Clone, Debug)]
pub struct CharSetStr<T: CharSetChar> {
    data: Vec<T>,
}

impl<T: CharSetChar> View for CharSetStr<T> {
    type V = Seq<T>;

    closed spec fn view(&self) -> Seq<T> {
        self.data@
    }
}

impl<T: CharSetChar> Default for CharSetStr<T> {
    /// The empty string.
    fn default() -> (r: Self)
        ensures
            r@ == Seq::<T>::empty(),
    {
        CharSetStr { data: Vec::new() }
    }
}

impl<T: CharSetChar> CharSetStr<T> {
    /// The string of the characters `data`.
    pub fn from_char_set_chars(data: Vec<T>) -> (r: Self)
        ensures
            r@ == data@,
    {
        CharSetStr { data }
    }

    /// The empty string.
    pub fn new() -> (r: Self)
        ensures
            r@ == Seq::<T>::empty(),
    {
        CharSetStr { data: Vec::new() }
    }

    /// Reads all of `bytes` as characters of the set; on failure gives how
    /// many bytes were read as whole characters before it.
    pub fn from_bytes(bytes: &[u8]) -> (r: Result<Self, usize>)
        ensures
            ({
                let (chars, n) = decode_prefix::<T>(bytes@);
                if n == bytes@.len() {
                    r is Ok && r->Ok_0@ == chars
                } else {
                    r == Err::<Self, usize>(n as usize)
                }
            }),
    {
        let mut rest = vstd::slice::slice_to_vec(bytes);
        let mut data: Vec<T> = Vec::new();
        let ghost consumed: int = 0;
        while rest.len() > 0
            invariant
                0 <= consumed <= bytes@.len(),
                rest@ == bytes@.skip(consumed),
                data@ + decode_prefix::<T>(rest@).0 == decode_prefix::<T>(bytes@).0,
                consumed + decode_prefix::<T>(rest@).1 == decode_prefix::<T>(bytes@).1,
            decreases rest@.len(),
        {
            proof {
                T::lemma_first(rest@);
            }
            let ghost before = rest@;
            match T::consume_bytes(&mut rest) {
                Ok(c) => {
                    let ghost n = c.spec_bytes().len() as int;
                    proof {
                        assert(rest@ =~= bytes@.skip(consumed + n));
                        assert(data@.push(c) + decode_prefix::<T>(rest@).0 =~= data@ + (seq![c]
                            + decode_prefix::<T>(rest@).0));
                        consumed = consumed + n;
                    }
                    data.push(c);
                },
                Err(()) => {
                    assert(decode_prefix::<T>(before).1 == 0);
                    return Err(bytes.len() - rest.len());
                },
            }
        }
        proof {
            assert(decode_prefix::<T>(rest@).0 =~= Seq::<T>::empty());
            assert(data@ + decode_prefix::<T>(rest@).0 =~= data@);
        }
        Ok(CharSetStr { data })
    }

    /// The bytes of the characters, one after another.
    pub fn to_bytes(&self) -> (r: Vec<u8>)
        ensures
            r@ == encode_all(self@),
    {
        let mut out: Vec<u8> = Vec::new();
        let mut i: usize = 0;
        proof {
            assert(self.data@.take(0) =~= Seq::<T>::empty());
        }
        while i < self.data.len()
            invariant
                i <= self.data@.len(),
                out@ == encode_all(self.data@.take(i as int)),
            decreases self.data@.len() - i,
        {
            let mut b = self.data[i].get_bytes();
            proof {
                lemma_encode_all_push(self.data@, i as int);
            }
            out.append(&mut b);
            i = i + 1;
        }
        proof {
            assert(self.data@.take(i as int) =~= self.data@);
        }
        out
    }

    /// The string of the characters of the set that stand for the characters
    /// of `string`; on failure gives the byte index in `string` of the first
    /// character that has none.
    pub fn from_string(string: &str) -> (r: Result<Self, usize>)
        ensures
            match r {
                Ok(v) => representable::<T>(string@) && v@ == from_natives::<T>(string@),
                Err(k) => exists|i: int|
                    first_unrepresentable::<T>(string@, i) && k == vstd::utf8::encode_utf8(
                        #[trigger] string@.take(i),
                    ).len(),
            },
    {
        let b = string.as_bytes();
        let ghost text = string@;
        let mut data: Vec<T> = Vec::new();
        let mut pos: usize = 0;
        let ghost mut i: int = 0;
        proof {
            assert(text.take(0) =~= Seq::<char>::empty());
            assert(text =~= text.take(0) + text.skip(0));
            lemma_encode_utf8_append(text.take(0), text.skip(0));
        }
        while pos < b.len()
            invariant
                0 <= i <= text.len(),
                text == string@,
                b@ == vstd::utf8::encode_utf8(text),
                pos == vstd::utf8::encode_utf8(text.take(i)).len(),
                b@ == vstd::utf8::encode_utf8(text.take(i)) + vstd::utf8::encode_utf8(text.skip(i)),
                representable::<T>(text.take(i)),
                data@ == from_natives::<T>(text.take(i)),
            decreases b@.len() - pos,
        {
            let ghost rest = text.skip(i);
            assert(b@.skip(pos as int) =~= vstd::utf8::encode_utf8(rest));
            proof {
                if rest.len() == 0 {
                    assert(vstd::utf8::encode_utf8(rest) =~= Seq::<u8>::empty());
                }
                vstd::utf8::encode_utf8_first_scalar(rest);
                if rest.len() > 0 {
                    char_u32_cast(rest[0], rest[0] as u32);
                }
            }
            let (c, n) = first_utf8(b, pos).unwrap();
            assert(c == text[i]);
            match T::from_native(c) {
                Ok(x) => {
                    proof {
                        assert(text.take(i + 1) =~= text.take(i).push(text[i]));
                        assert(from_natives::<T>(text.take(i + 1)) =~= data@.push(x));
                        assert(text.skip(i) =~= seq![text[i]] + text.skip(i + 1));
                        lemma_encode_utf8_append(seq![text[i]], text.skip(i + 1));
                        lemma_encode_utf8_append(text.take(i), seq![text[i]]);
                        lemma_encode_utf8_single(text[i]);
                        assert(text.take(i + 1) =~= text.take(i) + seq![text[i]]);
                        i = i + 1;
                    }
                    data.push(x);
                    pos = pos + n;
                },
                Err(()) => {
                    assert(first_unrepresentable::<T>(string@, i));
                    return Err(pos);
                },
            }
        }
        proof {
            if i < text.len() {
                vstd::utf8::encode_utf8_first_scalar(text.skip(i));
            }
            assert(text.take(i) =~= text);
        }
        Ok(CharSetStr { data })
    }

    /// The Unicode text of the characters.
    pub fn to_string(&self) -> (r: String)
        ensures
            r@ == natives(self@),
    {
        let mut out = String::new();
        let mut i: usize = 0;
        while i < self.data.len()
            invariant
                i <= self.data@.len(),
                out@ == natives(self.data@.take(i as int)),
            decreases self.data@.len() - i,
        {
            let c = self.data[i].as_native();
            out.push(c);
            proof {
                assert(natives(self.data@.take(i + 1)) =~= natives(self.data@.take(i as int)).push(c));
            }
            i = i + 1;
        }
        proof {
            assert(self.data@.take(i as int) =~= self.data@);
        }
        out
    }

    /// An empty string with room for `capacity` characters.
    pub fn with_capacity(capacity: usize) -> (r: Self)
        ensures
            r@ == Seq::<T>::empty(),
    {
        CharSetStr { data: Vec::with_capacity(capacity) }
    }

    /// The number of characters.
    pub fn len(&self) -> (r: usize)
        ensures
            r == self@.len(),
    {
        self.data.len()
    }

    /// The string has no characters.
    pub fn is_empty(&self) -> (r: bool)
        ensures
            r == (self@.len() == 0),
    {
        self.data.len() == 0
    }

    /// Appends `c`.
    pub fn push(&mut self, c: T)
        ensures
            final(self)@ == old(self)@.push(c),
    {
        self.data.push(c);
    }

    /// Takes the last character off, if there is one.
    pub fn pop(&mut self) -> (r: Option<T>)
        ensures
            old(self)@.len() == 0 ==> r is None && final(self)@ == old(self)@,
            old(self)@.len() > 0 ==> r == Some(old(self)@.last()) && final(self)@ == old(
                self,
            )@.drop_last(),
    {
        self.data.pop()
    }

    /// Puts `c` at place `index`, moving the characters from there on up.
    pub fn insert(&mut self, index: usize, c: T)
        requires
            index <= old(self)@.len(),
        ensures
            final(self)@ == old(self)@.insert(index as int, c),
    {
        self.data.insert(index, c);
    }

    /// Takes out the character at place `index`.
    pub fn remove(&mut self, index: usize) -> (r: T)
        requires
            index < old(self)@.len(),
        ensures
            r == old(self)@[index as int],
            final(self)@ == old(self)@.remove(index as int),
    {
        self.data.remove(index)
    }

    /// Keeps the first `len` characters.
    pub fn truncate(&mut self, len: usize)
        ensures
            len <= old(self)@.len() ==> final(self)@ == old(self)@.take(len as int),
            len > old(self)@.len() ==> final(self)@ == old(self)@,
    {
        self.data.truncate(len);
    }

    /// Removes every character.
    pub fn clear(&mut self)
        ensures
            final(self)@ == Seq::<T>::empty(),
    {
        self.data.clear();
    }

    /// Keeps the characters for which `f` holds, in their order.
    pub fn retain<F: Fn(&T) -> bool>(&mut self, f: F)
        requires
            forall|x: &T| call_requires(f, (x,)),
        ensures
            exists|keep: Seq<bool>|
                {
                    &&& keep.len() == old(self)@.len()
                    &&& forall|i: int|
                        0 <= i < keep.len() ==> call_ensures(f, (&old(self)@[i],), #[trigger] keep[i])
                    &&& final(self)@ == select(old(self)@, keep)
                },
    {
        let mut rest: Vec<T> = Vec::new();
        core::mem::swap(&mut rest, &mut self.data);
        let ghost orig = rest@;
        let ghost mut keep: Seq<bool> = Seq::empty();
        let ghost mut i: int = 0;
        while rest.len() > 0
            invariant
                0 <= i <= orig.len(),
                rest@ == orig.skip(i),
                keep.len() == i,
                forall|j: int| 0 <= j < i ==> call_ensures(f, (&orig[j],), #[trigger] keep[j]),
                self.data@ == select(orig.take(i), keep),
                forall|x: &T| call_requires(f, (x,)),
            decreases rest@.len(),
        {
            let x = rest.remove(0);
            let k = f(&x);
            proof {
                assert(x == orig[i]);
                let next = keep.push(k);
                assert(orig.take(i + 1).drop_last() =~= orig.take(i));
                assert(next.drop_last() =~= keep);
                assert forall|j: int| 0 <= j < i + 1 implies call_ensures(
                    f,
                    (&orig[j],),
                    #[trigger] next[j],
                ) by {
                    if j < i {
                        assert(next[j] == keep[j]);
                    }
                }
                keep = next;
                i = i + 1;
                assert(rest@ =~= orig.skip(i));
            }
            if k {
                self.data.push(x);
            }
        }
        proof {
            assert(orig.take(i) =~= orig);
        }
    }

    /// Splits the string at place `at`: the characters from there on are
    /// returned, the ones before stay.
    pub fn split_off(&mut self, at: usize) -> (r: Self)
        requires
            at <= old(self)@.len(),
        ensures
            final(self)@ == old(self)@.take(at as int),
            r@ == old(self)@.skip(at as int),
    {
        let tail = self.data.split_off(at);
        proof {
            assert(old(self)@.subrange(0, at as int) =~= old(self)@.take(at as int));
            assert(old(self)@.subrange(at as int, old(self)@.len() as int) =~= old(self)@.skip(
                at as int,
            ));
        }
        CharSetStr { data: tail }
    }

    /// Takes out the characters at the places `range` and returns them.
    pub fn drain(&mut self, range: core::ops::Range<usize>) -> (r: Vec<T>)
        requires
            range.start <= range.end <= old(self)@.len(),
        ensures
            r@ == old(self)@.subrange(range.start as int, range.end as int),
            final(self)@ == old(self)@.take(range.start as int) + old(self)@.skip(range.end as int),
    {
        let mut tail = self.data.split_off(range.end);
        let middle = self.data.split_off(range.start);
        self.data.append(&mut tail);
        proof {
            assert(self.data@ =~= old(self)@.take(range.start as int) + old(self)@.skip(
                range.end as int,
            ));
        }
        middle
    }

    /// The same text in the character set `U`, where every character has one
    /// there.
    pub fn to_char_set_str<U: CharSetChar>(&self) -> (r: Result<CharSetStr<U>, ()>)
        ensures
            match r {
                Ok(v) => representable::<U>(natives(self@)) && v@ == from_natives::<U>(
                    natives(self@),
                ),
                Err(()) => !representable::<U>(natives(self@)),
            },
    {
        let text = self.to_string();
        match CharSetStr::<U>::from_string(text.as_str()) {
            Ok(v) => Ok(v),
            Err(_) => Err(()),
        }
    }
}

/// Every character of a character set is read back from its own bytes:
/// `from_bytes(get_bytes(c))` gives `c`.
pub proof fn lemma_char_round_trip<T: CharSetChar>(c: T)
    requires
        c.valid(),
    ensures
        exact_char::<T>(c.spec_bytes()) == Some(c),
{
    T::lemma_bytes(c);
}

/// Bytes that read wholly as characters are given back by writing those
/// characters: `from_bytes` followed by `to_bytes` gives the bytes read.
pub proof fn lemma_bytes_round_trip<T: CharSetChar>(b: Seq<u8>)
    requires
        decode_prefix::<T>(b).1 == b.len(),
    ensures
        encode_all(decode_prefix::<T>(b).0) == b,
    decreases b.len(),
{
    if b.len() == 0 {
        assert(encode_all(decode_prefix::<T>(b).0) =~= b);
    } else {
        T::lemma_first(b);
        let c = T::spec_first(b)->Some_0;
        let n = c.spec_bytes().len() as int;
        lemma_bytes_round_trip::<T>(b.skip(n));
        lemma_encode_all_prepend(c, decode_prefix::<T>(b.skip(n)).0);
        assert(b =~= b.take(n) + b.skip(n));
    }
}

/// Text whose every character is in a character set is given back by
/// reading it into that set and out again: `from_string` followed by
/// `to_string` gives the text.
pub proof fn lemma_text_round_trip<T: CharSetChar>(text: Seq<char>)
    requires
        representable::<T>(text),
    ensures
        natives(from_natives::<T>(text)) == text,
{
    assert forall|j: int| 0 <= j < text.len() implies natives(from_natives::<T>(text))[j]
        == text[j] by {
        T::lemma_native(text[j]);
    }
    assert(natives(from_natives::<T>(text)) =~= text);
}

/// A surrogate code unit is never a character of UTF-16 restricted to the
/// Basic Multilingual Plane; in full UTF-16 it starts a character exactly
/// when it is a high surrogate followed by a low one, and that character
/// takes the four bytes of the pair.
pub proof fn lemma_surrogates(b: Seq<u8>)
    requires
        b.len() >= 2,
        is_surrogate(be_u16(b[0], b[1])),
    ensures
        Utf16BMPOnly::spec_first(b) is None,
        Utf16::spec_first(b) is Some <==> {
            &&& be_u16(b[0], b[1]) <= 0xDBFF
            &&& b.len() >= 4
            &&& is_surrogate(be_u16(b[2], b[3]))
            &&& be_u16(b[2], b[3]) >= 0xDC00
        },
        Utf16::spec_first(b) is Some ==> Utf16::spec_first(b)->Some_0.spec_bytes().len() == 4,
{
    Utf16::lemma_first(b);
    if Utf16::spec_first(b) is Some {
        let code = pair_value(be_u16(b[0], b[1]), be_u16(b[2], b[3]));
        char_u32_cast((code as char), code);
    }
}

} // verus!
