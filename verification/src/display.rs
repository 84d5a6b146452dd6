use vstd::prelude::*;
use crate::dsl::DisplayFormat;
use crate::parser::{ParsedValue, ParsedField, ValueDesc, value_desc, values_desc, lemma_array_desc, utf8_lossy, lemma_item_smaller};
use crate::numfmt::{radix_str, dec_str, signed_str, hex_pad, bin_pad, push_radix, push_radix_padded, push_dec, push_signed};
use crate::text::{push_str, push_char};

verus! {

/// A piece of a value's text: text proper, or a float to be printed by the
/// caller (32-bit or 64-bit, by the bits of its encoding).
#[derive(Debug, PartialEq)]
pub enum TextPart {
    Text(String),
    Single(u32),
    Double(u64),
}

pub enum Piece {
    Text(Seq<char>),
    Single(u32),
    Double(u64),
}

pub open spec fn piece(p: TextPart) -> Piece {
    match p {
        TextPart::Text(s) => Piece::Text(s@),
        TextPart::Single(b) => Piece::Single(b),
        TextPart::Double(b) => Piece::Double(b),
    }
}

pub open spec fn pieces(ps: Seq<TextPart>) -> Seq<Piece> {
    ps.map_values(|p: TextPart| piece(p))
}

pub open spec fn text(s: Seq<char>) -> Seq<Piece> {
    seq![Piece::Text(s)]
}

/// Hex digits of each byte, separated by spaces.
pub open spec fn hex_bytes(b: Seq<u8>) -> Seq<char>
    decreases b.len(),
{
    if b.len() == 0 {
        Seq::empty()
    } else if b.len() == 1 {
        hex_pad(b[0] as nat, 2)
    } else {
        hex_bytes(b.drop_last()) + " "@ + hex_pad(b.last() as nat, 2)
    }
}

/// Each byte as itself where it is a printable ASCII character, else '.'.
pub open spec fn ascii_view(b: Seq<u8>) -> Seq<char> {
    Seq::new(b.len(), |i: int| if 0x20 <= b[i] && b[i] < 0x7F { b[i] as char } else { '.' })
}

/// The hex text of a value.
pub open spec fn hex_pieces(v: ValueDesc) -> Seq<Piece>
    decreases v,
{
    match v {
        ValueDesc::U8(x) => text("0x"@ + hex_pad(x as nat, 2)),
        ValueDesc::U16(x) => text("0x"@ + hex_pad(x as nat, 4)),
        ValueDesc::U32(x) => text("0x"@ + hex_pad(x as nat, 8)),
        ValueDesc::U64(x) => text("0x"@ + hex_pad(x as nat, 16)),
        ValueDesc::I8(x) => text("0x"@ + hex_pad((x as u8) as nat, 2)),
        ValueDesc::I16(x) => text("0x"@ + hex_pad((x as u16) as nat, 4)),
        ValueDesc::I32(x) => text("0x"@ + hex_pad((x as u32) as nat, 8)),
        ValueDesc::I64(x) => text("0x"@ + hex_pad((x as u64) as nat, 16)),
        ValueDesc::F32(b) => seq![Piece::Single(b)],
        ValueDesc::F64(b) => seq![Piece::Double(b)],
        ValueDesc::Bytes(b) => text("["@ + hex_bytes(b) + "]"@),
        ValueDesc::Text(s) => text(s),
        ValueDesc::BitField(x) => text("0x"@ + radix_str(x as nat, 16, true)),
        ValueDesc::Enum(_, _, d) => text(d),
        ValueDesc::Array(items) => text("["@) + hex_items(items, items.len()) + text("]"@),
        ValueDesc::Struct(_) => text("<struct>"@),
    }
}

/// The hex texts of the first `n` items, separated by ", ".
pub open spec fn hex_items(items: Seq<ValueDesc>, n: nat) -> Seq<Piece>
    decreases items, n,
{
    if n == 0 || n > items.len() {
        Seq::empty()
    } else if n == 1 {
        hex_pieces(items[0])
    } else {
        hex_items(items, (n - 1) as nat) + text(", "@) + hex_pieces(items[n - 1])
    }
}

/// The decimal text of a value.
pub open spec fn dec_pieces(v: ValueDesc) -> Seq<Piece> {
    match v {
        ValueDesc::U8(x) => text(dec_str(x as nat)),
        ValueDesc::U16(x) => text(dec_str(x as nat)),
        ValueDesc::U32(x) => text(dec_str(x as nat)),
        ValueDesc::U64(x) => text(dec_str(x as nat)),
        ValueDesc::I8(x) => text(signed_str(x as int)),
        ValueDesc::I16(x) => text(signed_str(x as int)),
        ValueDesc::I32(x) => text(signed_str(x as int)),
        ValueDesc::I64(x) => text(signed_str(x as int)),
        ValueDesc::F32(b) => seq![Piece::Single(b)],
        ValueDesc::F64(b) => seq![Piece::Double(b)],
        ValueDesc::Bytes(b) => text("["@ + dec_str(b.len()) + " bytes]"@),
        ValueDesc::Text(s) => text(s),
        ValueDesc::BitField(x) => text(dec_str(x as nat)),
        ValueDesc::Enum(_, _, d) => text(d),
        ValueDesc::Array(items) => text("["@ + dec_str(items.len()) + " items]"@),
        ValueDesc::Struct(_) => text("<struct>"@),
    }
}

/// The binary text of a value; hex for the types without one.
pub open spec fn bin_pieces(v: ValueDesc) -> Seq<Piece> {
    match v {
        ValueDesc::U8(x) => text("0b"@ + bin_pad(x as nat, 8)),
        ValueDesc::U16(x) => text("0b"@ + bin_pad(x as nat, 16)),
        ValueDesc::U32(x) => text("0b"@ + bin_pad(x as nat, 32)),
        ValueDesc::BitField(x) => text("0b"@ + radix_str(x as nat, 2, true)),
        ValueDesc::Enum(_, _, d) => text(d),
        _ => hex_pieces(v),
    }
}

/// The ASCII text of bytes or a string; decimal for other values.
pub open spec fn ascii_pieces(v: ValueDesc) -> Seq<Piece> {
    match v {
        ValueDesc::Bytes(b) => text(ascii_view(b)),
        ValueDesc::Text(s) => text(ascii_view(vstd::utf8::encode_utf8(s))),
        _ => dec_pieces(v),
    }
}

/// The UTF-8 text of bytes or a string; decimal for other values.
pub open spec fn utf8_pieces(v: ValueDesc) -> Seq<Piece> {
    match v {
        ValueDesc::Text(s) => text(s),
        ValueDesc::Bytes(b) => text(utf8_lossy(b)),
        _ => dec_pieces(v),
    }
}

/// How a value shows in a display format.
pub open spec fn display_pieces(v: ValueDesc, f: DisplayFormat) -> Seq<Piece> {
    match f {
        DisplayFormat::Hex => hex_pieces(v),
        DisplayFormat::Dec => dec_pieces(v),
        DisplayFormat::Bin => bin_pieces(v),
        DisplayFormat::Ascii => ascii_pieces(v),
        DisplayFormat::Utf8 => utf8_pieces(v),
    }
}

fn one(s: String) -> (r: Vec<TextPart>)
    ensures
        pieces(r@) == text(s@),
{
    let r = vec![TextPart::Text(s)];
    assert(pieces(r@) =~= text(s@));
    r
}

fn append_parts(out: &mut Vec<TextPart>, more: Vec<TextPart>)
    ensures
        pieces(final(out)@) == pieces(old(out)@) + pieces(more@),
{
    let mut more = more;
    let ghost m = more@;
    out.append(&mut more);
    assert(pieces(out@) =~= pieces(old(out)@) + pieces(m));
}

fn hex_string(x: u64, width: usize) -> (r: String)
    ensures
        r@ == "0x"@ + hex_pad(x as nat, width as nat),
{
    let mut s = String::new();
    push_str(&mut s, "0x");
    push_radix_padded(&mut s, x, 16, true, width);
    s
}

impl ParsedValue {
    /// How the value shows in a display format.
    pub fn display(&self, format: DisplayFormat) -> (r: Vec<TextPart>)
        ensures
            pieces(r@) == display_pieces(value_desc(*self), format),
    {
        match format {
            DisplayFormat::Hex => self.to_hex(),
            DisplayFormat::Dec => self.to_dec(),
            DisplayFormat::Bin => self.to_bin(),
            DisplayFormat::Ascii => self.to_ascii(),
            DisplayFormat::Utf8 => self.to_utf8(),
        }
    }

    fn to_hex(&self) -> (r: Vec<TextPart>)
        ensures
            pieces(r@) == hex_pieces(value_desc(*self)),
        decreases self,
    {
        match self {
            ParsedValue::U8(v) => one(hex_string(*v as u64, 2)),
            ParsedValue::U16(v) => one(hex_string(*v as u64, 4)),
            ParsedValue::U32(v) => one(hex_string(*v as u64, 8)),
            ParsedValue::U64(v) => one(hex_string(*v, 16)),
            ParsedValue::I8(v) => one(hex_string((*v as u8) as u64, 2)),
            ParsedValue::I16(v) => one(hex_string((*v as u16) as u64, 4)),
            ParsedValue::I32(v) => one(hex_string((*v as u32) as u64, 8)),
            ParsedValue::I64(v) => one(hex_string(*v as u64, 16)),
            ParsedValue::F32(b) => {
                let r = vec![TextPart::Single(*b)];
                assert(pieces(r@) =~= seq![Piece::Single(*b)]);
                r
            },
            ParsedValue::F64(b) => {
                let r = vec![TextPart::Double(*b)];
                assert(pieces(r@) =~= seq![Piece::Double(*b)]);
                r
            },
            ParsedValue::Bytes(b) => {
                let mut s = String::new();
                push_str(&mut s, "[");
                let ghost o = s@;
                let mut i: usize = 0;
                while i < b.len()
                    invariant
                        i <= b@.len(),
                        s@ == o + hex_bytes(b@.take(i as int)),
                    decreases b@.len() - i,
                {
                    if i > 0 {
                        push_str(&mut s, " ");
                    }
                    push_radix_padded(&mut s, b[i] as u64, 16, true, 2);
                    proof {
                        assert(b@.take(i + 1).drop_last() =~= b@.take(i as int));
                        if i == 0 {
                            assert(b@.take(0) =~= Seq::<u8>::empty());
                        }
                    }
                    assert(s@ =~= o + hex_bytes(b@.take(i + 1)));
                    i = i + 1;
                }
                assert(b@.take(b@.len() as int) =~= b@);
                push_str(&mut s, "]");
                one(s)
            },
            ParsedValue::String(t) => one(t.clone()),
            ParsedValue::BitField(v) => {
                let mut s = String::new();
                push_str(&mut s, "0x");
                push_radix(&mut s, *v, 16, true);
                one(s)
            },
            ParsedValue::Enum { display, .. } => one(display.clone()),
            ParsedValue::Array(items) => {
                proof { lemma_array_desc(*items); }
                let ghost ds = values_desc(items@);
                let mut parts = one(crate::text::owned("["));
                let ghost o = pieces(parts@);
                let mut i: usize = 0;
                while i < items.len()
                    invariant
                        *self == ParsedValue::Array(*items),
                        ds == values_desc(items@),
                        i <= items@.len(),
                        o == text("["@),
                        pieces(parts@) == o + hex_items(ds, i as nat),
                    decreases items@.len() - i,
                {
                    if i > 0 {
                        append_parts(&mut parts, one(crate::text::owned(", ")));
                    }
                    proof { lemma_item_smaller(*self, *items, i as int); }
                    let item = items[i].to_hex();
                    append_parts(&mut parts, item);
                    assert(pieces(parts@) =~= o + hex_items(ds, (i + 1) as nat));
                    i = i + 1;
                }
                append_parts(&mut parts, one(crate::text::owned("]")));
                parts
            },
            ParsedValue::Struct(_) => one(crate::text::owned("<struct>")),
        }
    }

    fn to_dec(&self) -> (r: Vec<TextPart>)
        ensures
            pieces(r@) == dec_pieces(value_desc(*self)),
    {
        match self {
            ParsedValue::U8(v) => { let mut s = String::new(); push_dec(&mut s, *v as u64); one(s) },
            ParsedValue::U16(v) => { let mut s = String::new(); push_dec(&mut s, *v as u64); one(s) },
            ParsedValue::U32(v) => { let mut s = String::new(); push_dec(&mut s, *v as u64); one(s) },
            ParsedValue::U64(v) => { let mut s = String::new(); push_dec(&mut s, *v); one(s) },
            ParsedValue::I8(v) => { let mut s = String::new(); push_signed(&mut s, *v as i64); one(s) },
            ParsedValue::I16(v) => { let mut s = String::new(); push_signed(&mut s, *v as i64); one(s) },
            ParsedValue::I32(v) => { let mut s = String::new(); push_signed(&mut s, *v as i64); one(s) },
            ParsedValue::I64(v) => { let mut s = String::new(); push_signed(&mut s, *v); one(s) },
            ParsedValue::F32(b) => {
                let r = vec![TextPart::Single(*b)];
                assert(pieces(r@) =~= seq![Piece::Single(*b)]);
                r
            },
            ParsedValue::F64(b) => {
                let r = vec![TextPart::Double(*b)];
                assert(pieces(r@) =~= seq![Piece::Double(*b)]);
                r
            },
            ParsedValue::Bytes(b) => {
                let mut s = String::new();
                push_str(&mut s, "[");
                push_dec(&mut s, b.len() as u64);
                push_str(&mut s, " bytes]");
                one(s)
            },
            ParsedValue::String(t) => one(t.clone()),
            ParsedValue::BitField(v) => { let mut s = String::new(); push_dec(&mut s, *v); one(s) },
            ParsedValue::Enum { display, .. } => one(display.clone()),
            ParsedValue::Array(items) => {
                proof { lemma_array_desc(*items); }
                let mut s = String::new();
                push_str(&mut s, "[");
                push_dec(&mut s, items.len() as u64);
                push_str(&mut s, " items]");
                one(s)
            },
            ParsedValue::Struct(_) => one(crate::text::owned("<struct>")),
        }
    }

    fn to_bin(&self) -> (r: Vec<TextPart>)
        ensures
            pieces(r@) == bin_pieces(value_desc(*self)),
    {
        match self {
            ParsedValue::U8(v) => {
                let mut s = String::new(); push_str(&mut s, "0b"); push_radix_padded(&mut s, *v as u64, 2, true, 8); one(s)
            },
            ParsedValue::U16(v) => {
                let mut s = String::new(); push_str(&mut s, "0b"); push_radix_padded(&mut s, *v as u64, 2, true, 16); one(s)
            },
            ParsedValue::U32(v) => {
                let mut s = String::new(); push_str(&mut s, "0b"); push_radix_padded(&mut s, *v as u64, 2, true, 32); one(s)
            },
            ParsedValue::BitField(v) => {
                let mut s = String::new(); push_str(&mut s, "0b"); push_radix(&mut s, *v, 2, true); one(s)
            },
            ParsedValue::Enum { display, .. } => one(display.clone()),
            _ => self.to_hex(),
        }
    }

    fn to_ascii(&self) -> (r: Vec<TextPart>)
        ensures
            pieces(r@) == ascii_pieces(value_desc(*self)),
    {
        match self {
            ParsedValue::Bytes(b) => one(ascii_text(b.as_slice())),
            ParsedValue::String(t) => one(ascii_text(t.as_str().as_bytes())),
            _ => self.to_dec(),
        }
    }

    fn to_utf8(&self) -> (r: Vec<TextPart>)
        ensures
            pieces(r@) == utf8_pieces(value_desc(*self)),
    {
        match self {
            ParsedValue::String(t) => one(t.clone()),
            ParsedValue::Bytes(b) => one(crate::parser::lossy_text(b.as_slice())),
            _ => self.to_dec(),
        }
    }
}

fn ascii_text(b: &[u8]) -> (r: String)
    ensures
        r@ == ascii_view(b@),
{
    let mut s = String::new();
    let mut i: usize = 0;
    while i < b.len()
        invariant
            i <= b@.len(),
            s@ == ascii_view(b@.take(i as int)),
        decreases b@.len() - i,
    {
        let c = b[i];
        let ch = if 0x20 <= c && c < 0x7F { c as char } else { '.' };
        push_char(&mut s, ch);
        assert(ascii_view(b@.take(i + 1)) =~= ascii_view(b@.take(i as int)).push(ch));
        i = i + 1;
    }
    assert(b@.take(b@.len() as int) =~= b@);
    s
}

} // verus!
