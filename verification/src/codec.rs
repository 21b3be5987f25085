//! The record type and its binary layout.
//!
//! A record is laid out as three texts, then the zip as eight little-endian
//! bytes, then the principal: one byte that gives its length, and its bytes.
//! A text is its UTF-8 length as eight little-endian bytes, then its UTF-8
//! bytes. Nothing may follow the principal.

use vstd::prelude::*;
use vstd::bytes::{
    lemma_auto_spec_u64_to_from_le_bytes, spec_u64_from_le_bytes, spec_u64_to_le_bytes,
    u64_from_le_bytes, u64_to_le_bytes,
};
use vstd::slice::{slice_subrange, slice_to_vec};
use vstd::utf8::{
    decode_utf8, decode_utf8_encode_utf8, encode_utf8, encode_utf8_decode_utf8,
    encode_utf8_valid_utf8, valid_utf8,
};

verus! {

/// The longest principal, in bytes.
pub const MAX_PRINCIPAL_LEN: usize = 29;

/// Why a call on the store failed.
#[derive(Clone, Copy, Debug, PartialEq, Eq, Structural)]
pub enum StoreError {
    /// The virtual memory id is outside the configured range.
    InvalidMemoryId,
    /// The backing memory cannot grow. It is returned where a blank memory
    /// cannot be given its first page. A write of a record has no way to
    /// learn this beforehand: there the map stops the process instead.
    OutOfSpace,
    /// Stored bytes are not the layout of any record, or a stored header is
    /// of a layout version that cannot be loaded.
    DecodeError,
}

/// How much room the bytes of a stored value may take.
#[derive(Clone, Copy, Debug, PartialEq, Eq, Structural)]
pub enum SizeBound {
    /// At most `max_size` bytes; exactly that many where `is_fixed_size`.
    Bounded { max_size: u32, is_fixed_size: bool },
    /// Any number of bytes.
    Unbounded,
}

/// The identity of a caller: at most `MAX_PRINCIPAL_LEN` bytes.
#[derive(Debug, PartialEq, Eq)]
pub struct Principal {
    bytes: Vec<u8>,
}

impl View for Principal {
    type V = Seq<u8>;

    closed spec fn view(&self) -> Seq<u8> {
        self.bytes@
    }
}

impl Principal {
    #[verifier::type_invariant]
    spec fn within_limit(self) -> bool {
        self.bytes@.len() <= MAX_PRINCIPAL_LEN
    }

    /// The principal with these bytes, if they are at most `MAX_PRINCIPAL_LEN`.
    pub fn from_slice(bytes: &[u8]) -> (made: Option<Principal>)
        ensures
            made.is_some() == (bytes@.len() <= MAX_PRINCIPAL_LEN),
            made.is_some() ==> made.unwrap()@ == bytes@,
    {
        if bytes.len() <= MAX_PRINCIPAL_LEN {
            Some(Principal { bytes: slice_to_vec(bytes) })
        } else {
            None
        }
    }

    /// The principal's bytes.
    pub fn as_slice(&self) -> (bytes: &[u8])
        ensures
            bytes@ == self@,
            bytes@.len() <= MAX_PRINCIPAL_LEN,
    {
        proof {
            use_type_invariant(self);
        }
        self.bytes.as_slice()
    }

    /// A copy of the principal.
    pub fn duplicate(&self) -> (copy: Principal)
        ensures
            copy@ == self@,
    {
        proof {
            use_type_invariant(self);
        }
        Principal { bytes: slice_to_vec(self.bytes.as_slice()) }
    }
}

/// What a caller supplies for a record: everything but the identity.
#[derive(Debug, PartialEq, Eq)]
pub struct AddressInput {
    pub street: String,
    pub city: String,
    pub state: String,
    pub zip: u64,
}

/// A stored record: the supplied fields, and who wrote them.
#[derive(Debug, PartialEq, Eq)]
pub struct Address {
    pub street: String,
    pub city: String,
    pub state: String,
    pub zip: u64,
    pub created_by: Principal,
}

/// A record as a mathematical value.
pub struct AddressView {
    pub street: Seq<char>,
    pub city: Seq<char>,
    pub state: Seq<char>,
    pub zip: u64,
    pub created_by: Seq<u8>,
}

impl View for Address {
    type V = AddressView;

    open spec fn view(&self) -> AddressView {
        AddressView {
            street: self.street@,
            city: self.city@,
            state: self.state@,
            zip: self.zip,
            created_by: self.created_by@,
        }
    }
}

/// The record that `set_address` stores for `input` when `caller` writes it.
pub open spec fn stamped(input: AddressInput, caller: Principal) -> AddressView {
    AddressView {
        street: input.street@,
        city: input.city@,
        state: input.state@,
        zip: input.zip,
        created_by: caller@,
    }
}

/// Whether a text's UTF-8 length fits its eight-byte prefix.
pub open spec fn text_fits(s: Seq<char>) -> bool {
    encode_utf8(s).len() <= u64::MAX
}

/// Whether a record has a layout: its texts fit, and its principal is within
/// the limit. Every `Address` does.
pub open spec fn encodable(v: AddressView) -> bool {
    &&& text_fits(v.street)
    &&& text_fits(v.city)
    &&& text_fits(v.state)
    &&& v.created_by.len() <= MAX_PRINCIPAL_LEN
}

/// The layout of a text.
pub open spec fn text_bytes(s: Seq<char>) -> Seq<u8> {
    spec_u64_to_le_bytes(encode_utf8(s).len() as u64) + encode_utf8(s)
}

/// The layout of what follows the texts: the zip and the principal.
pub open spec fn tail_bytes(zip: u64, created_by: Seq<u8>) -> Seq<u8> {
    spec_u64_to_le_bytes(zip) + (seq![created_by.len() as u8] + created_by)
}

/// The layout of a record.
pub open spec fn record_bytes(v: AddressView) -> Seq<u8> {
    text_bytes(v.street) + (text_bytes(v.city) + (text_bytes(v.state) + tail_bytes(
        v.zip,
        v.created_by,
    )))
}

/// The length of a record's layout: 33 bytes of prefixes, zip and count,
/// and the bytes of the texts and of the principal.
pub open spec fn record_len(v: AddressView) -> nat {
    33 + encode_utf8(v.street).len() + encode_utf8(v.city).len() + encode_utf8(v.state).len()
        + v.created_by.len()
}

/// A record's layout is as long as `record_len` says.
pub proof fn lemma_record_len(v: AddressView)
    ensures
        record_bytes(v).len() == record_len(v),
{
    lemma_auto_spec_u64_to_from_le_bytes();
}

/// Reads one text from the front of `b`: the text, and the bytes after it.
pub open spec fn parse_text(b: Seq<u8>) -> Option<(Seq<char>, Seq<u8>)> {
    if b.len() < 8 {
        None
    } else {
        let n = spec_u64_from_le_bytes(b.subrange(0, 8)) as int;
        if b.len() - 8 < n {
            None
        } else if !valid_utf8(b.subrange(8, 8 + n)) {
            None
        } else {
            Some((decode_utf8(b.subrange(8, 8 + n)), b.subrange(8 + n, b.len() as int)))
        }
    }
}

/// Reads the zip and the principal from `b`, which must hold nothing more.
pub open spec fn parse_tail(b: Seq<u8>) -> Option<(u64, Seq<u8>)> {
    if b.len() < 9 {
        None
    } else if b[8] as int > MAX_PRINCIPAL_LEN || b.len() != 9 + b[8] as int {
        None
    } else {
        Some((spec_u64_from_le_bytes(b.subrange(0, 8)), b.subrange(9, b.len() as int)))
    }
}

/// Reads a record from `b`, if `b` is the layout of one.
pub open spec fn parse_record(b: Seq<u8>) -> Option<AddressView> {
    match parse_text(b) {
        None => None,
        Some((street, after_street)) => match parse_text(after_street) {
            None => None,
            Some((city, after_city)) => match parse_text(after_city) {
                None => None,
                Some((state, after_state)) => match parse_tail(after_state) {
                    None => None,
                    Some((zip, created_by)) => Some(
                        AddressView { street, city, state, zip, created_by },
                    ),
                },
            },
        },
    }
}

/// Reading a text's layout gives the text back, and leaves what followed it.
pub proof fn lemma_parse_text_bytes(s: Seq<char>, rest: Seq<u8>)
    requires
        text_fits(s),
    ensures
        parse_text(text_bytes(s) + rest) == Some((s, rest)),
{
    lemma_auto_spec_u64_to_from_le_bytes();
    encode_utf8_valid_utf8(s);
    encode_utf8_decode_utf8(s);
    let body = encode_utf8(s);
    let prefix = spec_u64_to_le_bytes(body.len() as u64);
    let b = text_bytes(s) + rest;
    assert(b.subrange(0, 8) =~= prefix);
    assert(b.subrange(8, 8 + body.len() as int) =~= body);
    assert(b.subrange(8 + body.len() as int, b.len() as int) =~= rest);
}

/// A text that was read from `b` has a layout, and `b` starts with it.
pub proof fn lemma_parse_text_sound(b: Seq<u8>)
    requires
        parse_text(b).is_some(),
    ensures
        text_fits(parse_text(b).unwrap().0),
        b == text_bytes(parse_text(b).unwrap().0) + parse_text(b).unwrap().1,
{
    lemma_auto_spec_u64_to_from_le_bytes();
    let n = spec_u64_from_le_bytes(b.subrange(0, 8));
    let body = b.subrange(8, 8 + n);
    decode_utf8_encode_utf8(body);
    let (s, rest) = parse_text(b).unwrap();
    assert(encode_utf8(s) == body);
    assert(body.len() as u64 == n);
    assert(spec_u64_to_le_bytes(n) == b.subrange(0, 8));
    assert(b =~= text_bytes(s) + rest);
}

/// Reading the layout of a zip and a principal gives both back.
pub proof fn lemma_parse_tail_bytes(zip: u64, created_by: Seq<u8>)
    requires
        created_by.len() <= MAX_PRINCIPAL_LEN,
    ensures
        parse_tail(tail_bytes(zip, created_by)) == Some((zip, created_by)),
{
    lemma_auto_spec_u64_to_from_le_bytes();
    let b = tail_bytes(zip, created_by);
    assert(b.subrange(0, 8) =~= spec_u64_to_le_bytes(zip));
    assert(b[8] == created_by.len() as u8);
    assert(b.subrange(9, b.len() as int) =~= created_by);
}

/// A zip and a principal that were read from `b` have `b` as their layout.
pub proof fn lemma_parse_tail_sound(b: Seq<u8>)
    requires
        parse_tail(b).is_some(),
    ensures
        parse_tail(b).unwrap().1.len() <= MAX_PRINCIPAL_LEN,
        b == tail_bytes(parse_tail(b).unwrap().0, parse_tail(b).unwrap().1),
{
    lemma_auto_spec_u64_to_from_le_bytes();
    let (zip, created_by) = parse_tail(b).unwrap();
    assert(spec_u64_to_le_bytes(zip) == b.subrange(0, 8));
    assert(b =~= tail_bytes(zip, created_by));
}

/// Decoding inverts encoding: reading the layout of a record gives the record.
pub proof fn lemma_decode_encode(v: AddressView)
    requires
        encodable(v),
    ensures
        parse_record(record_bytes(v)) == Some(v),
{
    let tail = tail_bytes(v.zip, v.created_by);
    let after_city = text_bytes(v.state) + tail;
    let after_street = text_bytes(v.city) + after_city;
    lemma_parse_text_bytes(v.street, after_street);
    lemma_parse_text_bytes(v.city, after_city);
    lemma_parse_text_bytes(v.state, tail);
    lemma_parse_tail_bytes(v.zip, v.created_by);
}

/// Encoding inverts decoding: bytes from which a record is read are that
/// record's layout, so no other bytes decode to it.
pub proof fn lemma_encode_decode(b: Seq<u8>)
    requires
        parse_record(b).is_some(),
    ensures
        encodable(parse_record(b).unwrap()),
        record_bytes(parse_record(b).unwrap()) == b,
{
    lemma_parse_text_sound(b);
    let after_street = parse_text(b).unwrap().1;
    lemma_parse_text_sound(after_street);
    let after_city = parse_text(after_street).unwrap().1;
    lemma_parse_text_sound(after_city);
    let after_state = parse_text(after_city).unwrap().1;
    lemma_parse_tail_sound(after_state);
}

/// Whether `p` is the front of `b`, and shorter by `missing` bytes.
pub open spec fn front_of(p: Seq<u8>, b: Seq<u8>, missing: int) -> bool {
    &&& missing >= 0
    &&& p.len() + missing == b.len()
    &&& p == b.subrange(0, p.len() as int)
}

/// A text that is read from the front of some bytes is read from the whole
/// of them too, and what is left after it is as much shorter as the front was.
pub proof fn lemma_parse_text_front(p: Seq<u8>, b: Seq<u8>, missing: int)
    requires
        front_of(p, b, missing),
        parse_text(p).is_some(),
    ensures
        parse_text(b).is_some(),
        parse_text(b).unwrap().0 == parse_text(p).unwrap().0,
        front_of(parse_text(p).unwrap().1, parse_text(b).unwrap().1, missing),
{
    let n = spec_u64_from_le_bytes(p.subrange(0, 8)) as int;
    assert(p.subrange(0, 8) =~= b.subrange(0, 8));
    assert(p.subrange(8, 8 + n) =~= b.subrange(8, 8 + n));
    assert(p.subrange(8 + n, p.len() as int) =~= b.subrange(8 + n, b.len() as int).subrange(
        0,
        p.len() - 8 - n,
    ));
}

/// No record is read from a layout that was cut short.
pub proof fn lemma_truncated_layout(v: AddressView, cut: int)
    requires
        encodable(v),
        0 <= cut < record_bytes(v).len(),
    ensures
        parse_record(record_bytes(v).subrange(0, cut)).is_none(),
{
    let b = record_bytes(v);
    let p = b.subrange(0, cut);
    let missing = b.len() - cut;
    lemma_decode_encode(v);
    if parse_record(p).is_some() {
        lemma_parse_text_front(p, b, missing);
        let p1 = parse_text(p).unwrap().1;
        let b1 = parse_text(b).unwrap().1;
        lemma_parse_text_front(p1, b1, missing);
        let p2 = parse_text(p1).unwrap().1;
        let b2 = parse_text(b1).unwrap().1;
        lemma_parse_text_front(p2, b2, missing);
        let p3 = parse_text(p2).unwrap().1;
        let b3 = parse_text(b2).unwrap().1;
        assert(p3[8] == b3[8]);
        assert(false);
    }
}

/// The layout is deterministic and unambiguous: two records with a layout
/// have the same bytes exactly when they are the same record.
pub proof fn lemma_layout_injective(v: AddressView, w: AddressView)
    requires
        encodable(v),
        encodable(w),
    ensures
        (record_bytes(v) == record_bytes(w)) == (v == w),
{
    lemma_decode_encode(v);
    lemma_decode_encode(w);
}

/// Bytes that are no record's layout are exactly those that do not parse.
pub proof fn lemma_unreadable(b: Seq<u8>)
    ensures
        parse_record(b).is_none() <==> (forall|v: AddressView|
            encodable(v) ==> #[trigger] record_bytes(v) != b),
{
    if parse_record(b).is_some() {
        lemma_encode_decode(b);
    } else {
        assert forall|v: AddressView| encodable(v) implies #[trigger] record_bytes(v) != b by {
            lemma_decode_encode(v);
        }
    }
}

/// Appends `src` to `out`.
fn append(out: &mut Vec<u8>, src: &[u8])
    ensures
        final(out)@ == old(out)@ + src@,
{
    let mut i: usize = 0;
    while i < src.len()
        invariant
            i <= src@.len(),
            out@ == old(out)@ + src@.subrange(0, i as int),
        decreases src@.len() - i,
    {
        out.push(src[i]);
        i += 1;
        assert(out@ =~= old(out)@ + src@.subrange(0, i as int));
    }
    assert(src@.subrange(0, i as int) =~= src@);
}

/// Appends the layout of `text` to `out`.
fn put_text(out: &mut Vec<u8>, text: &String)
    ensures
        final(out)@ == old(out)@ + text_bytes(text@),
        text_fits(text@),
{
    let body = text.as_str().as_bytes();
    let prefix = u64_to_le_bytes(body.len() as u64);
    append(out, prefix.as_slice());
    append(out, body);
    assert(out@ =~= old(out)@ + text_bytes(text@));
}

/// `String::from_utf8`: the text that `bytes` encode, where they are valid
/// UTF-8, and nothing where they are not.
#[verifier::external_body]
fn string_from_utf8(bytes: Vec<u8>) -> (text: Option<String>)
    ensures
        match text {
            Some(s) => valid_utf8(bytes@) && s@ == decode_utf8(bytes@),
            None => !valid_utf8(bytes@),
        },
{
    String::from_utf8(bytes).ok()
}

/// Reads one text from `bytes` at `pos`: the text, and where the next field
/// starts.
fn take_text(bytes: &[u8], pos: usize) -> (taken: Option<(String, usize)>)
    requires
        pos <= bytes@.len(),
    ensures
        match taken {
            Some((text, next)) => pos <= next <= bytes@.len() && parse_text(
                bytes@.subrange(pos as int, bytes@.len() as int),
            ) == Some((text@, bytes@.subrange(next as int, bytes@.len() as int))),
            None => parse_text(bytes@.subrange(pos as int, bytes@.len() as int)).is_none(),
        },
{
    let len = bytes.len();
    let ghost b = bytes@.subrange(pos as int, len as int);
    if len - pos < 8 {
        return None;
    }
    let n = u64_from_le_bytes(slice_subrange(bytes, pos, pos + 8));
    assert(bytes@.subrange(pos as int, pos + 8) =~= b.subrange(0, 8));
    if ((len - pos - 8) as u64) < n {
        return None;
    }
    let start = pos + 8;
    let end = start + n as usize;
    let body = slice_to_vec(slice_subrange(bytes, start, end));
    assert(body@ =~= b.subrange(8, 8 + n));
    assert(bytes@.subrange(end as int, len as int) =~= b.subrange(8 + n, b.len() as int));
    match string_from_utf8(body) {
        Some(text) => Some((text, end)),
        None => None,
    }
}

impl Address {
    /// The room that a record's bytes may take: their length grows with the
    /// texts, so it has no bound.
    pub fn size_bound() -> (bound: SizeBound)
        ensures
            bound == SizeBound::Unbounded,
    {
        SizeBound::Unbounded
    }

    /// The record's bytes: its layout, the same for the same record always.
    pub fn to_bytes(&self) -> (bytes: Vec<u8>)
        ensures
            bytes@ == record_bytes(self@),
            bytes@.len() == record_len(self@),
            encodable(self@),
            parse_record(bytes@) == Some(self@),
    {
        let mut out: Vec<u8> = Vec::new();
        put_text(&mut out, &self.street);
        put_text(&mut out, &self.city);
        put_text(&mut out, &self.state);
        let zip = u64_to_le_bytes(self.zip);
        append(&mut out, zip.as_slice());
        let who = self.created_by.as_slice();
        out.push(who.len() as u8);
        append(&mut out, who);
        proof {
            assert(out@ =~= record_bytes(self@));
            lemma_record_len(self@);
            lemma_decode_encode(self@);
        }
        out
    }

    /// The record that `bytes` are the layout of; `DecodeError` where they
    /// are the layout of none.
    pub fn from_bytes(bytes: &[u8]) -> (decoded: Result<Address, StoreError>)
        ensures
            match decoded {
                Ok(address) => parse_record(bytes@) == Some(address@) && record_bytes(address@)
                    == bytes@,
                Err(e) => e == StoreError::DecodeError && parse_record(bytes@).is_none()
                    && forall|v: AddressView|
                    encodable(v) ==> #[trigger] record_bytes(v) != bytes@,
            },
    {
        proof {
            lemma_unreadable(bytes@);
            if parse_record(bytes@).is_some() {
                lemma_encode_decode(bytes@);
            }
        }
        let len = bytes.len();
        assert(bytes@.subrange(0, len as int) =~= bytes@);
        let (street, after_street) = match take_text(bytes, 0) {
            Some(taken) => taken,
            None => {
                return Err(StoreError::DecodeError);
            },
        };
        let (city, after_city) = match take_text(bytes, after_street) {
            Some(taken) => taken,
            None => {
                return Err(StoreError::DecodeError);
            },
        };
        let (state, after_state) = match take_text(bytes, after_city) {
            Some(taken) => taken,
            None => {
                return Err(StoreError::DecodeError);
            },
        };
        let ghost tail = bytes@.subrange(after_state as int, len as int);
        if len - after_state < 9 {
            return Err(StoreError::DecodeError);
        }
        let count = bytes[after_state + 8];
        assert(tail[8] == count);
        if count as usize > MAX_PRINCIPAL_LEN || len - after_state - 9 != count as usize {
            return Err(StoreError::DecodeError);
        }
        let zip = u64_from_le_bytes(slice_subrange(bytes, after_state, after_state + 8));
        assert(bytes@.subrange(after_state as int, after_state + 8) =~= tail.subrange(0, 8));
        let who = slice_subrange(bytes, after_state + 9, len);
        assert(who@ =~= tail.subrange(9, tail.len() as int));
        match Principal::from_slice(who) {
            Some(created_by) => Ok(Address { street, city, state, zip, created_by }),
            None => Err(StoreError::DecodeError),
        }
    }
}

} // verus!
