//! Attribute values: the tagged union, its mathematical model, and the
//! binary encoding of each kind.
use vstd::prelude::*;
use vstd::utf8::*;
use vstd::string::*;
use crate::tag::{
    BEG_COLLECTION_TAG, BOOLEAN_TAG, CHARSET_TAG, END_COLLECTION_TAG, ENUM_TAG, INTEGER_TAG, KEYWORD_TAG,
    MEMBER_ATTR_NAME_TAG, MIME_MEDIA_TYPE_TAG, NAME_WITHOUT_LANGUAGE_TAG, NATURAL_LANGUAGE_TAG,
    TEXT_WITHOUT_LANGUAGE_TAG, URI_TAG,
};

verus! {

/// The model of a value: every string kind is text under its tag byte.
pub enum Val {
    Integer(i32),
    Enum(i32),
    Boolean(bool),
    Text(u8, Seq<char>),
    Other(u8, Seq<u8>),
    ListOf(Seq<Val>),
    Collection(Seq<Val>),
}

/// An attribute value as it travels on the wire.
#[derive(Debug, PartialEq)]
pub enum IppValue {
    Integer(i32),
    Enum(i32),
    Boolean(bool),
    TextWithoutLanguage(String),
    NameWithoutLanguage(String),
    Keyword(String),
    Uri(String),
    Charset(String),
    NaturalLanguage(String),
    MimeMediaType(String),
    MemberAttrName(String),
    /// A value of a kind this library does not interpret: its tag and raw bytes.
    Other { tag: u8, data: Vec<u8> },
    /// Several values of one attribute.
    ListOf(Vec<IppValue>),
    /// The members of a collection, in wire order.
    Collection(Vec<IppValue>),
}

/// Tags whose payload is UTF-8 text.
pub open spec fn is_text_tag(tag: u8) -> bool {
    tag == TEXT_WITHOUT_LANGUAGE_TAG || tag == NAME_WITHOUT_LANGUAGE_TAG || tag == KEYWORD_TAG
        || tag == URI_TAG || tag == CHARSET_TAG || tag == NATURAL_LANGUAGE_TAG
        || tag == MIME_MEDIA_TYPE_TAG || tag == MEMBER_ATTR_NAME_TAG
}

impl IppValue {
    pub open spec fn model(self) -> Val
        decreases self,
    {
        match self {
            IppValue::Integer(i) => Val::Integer(i),
            IppValue::Enum(i) => Val::Enum(i),
            IppValue::Boolean(b) => Val::Boolean(b),
            IppValue::TextWithoutLanguage(s) => Val::Text(TEXT_WITHOUT_LANGUAGE_TAG, s@),
            IppValue::NameWithoutLanguage(s) => Val::Text(NAME_WITHOUT_LANGUAGE_TAG, s@),
            IppValue::Keyword(s) => Val::Text(KEYWORD_TAG, s@),
            IppValue::Uri(s) => Val::Text(URI_TAG, s@),
            IppValue::Charset(s) => Val::Text(CHARSET_TAG, s@),
            IppValue::NaturalLanguage(s) => Val::Text(NATURAL_LANGUAGE_TAG, s@),
            IppValue::MimeMediaType(s) => Val::Text(MIME_MEDIA_TYPE_TAG, s@),
            IppValue::MemberAttrName(s) => Val::Text(MEMBER_ATTR_NAME_TAG, s@),
            IppValue::Other { tag, data } => Val::Other(tag, data@),
            IppValue::ListOf(v) => Val::ListOf(
                Seq::new(v.len() as nat, |i: int| if 0 <= i < v.len() { v[i].model() } else { Val::Boolean(false) }),
            ),
            IppValue::Collection(v) => Val::Collection(
                Seq::new(v.len() as nat, |i: int| if 0 <= i < v.len() { v[i].model() } else { Val::Boolean(false) }),
            ),
        }
    }
}

/// The models of the values in a vector.
pub open spec fn models(v: Vec<IppValue>) -> Seq<Val> {
    Seq::new(v.len() as nat, |i: int| if 0 <= i < v.len() { v[i].model() } else { Val::Boolean(false) })
}


/// Two bytes, big-endian, for `n < 65536`.
pub open spec fn be16(n: nat) -> Seq<u8> {
    seq![(n / 256) as u8, (n % 256) as u8]
}

/// Four bytes, big-endian, of the two's complement of `i`.
pub open spec fn be32(i: i32) -> Seq<u8> {
    let u = i as u32;
    seq![(u >> 24u32) as u8, (u >> 16u32) as u8, (u >> 8u32) as u8, u as u8]
}

/// The integer that four big-endian bytes hold.
pub open spec fn i32_of(b: Seq<u8>) -> i32 {
    (((b[0] as u32) << 24u32) | ((b[1] as u32) << 16u32) | ((b[2] as u32) << 8u32) | (b[3] as u32)) as i32
}

/// The tag byte that announces a value on the wire.
pub open spec fn tag_of(v: Val) -> u8
    decreases v,
{
    match v {
        Val::Integer(_) => INTEGER_TAG,
        Val::Enum(_) => ENUM_TAG,
        Val::Boolean(_) => BOOLEAN_TAG,
        Val::Text(t, _) => t,
        Val::Other(t, _) => t,
        Val::ListOf(s) => if s.len() > 0 { tag_of(s[0]) } else { 0 },
        Val::Collection(_) => BEG_COLLECTION_TAG,
    }
}

/// The bytes of a value after its name: a length-prefixed payload, followed for
/// a list by its further values and for a collection by its members and the
/// closing bracket.
pub open spec fn value_bytes(v: Val) -> Seq<u8>
    decreases v,
{
    match v {
        Val::Integer(i) => seq![0u8, 4u8] + be32(i),
        Val::Enum(i) => seq![0u8, 4u8] + be32(i),
        Val::Boolean(b) => seq![0u8, 1u8, if b { 1u8 } else { 0u8 }],
        Val::Text(_, s) => be16(encode_utf8(s).len()) + encode_utf8(s),
        Val::Other(_, d) => be16(d.len()) + d,
        Val::ListOf(s) => if s.len() > 0 {
            value_bytes(s[0]) + items_bytes(s.subrange(1, s.len() as int))
        } else {
            Seq::empty()
        },
        Val::Collection(s) => seq![0u8, 0u8] + items_bytes(s) + seq![END_COLLECTION_TAG, 0u8, 0u8, 0u8, 0u8],
    }
}

/// Values that follow one another under an empty name.
pub open spec fn items_bytes(s: Seq<Val>) -> Seq<u8>
    decreases s,
{
    if s.len() == 0 {
        Seq::empty()
    } else {
        items_bytes(s.subrange(0, s.len() - 1)) + seq![tag_of(s[s.len() - 1]), 0u8, 0u8]
            + value_bytes(s[s.len() - 1])
    }
}

/// A value the encoding can carry: no empty list, and every length fits its
/// two-byte field.
pub open spec fn encodable(v: Val) -> bool
    decreases v,
{
    match v {
        Val::Integer(_) => true,
        Val::Enum(_) => true,
        Val::Boolean(_) => true,
        Val::Text(_, s) => encode_utf8(s).len() <= 0xffff,
        Val::Other(_, d) => d.len() <= 0xffff,
        Val::ListOf(s) => s.len() > 0 && (forall|i: int| 0 <= i < s.len() ==> encodable(#[trigger] s[i])),
        Val::Collection(s) => s.len() >= 0 && (forall|i: int| 0 <= i < s.len() ==> encodable(#[trigger] s[i])),
    }
}


pub proof fn lemma_models(v: Vec<IppValue>)
    ensures
        IppValue::ListOf(v).model() == Val::ListOf(models(v)),
        IppValue::Collection(v).model() == Val::Collection(models(v)),
{
    if let Val::ListOf(s) = IppValue::ListOf(v).model() {
        assert(s =~= models(v));
    }
    if let Val::Collection(s) = IppValue::Collection(v).model() {
        assert(s =~= models(v));
    }
}

/// Appends `bytes` to `buf`.
pub fn push_all(buf: &mut Vec<u8>, bytes: &[u8])
    ensures
        final(buf)@ == old(buf)@ + bytes@,
{
    let mut i: usize = 0;
    while i < bytes.len()
        invariant
            0 <= i <= bytes@.len(),
            buf@ == old(buf)@ + bytes@.subrange(0, i as int),
        decreases bytes@.len() - i,
    {
        buf.push(bytes[i]);
        i = i + 1;
        assert(buf@ =~= old(buf)@ + bytes@.subrange(0, i as int));
    }
    assert(bytes@.subrange(0, i as int) =~= bytes@);
}

/// Appends `n` as two big-endian bytes.
pub fn push_u16(buf: &mut Vec<u8>, n: u16)
    ensures
        final(buf)@ == old(buf)@ + be16(n as nat),
{
    buf.push((n / 256) as u8);
    buf.push((n % 256) as u8);
    assert(buf@ =~= old(buf)@ + be16(n as nat));
}

/// Appends `i` as four big-endian bytes.
pub fn push_i32(buf: &mut Vec<u8>, i: i32)
    ensures
        final(buf)@ == old(buf)@ + be32(i),
{
    let u: u32 = i as u32;
    buf.push((u >> 24u32) as u8);
    buf.push((u >> 16u32) as u8);
    buf.push((u >> 8u32) as u8);
    buf.push(u as u8);
    assert(buf@ =~= old(buf)@ + be32(i));
}

/// Appends the UTF-8 bytes of `s` behind their two-byte length.
pub fn push_text(buf: &mut Vec<u8>, s: &String)
    requires
        encode_utf8(s@).len() <= 0xffff,
    ensures
        final(buf)@ == old(buf)@ + be16(encode_utf8(s@).len()) + encode_utf8(s@),
{
    let b = s.as_str().as_bytes();
    push_u16(buf, b.len() as u16);
    push_all(buf, b);
}

/// The bytes of a text value's payload, when they fit a two-byte length.
pub fn text_fits(s: &String) -> (r: bool)
    ensures
        r == (encode_utf8(s@).len() <= 0xffff),
{
    s.as_str().as_bytes().len() <= 0xffff
}

impl IppValue {
    /// Whether the value can be written: no empty list, no length over two bytes.
    pub fn is_encodable(&self) -> (r: bool)
        ensures
            r == encodable(self.model()),
        decreases self,
    {
        match self {
            IppValue::Integer(_) | IppValue::Enum(_) | IppValue::Boolean(_) => true,
            IppValue::TextWithoutLanguage(s) | IppValue::NameWithoutLanguage(s) | IppValue::Keyword(s)
            | IppValue::Uri(s) | IppValue::Charset(s) | IppValue::NaturalLanguage(s)
            | IppValue::MimeMediaType(s) | IppValue::MemberAttrName(s) => text_fits(s),
            IppValue::Other { tag: _, data } => data.len() <= 0xffff,
            IppValue::ListOf(v) | IppValue::Collection(v) => {
                let ghost m = self.model();
                proof {
                    lemma_models(*v);
                }
                if let IppValue::ListOf(_) = self {
                    if v.len() == 0 {
                        return false;
                    }
                }
                let mut i: usize = 0;
                while i < v.len()
                    invariant
                        0 <= i <= v@.len(),
                        m == self.model(),
                        (*self == IppValue::ListOf(*v) && m == Val::ListOf(models(*v))) || (*self
                            == IppValue::Collection(*v) && m == Val::Collection(models(*v))),
                        forall|j: int| 0 <= j < i ==> encodable(#[trigger] v@[j].model()),
                    decreases v@.len() - i,
                {
                    proof {
                        assert(decreases_to!(self => v));
                        assert(decreases_to!(*v => v[i as int]));
                    }
                    assert(models(*v)[i as int] == v@[i as int].model());
                    if !v[i].is_encodable() {
                        assert(!encodable(models(*v)[i as int]));
                        assert(!encodable(Val::ListOf(models(*v))));
                        assert(!encodable(Val::Collection(models(*v))));
                        return false;
                    }
                    i = i + 1;
                }
                true
            },
        }
    }

    /// The tag byte of the value.
    pub fn to_tag(&self) -> (r: u8)
        requires
            encodable(self.model()),
        ensures
            r == tag_of(self.model()),
        decreases self,
    {
        match self {
            IppValue::Integer(_) => INTEGER_TAG,
            IppValue::Enum(_) => ENUM_TAG,
            IppValue::Boolean(_) => BOOLEAN_TAG,
            IppValue::TextWithoutLanguage(_) => TEXT_WITHOUT_LANGUAGE_TAG,
            IppValue::NameWithoutLanguage(_) => NAME_WITHOUT_LANGUAGE_TAG,
            IppValue::Keyword(_) => KEYWORD_TAG,
            IppValue::Uri(_) => URI_TAG,
            IppValue::Charset(_) => CHARSET_TAG,
            IppValue::NaturalLanguage(_) => NATURAL_LANGUAGE_TAG,
            IppValue::MimeMediaType(_) => MIME_MEDIA_TYPE_TAG,
            IppValue::MemberAttrName(_) => MEMBER_ATTR_NAME_TAG,
            IppValue::Other { tag, data: _ } => *tag,
            IppValue::ListOf(v) => {
                proof {
                    lemma_models(*v);
                    assert(encodable(models(*v)[0]));
                    assert(decreases_to!(self => v));
                    assert(decreases_to!(*v => v[0]));
                }
                v[0].to_tag()
            },
            IppValue::Collection(_) => BEG_COLLECTION_TAG,
        }
    }

    /// Appends the value's bytes (everything after the attribute name).
    pub fn write(&self, buf: &mut Vec<u8>)
        requires
            encodable(self.model()),
        ensures
            final(buf)@ == old(buf)@ + value_bytes(self.model()),
        decreases self,
    {
        match self {
            IppValue::Integer(i) | IppValue::Enum(i) => {
                buf.push(0);
                buf.push(4);
                push_i32(buf, *i);
                assert(buf@ =~= old(buf)@ + value_bytes(self.model()));
            },
            IppValue::Boolean(b) => {
                buf.push(0);
                buf.push(1);
                buf.push(if *b { 1 } else { 0 });
                assert(buf@ =~= old(buf)@ + value_bytes(self.model()));
            },
            IppValue::TextWithoutLanguage(s) | IppValue::NameWithoutLanguage(s) | IppValue::Keyword(s)
            | IppValue::Uri(s) | IppValue::Charset(s) | IppValue::NaturalLanguage(s)
            | IppValue::MimeMediaType(s) | IppValue::MemberAttrName(s) => {
                push_text(buf, s);
                assert(buf@ =~= old(buf)@ + value_bytes(self.model()));
            },
            IppValue::Other { tag: _, data } => {
                push_u16(buf, data.len() as u16);
                push_all(buf, data.as_slice());
                assert(buf@ =~= old(buf)@ + value_bytes(self.model()));
            },
            IppValue::ListOf(v) => {
                let ghost m = models(*v);
                proof {
                    lemma_models(*v);
                }
                assert(m[0] == v@[0].model());
                assert(encodable(m[0]));
                v[0].write(buf);
                let mut i: usize = 1;
                assert(m.subrange(1, 1) =~= Seq::<Val>::empty());
                assert(buf@ =~= old(buf)@ + value_bytes(m[0]) + items_bytes(m.subrange(1, i as int)));
                while i < v.len()
                    invariant
                        1 <= i <= v@.len(),
                        m == models(*v),
                        encodable(self.model()),
                        self.model() == Val::ListOf(m),
                        *self == IppValue::ListOf(*v),
                        buf@ == old(buf)@ + value_bytes(m[0]) + items_bytes(m.subrange(1, i as int)),
                    decreases v@.len() - i,
                {
                    assert(m[i as int] == v@[i as int].model());
                    assert(encodable(m[i as int]));
                    let t = v[i].to_tag();
                    buf.push(t);
                    buf.push(0);
                    buf.push(0);
                    proof {
                        assert(decreases_to!(self => v));
                        assert(decreases_to!(*v => v[i as int]));
                    }
                    v[i].write(buf);
                    let ghost s2 = m.subrange(1, i + 1);
                    assert(s2.subrange(0, s2.len() - 1) =~= m.subrange(1, i as int));
                    i = i + 1;
                    assert(buf@ =~= old(buf)@ + value_bytes(m[0]) + items_bytes(m.subrange(1, i as int)));
                }
            },
            IppValue::Collection(v) => {
                let ghost m = models(*v);
                proof {
                    lemma_models(*v);
                }
                buf.push(0);
                buf.push(0);
                let mut i: usize = 0;
                assert(m.subrange(0, 0) =~= Seq::<Val>::empty());
                assert(buf@ =~= old(buf)@ + seq![0u8, 0u8] + items_bytes(m.subrange(0, i as int)));
                while i < v.len()
                    invariant
                        0 <= i <= v@.len(),
                        m == models(*v),
                        encodable(self.model()),
                        self.model() == Val::Collection(m),
                        *self == IppValue::Collection(*v),
                        buf@ == old(buf)@ + seq![0u8, 0u8] + items_bytes(m.subrange(0, i as int)),
                    decreases v@.len() - i,
                {
                    assert(m[i as int] == v@[i as int].model());
                    assert(encodable(Val::Collection(m)));
                    assert(forall|j: int| 0 <= j < m.len() ==> encodable(#[trigger] m[j]));
                    assert(encodable(m[i as int]));
                    let t = v[i].to_tag();
                    buf.push(t);
                    buf.push(0);
                    buf.push(0);
                    proof {
                        assert(decreases_to!(self => v));
                        assert(decreases_to!(*v => v[i as int]));
                    }
                    v[i].write(buf);
                    let ghost s2 = m.subrange(0, i + 1);
                    assert(s2.subrange(0, s2.len() - 1) =~= m.subrange(0, i as int));
                    i = i + 1;
                    assert(buf@ =~= old(buf)@ + seq![0u8, 0u8] + items_bytes(m.subrange(0, i as int)));
                }
                assert(m.subrange(0, i as int) =~= m);
                buf.push(END_COLLECTION_TAG);
                buf.push(0);
                buf.push(0);
                buf.push(0);
                buf.push(0);
                assert(buf@ =~= old(buf)@ + value_bytes(self.model()));
            },
        }
    }
}

/// The value a payload of the given tag decodes to, or `None` where the payload
/// does not fit the tag (an integer not four bytes long, a boolean not one byte
/// long, text that is not UTF-8). Collection brackets carry no value of their own.
pub open spec fn spec_decode(tag: u8, p: Seq<u8>) -> Option<Val> {
    if tag == INTEGER_TAG {
        if p.len() == 4 { Some(Val::Integer(i32_of(p))) } else { None }
    } else if tag == ENUM_TAG {
        if p.len() == 4 { Some(Val::Enum(i32_of(p))) } else { None }
    } else if tag == BOOLEAN_TAG {
        if p.len() == 1 { Some(Val::Boolean(p[0] != 0)) } else { None }
    } else if is_text_tag(tag) {
        if valid_utf8(p) { Some(Val::Text(tag, decode_utf8(p))) } else { None }
    } else {
        Some(Val::Other(tag, p))
    }
}

/// Relies on `String::from_utf8`: it accepts exactly the valid UTF-8 byte
/// strings and keeps the characters they encode.
#[verifier::external_body]
pub(crate) fn string_from_utf8(b: Vec<u8>) -> (r: Option<String>)
    ensures
        r is Some <==> valid_utf8(b@),
        r matches Some(s) ==> s@ == decode_utf8(b@),
{
    String::from_utf8(b).ok()
}

impl IppValue {
    /// Decodes a payload that followed `tag` on the wire.
    pub fn read(tag: u8, payload: Vec<u8>) -> (r: Option<IppValue>)
        ensures
            r matches Some(v) ==> spec_decode(tag, payload@) == Some(v.model()),
            r is None ==> spec_decode(tag, payload@) is None,
    {
        if tag == INTEGER_TAG || tag == ENUM_TAG {
            if payload.len() != 4 {
                return None;
            }
            let n: i32 = (((payload[0] as u32) << 24u32) | ((payload[1] as u32) << 16u32)
                | ((payload[2] as u32) << 8u32) | (payload[3] as u32)) as i32;
            if tag == INTEGER_TAG {
                Some(IppValue::Integer(n))
            } else {
                Some(IppValue::Enum(n))
            }
        } else if tag == BOOLEAN_TAG {
            if payload.len() != 1 {
                return None;
            }
            Some(IppValue::Boolean(payload[0] != 0))
        } else if tag == TEXT_WITHOUT_LANGUAGE_TAG || tag == NAME_WITHOUT_LANGUAGE_TAG || tag == KEYWORD_TAG
            || tag == URI_TAG || tag == CHARSET_TAG || tag == NATURAL_LANGUAGE_TAG
            || tag == MIME_MEDIA_TYPE_TAG || tag == MEMBER_ATTR_NAME_TAG {
            match string_from_utf8(payload) {
                None => None,
                Some(s) => {
                    if tag == TEXT_WITHOUT_LANGUAGE_TAG {
                        Some(IppValue::TextWithoutLanguage(s))
                    } else if tag == NAME_WITHOUT_LANGUAGE_TAG {
                        Some(IppValue::NameWithoutLanguage(s))
                    } else if tag == KEYWORD_TAG {
                        Some(IppValue::Keyword(s))
                    } else if tag == URI_TAG {
                        Some(IppValue::Uri(s))
                    } else if tag == CHARSET_TAG {
                        Some(IppValue::Charset(s))
                    } else if tag == NATURAL_LANGUAGE_TAG {
                        Some(IppValue::NaturalLanguage(s))
                    } else if tag == MIME_MEDIA_TYPE_TAG {
                        Some(IppValue::MimeMediaType(s))
                    } else {
                        Some(IppValue::MemberAttrName(s))
                    }
                },
            }
        } else {
            Some(IppValue::Other { tag, data: payload })
        }
    }
}

/// A single value in the form the decoder gives back: text under a text tag,
/// an uninterpreted payload under a tag that has no meaning of its own here,
/// every length within its field.
pub open spec fn scalar_normal(v: Val) -> bool {
    match v {
        Val::Integer(_) => true,
        Val::Enum(_) => true,
        Val::Boolean(_) => true,
        Val::Text(t, s) => is_text_tag(t) && encode_utf8(s).len() <= 0xffff,
        Val::Other(t, d) => 0x10 <= t <= 0x4a && !is_text_tag(t) && t != INTEGER_TAG && t != ENUM_TAG && t
            != BOOLEAN_TAG && t != BEG_COLLECTION_TAG && t != END_COLLECTION_TAG && d.len() <= 0xffff,
        Val::ListOf(_) => false,
        Val::Collection(_) => false,
    }
}

/// The payload of a single value, without its length.
pub open spec fn scalar_payload(v: Val) -> Seq<u8> {
    match v {
        Val::Integer(i) => be32(i),
        Val::Enum(i) => be32(i),
        Val::Boolean(b) => seq![if b { 1u8 } else { 0u8 }],
        Val::Text(_, s) => encode_utf8(s),
        Val::Other(_, d) => d,
        _ => Seq::empty(),
    }
}

/// A single value's payload decodes, under its tag, to the value itself.
pub proof fn scalar_decodes_back(v: Val)
    requires
        scalar_normal(v),
    ensures
        value_bytes(v) == be16(scalar_payload(v).len()) + scalar_payload(v),
        scalar_payload(v).len() <= 0xffff,
        spec_decode(tag_of(v), scalar_payload(v)) == Some(v),
        0x10 <= tag_of(v) <= 0x4a,
        tag_of(v) != BEG_COLLECTION_TAG,
        tag_of(v) != END_COLLECTION_TAG,
{
    match v {
        Val::Integer(i) => {
            lemma_i32_round(i);
            assert(be16(4) =~= seq![0u8, 4u8]);
        },
        Val::Enum(i) => {
            lemma_i32_round(i);
            assert(be16(4) =~= seq![0u8, 4u8]);
        },
        Val::Boolean(b) => {
            assert(be16(1) =~= seq![0u8, 1u8]);
            assert(value_bytes(v) =~= be16(scalar_payload(v).len()) + scalar_payload(v));
        },
        Val::Text(t, s) => {
            encode_utf8_valid_utf8(s);
            encode_utf8_decode_utf8(s);
        },
        Val::Other(t, d) => {},
        _ => {},
    }
}

proof fn lemma_i32_round(i: i32)
    ensures
        i32_of(be32(i)) == i,
{
    let u = i as u32;
    let b = be32(i);
    assert(b[0] == (u >> 24u32) as u8 && b[1] == (u >> 16u32) as u8 && b[2] == (u >> 8u32) as u8 && b[3] == u as u8);
    let w = (((b[0] as u32) << 24u32) | ((b[1] as u32) << 16u32) | ((b[2] as u32) << 8u32) | (b[3] as u32));
    assert((((((u >> 24u32) as u8) as u32) << 24u32) | ((((u >> 16u32) as u8) as u32) << 16u32) | ((((u
        >> 8u32) as u8) as u32) << 8u32) | ((u as u8) as u32)) == u) by (bit_vector);
    assert(w == u);
    assert(((i as u32) as i32) == i) by (bit_vector);
}

} // verus!
