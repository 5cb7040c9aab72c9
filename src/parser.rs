//! The streaming decoder: from wire bytes back to an attribute list.
use vstd::prelude::*;
use vstd::utf8::*;
use crate::attribute::{
    attr_bytes, attrs_bytes, group_pos, has_group, has_name, list_add, list_bytes, GroupModel,
    IppAttribute, IppAttributeList,
};
use crate::tag::{
    is_delimiter_tag, is_value_tag, spec_is_delimiter_tag, spec_is_value_tag, DelimiterTag,
    BEG_COLLECTION_TAG, END_COLLECTION_TAG, END_OF_ATTRIBUTES_TAG, OPERATION_ATTRIBUTES_TAG,
};
use crate::value::{
    be16, lemma_models, models, scalar_decodes_back, scalar_normal, scalar_payload, spec_decode,
    string_from_utf8, tag_of, IppValue, Val,
};

verus! {

/// Why a stream could not be decoded.
#[derive(Clone, Copy, Debug, PartialEq, Eq, Structural)]
pub enum ParseError {
    /// The stream ended inside the header or a record, or before the end marker.
    Truncated,
    /// A byte that is neither a known delimiter nor a value tag.
    Tag(u8),
    /// A payload that does not fit its tag.
    Value(u8),
    /// An attribute name that is not UTF-8.
    Name,
}

/// The leading protocol header.
#[derive(Clone, Copy, Debug, PartialEq, Eq, Structural)]
pub struct IppHeader {
    pub major: u8,
    pub minor: u8,
    pub operation_status: u16,
    pub request_id: u32,
}

/// The length of the header on the wire.
pub const HEADER_LEN: usize = 8;

/// The two big-endian bytes at `p`.
pub open spec fn u16_at(d: Seq<u8>, p: int) -> int {
    d[p] as int * 256 + d[p + 1] as int
}

/// The four big-endian bytes at `p`.
pub open spec fn u32_at(d: Seq<u8>, p: int) -> u32 {
    ((d[p] as u32) << 24u32) | ((d[p + 1] as u32) << 16u32) | ((d[p + 2] as u32) << 8u32) | (d[p + 3] as u32)
}

/// The header at the start of `d`.
pub open spec fn spec_header(d: Seq<u8>) -> IppHeader {
    IppHeader { major: d[0], minor: d[1], operation_status: u16_at(d, 2) as u16, request_id: u32_at(d, 4) }
}

/// One record of the attribute stream.
pub enum Rec {
    Delim(u8),
    Value { tag: u8, fresh: bool, name: Seq<char>, value: Val, next: int },
    Fail(ParseError, int),
}

/// The record that starts at `p`: a delimiter byte, or a value tag with its
/// name and value (`fresh` where the name is not empty), or the failure there
/// with the position where reading stopped.
#[verifier::opaque]
pub open spec fn record_at(d: Seq<u8>, p: int) -> Rec {
    if p >= d.len() {
        Rec::Fail(ParseError::Truncated, d.len() as int)
    } else if spec_is_delimiter_tag(d[p]) {
        Rec::Delim(d[p])
    } else if !spec_is_value_tag(d[p]) {
        Rec::Fail(ParseError::Tag(d[p]), p + 1)
    } else if p + 3 > d.len() {
        Rec::Fail(ParseError::Truncated, d.len() as int)
    } else {
        let nl = u16_at(d, p + 1);
        let q = p + 3 + nl;
        if q + 2 > d.len() {
            Rec::Fail(ParseError::Truncated, d.len() as int)
        } else {
            let e = q + 2 + u16_at(d, q);
            if e > d.len() {
                Rec::Fail(ParseError::Truncated, d.len() as int)
            } else if !valid_utf8(d.subrange(p + 3, q)) {
                Rec::Fail(ParseError::Name, e)
            } else {
                match spec_decode(d[p], d.subrange(q + 2, e)) {
                    None => Rec::Fail(ParseError::Value(d[p]), e),
                    Some(v) => Rec::Value {
                        tag: d[p],
                        fresh: nl > 0,
                        name: decode_utf8(d.subrange(p + 3, q)),
                        value: v,
                        next: e,
                    },
                }
            }
        }
    }
}

/// The decoder's state between records.
pub struct DecodeState {
    pub group: DelimiterTag,
    pub stack: Seq<Seq<Val>>,
    pub pending: Option<Seq<char>>,
    pub list: Seq<GroupModel>,
}

/// A single value stays itself; any other number of values forms a list.
pub open spec fn collapse(s: Seq<Val>) -> Val {
    if s.len() == 1 {
        s[0]
    } else {
        Val::ListOf(s)
    }
}

/// Records the pending attribute, with the innermost level of the stack as its
/// value, under the current group; the level is popped.
pub open spec fn flush(st: DecodeState) -> DecodeState {
    match st.pending {
        Some(n) => if st.stack.len() > 0 {
            DecodeState {
                stack: st.stack.drop_last(),
                list: list_add(st.list, st.group, (n, collapse(st.stack.last()))),
                ..st
            }
        } else {
            st
        },
        None => st,
    }
}

/// The state after a value record.
pub open spec fn on_value(st: DecodeState, tag: u8, fresh: bool, name: Seq<char>, v: Val) -> DecodeState {
    let st1 = if fresh {
        if st.pending is Some {
            let f = flush(st);
            DecodeState { stack: f.stack.push(Seq::empty()), pending: Some(name), ..f }
        } else {
            DecodeState { pending: Some(name), ..st }
        }
    } else {
        st
    };
    if tag == BEG_COLLECTION_TAG {
        DecodeState { stack: st1.stack.push(Seq::empty()), ..st1 }
    } else if tag == END_COLLECTION_TAG {
        if st1.stack.len() > 0 {
            let inner = st1.stack.last();
            let rest = st1.stack.drop_last();
            if rest.len() > 0 {
                DecodeState {
                    stack: rest.update(rest.len() - 1, rest.last().push(Val::Collection(inner))),
                    ..st1
                }
            } else {
                DecodeState { stack: rest, ..st1 }
            }
        } else {
            st1
        }
    } else if st1.stack.len() > 0 {
        DecodeState { stack: st1.stack.update(st1.stack.len() - 1, st1.stack.last().push(v)), ..st1 }
    } else {
        st1
    }
}

/// Decodes records from `p` on: the finished list and the position after the
/// end marker, or the failure and the position where reading stopped.
pub open spec fn run(d: Seq<u8>, p: int, st: DecodeState) -> Result<(Seq<GroupModel>, int), (ParseError, int)>
    decreases d.len() - p,
{
    match record_at(d, p) {
        Rec::Fail(e, q) => Err((e, q)),
        Rec::Delim(t) => if t == END_OF_ATTRIBUTES_TAG {
            Ok((flush(st).list, p + 1))
        } else {
            match DelimiterTag::spec_from_byte(t) {
                None => Err((ParseError::Tag(t), p + 1)),
                Some(g) => if p + 1 <= d.len() {
                    run(d, p + 1, DecodeState { group: g, ..st })
                } else {
                    Err((ParseError::Truncated, p))
                },
            }
        },
        Rec::Value { tag, fresh, name, value, next } => if p < next <= d.len() {
            run(d, next, on_value(st, tag, fresh, name, value))
        } else {
            Err((ParseError::Truncated, p))
        },
    }
}

/// The state before the first record.
pub open spec fn initial_state() -> DecodeState {
    DecodeState {
        group: DelimiterTag::EndOfAttributes,
        stack: seq![Seq::empty()],
        pending: None,
        list: Seq::empty(),
    }
}

/// What decoding a whole stream gives: the header and the attribute list with
/// the position after the end marker, or the failure and where it stopped.
pub open spec fn spec_parse(d: Seq<u8>) -> Result<(IppHeader, Seq<GroupModel>, int), (ParseError, int)> {
    if d.len() < HEADER_LEN {
        Err((ParseError::Truncated, d.len() as int))
    } else {
        match run(d, HEADER_LEN as int, initial_state()) {
            Ok((l, q)) => Ok((spec_header(d), l, q)),
            Err(e) => Err(e),
        }
    }
}

/// The model of the decoder's stack of value levels.
pub open spec fn stack_model(s: Seq<Vec<IppValue>>) -> Seq<Seq<Val>> {
    s.map_values(|v: Vec<IppValue>| models(v))
}

/// The model of the name that awaits its values.
pub open spec fn pending_model(p: Option<String>) -> Option<Seq<char>> {
    match p {
        Some(s) => Some(s@),
        None => None,
    }
}

/// Collapses the values of one attribute: one value stays itself, any other
/// number forms a list.
pub fn list_to_value(list: Vec<IppValue>) -> (r: IppValue)
    ensures
        r.model() == collapse(models(list)),
{
    proof {
        lemma_models(list);
    }
    if list.len() == 1 {
        let mut list = list;
        let v = list.remove(0);
        v
    } else {
        IppValue::ListOf(list)
    }
}

/// Records the pending attribute, if any, under `group`, popping its level.
fn flush_pending(
    stack: &mut Vec<Vec<IppValue>>,
    pending: &Option<String>,
    list: &mut IppAttributeList,
    group: DelimiterTag,
)
    requires
        old(list).wf(),
    ensures
        final(list).wf(),
        ({
            let st = flush(
                DecodeState {
                    group,
                    stack: stack_model(old(stack)@),
                    pending: pending_model(*pending),
                    list: old(list)@,
                },
            );
            stack_model(final(stack)@) == st.stack && final(list)@ == st.list
        }),
{
    if let Some(n) = pending {
        let top = stack.pop();
        if let Some(top) = top {
            assert(stack_model(stack@) =~= stack_model(old(stack)@).drop_last());
            let v = list_to_value(top);
            list.add(group, IppAttribute::new(n.as_str(), v));
        }
    }
}

/// Applies one value record to the decoder's state.
fn apply_value(
    stack: &mut Vec<Vec<IppValue>>,
    pending: &mut Option<String>,
    list: &mut IppAttributeList,
    group: DelimiterTag,
    tag: u8,
    fresh: bool,
    name: String,
    value: IppValue,
)
    requires
        old(list).wf(),
    ensures
        final(list).wf(),
        ({
            let st = on_value(
                DecodeState {
                    group,
                    stack: stack_model(old(stack)@),
                    pending: pending_model(*old(pending)),
                    list: old(list)@,
                },
                tag,
                fresh,
                name@,
                value.model(),
            );
            stack_model(final(stack)@) == st.stack && pending_model(*final(pending)) == st.pending
                && final(list)@ == st.list
        }),
{
    if fresh {
        if pending.is_some() {
            flush_pending(stack, pending, list, group);
            let ghost s1 = stack@;
            let e: Vec<IppValue> = Vec::new();
            assert(models(e) =~= Seq::<Val>::empty());
            stack.push(e);
            assert(stack_model(stack@) =~= stack_model(s1).push(Seq::empty()));
        }
        *pending = Some(name);
    }
    let ghost s2 = stack@;
    if tag == BEG_COLLECTION_TAG {
        let e: Vec<IppValue> = Vec::new();
        assert(models(e) =~= Seq::<Val>::empty());
        stack.push(e);
        assert(stack_model(stack@) =~= stack_model(s2).push(Seq::empty()));
    } else if tag == END_COLLECTION_TAG {
        if let Some(inner) = stack.pop() {
            let ghost s3 = stack@;
            assert(stack_model(s3) =~= stack_model(s2).drop_last());
            if let Some(mut lvl) = stack.pop() {
                let ghost m0 = models(lvl);
                proof {
                    lemma_models(inner);
                }
                lvl.push(IppValue::Collection(inner));
                assert(models(lvl) =~= m0.push(Val::Collection(models(inner))));
                stack.push(lvl);
                assert(stack_model(stack@) =~= stack_model(s3).update(
                    stack_model(s3).len() - 1,
                    stack_model(s3).last().push(Val::Collection(models(inner))),
                ));
            }
        }
    } else {
        if let Some(mut lvl) = stack.pop() {
            let ghost m0 = models(lvl);
            let ghost vm = value.model();
            lvl.push(value);
            assert(models(lvl) =~= m0.push(vm));
            stack.push(lvl);
            assert(stack_model(stack@) =~= stack_model(s2).update(
                stack_model(s2).len() - 1,
                stack_model(s2).last().push(vm),
            ));
        }
    }
}

/// A record as the decoder reads it.
enum Record {
    Delim(u8),
    Value { tag: u8, fresh: bool, name: String, value: IppValue, next: usize },
    Fail(ParseError, usize),
}

/// The two bytes at `p`, big-endian.
fn read_u16(d: &Vec<u8>, p: usize) -> (r: usize)
    requires
        p + 2 <= d.len(),
    ensures
        r == u16_at(d@, p as int),
        r <= 0xffff,
{
    (d[p] as usize) * 256 + (d[p + 1] as usize)
}

/// A copy of `d[from..to]`.
fn copy_range(d: &Vec<u8>, from: usize, to: usize) -> (r: Vec<u8>)
    requires
        from <= to <= d@.len(),
    ensures
        r@ == d@.subrange(from as int, to as int),
{
    let mut r: Vec<u8> = Vec::new();
    let mut i: usize = from;
    while i < to
        invariant
            from <= i <= to <= d@.len(),
            r@ == d@.subrange(from as int, i as int),
        decreases to - i,
    {
        r.push(d[i]);
        i = i + 1;
        assert(r@ =~= d@.subrange(from as int, i as int));
    }
    r
}

/// Reads the record that starts at `p`.
fn read_record(d: &Vec<u8>, p: usize) -> (r: Record)
    ensures
        match r {
            Record::Delim(t) => record_at(d@, p as int) == Rec::Delim(t) && p < d@.len(),
            Record::Value { tag, fresh, name, value, next } => record_at(d@, p as int) == (Rec::Value {
                tag,
                fresh,
                name: name@,
                value: value.model(),
                next: next as int,
            }),
            Record::Fail(e, q) => record_at(d@, p as int) == Rec::Fail(e, q as int),
        },
{
    reveal(record_at);
    let len = d.len();
    if p >= len {
        return Record::Fail(ParseError::Truncated, len);
    }
    let t = d[p];
    if is_delimiter_tag(t) {
        return Record::Delim(t);
    }
    if !is_value_tag(t) {
        return Record::Fail(ParseError::Tag(t), p + 1);
    }
    if len - p < 3 {
        return Record::Fail(ParseError::Truncated, len);
    }
    let nl = read_u16(d, p + 1);
    if len - (p + 3) < nl + 2 {
        return Record::Fail(ParseError::Truncated, len);
    }
    let q = p + 3 + nl;
    let vl = read_u16(d, q);
    if len - (q + 2) < vl {
        return Record::Fail(ParseError::Truncated, len);
    }
    let e = q + 2 + vl;
    let nb = copy_range(d, p + 3, q);
    match string_from_utf8(nb) {
        None => Record::Fail(ParseError::Name, e),
        Some(name) => {
            let pl = copy_range(d, q + 2, e);
            match IppValue::read(t, pl) {
                None => Record::Fail(ParseError::Value(t), e),
                Some(value) => Record::Value { tag: t, fresh: nl > 0, name, value, next: e },
            }
        },
    }
}

/// What a successful decode gives.
#[derive(Debug)]
pub struct IppParseResult {
    pub header: IppHeader,
    pub attributes: IppAttributeList,
}

/// Decoder over a buffered stream: the header, then attribute records up to
/// the end marker.
pub struct IppParser {
    data: Vec<u8>,
    pos: usize,
}

impl IppParser {
    /// The bytes being decoded.
    pub closed spec fn input(&self) -> Seq<u8> {
        self.data@
    }

    /// How many bytes have been consumed.
    pub closed spec fn position(&self) -> int {
        self.pos as int
    }

    /// A decoder over `data`, from its first byte.
    pub fn new(data: Vec<u8>) -> (r: IppParser)
        ensures
            r.input() == data@,
            r.position() == 0,
    {
        IppParser { data, pos: 0 }
    }

    /// How many bytes have been consumed.
    pub fn consumed(&self) -> (r: usize)
        ensures
            r == self.position(),
    {
        self.pos
    }

    /// Decodes the header and the attribute stream. On success the position is
    /// just past the end marker; on failure it is where reading stopped (just
    /// past an unknown tag byte).
    pub fn parse(&mut self) -> (r: Result<IppParseResult, ParseError>)
        ensures
            final(self).input() == old(self).input(),
            match spec_parse(old(self).input()) {
                Ok((h, l, q)) => r matches Ok(res) && res.header == h && res.attributes@ == l
                    && res.attributes.wf() && final(self).position() == q,
                Err((e, q)) => r == Err::<IppParseResult, ParseError>(e) && final(self).position() == q,
            },
    {
        let len = self.data.len();
        if len < HEADER_LEN {
            self.pos = len;
            return Err(ParseError::Truncated);
        }
        let header = IppHeader {
            major: self.data[0],
            minor: self.data[1],
            operation_status: read_u16(&self.data, 2) as u16,
            request_id: ((self.data[4] as u32) << 24u32) | ((self.data[5] as u32) << 16u32) | ((
            self.data[6] as u32) << 8u32) | (self.data[7] as u32),
        };
        let mut group = DelimiterTag::EndOfAttributes;
        let mut stack: Vec<Vec<IppValue>> = Vec::new();
        let e: Vec<IppValue> = Vec::new();
        stack.push(e);
        let mut pending: Option<String> = None;
        let mut list = IppAttributeList::new();
        let mut p: usize = HEADER_LEN;
        assert(models(e) =~= Seq::<Val>::empty());
        assert(stack_model(stack@) =~= initial_state().stack);
        loop
            invariant
                HEADER_LEN <= p <= len,
                len == self.data@.len(),
                self.input() == old(self).input(),
                list.wf(),
                header == spec_header(self.data@),
                run(self.data@, p as int, DecodeState {
                    group,
                    stack: stack_model(stack@),
                    pending: pending_model(pending),
                    list: list@,
                }) == run(self.data@, HEADER_LEN as int, initial_state()),
            decreases len - p,
        {
            let ghost st = DecodeState {
                group,
                stack: stack_model(stack@),
                pending: pending_model(pending),
                list: list@,
            };
            match read_record(&self.data, p) {
                Record::Fail(err, q) => {
                    self.pos = q;
                    return Err(err);
                },
                Record::Delim(t) => {
                    if t == END_OF_ATTRIBUTES_TAG {
                        flush_pending(&mut stack, &pending, &mut list, group);
                        self.pos = p + 1;
                        return Ok(IppParseResult { header, attributes: list });
                    }
                    match DelimiterTag::from_u8(t) {
                        None => {
                            self.pos = p + 1;
                            return Err(ParseError::Tag(t));
                        },
                        Some(g) => {
                            group = g;
                            p = p + 1;
                        },
                    }
                },
                Record::Value { tag, fresh, name, value, next } => {
                    proof {
                        lemma_record_advances(self.data@, p as int);
                    }
                    apply_value(&mut stack, &mut pending, &mut list, group, tag, fresh, name, value);
                    p = next;
                },
            }
        }
    }
}

/// Whether decoding `data` is decided: it ends in a whole document or fails
/// before running out of bytes, so no further byte of the stream is needed.
pub fn is_decided(data: &Vec<u8>) -> (r: bool)
    ensures
        r == !(spec_parse(data@) matches Err((ParseError::Truncated, _))),
{
    let copy = copy_range(data, 0, data.len());
    assert(copy@ =~= data@);
    let mut parser = IppParser::new(copy);
    match parser.parse() {
        Err(ParseError::Truncated) => false,
        _ => true,
    }
}

/// A value record ends after it starts and within the stream.
proof fn lemma_record_advances(d: Seq<u8>, p: int)
    ensures
        record_at(d, p) matches Rec::Value { next, .. } ==> p < next <= d.len(),
        record_at(d, p) matches Rec::Fail(_, q) ==> p <= q <= d.len() || p >= d.len(),
{
    reveal(record_at);
}

/// A stream that holds, after its header, only the operation delimiter and the
/// end marker decodes to an empty list and is consumed whole.
pub proof fn empty_document_decodes_empty(h: Seq<u8>)
    requires
        h.len() == HEADER_LEN,
    ensures
        spec_parse(h + seq![OPERATION_ATTRIBUTES_TAG, END_OF_ATTRIBUTES_TAG]) == Ok::<
            (IppHeader, Seq<GroupModel>, int),
            (ParseError, int),
        >((spec_header(h), Seq::<GroupModel>::empty(), 10)),
{
    reveal(record_at);
    let d = h + seq![OPERATION_ATTRIBUTES_TAG, END_OF_ATTRIBUTES_TAG];
    assert(d[8] == OPERATION_ATTRIBUTES_TAG);
    assert(d[9] == END_OF_ATTRIBUTES_TAG);
    assert(record_at(d, 8) == Rec::Delim(OPERATION_ATTRIBUTES_TAG));
    assert(record_at(d, 9) == Rec::Delim(END_OF_ATTRIBUTES_TAG));
    let st = DecodeState { group: DelimiterTag::OperationAttributes, ..initial_state() };
    assert(run(d, 9, st) == Ok::<(Seq<GroupModel>, int), (ParseError, int)>((flush(st).list, 10)));
    assert(flush(st).list == Seq::<GroupModel>::empty());
    assert(spec_header(d) == spec_header(h));
}

/// Where a record would start, a byte that is neither a known delimiter nor a
/// value tag fails the decode with a tag error that carries it, and reading
/// stops just past that byte.
pub proof fn unknown_tag_fails(d: Seq<u8>, p: int, st: DecodeState)
    requires
        0 <= p < d.len(),
        (!spec_is_delimiter_tag(d[p]) && !spec_is_value_tag(d[p])) || (spec_is_delimiter_tag(d[p])
            && DelimiterTag::spec_from_byte(d[p]) is None),
    ensures
        run(d, p, st) == Err::<(Seq<GroupModel>, int), (ParseError, int)>((ParseError::Tag(d[p]), p + 1)),
{
    reveal(record_at);
}

/// A value record on the wire: tag, name length, name bytes, value length,
/// payload.
pub open spec fn record_bytes(t: u8, name: Seq<u8>, payload: Seq<u8>) -> Seq<u8> {
    seq![t] + be16(name.len()) + name + be16(payload.len()) + payload
}

proof fn lemma_be16_at(d: Seq<u8>, p: int, n: nat)
    requires
        n <= 0xffff,
        0 <= p,
        p + 2 <= d.len(),
        d[p] == be16(n)[0],
        d[p + 1] == be16(n)[1],
    ensures
        u16_at(d, p) == n,
{
    let hi = n / 256;
    let lo = n % 256;
    assert(hi < 256 && lo < 256) by (nonlinear_arith)
        requires
            n <= 0xffff,
            hi == n / 256,
            lo == n % 256,
    ;
    assert(hi * 256 + lo == n) by (nonlinear_arith)
        requires
            hi == n / 256,
            lo == n % 256,
    ;
}

/// A well-formed value record, wherever it stands in a stream, reads back as
/// its tag, name and decoded value, and ends where its payload ends.
pub proof fn record_reads_back(pre: Seq<u8>, t: u8, name: Seq<u8>, payload: Seq<u8>, post: Seq<u8>, v: Val)
    requires
        spec_is_value_tag(t),
        name.len() <= 0xffff,
        payload.len() <= 0xffff,
        valid_utf8(name),
        spec_decode(t, payload) == Some(v),
    ensures
        record_at(pre + record_bytes(t, name, payload) + post, pre.len() as int) == (Rec::Value {
            tag: t,
            fresh: name.len() > 0,
            name: decode_utf8(name),
            value: v,
            next: (pre.len() + 5 + name.len() + payload.len()) as int,
        }),
{
    reveal(record_at);
    let d = pre + record_bytes(t, name, payload) + post;
    let p = pre.len() as int;
    let q = p + 3 + name.len();
    let e = q + 2 + payload.len();
    assert(d[p] == t);
    assert(d[p + 1] == be16(name.len())[0]);
    assert(d[p + 2] == be16(name.len())[1]);
    lemma_be16_at(d, p + 1, name.len());
    assert(d[q] == be16(payload.len())[0]);
    assert(d[q + 1] == be16(payload.len())[1]);
    lemma_be16_at(d, q, payload.len());
    assert(d.subrange(p + 3, q) =~= name);
    assert(d.subrange(q + 2, e) =~= payload);
}

proof fn lemma_delim_at(d: Seq<u8>, p: int)
    requires
        0 <= p < d.len(),
        spec_is_delimiter_tag(d[p]),
    ensures
        record_at(d, p) == Rec::Delim(d[p]),
{
    reveal(record_at);
}

/// An attribute sent with a single value decodes to that value itself, not to
/// a one-element list.
pub proof fn single_value_stays_scalar(
    h: Seq<u8>,
    gb: u8,
    t: u8,
    name: Seq<u8>,
    payload: Seq<u8>,
    v: Val,
)
    requires
        h.len() == HEADER_LEN,
        DelimiterTag::spec_from_byte(gb) is Some,
        gb != END_OF_ATTRIBUTES_TAG,
        spec_is_value_tag(t),
        t != BEG_COLLECTION_TAG,
        t != END_COLLECTION_TAG,
        0 < name.len() <= 0xffff,
        payload.len() <= 0xffff,
        valid_utf8(name),
        spec_decode(t, payload) == Some(v),
    ensures
        ({
            let d = h + seq![gb] + record_bytes(t, name, payload) + seq![END_OF_ATTRIBUTES_TAG];
            let g = DelimiterTag::spec_from_byte(gb)->Some_0;
            spec_parse(d) == Ok::<(IppHeader, Seq<GroupModel>, int), (ParseError, int)>(
                (spec_header(h), seq![(g, seq![(decode_utf8(name), v)])], d.len() as int),
            )
        }),
{
    let d = h + seq![gb] + record_bytes(t, name, payload) + seq![END_OF_ATTRIBUTES_TAG];
    let g = DelimiterTag::spec_from_byte(gb)->Some_0;
    let pre = h + seq![gb];
    assert(d =~= pre + record_bytes(t, name, payload) + seq![END_OF_ATTRIBUTES_TAG]);
    record_reads_back(pre, t, name, payload, seq![END_OF_ATTRIBUTES_TAG], v);
    assert(d[8] == gb);
    lemma_delim_at(d, 8);
    let e = (9 + 5 + name.len() + payload.len()) as int;
    assert(d[e] == END_OF_ATTRIBUTES_TAG);
    lemma_delim_at(d, e);
    let st1 = DecodeState { group: g, ..initial_state() };
    let st2 = on_value(st1, t, true, decode_utf8(name), v);
    assert(st2.stack =~~= seq![seq![v]]);
    assert(run(d, 8, initial_state()) == run(d, 9, st1));
    assert(run(d, 9, st1) == run(d, e, st2));
    assert(run(d, e, st2) == Ok::<(Seq<GroupModel>, int), (ParseError, int)>((flush(st2).list, e + 1)));
    assert(collapse(seq![v]) == v);
    assert(!crate::attribute::has_group(Seq::<GroupModel>::empty(), g));
    assert(flush(st2).list =~= seq![(g, seq![(decode_utf8(name), v)])]);
    assert(spec_header(d) == spec_header(h));
}

/// A collection opened under a name, holding two members (each a member name
/// followed by its value, all under empty names) and then closed, decodes to one
/// collection value under that name, its four parts in wire order.
#[verifier::spinoff_prover]
#[verifier::rlimit(100)]
pub proof fn collection_nests(
    h: Seq<u8>,
    gb: u8,
    name: Seq<u8>,
    open_payload: Seq<u8>,
    tags: Seq<u8>,
    payloads: Seq<Seq<u8>>,
    vals: Seq<Val>,
    close_payload: Seq<u8>,
)
    requires
        h.len() == HEADER_LEN,
        DelimiterTag::spec_from_byte(gb) is Some,
        gb != END_OF_ATTRIBUTES_TAG,
        0 < name.len() <= 0xffff,
        valid_utf8(name),
        open_payload.len() <= 0xffff,
        close_payload.len() <= 0xffff,
        tags.len() == 4,
        payloads.len() == 4,
        vals.len() == 4,
        forall|i: int|
            0 <= i < 4 ==> spec_is_value_tag(#[trigger] tags[i]) && tags[i] != BEG_COLLECTION_TAG && tags[i]
                != END_COLLECTION_TAG && payloads[i].len() <= 0xffff && spec_decode(tags[i], payloads[i])
                == Some(vals[i]),
    ensures
        ({
            let d = h + seq![gb] + record_bytes(BEG_COLLECTION_TAG, name, open_payload) + record_bytes(
                tags[0],
                Seq::empty(),
                payloads[0],
            ) + record_bytes(tags[1], Seq::empty(), payloads[1]) + record_bytes(tags[2], Seq::empty(), payloads[2])
                + record_bytes(tags[3], Seq::empty(), payloads[3]) + record_bytes(
                END_COLLECTION_TAG,
                Seq::empty(),
                close_payload,
            ) + seq![END_OF_ATTRIBUTES_TAG];
            let g = DelimiterTag::spec_from_byte(gb)->Some_0;
            spec_parse(d) == Ok::<(IppHeader, Seq<GroupModel>, int), (ParseError, int)>(
                (spec_header(h), seq![(g, seq![(decode_utf8(name), Val::Collection(vals))])], d.len() as int),
            )
        }),
{
    let e0 = Seq::<u8>::empty();
    assert(valid_utf8(e0)) by {
        encode_utf8_valid_utf8(Seq::<char>::empty());
        assert(encode_utf8(Seq::<char>::empty()) =~= e0);
    }
    let r0 = record_bytes(BEG_COLLECTION_TAG, name, open_payload);
    let r1 = record_bytes(tags[0], e0, payloads[0]);
    let r2 = record_bytes(tags[1], e0, payloads[1]);
    let r3 = record_bytes(tags[2], e0, payloads[2]);
    let r4 = record_bytes(tags[3], e0, payloads[3]);
    let r5 = record_bytes(END_COLLECTION_TAG, e0, close_payload);
    let fin = seq![END_OF_ATTRIBUTES_TAG];
    let d = h + seq![gb] + r0 + r1 + r2 + r3 + r4 + r5 + fin;
    let g = DelimiterTag::spec_from_byte(gb)->Some_0;
    let at0 = h + seq![gb];
    let at1 = at0 + r0;
    let at2 = at1 + r1;
    let at3 = at2 + r2;
    let at4 = at3 + r3;
    let at5 = at4 + r4;
    let at6 = at5 + r5;
    assert(d =~= at0 + r0 + (r1 + r2 + r3 + r4 + r5 + fin));
    assert(d =~= at1 + r1 + (r2 + r3 + r4 + r5 + fin));
    assert(d =~= at2 + r2 + (r3 + r4 + r5 + fin));
    assert(d =~= at3 + r3 + (r4 + r5 + fin));
    assert(d =~= at4 + r4 + (r5 + fin));
    assert(d =~= at5 + r5 + fin);
    assert(tags[0] == tags[0] && tags[1] == tags[1] && tags[2] == tags[2] && tags[3] == tags[3]);
    record_reads_back(at0, BEG_COLLECTION_TAG, name, open_payload, r1 + r2 + r3 + r4 + r5 + fin, Val::Other(BEG_COLLECTION_TAG, open_payload));
    record_reads_back(at1, tags[0], e0, payloads[0], r2 + r3 + r4 + r5 + fin, vals[0]);
    record_reads_back(at2, tags[1], e0, payloads[1], r3 + r4 + r5 + fin, vals[1]);
    record_reads_back(at3, tags[2], e0, payloads[2], r4 + r5 + fin, vals[2]);
    record_reads_back(at4, tags[3], e0, payloads[3], r5 + fin, vals[3]);
    record_reads_back(at5, END_COLLECTION_TAG, e0, close_payload, fin, Val::Other(END_COLLECTION_TAG, close_payload));
    assert(d[8] == gb);
    lemma_delim_at(d, 8);
    let q = at6.len() as int;
    assert(d[q] == END_OF_ATTRIBUTES_TAG);
    lemma_delim_at(d, q);
    let n = decode_utf8(name);
    let st1 = DecodeState { group: g, ..initial_state() };
    let st2 = on_value(st1, BEG_COLLECTION_TAG, true, n, Val::Other(BEG_COLLECTION_TAG, open_payload));
    assert(st2.stack =~~= seq![Seq::<Val>::empty(), Seq::<Val>::empty()]);
    let st3 = on_value(st2, tags[0], false, decode_utf8(e0), vals[0]);
    assert(st3.stack =~~= seq![Seq::<Val>::empty(), seq![vals[0]]]);
    let st4 = on_value(st3, tags[1], false, decode_utf8(e0), vals[1]);
    assert(st4.stack =~~= seq![Seq::<Val>::empty(), seq![vals[0], vals[1]]]);
    let st5 = on_value(st4, tags[2], false, decode_utf8(e0), vals[2]);
    assert(st5.stack =~~= seq![Seq::<Val>::empty(), seq![vals[0], vals[1], vals[2]]]);
    let st6 = on_value(st5, tags[3], false, decode_utf8(e0), vals[3]);
    assert(st6.stack =~~= seq![Seq::<Val>::empty(), vals]);
    let st7 = on_value(st6, END_COLLECTION_TAG, false, decode_utf8(e0), Val::Other(END_COLLECTION_TAG, close_payload));
    assert(st7.stack =~~= seq![seq![Val::Collection(vals)]]);
    assert(st7.pending == Some(n));
    assert(st7.group == g);
    assert(st7.list == Seq::<GroupModel>::empty());
    assert(run(d, 8, initial_state()) == run(d, 9, st1));
    assert(run(d, 9, st1) == run(d, at1.len() as int, st2));
    assert(run(d, at1.len() as int, st2) == run(d, at2.len() as int, st3));
    assert(run(d, at2.len() as int, st3) == run(d, at3.len() as int, st4));
    assert(run(d, at3.len() as int, st4) == run(d, at4.len() as int, st5));
    assert(run(d, at4.len() as int, st5) == run(d, at5.len() as int, st6));
    assert(run(d, at5.len() as int, st6) == run(d, q, st7));
    assert(run(d, q, st7) == Ok::<(Seq<GroupModel>, int), (ParseError, int)>((flush(st7).list, q + 1)));
    assert(collapse(seq![Val::Collection(vals)]) == Val::Collection(vals));
    assert(!crate::attribute::has_group(Seq::<GroupModel>::empty(), g));
    assert(flush(st7).list =~= seq![(g, seq![(n, Val::Collection(vals))])]);
    assert(spec_header(d) == spec_header(h));
}

/// The bytes of a list of one attribute in one of the three written groups.
proof fn single_list_bytes(g: DelimiterTag, n: Seq<char>, v: Val)
    requires
        g == DelimiterTag::OperationAttributes || g == DelimiterTag::JobAttributes || g
            == DelimiterTag::PrinterAttributes,
    ensures
        list_bytes(seq![(g, seq![(n, v)])]) == seq![OPERATION_ATTRIBUTES_TAG] + (if g
            == DelimiterTag::OperationAttributes {
            Seq::<u8>::empty()
        } else {
            seq![g.byte()]
        }) + attr_bytes((n, v)) + seq![END_OF_ATTRIBUTES_TAG],
{
    let l = seq![(g, seq![(n, v)])];
    let s = seq![(n, v)];
    reveal_strlit("attributes-charset");
    reveal_strlit("attributes-natural-language");
    reveal_strlit("printer-uri");
    assert(l[0].0 == g);
    assert(has_group(l, g));
    assert(group_pos(l, g) == 0);
    assert(s.drop_last() =~= Seq::<(Seq<char>, Val)>::empty());
    let op = DelimiterTag::OperationAttributes;
    assert forall|g2: DelimiterTag| g2 != g implies !#[trigger] has_group(l, g2) by {}
    assert(s[0].0 == n);
    assert forall|m: Seq<char>| m != n implies !#[trigger] has_name(s, m) by {}
    assert forall|m: Seq<char>| m == n implies #[trigger] has_name(s, m) && is_first_name(s, m) by {}
    assert(s.last() == (n, v));
    assert(attrs_bytes(s.drop_last(), true) =~= Seq::<u8>::empty());
    assert(attrs_bytes(s.drop_last(), false) =~= Seq::<u8>::empty());
    if g == op {
        if crate::attribute::is_header_name(n) {
            assert(attrs_bytes(s, true) =~= Seq::<u8>::empty());
        } else {
            assert(attrs_bytes(s, true) =~= attr_bytes((n, v)));
        }
    } else {
        assert(attrs_bytes(s, false) =~= attr_bytes((n, v)));
    }
    assert(list_bytes(l) =~= seq![OPERATION_ATTRIBUTES_TAG] + (if g == op {
        Seq::<u8>::empty()
    } else {
        seq![g.byte()]
    }) + attr_bytes((n, v)) + seq![END_OF_ATTRIBUTES_TAG]);
}

spec fn is_first_name(s: Seq<(Seq<char>, Val)>, m: Seq<char>) -> bool {
    crate::attribute::name_pos(s, m) == 0
}

/// A document of one attribute with a single value, in the operation, job or
/// printer group, decodes back to the same list, behind the header it follows.
#[verifier::spinoff_prover]
#[verifier::rlimit(100)]
pub proof fn single_attribute_round_trip(h: Seq<u8>, g: DelimiterTag, n: Seq<char>, v: Val)
    requires
        h.len() == HEADER_LEN,
        g == DelimiterTag::OperationAttributes || g == DelimiterTag::JobAttributes || g
            == DelimiterTag::PrinterAttributes,
        n.len() > 0,
        encode_utf8(n).len() <= 0xffff,
        scalar_normal(v),
    ensures
        ({
            let l = seq![(g, seq![(n, v)])];
            let d = h + list_bytes(l);
            spec_parse(d) == Ok::<(IppHeader, Seq<GroupModel>, int), (ParseError, int)>(
                (spec_header(h), l, d.len() as int),
            )
        }),
{
    let l = seq![(g, seq![(n, v)])];
    let op = DelimiterTag::OperationAttributes;
    single_list_bytes(g, n, v);
    scalar_decodes_back(v);
    encode_utf8_valid_utf8(n);
    encode_utf8_decode_utf8(n);
    let nb = encode_utf8(n);
    let pl = scalar_payload(v);
    let r = record_bytes(tag_of(v), nb, pl);
    assert(attr_bytes((n, v)) =~= r);
    let opening = if g == op { Seq::<u8>::empty() } else { seq![g.byte()] };
    let pre = h + seq![OPERATION_ATTRIBUTES_TAG] + opening;
    let fin = seq![END_OF_ATTRIBUTES_TAG];
    let d = h + list_bytes(l);
    assert(d =~= pre + r + fin);
    assert(nb.len() > 0) by {
        assert(encode_utf8(n).len() > 0) by {
            assert(decode_utf8(nb) == n);
            if nb.len() == 0 {
                assert(nb =~= Seq::<u8>::empty());
            }
        }
    }
    record_reads_back(pre, tag_of(v), nb, pl, fin, v);
    assert(d[8] == OPERATION_ATTRIBUTES_TAG);
    lemma_delim_at(d, 8);
    let p = pre.len() as int;
    let e = p + r.len();
    assert(d[e] == END_OF_ATTRIBUTES_TAG);
    lemma_delim_at(d, e);
    let st0 = DecodeState { group: op, ..initial_state() };
    let st1 = DecodeState { group: g, ..initial_state() };
    assert(run(d, 8, initial_state()) == run(d, 9, st0));
    if g != op {
        assert(d[9] == g.byte());
        lemma_delim_at(d, 9);
        assert(DelimiterTag::spec_from_byte(g.byte()) == Some(g));
        assert(run(d, 9, st0) == run(d, 10, st1));
    }
    assert(run(d, 9, st0) == run(d, p, st1));
    let st2 = on_value(st1, tag_of(v), true, n, v);
    assert(st2.stack =~~= seq![seq![v]]);
    assert(run(d, p, st1) == run(d, e, st2));
    assert(run(d, e, st2) == Ok::<(Seq<GroupModel>, int), (ParseError, int)>((flush(st2).list, e + 1)));
    assert(collapse(seq![v]) == v);
    assert(!has_group(Seq::<GroupModel>::empty(), g));
    assert(flush(st2).list =~= l);
    assert(spec_header(d) == spec_header(h));
}

/// An attribute is filed under the group that is current when it is flushed,
/// and it is flushed only when the next named attribute or the end marker
/// comes. So the last attribute of one group, followed by a delimiter and an
/// attribute of another group, is recorded under that other group, ahead of
/// its attribute.
#[verifier::spinoff_prover]
#[verifier::rlimit(100)]
pub proof fn group_boundary_moves_last_attribute(
    h: Seq<u8>,
    gb1: u8,
    t1: u8,
    name1: Seq<u8>,
    payload1: Seq<u8>,
    v1: Val,
    gb2: u8,
    t2: u8,
    name2: Seq<u8>,
    payload2: Seq<u8>,
    v2: Val,
)
    requires
        h.len() == HEADER_LEN,
        DelimiterTag::spec_from_byte(gb1) is Some,
        DelimiterTag::spec_from_byte(gb2) is Some,
        gb1 != END_OF_ATTRIBUTES_TAG,
        gb2 != END_OF_ATTRIBUTES_TAG,
        spec_is_value_tag(t1),
        t1 != BEG_COLLECTION_TAG,
        t1 != END_COLLECTION_TAG,
        spec_is_value_tag(t2),
        t2 != BEG_COLLECTION_TAG,
        t2 != END_COLLECTION_TAG,
        0 < name1.len() <= 0xffff,
        0 < name2.len() <= 0xffff,
        valid_utf8(name1),
        valid_utf8(name2),
        decode_utf8(name1) != decode_utf8(name2),
        payload1.len() <= 0xffff,
        payload2.len() <= 0xffff,
        spec_decode(t1, payload1) == Some(v1),
        spec_decode(t2, payload2) == Some(v2),
    ensures
        ({
            let d = h + seq![gb1] + record_bytes(t1, name1, payload1) + seq![gb2] + record_bytes(t2, name2, payload2)
                + seq![END_OF_ATTRIBUTES_TAG];
            let g2 = DelimiterTag::spec_from_byte(gb2)->Some_0;
            spec_parse(d) == Ok::<(IppHeader, Seq<GroupModel>, int), (ParseError, int)>(
                (
                    spec_header(h),
                    seq![(g2, seq![(decode_utf8(name1), v1), (decode_utf8(name2), v2)])],
                    d.len() as int,
                ),
            )
        }),
{
    let r1 = record_bytes(t1, name1, payload1);
    let r2 = record_bytes(t2, name2, payload2);
    let fin = seq![END_OF_ATTRIBUTES_TAG];
    let d = h + seq![gb1] + r1 + seq![gb2] + r2 + fin;
    let g1 = DelimiterTag::spec_from_byte(gb1)->Some_0;
    let g2 = DelimiterTag::spec_from_byte(gb2)->Some_0;
    let n1 = decode_utf8(name1);
    let n2 = decode_utf8(name2);
    let at0 = h + seq![gb1];
    let at1 = at0 + r1;
    let at2 = at1 + seq![gb2];
    let at3 = at2 + r2;
    assert(d =~= at0 + r1 + (seq![gb2] + r2 + fin));
    assert(d =~= at2 + r2 + fin);
    record_reads_back(at0, t1, name1, payload1, seq![gb2] + r2 + fin, v1);
    record_reads_back(at2, t2, name2, payload2, fin, v2);
    assert(d[8] == gb1);
    lemma_delim_at(d, 8);
    let q1 = at1.len() as int;
    assert(d[q1] == gb2);
    lemma_delim_at(d, q1);
    let q3 = at3.len() as int;
    assert(d[q3] == END_OF_ATTRIBUTES_TAG);
    lemma_delim_at(d, q3);
    let st1 = DecodeState { group: g1, ..initial_state() };
    let st2 = on_value(st1, t1, true, n1, v1);
    assert(st2.stack =~~= seq![seq![v1]]);
    assert(st2.pending == Some(n1));
    let st3 = DecodeState { group: g2, ..st2 };
    let st4 = on_value(st3, t2, true, n2, v2);
    let l1 = seq![(g2, seq![(n1, v1)])];
    assert(!has_group(Seq::<GroupModel>::empty(), g2));
    assert(collapse(seq![v1]) == v1);
    assert(flush(st3).list =~= l1);
    assert(flush(st3).stack =~~= Seq::<Seq<Val>>::empty());
    assert(st4.stack =~~= seq![seq![v2]]);
    assert(st4.list == l1);
    assert(st4.group == g2);
    assert(st4.pending == Some(n2));
    assert(run(d, 8, initial_state()) == run(d, 9, st1));
    assert(run(d, 9, st1) == run(d, q1, st2));
    assert(run(d, q1, st2) == run(d, q1 + 1, st3));
    assert(q1 + 1 == at2.len());
    assert(run(d, q1 + 1, st3) == run(d, q3, st4));
    assert(run(d, q3, st4) == Ok::<(Seq<GroupModel>, int), (ParseError, int)>((flush(st4).list, q3 + 1)));
    assert(collapse(seq![v2]) == v2);
    assert(l1[0].0 == g2);
    assert(has_group(l1, g2));
    assert(group_pos(l1, g2) == 0);
    let s1 = seq![(n1, v1)];
    assert(!has_name(s1, n2)) by {
        assert forall|k: int| 0 <= k < s1.len() implies #[trigger] s1[k].0 != n2 by {}
    }
    assert(flush(st4).list =~~= seq![(g2, seq![(n1, v1), (n2, v2)])]);
    assert(spec_header(d) == spec_header(h));
}

/// The attributes of one group as the decoder gives them back: single values,
/// names that are not empty, unique, and fit their length field.
pub open spec fn group_normal(s: Seq<(Seq<char>, Val)>) -> bool {
    &&& s.len() > 0
    &&& crate::attribute::names_unique(s)
    &&& forall|i: int|
        0 <= i < s.len() ==> scalar_normal(#[trigger] s[i].1) && s[i].0.len() > 0 && encode_utf8(s[i].0).len()
            <= 0xffff
}

proof fn lemma_attrs_bytes_step(s: Seq<(Seq<char>, Val)>, k: int)
    requires
        0 <= k < s.len(),
    ensures
        attrs_bytes(s.subrange(0, k + 1), false) == attrs_bytes(s.subrange(0, k), false) + attr_bytes(s[k]),
{
    assert(s.subrange(0, k + 1).drop_last() =~= s.subrange(0, k));
}

proof fn lemma_attrs_bytes_prefix(s: Seq<(Seq<char>, Val)>, j: int, k: int)
    requires
        0 <= j <= k <= s.len(),
    ensures
        attrs_bytes(s.subrange(0, k), false).subrange(0, attrs_bytes(s.subrange(0, j), false).len() as int)
            == attrs_bytes(s.subrange(0, j), false),
        attrs_bytes(s.subrange(0, j), false).len() <= attrs_bytes(s.subrange(0, k), false).len(),
    decreases k - j,
{
    if j < k {
        lemma_attrs_bytes_prefix(s, j, k - 1);
        lemma_attrs_bytes_step(s, k - 1);
        let a = attrs_bytes(s.subrange(0, j), false);
        let b = attrs_bytes(s.subrange(0, k - 1), false);
        let c = attrs_bytes(s.subrange(0, k), false);
        assert(c.subrange(0, a.len() as int) =~= b.subrange(0, a.len() as int));
    } else {
        assert(attrs_bytes(s.subrange(0, k), false).subrange(0, attrs_bytes(s.subrange(0, j), false).len() as int)
            =~= attrs_bytes(s.subrange(0, j), false));
    }
}

proof fn lemma_attrs_bytes_no_header(s: Seq<(Seq<char>, Val)>)
    requires
        forall|i: int| 0 <= i < s.len() ==> !crate::attribute::is_header_name(#[trigger] s[i].0),
    ensures
        attrs_bytes(s, true) == attrs_bytes(s, false),
    decreases s.len(),
{
    if s.len() > 0 {
        let t = s.drop_last();
        assert forall|i: int| 0 <= i < t.len() implies !crate::attribute::is_header_name(#[trigger] t[i].0) by {
            assert(t[i] == s[i]);
        }
        lemma_attrs_bytes_no_header(t);
        assert(!crate::attribute::is_header_name(s[s.len() - 1].0));
    }
}

/// The decoder's state once the first `k` attributes of a group have been read.
pub open spec fn group_state(g: DelimiterTag, s: Seq<(Seq<char>, Val)>, k: int) -> DecodeState {
    DecodeState {
        group: g,
        stack: seq![seq![s[k - 1].1]],
        pending: Some(s[k - 1].0),
        list: if k == 1 { Seq::empty() } else { seq![(g, s.subrange(0, k - 1))] },
    }
}

#[verifier::spinoff_prover]
#[verifier::rlimit(100)]
proof fn lemma_run_group(d: Seq<u8>, base: int, g: DelimiterTag, s: Seq<(Seq<char>, Val)>, k: int)
    requires
        group_normal(s),
        1 <= k <= s.len(),
        0 <= base,
        d.len() == base + attrs_bytes(s, false).len() + 1,
        d.subrange(base, base + attrs_bytes(s, false).len()) == attrs_bytes(s, false),
        d[d.len() - 1] == END_OF_ATTRIBUTES_TAG,
    ensures
        run(d, base + attrs_bytes(s.subrange(0, k), false).len(), group_state(g, s, k)) == Ok::<
            (Seq<GroupModel>, int),
            (ParseError, int),
        >((seq![(g, s)], d.len() as int)),
    decreases s.len() - k,
{
    let pos = base + attrs_bytes(s.subrange(0, k), false).len();
    let st = group_state(g, s, k);
    let prev = st.list;
    let a = s[k - 1];
    assert(s.subrange(0, k - 1).push(a) =~= s.subrange(0, k));
    assert(list_add(prev, g, a) == seq![(g, s.subrange(0, k))]) by {
        if k == 1 {
            assert(!has_group(prev, g));
            assert(seq![a] =~= s.subrange(0, 1));
        } else {
            assert(prev[0].0 == g);
            assert(has_group(prev, g));
            assert(group_pos(prev, g) == 0);
            let s0 = s.subrange(0, k - 1);
            assert(!has_name(s0, a.0)) by {
                assert forall|i: int| 0 <= i < s0.len() implies #[trigger] s0[i].0 != a.0 by {
                    assert(s0[i] == s[i]);
                    assert(crate::attribute::names_unique(s));
                    assert(s[i].0 != s[k - 1].0);
                }
            }
            assert(prev.update(0, (g, s0.push(a))) =~= seq![(g, s.subrange(0, k))]);
        }
    }
    assert(collapse(seq![a.1]) == a.1);
    assert(s.subrange(0, s.len() as int) =~= s);
    if k == s.len() {
        assert(pos == d.len() - 1);
        lemma_delim_at(d, pos);
        assert(flush(st).list == list_add(prev, g, a));
    } else {
        let b = s[k];
        scalar_decodes_back(b.1);
        encode_utf8_valid_utf8(b.0);
        encode_utf8_decode_utf8(b.0);
        let nb = encode_utf8(b.0);
        let pl = scalar_payload(b.1);
        let r = record_bytes(tag_of(b.1), nb, pl);
        assert(attr_bytes(b) =~= r);
        assert(nb.len() > 0) by {
            if nb.len() == 0 {
                assert(nb =~= Seq::<u8>::empty());
                assert(decode_utf8(Seq::<u8>::empty()) =~= Seq::<char>::empty());
            }
        }
        lemma_attrs_bytes_step(s, k);
        lemma_attrs_bytes_prefix(s, k + 1, s.len() as int);
        let all = attrs_bytes(s, false);
        let upto = attrs_bytes(s.subrange(0, k + 1), false);
        let next = pos + r.len();
        assert(d.subrange(pos, next) =~= r) by {
            assert(d.subrange(base, base + all.len()).subrange(0, upto.len() as int) == upto);
            assert forall|i: int| pos <= i < next implies d[i] == r[i - pos] by {
                assert(d[i] == d.subrange(base, base + all.len())[i - base]);
                assert(upto[i - base] == r[i - pos]);
            }
        }
        let pre = d.subrange(0, pos);
        let post = d.subrange(next, d.len() as int);
        assert(d =~= pre + r + post);
        record_reads_back(pre, tag_of(b.1), nb, pl, post, b.1);
        let st2 = on_value(st, tag_of(b.1), true, b.0, b.1);
        assert(st2.stack =~~= seq![seq![b.1]]);
        assert(st2 == group_state(g, s, k + 1));
        assert(next == base + upto.len());
        lemma_run_group(d, base, g, s, k + 1);
    }
}

/// A document whose attributes all stand in one group (the operation, job or
/// printer group; none of the three header attributes where it is the
/// operation group), each with a single value, decodes back to the same list:
/// the same attributes, in the same order, under the same group.
#[verifier::spinoff_prover]
#[verifier::rlimit(100)]
pub proof fn single_group_round_trip(h: Seq<u8>, g: DelimiterTag, s: Seq<(Seq<char>, Val)>)
    requires
        h.len() == HEADER_LEN,
        g == DelimiterTag::OperationAttributes || g == DelimiterTag::JobAttributes || g
            == DelimiterTag::PrinterAttributes,
        group_normal(s),
        g == DelimiterTag::OperationAttributes ==> forall|i: int|
            0 <= i < s.len() ==> !crate::attribute::is_header_name(#[trigger] s[i].0),
    ensures
        ({
            let l = seq![(g, s)];
            let d = h + list_bytes(l);
            spec_parse(d) == Ok::<(IppHeader, Seq<GroupModel>, int), (ParseError, int)>(
                (spec_header(h), l, d.len() as int),
            )
        }),
{
    let l = seq![(g, s)];
    let op = DelimiterTag::OperationAttributes;
    assert(l[0].0 == g);
    assert(has_group(l, g));
    assert(group_pos(l, g) == 0);
    assert forall|g2: DelimiterTag| g2 != g implies !#[trigger] has_group(l, g2) by {}
    let body = attrs_bytes(s, false);
    let opening = if g == op { Seq::<u8>::empty() } else { seq![g.byte()] };
    if g == op {
        lemma_attrs_bytes_no_header(s);
        assert(!has_name(s, crate::attribute::ATTRIBUTES_CHARSET@));
        assert(!has_name(s, crate::attribute::ATTRIBUTES_NATURAL_LANGUAGE@));
        assert(!has_name(s, crate::attribute::PRINTER_URI@));
    }
    assert(list_bytes(l) =~= seq![OPERATION_ATTRIBUTES_TAG] + opening + body + seq![END_OF_ATTRIBUTES_TAG]);
    let d = h + list_bytes(l);
    let base = (9 + opening.len()) as int;
    assert(d.subrange(base, base + body.len()) =~= body);
    assert(d[8] == OPERATION_ATTRIBUTES_TAG);
    lemma_delim_at(d, 8);
    let st0 = DecodeState { group: op, ..initial_state() };
    let st1 = DecodeState { group: g, ..initial_state() };
    assert(run(d, 8, initial_state()) == run(d, 9, st0));
    if g != op {
        assert(d[9] == g.byte());
        lemma_delim_at(d, 9);
        assert(DelimiterTag::spec_from_byte(g.byte()) == Some(g));
        assert(run(d, 9, st0) == run(d, 10, st1));
    }
    assert(run(d, 9, st0) == run(d, base, st1));
    // the first attribute
    let b = s[0];
    scalar_decodes_back(b.1);
    encode_utf8_valid_utf8(b.0);
    encode_utf8_decode_utf8(b.0);
    let nb = encode_utf8(b.0);
    let pl = scalar_payload(b.1);
    let r = record_bytes(tag_of(b.1), nb, pl);
    assert(attr_bytes(b) =~= r);
    assert(nb.len() > 0) by {
        if nb.len() == 0 {
            assert(nb =~= Seq::<u8>::empty());
            assert(decode_utf8(Seq::<u8>::empty()) =~= Seq::<char>::empty());
        }
    }
    lemma_attrs_bytes_step(s, 0);
    assert(s.subrange(0, 0) =~= Seq::<(Seq<char>, Val)>::empty());
    assert(s.subrange(0, s.len() as int) =~= s);
    lemma_attrs_bytes_prefix(s, 1, s.len() as int);
    let upto = attrs_bytes(s.subrange(0, 1), false);
    assert(upto == r);
    let next = base + r.len();
    assert(d.subrange(base, next) =~= r) by {
        assert forall|i: int| base <= i < next implies d[i] == r[i - base] by {
            assert(d[i] == body[i - base]);
            assert(body.subrange(0, upto.len() as int)[i - base] == upto[i - base]);
        }
    }
    let pre = d.subrange(0, base);
    let post = d.subrange(next, d.len() as int);
    assert(d =~= pre + r + post);
    record_reads_back(pre, tag_of(b.1), nb, pl, post, b.1);
    let st2 = on_value(st1, tag_of(b.1), true, b.0, b.1);
    assert(st2.stack =~~= seq![seq![b.1]]);
    assert(st2 == group_state(g, s, 1));
    assert(run(d, base, st1) == run(d, next, st2));
    lemma_run_group(d, base, g, s, 1);
    assert(spec_header(d) == spec_header(h));
}

/// The records of values `1 .. n` of an attribute, each under an empty name.
pub open spec fn continuation_bytes(tags: Seq<u8>, payloads: Seq<Seq<u8>>, n: int) -> Seq<u8>
    decreases n,
{
    if n <= 1 {
        Seq::empty()
    } else {
        continuation_bytes(tags, payloads, n - 1) + record_bytes(tags[n - 1], Seq::empty(), payloads[n - 1])
    }
}

proof fn lemma_continuation_prefix(tags: Seq<u8>, payloads: Seq<Seq<u8>>, j: int, k: int)
    requires
        1 <= j <= k,
    ensures
        continuation_bytes(tags, payloads, k).subrange(0, continuation_bytes(tags, payloads, j).len() as int)
            == continuation_bytes(tags, payloads, j),
        continuation_bytes(tags, payloads, j).len() <= continuation_bytes(tags, payloads, k).len(),
    decreases k - j,
{
    if j < k {
        lemma_continuation_prefix(tags, payloads, j, k - 1);
        let a = continuation_bytes(tags, payloads, j);
        let b = continuation_bytes(tags, payloads, k - 1);
        let c = continuation_bytes(tags, payloads, k);
        assert(c.subrange(0, a.len() as int) =~= b.subrange(0, a.len() as int));
    } else {
        assert(continuation_bytes(tags, payloads, k).subrange(0, continuation_bytes(tags, payloads, j).len() as int)
            =~= continuation_bytes(tags, payloads, j));
    }
}

/// Values of one attribute with plain tags whose payloads decode.
pub open spec fn plain_values(tags: Seq<u8>, payloads: Seq<Seq<u8>>, vals: Seq<Val>) -> bool {
    &&& tags.len() == vals.len()
    &&& payloads.len() == vals.len()
    &&& forall|i: int|
        0 <= i < vals.len() ==> spec_is_value_tag(#[trigger] tags[i]) && tags[i] != BEG_COLLECTION_TAG && tags[i]
            != END_COLLECTION_TAG && payloads[i].len() <= 0xffff && spec_decode(tags[i], payloads[i]) == Some(
            vals[i],
        )
}

#[verifier::spinoff_prover]
#[verifier::rlimit(100)]
proof fn lemma_run_values(
    d: Seq<u8>,
    base: int,
    g: DelimiterTag,
    n: Seq<char>,
    tags: Seq<u8>,
    payloads: Seq<Seq<u8>>,
    vals: Seq<Val>,
    k: int,
)
    requires
        plain_values(tags, payloads, vals),
        2 <= vals.len(),
        1 <= k <= vals.len(),
        0 <= base,
        d.len() == base + continuation_bytes(tags, payloads, vals.len() as int).len() + 1,
        d.subrange(base, base + continuation_bytes(tags, payloads, vals.len() as int).len())
            == continuation_bytes(tags, payloads, vals.len() as int),
        d[d.len() - 1] == END_OF_ATTRIBUTES_TAG,
    ensures
        run(
            d,
            base + continuation_bytes(tags, payloads, k).len(),
            DecodeState {
                group: g,
                stack: seq![vals.subrange(0, k)],
                pending: Some(n),
                list: Seq::empty(),
            },
        ) == Ok::<(Seq<GroupModel>, int), (ParseError, int)>((seq![(g, seq![(n, Val::ListOf(vals))])], d.len() as int)),
    decreases vals.len() - k,
{
    let all = continuation_bytes(tags, payloads, vals.len() as int);
    let pos = base + continuation_bytes(tags, payloads, k).len();
    let st = DecodeState { group: g, stack: seq![vals.subrange(0, k)], pending: Some(n), list: Seq::<GroupModel>::empty() };
    lemma_continuation_prefix(tags, payloads, k, vals.len() as int);
    if k == vals.len() {
        assert(pos == d.len() - 1);
        lemma_delim_at(d, pos);
        assert(vals.subrange(0, k) =~= vals);
        assert(collapse(vals) == Val::ListOf(vals));
        assert(!has_group(Seq::<GroupModel>::empty(), g));
        assert(flush(st).list =~= seq![(g, seq![(n, Val::ListOf(vals))])]);
    } else {
        let e0 = Seq::<u8>::empty();
        assert(valid_utf8(e0)) by {
            encode_utf8_valid_utf8(Seq::<char>::empty());
            assert(encode_utf8(Seq::<char>::empty()) =~= e0);
        }
        let r = record_bytes(tags[k], e0, payloads[k]);
        lemma_continuation_prefix(tags, payloads, k + 1, vals.len() as int);
        let upto = continuation_bytes(tags, payloads, k + 1);
        assert(upto == continuation_bytes(tags, payloads, k) + r);
        let next = pos + r.len();
        assert(d.subrange(pos, next) =~= r) by {
            assert forall|i: int| pos <= i < next implies d[i] == r[i - pos] by {
                assert(d[i] == d.subrange(base, base + all.len())[i - base]);
                assert(all.subrange(0, upto.len() as int)[i - base] == upto[i - base]);
            }
        }
        let pre = d.subrange(0, pos);
        let post = d.subrange(next, d.len() as int);
        assert(d =~= pre + r + post);
        record_reads_back(pre, tags[k], e0, payloads[k], post, vals[k]);
        let st2 = on_value(st, tags[k], false, decode_utf8(e0), vals[k]);
        assert(vals.subrange(0, k).push(vals[k]) =~= vals.subrange(0, k + 1));
        assert(st2.stack =~~= seq![vals.subrange(0, k + 1)]);
        assert(next == base + upto.len());
        lemma_run_values(d, base, g, n, tags, payloads, vals, k + 1);
    }
}

/// An attribute sent with `N >= 2` values, the first under its name and the
/// rest under empty names, decodes to a list of the `N` values in wire order.
#[verifier::spinoff_prover]
#[verifier::rlimit(100)]
pub proof fn values_form_list(
    h: Seq<u8>,
    gb: u8,
    name: Seq<u8>,
    tags: Seq<u8>,
    payloads: Seq<Seq<u8>>,
    vals: Seq<Val>,
)
    requires
        h.len() == HEADER_LEN,
        DelimiterTag::spec_from_byte(gb) is Some,
        gb != END_OF_ATTRIBUTES_TAG,
        0 < name.len() <= 0xffff,
        valid_utf8(name),
        plain_values(tags, payloads, vals),
        2 <= vals.len(),
    ensures
        ({
            let d = h + seq![gb] + record_bytes(tags[0], name, payloads[0]) + continuation_bytes(
                tags,
                payloads,
                vals.len() as int,
            ) + seq![END_OF_ATTRIBUTES_TAG];
            let g = DelimiterTag::spec_from_byte(gb)->Some_0;
            spec_parse(d) == Ok::<(IppHeader, Seq<GroupModel>, int), (ParseError, int)>(
                (spec_header(h), seq![(g, seq![(decode_utf8(name), Val::ListOf(vals))])], d.len() as int),
            )
        }),
{
    let r0 = record_bytes(tags[0], name, payloads[0]);
    let cont = continuation_bytes(tags, payloads, vals.len() as int);
    let fin = seq![END_OF_ATTRIBUTES_TAG];
    let d = h + seq![gb] + r0 + cont + fin;
    let g = DelimiterTag::spec_from_byte(gb)->Some_0;
    let n = decode_utf8(name);
    let pre = h + seq![gb];
    assert(d =~= pre + r0 + (cont + fin));
    assert(tags[0] == tags[0]);
    record_reads_back(pre, tags[0], name, payloads[0], cont + fin, vals[0]);
    assert(d[8] == gb);
    lemma_delim_at(d, 8);
    let base = (9 + r0.len()) as int;
    assert(d.subrange(base, base + cont.len()) =~= cont);
    assert(d[d.len() - 1] == END_OF_ATTRIBUTES_TAG);
    let st1 = DecodeState { group: g, ..initial_state() };
    let st2 = on_value(st1, tags[0], true, n, vals[0]);
    assert(vals.subrange(0, 1) =~= seq![vals[0]]);
    assert(st2.stack =~~= seq![vals.subrange(0, 1)]);
    assert(continuation_bytes(tags, payloads, 1).len() == 0);
    assert(run(d, 8, initial_state()) == run(d, 9, st1));
    assert(run(d, 9, st1) == run(d, base, st2));
    lemma_run_values(d, base, g, n, tags, payloads, vals, 1);
    assert(spec_header(d) == spec_header(h));
}

} // verus!
