//! The wire framing codec: a stream carries frames of the form header
//! bytes, one NUL, then exactly the declared number of payload bytes. This
//! module extracts whole business objects from a byte buffer and drives the
//! streaming decode; the socket itself stays outside the library and hands
//! in plain bytes.

use vstd::prelude::*;
use vstd::utf8::{decode_utf8, valid_utf8};

use crate::codec::{parse_text, parse_text_exec};
use crate::json::{JsonValue, JsonView};
use crate::object::{
    promote, BusinessObject, ObjShape, Payload, ReadBusinessObjectError,
};
use crate::text::str_chars;

verus! {

broadcast use vstd::std_specs::vec::group_vec_axioms;

/// The index of the first NUL byte, or -1 when none is present.
pub open spec fn first_zero(b: Seq<u8>) -> int
    decreases b.len(),
{
    if b.len() == 0 {
        -1
    } else if b[0] == 0u8 {
        0
    } else {
        let r = first_zero(b.drop_first());
        if r < 0 {
            -1
        } else {
            r + 1
        }
    }
}

pub proof fn lemma_first_zero(b: Seq<u8>)
    ensures
        first_zero(b) >= 0 ==> {
            &&& first_zero(b) < b.len()
            &&& b[first_zero(b)] == 0u8
            &&& forall|j: int| 0 <= j < first_zero(b) ==> b[j] != 0u8
        },
        first_zero(b) < 0 ==> forall|j: int| 0 <= j < b.len() ==> b[j] != 0u8,
    decreases b.len(),
{
    if b.len() > 0 && b[0] != 0u8 {
        lemma_first_zero(b.drop_first());
        assert(forall|j: int| 1 <= j < b.len() ==> b[j] == b.drop_first()[j - 1]);
    }
}

/// What one attempt to take a frame off the front of a buffer yields, at
/// the level of shapes.
pub enum FrameStep {
    Complete(ObjShape, int),
    NeedMoreHeader,
    NeedMorePayload,
    Malformed,
}

/// Decoding one frame off the front of the buffer: find the first NUL; an
/// empty header is malformed; the header must be UTF-8 and parse as a
/// structured mapping; when a positive size is declared, exactly that many
/// payload bytes must follow the NUL; the consumed count is the header
/// length plus one plus the payload length.
pub open spec fn decode_frame(b: Seq<u8>) -> FrameStep {
    let z = first_zero(b);
    if z < 0 {
        FrameStep::NeedMoreHeader
    } else if z == 0 {
        FrameStep::Malformed
    } else {
        let header = b.take(z);
        if !valid_utf8(header) {
            FrameStep::Malformed
        } else {
            match parse_text(decode_utf8(header)) {
                Some(JsonView::Obj(mems)) => {
                    let o = promote(mems);
                    match o.size {
                        Some(n) => {
                            if b.len() - z - 1 < n {
                                FrameStep::NeedMorePayload
                            } else {
                                FrameStep::Complete(
                                    ObjShape {
                                        payload: Some(b.subrange(z + 1, z + 1 + n)),
                                        ..o
                                    },
                                    z + 1 + n,
                                )
                            }
                        },
                        None => FrameStep::Complete(o, z + 1),
                    }
                },
                Some(_) => FrameStep::Malformed,
                None => FrameStep::Malformed,
            }
        }
    }
}

/// A completed frame consumes at least the header and its NUL, and never
/// more than the buffer holds.
pub proof fn lemma_decode_frame_consumed(b: Seq<u8>)
    ensures
        decode_frame(b) is Complete ==> {
            &&& 0 < decode_frame(b)->Complete_1 <= b.len()
            &&& decode_frame(b)->Complete_1 == first_zero(b) + 1 + (match decode_frame(
                b,
            )->Complete_0.size {
                Some(n) => n as int,
                None => 0,
            })
        },
{
    lemma_first_zero(b);
}

/// What one attempt to take a frame off the front of a buffer yields.
pub enum DecodeOutcome {
    Complete(BusinessObject, usize),
    NeedMoreHeader,
    NeedMorePayload,
    FailMalformed(ReadBusinessObjectError),
}

/// Relies on String::from_utf8: `Ok` exactly on valid UTF-8, and the
/// string then holds the decoding of those bytes.
#[verifier::external_body]
fn bytes_to_string(v: Vec<u8>) -> (r: Option<String>)
    ensures
        r is Some <==> valid_utf8(v@),
        r is Some ==> r->0@ == decode_utf8(v@),
{
    String::from_utf8(v).ok()
}

/// The bytes of `b` between `from` and `upto`.
fn bytes_range(b: &Vec<u8>, from: usize, upto: usize) -> (r: Vec<u8>)
    requires
        from <= upto <= b@.len(),
    ensures
        r@ == b@.subrange(from as int, upto as int),
{
    let mut r: Vec<u8> = Vec::new();
    let mut i: usize = from;
    while i < upto
        invariant
            from <= i <= upto <= b@.len(),
            r@ == b@.subrange(from as int, i as int),
        decreases upto - i,
    {
        r.push(b[i]);
        proof {
            assert(r@ =~= b@.subrange(from as int, i + 1));
        }
        i += 1;
    }
    r
}

/// Attempts to take one frame off the front of the buffer.
pub fn try_decode(buffer: &Vec<u8>) -> (r: DecodeOutcome)
    ensures
        match r {
            DecodeOutcome::Complete(obj, n) => decode_frame(buffer@) == FrameStep::Complete(
                obj@,
                n as int,
            ),
            DecodeOutcome::NeedMoreHeader => decode_frame(buffer@) is NeedMoreHeader,
            DecodeOutcome::NeedMorePayload => decode_frame(buffer@) is NeedMorePayload,
            DecodeOutcome::FailMalformed(_) => decode_frame(buffer@) is Malformed,
        },
{
    let ghost b = buffer@;
    proof {
        lemma_first_zero(b);
    }
    let mut z: usize = 0;
    let mut found = false;
    while z < buffer.len() && !found
        invariant
            b == buffer@,
            z <= b.len(),
            found ==> z < b.len() && b[z as int] == 0u8 && forall|j: int| 0 <= j < z ==> b[j]
                != 0u8,
            !found ==> forall|j: int| 0 <= j < z ==> b[j] != 0u8,
        decreases b.len() - z + (if found {
            0int
        } else {
            1int
        }),
    {
        if buffer[z] == 0u8 {
            found = true;
        } else {
            z += 1;
        }
    }
    if !found {
        proof {
            assert(first_zero(b) < 0);
        }
        return DecodeOutcome::NeedMoreHeader;
    }
    proof {
        assert(first_zero(b) == z);
    }
    if z == 0 {
        return DecodeOutcome::FailMalformed(
            ReadBusinessObjectError::NoInputError("Empty header before the delimiter"),
        );
    }
    let header_bytes = bytes_range(buffer, 0, z);
    proof {
        assert(header_bytes@ =~= b.take(z as int));
    }
    let header_string = match bytes_to_string(header_bytes) {
        Some(s) => s,
        None => {
            return DecodeOutcome::FailMalformed(
                ReadBusinessObjectError::BufferCharacterDecodingError,
            );
        },
    };
    let chars = str_chars(header_string.as_str());
    let parsed = match parse_text_exec(&chars) {
        Some(v) => v,
        None => {
            return DecodeOutcome::FailMalformed(
                ReadBusinessObjectError::JsonSyntaxError(
                    header_string,
                    String::new(),
                ),
            );
        },
    };
    let obj = match BusinessObject::from_json(&parsed) {
        Ok(o) => o,
        Err(e) => {
            return DecodeOutcome::FailMalformed(e);
        },
    };
    match &obj.size {
        Some(n) => {
            let n = *n;
            let available: usize = buffer.len() - z - 1;
            if (available as u64) < n {
                proof {
                    assert(b.len() - z - 1 < n);
                }
                return DecodeOutcome::NeedMorePayload;
            }
            let n_us = n as usize;
            let payload_bytes = bytes_range(buffer, z + 1, z + 1 + n_us);
            let BusinessObject { event, _type, size, payload: _, metadata } = obj;
            let complete = BusinessObject {
                event,
                _type,
                size,
                payload: Some(Payload::Bytes(payload_bytes)),
                metadata,
            };
            proof {
                assert(complete@ == ObjShape {
                    payload: Some(b.subrange(z + 1, z + 1 + n as int)),
                    ..obj@
                });
            }
            DecodeOutcome::Complete(complete, z + 1 + n_us)
        },
        None => DecodeOutcome::Complete(obj, z + 1),
    }
}

/// What draining a buffer yields: the objects of its whole leading frames
/// in order and the bytes they consumed, or a malformed frame.
pub enum StreamOut {
    Objects(Seq<ObjShape>, int),
    Failed,
}

/// Draining a buffer: frames are taken off the front as long as whole ones
/// are there; an incomplete frame stops the drain cleanly; a malformed one
/// fails it.
pub open spec fn decode_stream(b: Seq<u8>) -> StreamOut
    decreases b.len(),
{
    match decode_frame(b) {
        FrameStep::Complete(o, n) => {
            if 0 < n <= b.len() {
                match decode_stream(b.skip(n)) {
                    StreamOut::Objects(rest, used) => StreamOut::Objects(seq![o] + rest, n + used),
                    StreamOut::Failed => StreamOut::Failed,
                }
            } else {
                StreamOut::Objects(Seq::<ObjShape>::empty(), 0)
            }
        },
        FrameStep::NeedMoreHeader => StreamOut::Objects(Seq::<ObjShape>::empty(), 0),
        FrameStep::NeedMorePayload => StreamOut::Objects(Seq::<ObjShape>::empty(), 0),
        FrameStep::Malformed => StreamOut::Failed,
    }
}

/// The shapes of a sequence of business objects, in order.
pub open spec fn obj_shapes(objs: Seq<BusinessObject>) -> Seq<ObjShape>
    decreases objs.len(),
{
    if objs.len() == 0 {
        Seq::<ObjShape>::empty()
    } else {
        proof {
            assert(decreases_to!(objs => objs[0]));
        }
        seq![objs[0]@] + obj_shapes(objs.drop_first())
    }
}

pub proof fn lemma_obj_shapes(objs: Seq<BusinessObject>)
    ensures
        obj_shapes(objs).len() == objs.len(),
        forall|i: int| 0 <= i < objs.len() ==> obj_shapes(objs)[i] == objs[i]@,
    decreases objs.len(),
{
    if objs.len() > 0 {
        lemma_obj_shapes(objs.drop_first());
    }
}

proof fn lemma_obj_shapes_snoc(objs: Seq<BusinessObject>, o: BusinessObject)
    ensures
        obj_shapes(objs.push(o)) == obj_shapes(objs).push(o@),
{
    lemma_obj_shapes(objs.push(o));
    lemma_obj_shapes(objs);
    assert(obj_shapes(objs.push(o)) =~= obj_shapes(objs).push(o@));
}

/// Drains all whole frames off the front of the buffer, in order; an
/// incomplete trailing frame stops cleanly with the bytes consumed so far,
/// and a malformed frame fails the whole read.
pub fn read_objects(buffer: &Vec<u8>) -> (r: Result<
    (Vec<BusinessObject>, usize),
    ReadBusinessObjectError,
>)
    ensures
        r is Ok <==> decode_stream(buffer@) is Objects,
        r is Ok ==> decode_stream(buffer@) == StreamOut::Objects(
            obj_shapes(r->Ok_0.0@),
            r->Ok_0.1 as int,
        ),
        r is Ok ==> r->Ok_0.1 <= buffer@.len(),
{
    let ghost b = buffer@;
    let mut result: Vec<BusinessObject> = Vec::new();
    let mut start: usize = 0;
    proof {
        assert(b.skip(0) =~= b);
        assert(obj_shapes(result@) =~= Seq::<ObjShape>::empty());
    }
    loop
        invariant
            start <= b.len(),
            b == buffer@,
            (match decode_stream(b.skip(start as int)) {
                StreamOut::Objects(rest, used) => decode_stream(b) == StreamOut::Objects(
                    obj_shapes(result@) + rest,
                    start + used,
                ),
                StreamOut::Failed => decode_stream(b) is Failed,
            }),
        decreases b.len() - start,
    {
        let rest_vec = bytes_range(buffer, start, buffer.len());
        let ghost remaining = b.skip(start as int);
        proof {
            assert(rest_vec@ =~= remaining);
            lemma_decode_frame_consumed(remaining);
        }
        match try_decode(&rest_vec) {
            DecodeOutcome::Complete(obj, n) => {
                let ghost old_objs = result@;
                result.push(obj);
                proof {
                    lemma_obj_shapes_snoc(old_objs, obj);
                    assert(remaining.skip(n as int) =~= b.skip(start + n));
                    match decode_stream(b.skip(start + n)) {
                        StreamOut::Objects(rest, used) => {
                            assert(obj_shapes(old_objs) + (seq![obj@] + rest) =~= obj_shapes(
                                result@,
                            ) + rest);
                        },
                        StreamOut::Failed => {},
                    }
                }
                start = start + n;
            },
            DecodeOutcome::NeedMoreHeader => {
                proof {
                    assert(decode_stream(remaining) == StreamOut::Objects(
                        Seq::<ObjShape>::empty(),
                        0,
                    ));
                    assert(obj_shapes(result@) + Seq::<ObjShape>::empty() =~= obj_shapes(
                        result@,
                    ));
                }
                return Ok((result, start));
            },
            DecodeOutcome::NeedMorePayload => {
                proof {
                    assert(decode_stream(remaining) == StreamOut::Objects(
                        Seq::<ObjShape>::empty(),
                        0,
                    ));
                    assert(obj_shapes(result@) + Seq::<ObjShape>::empty() =~= obj_shapes(
                        result@,
                    ));
                }
                return Ok((result, start));
            },
            DecodeOutcome::FailMalformed(e) => {
                return Err(e);
            },
        }
    }
}

/// A framing buffer: bytes fed in from outside accumulate here until whole
/// frames can be taken off the front.
pub struct BusinessObjectStream {
    read_buffer: Vec<u8>,
}

impl View for BusinessObjectStream {
    type V = Seq<u8>;

    closed spec fn view(&self) -> Seq<u8> {
        self.read_buffer@
    }
}

impl BusinessObjectStream {
    /// An empty framing buffer.
    pub fn new() -> (r: BusinessObjectStream)
        ensures
            r@ == Seq::<u8>::empty(),
    {
        BusinessObjectStream { read_buffer: Vec::new() }
    }

    /// Appends bytes read from outside.
    pub fn feed(&mut self, bytes: &Vec<u8>)
        ensures
            final(self)@ == old(self)@ + bytes@,
    {
        let mut i: usize = 0;
        while i < bytes.len()
            invariant
                i <= bytes@.len(),
                self.read_buffer@ == old(self)@ + bytes@.take(i as int),
            decreases bytes@.len() - i,
        {
            self.read_buffer.push(bytes[i]);
            proof {
                assert(self.read_buffer@ =~= old(self)@ + bytes@.take(i + 1));
            }
            i += 1;
        }
        proof {
            assert(bytes@.take(i as int) =~= bytes@);
        }
    }

    /// Takes all whole frames off the front of the buffer, keeping what is
    /// left for later bytes; a malformed frame fails the read and leaves
    /// the buffer as it stood.
    pub fn read_business_objects(&mut self) -> (r: Result<
        Vec<BusinessObject>,
        ReadBusinessObjectError,
    >)
        ensures
            r is Ok <==> decode_stream(old(self)@) is Objects,
            r is Ok ==> {
                &&& decode_stream(old(self)@) == StreamOut::Objects(
                    obj_shapes(r->Ok_0@),
                    old(self)@.len() - final(self)@.len(),
                )
                &&& final(self)@ == old(self)@.skip(
                    old(self)@.len() - final(self)@.len(),
                )
            },
            r is Err ==> final(self)@ == old(self)@,
    {
        match read_objects(&self.read_buffer) {
            Ok((objs, used)) => {
                let rest = bytes_range(&self.read_buffer, used, self.read_buffer.len());
                self.read_buffer = rest;
                proof {
                    assert(self.read_buffer@ =~= old(self)@.skip(
                        old(self)@.len() - self.read_buffer@.len(),
                    ));
                }
                Ok(objs)
            },
            Err(e) => Err(e),
        }
    }
}

/// The UTF-8 encoding of a character other than NUL holds no zero byte.
proof fn lemma_encode_scalar_no_zero(c: char)
    requires
        (c as u32) != 0,
    ensures
        forall|k: int|
            0 <= k < vstd::utf8::encode_scalar(c as u32).len() ==> (
            #[trigger] vstd::utf8::encode_scalar(c as u32)[k]) != 0u8,
{
    let v = c as u32;
    vstd::utf8::char_is_scalar(c);
    let e = vstd::utf8::encode_scalar(v);
    assert((0x80u8 | (v & 0x3F) as u8) != 0) by (bit_vector);
    assert((0x80u8 | ((v >> 6) & 0x3F) as u8) != 0) by (bit_vector);
    assert((0x80u8 | ((v >> 12) & 0x3F) as u8) != 0) by (bit_vector);
    if vstd::utf8::has_width_1_encoding(v) {
        assert(((v & 0x7F) as u8) != 0) by (bit_vector)
            requires
                v <= 0x7F && v != 0,
        ;
        assert(e =~= seq![vstd::utf8::leading_byte_width_1(v)]);
        assert(forall|k: int| 0 <= k < e.len() ==> (#[trigger] e[k]) != 0u8);
    } else if vstd::utf8::has_width_2_encoding(v) {
        assert((0xC0u8 | ((v >> 6) & 0x1F) as u8) != 0) by (bit_vector);
        assert(e =~= seq![
            vstd::utf8::leading_byte_width_2(v),
            vstd::utf8::last_continuation_byte(v),
        ]);
        assert(forall|k: int| 0 <= k < e.len() ==> (#[trigger] e[k]) != 0u8);
    } else if vstd::utf8::has_width_3_encoding(v) {
        assert((0xE0u8 | ((v >> 12) & 0x0F) as u8) != 0) by (bit_vector);
        assert(e =~= seq![
            vstd::utf8::leading_byte_width_3(v),
            vstd::utf8::second_last_continuation_byte(v),
            vstd::utf8::last_continuation_byte(v),
        ]);
        assert(forall|k: int| 0 <= k < e.len() ==> (#[trigger] e[k]) != 0u8);
    } else {
        assert((0xF0u8 | ((v >> 18) & 0x7) as u8) != 0) by (bit_vector);
        assert(e =~= seq![
            vstd::utf8::leading_byte_width_4(v),
            vstd::utf8::third_last_continuation_byte(v),
            vstd::utf8::second_last_continuation_byte(v),
            vstd::utf8::last_continuation_byte(v),
        ]);
        assert(forall|k: int| 0 <= k < e.len() ==> (#[trigger] e[k]) != 0u8);
    }
}

/// The UTF-8 encoding of text without NUL characters holds no zero byte.
proof fn lemma_encode_utf8_no_zero(chars: Seq<char>)
    requires
        crate::codec::no_nul(chars),
    ensures
        forall|k: int|
            0 <= k < vstd::utf8::encode_utf8(chars).len() ==> (#[trigger] vstd::utf8::encode_utf8(
                chars,
            )[k]) != 0u8,
    decreases chars.len(),
{
    if chars.len() > 0 {
        lemma_encode_scalar_no_zero(chars[0]);
        lemma_encode_utf8_no_zero(chars.drop_first());
        assert(vstd::utf8::encode_utf8(chars) == vstd::utf8::encode_scalar(chars[0] as u32)
            + vstd::utf8::encode_utf8(chars.drop_first()));
    }
}

/// The first zero of a zero-free stretch, a NUL, and anything after is the
/// stretch's length.
proof fn lemma_first_zero_concat(a: Seq<u8>, p: Seq<u8>)
    requires
        forall|j: int| 0 <= j < a.len() ==> (#[trigger] a[j]) != 0u8,
    ensures
        first_zero(a + seq![0u8] + p) == a.len(),
    decreases a.len(),
{
    let b = a + seq![0u8] + p;
    if a.len() == 0 {
        assert(b[0] == 0u8);
    } else {
        assert(b[0] == a[0]);
        assert(b.drop_first() =~= a.drop_first() + seq![0u8] + p);
        assert(forall|j: int|
            0 <= j < a.drop_first().len() ==> (#[trigger] a.drop_first()[j]) != 0u8);
        lemma_first_zero_concat(a.drop_first(), p);
    }
}

/// The position of the first zero does not move when bytes are appended.
proof fn lemma_first_zero_extend(b: Seq<u8>, ext: Seq<u8>)
    requires
        first_zero(b) >= 0,
    ensures
        first_zero(b + ext) == first_zero(b),
    decreases b.len(),
{
    if b.len() > 0 {
        assert((b + ext)[0] == b[0]);
        if b[0] != 0u8 {
            assert((b + ext).drop_first() =~= b.drop_first() + ext);
            lemma_first_zero_extend(b.drop_first(), ext);
        }
    }
}

/// Round trip of one frame: the encoding of a well-formed object, with
/// anything at all after it, decodes to that object, consuming exactly the
/// encoding. This also pins the consumed count to the header length plus
/// one plus the declared size.
pub proof fn lemma_frame_round_trip(o: ObjShape, rest: Seq<u8>)
    requires
        crate::object::obj_wf(o),
    ensures
        decode_frame(crate::object::encode_frame(o) + rest) == FrameStep::Complete(
            o,
            crate::object::encode_frame(o).len() as int,
        ),
{
    let hm = crate::object::header_members(o);
    let hv = JsonView::Obj(hm);
    let chars = crate::codec::ser_value(hv);
    let a = vstd::utf8::encode_utf8(chars);
    let pay: Seq<u8> = match o.payload {
        Some(p) => p,
        None => Seq::<u8>::empty(),
    };
    let b = crate::object::encode_frame(o) + rest;
    assert(b =~= a + seq![0u8] + (pay + rest));
    crate::object::lemma_header_members_wf(o);
    assert(crate::json::wf_json(hv));
    crate::codec::lemma_ser_value_no_nul(hv);
    lemma_encode_utf8_no_zero(chars);
    lemma_first_zero_concat(a, pay + rest);
    assert(first_zero(b) == a.len());
    assert(chars.len() >= 1) by {
        crate::codec::lemma_parse_of_rendering(hv);
        if chars.len() == 0 {
            assert(crate::codec::parse_text(chars) is None);
        }
    };
    assert(a.len() >= 1) by {
        assert(a == vstd::utf8::encode_scalar(chars[0] as u32) + vstd::utf8::encode_utf8(
            chars.drop_first(),
        ));
    };
    let z = a.len() as int;
    assert(b.take(z) =~= a);
    vstd::utf8::encode_utf8_valid_utf8(chars);
    vstd::utf8::encode_utf8_decode_utf8(chars);
    assert(valid_utf8(a));
    assert(decode_utf8(a) == chars);
    crate::codec::lemma_parse_of_rendering(hv);
    assert(parse_text(decode_utf8(b.take(z))) == Some(hv));
    crate::object::lemma_promote_header(o);
    let po = promote(hm);
    assert(po == (ObjShape { payload: None, ..o }));
    match o.size {
        Some(n) => {
            assert(o.payload is Some && pay.len() == n);
            assert(b.len() - z - 1 == pay.len() + rest.len());
            assert(!(b.len() - z - 1 < n));
            assert(b.subrange(z + 1, z + 1 + n as int) =~= pay);
            assert(decode_frame(b) == FrameStep::Complete(
                ObjShape { payload: Some(pay), ..po },
                z + 1 + n as int,
            ));
            assert(ObjShape { payload: Some(pay), ..po } == o);
            assert(crate::object::encode_frame(o).len() == z + 1 + n as int);
        },
        None => {
            assert(o.payload is None);
            assert(pay =~= Seq::<u8>::empty());
            assert(decode_frame(b) == FrameStep::Complete(po, z + 1));
            assert(po == o);
            assert(crate::object::encode_frame(o).len() == z + 1);
        },
    }
}

/// Round trip of one frame taken alone: decoding the encoding of a
/// well-formed object yields exactly that object and consumes every byte.
pub proof fn lemma_decode_encode(o: ObjShape)
    requires
        crate::object::obj_wf(o),
    ensures
        decode_frame(crate::object::encode_frame(o)) == FrameStep::Complete(
            o,
            crate::object::encode_frame(o).len() as int,
        ),
{
    lemma_frame_round_trip(o, Seq::<u8>::empty());
    assert(crate::object::encode_frame(o) + Seq::<u8>::empty() =~= crate::object::encode_frame(
        o,
    ));
}

/// A stream that begins with the NUL delimiter is malformed.
pub proof fn lemma_leading_nul_malformed(b: Seq<u8>)
    requires
        b.len() > 0,
        b[0] == 0u8,
    ensures
        decode_frame(b) is Malformed,
{
}

/// The concatenation of the encodings of well-formed objects.
pub open spec fn encode_all(objs: Seq<ObjShape>) -> Seq<u8>
    decreases objs.len(),
{
    if objs.len() == 0 {
        Seq::<u8>::empty()
    } else {
        crate::object::encode_frame(objs[0]) + encode_all(objs.drop_first())
    }
}

/// Round trip of a whole stream: draining the concatenation of encoded
/// frames yields each object once, in order, consuming exactly the encoded
/// bytes.
pub proof fn lemma_stream_round_trip(objs: Seq<ObjShape>)
    requires
        forall|i: int| 0 <= i < objs.len() ==> crate::object::obj_wf(#[trigger] objs[i]),
    ensures
        decode_stream(encode_all(objs)) == StreamOut::Objects(objs, encode_all(objs).len() as int),
    decreases objs.len(),
{
    if objs.len() == 0 {
        assert(encode_all(objs) =~= Seq::<u8>::empty());
        assert(first_zero(Seq::<u8>::empty()) == -1);
        assert(decode_frame(encode_all(objs)) is NeedMoreHeader);
        assert(objs =~= Seq::<ObjShape>::empty());
    } else {
        let o0 = objs[0];
        let restb = encode_all(objs.drop_first());
        let e0 = crate::object::encode_frame(o0);
        assert(encode_all(objs) == e0 + restb);
        lemma_frame_round_trip(o0, restb);
        let n = e0.len() as int;
        assert(decode_frame(encode_all(objs)) == FrameStep::Complete(o0, n));
        lemma_decode_frame_consumed(encode_all(objs));
        assert((e0 + restb).skip(n) =~= restb);
        assert(forall|i: int|
            0 <= i < objs.drop_first().len() ==> crate::object::obj_wf(
                #[trigger] objs.drop_first()[i],
            ));
        lemma_stream_round_trip(objs.drop_first());
        assert(seq![o0] + objs.drop_first() =~= objs);
    }
}

/// A completed frame stays completed, unchanged, when more bytes arrive.
proof fn lemma_decode_frame_extend(b: Seq<u8>, ext: Seq<u8>)
    requires
        decode_frame(b) is Complete,
    ensures
        decode_frame(b + ext) == decode_frame(b),
{
    lemma_first_zero(b);
    let z = first_zero(b);
    lemma_first_zero_extend(b, ext);
    assert((b + ext).take(z) =~= b.take(z));
    let o = promote(parse_text(decode_utf8(b.take(z)))->0->Obj_0);
    match o.size {
        Some(n) => {
            assert(b.len() - z - 1 >= n);
            assert((b + ext).len() - z - 1 >= n);
            assert((b + ext).subrange(z + 1, z + 1 + n as int) =~= b.subrange(
                z + 1,
                z + 1 + n as int,
            ));
        },
        None => {},
    }
}

/// How much a drain consumes stays within the buffer.
proof fn lemma_decode_stream_used(b: Seq<u8>)
    ensures
        decode_stream(b) is Objects ==> 0 <= decode_stream(b)->Objects_1 <= b.len(),
    decreases b.len(),
{
    lemma_decode_frame_consumed(b);
    if decode_frame(b) is Complete {
        let n = decode_frame(b)->Complete_1;
        if 0 < n <= b.len() {
            lemma_decode_stream_used(b.skip(n));
        }
    }
}

/// Splitting a byte stream at any boundary and feeding the halves through
/// two drains yields the same objects as draining the stream whole: the
/// first half's whole frames come off first, and the leftover bytes joined
/// with the second half carry on exactly where the whole stream would.
#[verifier::spinoff_prover]
pub proof fn lemma_stream_split(b1: Seq<u8>, b2: Seq<u8>)
    requires
        decode_stream(b1) is Objects,
    ensures
        decode_stream(b1 + b2) == (match decode_stream(
            b1.skip(decode_stream(b1)->Objects_1) + b2,
        ) {
            StreamOut::Objects(objs2, used2) => StreamOut::Objects(
                decode_stream(b1)->Objects_0 + objs2,
                decode_stream(b1)->Objects_1 + used2,
            ),
            StreamOut::Failed => StreamOut::Failed,
        }),
    decreases b1.len(), 1int,
{
    lemma_decode_frame_consumed(b1);
    match decode_frame(b1) {
        FrameStep::Complete(o, n) => {
            lemma_stream_split_complete(b1, b2);
        },
        FrameStep::NeedMoreHeader => {
            assert(decode_stream(b1)->Objects_1 == 0);
            assert(b1.skip(0) =~= b1);
            match decode_stream(b1 + b2) {
                StreamOut::Objects(objs2, used2) => {
                    assert(Seq::<ObjShape>::empty() + objs2 =~= objs2);
                },
                StreamOut::Failed => {},
            }
        },
        FrameStep::NeedMorePayload => {
            assert(decode_stream(b1)->Objects_1 == 0);
            assert(b1.skip(0) =~= b1);
            match decode_stream(b1 + b2) {
                StreamOut::Objects(objs2, used2) => {
                    assert(Seq::<ObjShape>::empty() + objs2 =~= objs2);
                },
                StreamOut::Failed => {},
            }
        },
        FrameStep::Malformed => {
            assert(false);
        },
    }
}

#[verifier::rlimit(100)]
#[verifier::spinoff_prover]
proof fn lemma_stream_split_complete(b1: Seq<u8>, b2: Seq<u8>)
    requires
        decode_stream(b1) is Objects,
        decode_frame(b1) is Complete,
    ensures
        decode_stream(b1 + b2) == (match decode_stream(
            b1.skip(decode_stream(b1)->Objects_1) + b2,
        ) {
            StreamOut::Objects(objs2, used2) => StreamOut::Objects(
                decode_stream(b1)->Objects_0 + objs2,
                decode_stream(b1)->Objects_1 + used2,
            ),
            StreamOut::Failed => StreamOut::Failed,
        }),
    decreases b1.len(), 0int,
{
    lemma_decode_frame_consumed(b1);
    let o = decode_frame(b1)->Complete_0;
    let n = decode_frame(b1)->Complete_1;
    lemma_decode_frame_extend(b1, b2);
    assert(decode_frame(b1 + b2) == FrameStep::Complete(o, n));
    assert((b1 + b2).skip(n) =~= b1.skip(n) + b2);
    assert(decode_stream(b1.skip(n)) is Objects) by {
        if decode_stream(b1.skip(n)) is Failed {
            assert(decode_stream(b1) is Failed);
        }
    };
    lemma_stream_split(b1.skip(n), b2);
    lemma_decode_stream_used(b1.skip(n));
    let used_tail = decode_stream(b1.skip(n))->Objects_1;
    assert(b1.skip(n).skip(used_tail) =~= b1.skip(n + used_tail));
    assert(decode_stream(b1)->Objects_1 == n + used_tail);
    match decode_stream(b1.skip(decode_stream(b1)->Objects_1) + b2) {
        StreamOut::Objects(objs2, used2) => {
            assert(seq![o] + (decode_stream(b1.skip(n))->Objects_0 + objs2) =~= (seq![o]
                + decode_stream(b1.skip(n))->Objects_0) + objs2);
        },
        StreamOut::Failed => {},
    }
}

} // verus!
