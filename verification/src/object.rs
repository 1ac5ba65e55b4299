//! The business object: reserved header fields (`event`, `type`, `size`), a
//! free-form metadata mapping, and an optional binary payload. The reserved
//! fields are promoted out of the header mapping on decode and demoted back
//! on encode, where they are written last so that they override any
//! collision.

use vstd::prelude::*;
use vstd::utf8::encode_utf8;

use crate::codec::{ser_value, ser_value_append};
use crate::json::{
    lemma_member_shapes, member_shapes, wf_members, JsonValue, JsonView,
};
use crate::num::{dec_digits, dec_to_u64, dec_val, is_digit, u64_to_dec};
use crate::text::{chars_to_string, str_chars};

verus! {

broadcast use vstd::std_specs::vec::group_vec_axioms, vstd::string::group_string_axioms;

/// An opaque binary payload.
#[derive(Debug)]
pub enum Payload {
    Bytes(Vec<u8>),
}

/// Why a buffer did not decode to a business object.
#[derive(Debug)]
pub enum ReadBusinessObjectError {
    NoInputError(&'static str),
    JsonSemanticsError(&'static str),
    JsonSyntaxError(String, String),
    BufferCharacterDecodingError,
    PayloadReadingError,
}

/// A business object.
#[derive(Debug)]
pub struct BusinessObject {
    pub event: Option<String>,
    pub _type: Option<String>,
    pub size: Option<u64>,
    pub payload: Option<Payload>,
    pub metadata: Vec<(String, JsonValue)>,
}

/// The mathematical shape of a business object.
pub struct ObjShape {
    pub event: Option<Seq<char>>,
    pub typ: Option<Seq<char>>,
    pub size: Option<u64>,
    pub payload: Option<Seq<u8>>,
    pub metadata: Seq<(Seq<char>, JsonView)>,
}

impl View for Payload {
    type V = Seq<u8>;

    open spec fn view(&self) -> Seq<u8> {
        match self {
            Payload::Bytes(b) => b@,
        }
    }
}

impl View for BusinessObject {
    type V = ObjShape;

    open spec fn view(&self) -> ObjShape {
        ObjShape {
            event: match self.event {
                Some(e) => Some(e@),
                None => None,
            },
            typ: match self._type {
                Some(t) => Some(t@),
                None => None,
            },
            size: self.size,
            payload: match self.payload {
                Some(p) => Some(p@),
                None => None,
            },
            metadata: member_shapes(self.metadata@),
        }
    }
}

/// The three reserved header keys.
pub open spec fn reserved_key(k: Seq<char>) -> bool {
    k == "event"@ || k == "type"@ || k == "size"@
}

/// A well-formed business object: the payload is present exactly when a
/// positive size is declared and holds exactly that many bytes, the metadata
/// holds no reserved key, and every metadata value is well formed.
pub open spec fn obj_wf(o: ObjShape) -> bool {
    &&& o.payload is Some <==> o.size is Some
    &&& o.payload is Some ==> o.size->0 > 0 && o.payload->0.len() == o.size->0
    &&& forall|i: int| 0 <= i < o.metadata.len() ==> !reserved_key((#[trigger] o.metadata[i]).0)
    &&& wf_members(o.metadata)
}

/// Equality of business objects: over `event`, `type`, `size` and `payload`;
/// the metadata is opaque routing context, not identity.
pub open spec fn obj_eq(a: ObjShape, b: ObjShape) -> bool {
    a.event == b.event && a.typ == b.typ && a.size == b.size && a.payload == b.payload
}

impl PartialEq for BusinessObject {
    fn eq(&self, other: &BusinessObject) -> (r: bool) {
        let ev = match (&self.event, &other.event) {
            (Some(a), Some(b)) => string_eq(a, b),
            (None, None) => true,
            _ => false,
        };
        let ty = match (&self._type, &other._type) {
            (Some(a), Some(b)) => string_eq(a, b),
            (None, None) => true,
            _ => false,
        };
        let sz = match (&self.size, &other.size) {
            (Some(a), Some(b)) => *a == *b,
            (None, None) => true,
            _ => false,
        };
        let pl = match (&self.payload, &other.payload) {
            (Some(Payload::Bytes(a)), Some(Payload::Bytes(b))) => bytes_eq(a, b),
            (None, None) => true,
            _ => false,
        };
        ev && ty && sz && pl
    }
}

impl vstd::std_specs::cmp::PartialEqSpecImpl for BusinessObject {
    open spec fn obeys_eq_spec() -> bool {
        true
    }

    open spec fn eq_spec(&self, other: &BusinessObject) -> bool {
        obj_eq(self@, other@)
    }
}

/// Whether two strings hold the same characters.
pub fn string_eq(a: &String, b: &String) -> (r: bool)
    ensures
        r == (a@ == b@),
{
    let ac = str_chars(a.as_str());
    let bc = str_chars(b.as_str());
    crate::text::chars_eq(&ac, &bc)
}

/// Whether two byte vectors hold the same bytes.
pub fn bytes_eq(a: &Vec<u8>, b: &Vec<u8>) -> (r: bool)
    ensures
        r == (a@ == b@),
{
    if a.len() != b.len() {
        proof {
            assert(a@ != b@);
        }
        return false;
    }
    let mut i: usize = 0;
    while i < a.len()
        invariant
            a@.len() == b@.len(),
            i <= a@.len(),
            forall|j: int| 0 <= j < i ==> a@[j] == b@[j],
        decreases a@.len() - i,
    {
        if a[i] != b[i] {
            return false;
        }
        i += 1;
    }
    proof {
        assert(a@ =~= b@);
    }
    true
}

/// The reason a decode error carries.
pub fn extract_reason(error: &ReadBusinessObjectError) -> (r: &str)
    ensures
        error is BufferCharacterDecodingError ==> r@ == "Character encoding error"@,
        error is PayloadReadingError ==> r@ == "Couldn't read payload"@,
{
    match error {
        ReadBusinessObjectError::NoInputError(reason) => reason,
        ReadBusinessObjectError::JsonSemanticsError(reason) => reason,
        ReadBusinessObjectError::JsonSyntaxError(_, reason) => reason.as_str(),
        ReadBusinessObjectError::BufferCharacterDecodingError => "Character encoding error",
        ReadBusinessObjectError::PayloadReadingError => "Couldn't read payload",
    }
}

/// The header mapping that stands for the object on the wire: the metadata
/// first, then `type`, `size` and `event` last, so that the reserved fields
/// override any collision.
pub open spec fn header_members(o: ObjShape) -> Seq<(Seq<char>, JsonView)> {
    let with_type: Seq<(Seq<char>, JsonView)> = match o.typ {
        Some(t) => o.metadata + seq![("type"@, JsonView::Str(t))],
        None => o.metadata,
    };
    let with_size: Seq<(Seq<char>, JsonView)> = match o.size {
        Some(n) => with_type + seq![("size"@, JsonView::Num(dec_digits(n as nat)))],
        None => with_type,
    };
    match o.event {
        Some(e) => with_size + seq![("event"@, JsonView::Str(e))],
        None => with_size,
    }
}

impl BusinessObject {
    /// Whether a payload follows the header on the wire.
    pub fn has_payload(&self) -> (r: bool)
        ensures
            r == (self@.size is Some),
    {
        self.size.is_some()
    }

    /// The object's header mapping, reserved fields written last.
    pub fn to_json(&self) -> (r: JsonValue)
        ensures
            r@ == JsonView::Obj(header_members(self@)),
    {
        let mut mems: Vec<(String, JsonValue)> = Vec::new();
        let mut i: usize = 0;
        while i < self.metadata.len()
            invariant
                i <= self.metadata@.len(),
                mems@.len() == i,
                forall|j: int|
                    0 <= j < i ==> (#[trigger] mems@[j]).0@ == self.metadata@[j].0@
                        && mems@[j].1.shape() == self.metadata@[j].1.shape(),
            decreases self.metadata@.len() - i,
        {
            let k = self.metadata[i].0.clone();
            let v = self.metadata[i].1.deep_copy();
            mems.push((k, v));
            i += 1;
        }
        proof {
            lemma_member_shapes(self.metadata@);
            lemma_member_shapes(mems@);
            assert(member_shapes(mems@) =~= member_shapes(self.metadata@));
        }
        if let Some(t) = &self._type {
            let ghost before = member_shapes(mems@);
            let ghost mv = mems@;
            mems.push((string_lit_type(), JsonValue::Str(t.clone())));
            proof {
                lemma_member_shapes(mv);
                lemma_member_shapes(mems@);
                assert(member_shapes(mems@) =~= before + seq![("type"@, JsonView::Str(t@))]);
            }
        }
        if let Some(n) = &self.size {
            let ghost before = member_shapes(mems@);
            let ghost mv = mems@;
            let digits = u64_to_dec(*n);
            mems.push((string_lit_size(), JsonValue::Num(chars_to_string(&digits))));
            proof {
                lemma_member_shapes(mv);
                lemma_member_shapes(mems@);
                assert(member_shapes(mems@) =~= before + seq![
                    ("size"@, JsonView::Num(dec_digits(*n as nat))),
                ]);
            }
        }
        if let Some(e) = &self.event {
            let ghost before = member_shapes(mems@);
            let ghost mv = mems@;
            mems.push((string_lit_event(), JsonValue::Str(e.clone())));
            proof {
                lemma_member_shapes(mv);
                lemma_member_shapes(mems@);
                assert(member_shapes(mems@) =~= before + seq![("event"@, JsonView::Str(e@))]);
            }
        }
        JsonValue::Obj(mems)
    }

    /// The whole frame for the object: the canonical header text as bytes,
    /// the NUL delimiter, then the payload bytes when one is present.
    pub fn to_bytes(&self) -> (r: Vec<u8>)
        ensures
            r@ == encode_frame(self@),
    {
        let mut chars: Vec<char> = Vec::new();
        let header = self.to_json();
        ser_value_append(&header, &mut chars);
        let text = chars_to_string(&chars);
        let mut result: Vec<u8> = text.as_str().as_bytes_vec();
        result.push(0u8);
        proof {
            assert(result@ =~= encode_utf8(ser_value(JsonView::Obj(header_members(self@))))
                + seq![0u8]);
        }
        match &self.payload {
            Some(Payload::Bytes(body)) => {
                let ghost before = result@;
                let mut i: usize = 0;
                while i < body.len()
                    invariant
                        i <= body@.len(),
                        result@ == before + body@.take(i as int),
                    decreases body@.len() - i,
                {
                    result.push(body[i]);
                    proof {
                        assert(result@ =~= before + body@.take(i + 1));
                    }
                    i += 1;
                }
                proof {
                    assert(body@.take(i as int) =~= body@);
                    assert(result@ =~= encode_frame(self@));
                }
                result
            },
            None => {
                proof {
                    assert(result@ + Seq::<u8>::empty() =~= result@);
                    assert(result@ =~= encode_frame(self@));
                }
                result
            },
        }
    }

    /// Reads a business object out of a parsed header value: only a mapping
    /// at the top level is accepted.
    pub fn from_json(obj: &JsonValue) -> (r: Result<BusinessObject, ReadBusinessObjectError>)
        ensures
            r is Ok <==> obj@ is Obj,
            r is Ok ==> r->Ok_0@ == promote(obj@->Obj_0),
    {
        match obj {
            JsonValue::Obj(mems) => Ok(to_business_object(mems)),
            _ => Err(ReadBusinessObjectError::JsonSemanticsError("Unsupported JSON type")),
        }
    }
}

/// The string `type`.
fn string_lit_type() -> (r: String)
    ensures
        r@ == "type"@,
{
    let r = String::new();
    let mut r = r;
    crate::text::push_char(&mut r, 't');
    crate::text::push_char(&mut r, 'y');
    crate::text::push_char(&mut r, 'p');
    crate::text::push_char(&mut r, 'e');
    proof {
        reveal_strlit("type");
        assert(r@ =~= "type"@);
    }
    r
}

/// The string `size`.
fn string_lit_size() -> (r: String)
    ensures
        r@ == "size"@,
{
    let mut r = String::new();
    crate::text::push_char(&mut r, 's');
    crate::text::push_char(&mut r, 'i');
    crate::text::push_char(&mut r, 'z');
    crate::text::push_char(&mut r, 'e');
    proof {
        reveal_strlit("size");
        assert(r@ =~= "size"@);
    }
    r
}

/// The string `event`.
fn string_lit_event() -> (r: String)
    ensures
        r@ == "event"@,
{
    let mut r = String::new();
    crate::text::push_char(&mut r, 'e');
    crate::text::push_char(&mut r, 'v');
    crate::text::push_char(&mut r, 'e');
    crate::text::push_char(&mut r, 'n');
    crate::text::push_char(&mut r, 't');
    proof {
        reveal_strlit("event");
        assert(r@ =~= "event"@);
    }
    r
}

/// The whole frame that stands for the object on the wire.
pub open spec fn encode_frame(o: ObjShape) -> Seq<u8> {
    encode_utf8(ser_value(JsonView::Obj(header_members(o)))) + seq![0u8] + (match o.payload {
        Some(p) => p,
        None => Seq::<u8>::empty(),
    })
}

/// The value of the mapping's last entry with the given key: later entries
/// override earlier ones.
pub open spec fn last_entry(mems: Seq<(Seq<char>, JsonView)>, key: Seq<char>) -> Option<JsonView>
    decreases mems.len(),
{
    if mems.len() == 0 {
        None
    } else if mems.last().0 == key {
        Some(mems.last().1)
    } else {
        last_entry(mems.drop_last(), key)
    }
}

/// The characters of a number token that denote a size: one or more plain
/// digits whose value fits and is positive.
pub open spec fn size_of_num(t: Seq<char>) -> Option<u64> {
    if t.len() > 0 && (forall|k: int| 0 <= k < t.len() ==> is_digit(#[trigger] t[k])) && dec_val(t)
        <= u64::MAX && dec_val(t) > 0 {
        Some(dec_val(t) as u64)
    } else {
        None
    }
}

/// The string a header value stands for, when it is a string at all.
pub open spec fn str_opt(v: Option<JsonView>) -> Option<Seq<char>> {
    match v {
        Some(JsonView::Str(t)) => Some(t),
        _ => None,
    }
}

/// The size a header value declares, when it declares one at all.
pub open spec fn size_opt(v: Option<JsonView>) -> Option<u64> {
    match v {
        Some(JsonView::Num(t)) => size_of_num(t),
        _ => None,
    }
}

/// The characters of an optional string.
pub open spec fn opt_chars(o: Option<String>) -> Option<Seq<char>> {
    match o {
        Some(s) => Some(s@),
        None => None,
    }
}

/// Promotion of the reserved fields out of a header mapping: `event` and
/// `type` are taken when their last entry is a string, `size` when its last
/// entry is a plain positive integer that fits; the remaining entries form
/// the metadata, and no payload is attached yet.
pub open spec fn promote(mems: Seq<(Seq<char>, JsonView)>) -> ObjShape {
    ObjShape {
        event: str_opt(last_entry(mems, "event"@)),
        typ: str_opt(last_entry(mems, "type"@)),
        size: size_opt(last_entry(mems, "size"@)),
        payload: None,
        metadata: mems.filter(|m: (Seq<char>, JsonView)| !reserved_key(m.0)),
    }
}

/// The string a header value carries, when it is a string at all.
fn str_from_value(v: &JsonValue) -> (r: Option<String>)
    ensures
        opt_chars(r) == str_opt(Some(v@)),
{
    match v {
        JsonValue::Str(t) => Some(t.clone()),
        _ => None,
    }
}

/// The size a header value declares: a plain positive integer that fits.
fn size_from_value(v: &JsonValue) -> (r: Option<u64>)
    ensures
        r == size_opt(Some(v@)),
{
    match v {
        JsonValue::Num(t) => {
            let digits = str_chars(t.as_str());
            match dec_to_u64(&digits) {
                Some(n) => {
                    if n > 0 {
                        Some(n)
                    } else {
                        None
                    }
                },
                None => None,
            }
        },
        _ => None,
    }
}

/// Builds the business object a header mapping stands for.
#[verifier::rlimit(50)]
pub fn to_business_object(mems: &Vec<(String, JsonValue)>) -> (r: BusinessObject)
    ensures
        r@ == promote(member_shapes(mems@)),
{
    let ghost shapes = member_shapes(mems@);
    proof {
        lemma_member_shapes(mems@);
        reveal(Seq::filter);
        assert(shapes.take(0) =~= Seq::<(Seq<char>, JsonView)>::empty());
        assert(shapes.take(0).filter(|m: (Seq<char>, JsonView)| !reserved_key(m.0)) =~= Seq::<(
            Seq<char>,
            JsonView,
        )>::empty());
        assert(member_shapes(Seq::<(String, JsonValue)>::empty()) =~= Seq::<(
            Seq<char>,
            JsonView,
        )>::empty());
    }
    let mut event: Option<String> = None;
    let mut typ: Option<String> = None;
    let mut size: Option<u64> = None;
    let mut metadata: Vec<(String, JsonValue)> = Vec::new();
    let mut i: usize = 0;
    while i < mems.len()
        invariant
            i <= mems@.len(),
            shapes == member_shapes(mems@),
            shapes.len() == mems@.len(),
            forall|j: int|
                0 <= j < shapes.len() ==> #[trigger] shapes[j] == (mems@[j].0@, mems@[j].1.shape()),
            opt_chars(event) == str_opt(last_entry(shapes.take(i as int), "event"@)),
            opt_chars(typ) == str_opt(last_entry(shapes.take(i as int), "type"@)),
            size == size_opt(last_entry(shapes.take(i as int), "size"@)),
            member_shapes(metadata@) == shapes.take(i as int).filter(
                |m: (Seq<char>, JsonView)| !reserved_key(m.0),
            ),
        decreases mems@.len() - i,
    {
        let key_chars = str_chars(mems[i].0.as_str());
        let ghost entry = shapes[i as int];
        let value_ref = &mems[i].1;
        let ghost vv = value_ref@;
        proof {
            assert(shapes.take(i + 1).drop_last() =~= shapes.take(i as int));
            assert(shapes.take(i + 1).last() == entry);
            assert(vv == entry.1);
            reveal_strlit("event");
            reveal_strlit("type");
            reveal_strlit("size");
        }
        let is_event = chars_eq_lit_event(&key_chars);
        let is_type = chars_eq_lit_type(&key_chars);
        let is_size = chars_eq_lit_size(&key_chars);
        if is_event {
            event = str_from_value(value_ref);
        } else if is_type {
            typ = str_from_value(value_ref);
        } else if is_size {
            size = size_from_value(value_ref);
            proof {
                assert(size == size_opt(Some(vv)));
            }
        } else {
            let ghost before = member_shapes(metadata@);
            let ghost mv = metadata@;
            let k = mems[i].0.clone();
            let v = mems[i].1.deep_copy();
            metadata.push((k, v));
            proof {
                lemma_member_shapes(mv);
                lemma_member_shapes(metadata@);
                assert(member_shapes(metadata@) =~= before + seq![entry]);
                assert(shapes.take(i + 1).filter(|m: (Seq<char>, JsonView)| !reserved_key(m.0))
                    =~= before + seq![entry]) by {
                    reveal(Seq::filter);
                    assert(shapes.take(i + 1).drop_last() =~= shapes.take(i as int));
                };
            }
        }
        proof {
            reveal_strlit("event");
            reveal_strlit("type");
            reveal_strlit("size");
            assert("size"@.len() == 4 && "type"@.len() == 4 && "event"@.len() == 5);
            assert("size"@[0] == 's' && "type"@[0] == 't' && "event"@[0] == 'e');
            assert("size"@ != "type"@);
            assert("size"@ != "event"@);
            assert("type"@ != "event"@);
            assert(is_size ==> size == size_opt(Some(vv)));
            assert(key_chars@ == entry.0);
            assert(is_event == (entry.0 == "event"@));
            assert(is_type == (entry.0 == "type"@));
            assert(is_size == (entry.0 == "size"@));
            assert(last_entry(shapes.take(i + 1), "event"@) == (if entry.0 == "event"@ {
                Some(entry.1)
            } else {
                last_entry(shapes.take(i as int), "event"@)
            }));
            assert(last_entry(shapes.take(i + 1), "type"@) == (if entry.0 == "type"@ {
                Some(entry.1)
            } else {
                last_entry(shapes.take(i as int), "type"@)
            }));
            assert(last_entry(shapes.take(i + 1), "size"@) == (if entry.0 == "size"@ {
                Some(entry.1)
            } else {
                last_entry(shapes.take(i as int), "size"@)
            }));
            let ghost te_old = last_entry(shapes.take(i as int), "type"@);
            let ghost te_new = last_entry(shapes.take(i + 1), "type"@);
            if entry.0 == "type"@ {
                assert(te_new == Some(entry.1));
                assert(opt_chars(typ) == str_opt(Some(vv)));
                assert(opt_chars(typ) == str_opt(te_new));
            } else {
                assert(te_new == te_old);
                assert(opt_chars(typ) == str_opt(te_old));
                assert(str_opt(te_new) == str_opt(te_old));
            }
            assert(opt_chars(typ) == str_opt(te_new));
            let ghost se_old = last_entry(shapes.take(i as int), "size"@);
            let ghost se_new = last_entry(shapes.take(i + 1), "size"@);
            if entry.0 == "size"@ {
                assert(se_new == Some(entry.1));
                assert(size == size_opt(Some(vv)));
                assert(size == size_opt(se_new));
            } else {
                assert(se_new == se_old);
                assert(size == size_opt(se_old));
                assert(size_opt(se_new) == size_opt(se_old));
            }
            assert(size == size_opt(se_new));
            if reserved_key(entry.0) {
                assert(shapes.take(i + 1).filter(|m: (Seq<char>, JsonView)| !reserved_key(m.0))
                    =~= shapes.take(i as int).filter(
                    |m: (Seq<char>, JsonView)| !reserved_key(m.0),
                )) by {
                    reveal(Seq::filter);
                    assert(shapes.take(i + 1).drop_last() =~= shapes.take(i as int));
                };
            }
        }
        i += 1;
    }
    proof {
        assert(shapes.take(i as int) =~= shapes);
        assert(shapes.take(0) =~= Seq::<(Seq<char>, JsonView)>::empty());
    }
    BusinessObject { event, _type: typ, size, payload: None, metadata }
}

/// Whether the characters spell `event`.
fn chars_eq_lit_event(cs: &Vec<char>) -> (r: bool)
    ensures
        r == (cs@ == "event"@),
{
    proof {
        reveal_strlit("event");
    }
    let r = cs.len() == 5 && cs[0] == 'e' && cs[1] == 'v' && cs[2] == 'e' && cs[3] == 'n' && cs[4]
        == 't';
    proof {
        if r {
            assert(cs@ =~= "event"@);
        }
    }
    r
}

/// Whether the characters spell `type`.
fn chars_eq_lit_type(cs: &Vec<char>) -> (r: bool)
    ensures
        r == (cs@ == "type"@),
{
    proof {
        reveal_strlit("type");
    }
    let r = cs.len() == 4 && cs[0] == 't' && cs[1] == 'y' && cs[2] == 'p' && cs[3] == 'e';
    proof {
        if r {
            assert(cs@ =~= "type"@);
        }
    }
    r
}

/// Whether the characters spell `size`.
fn chars_eq_lit_size(cs: &Vec<char>) -> (r: bool)
    ensures
        r == (cs@ == "size"@),
{
    proof {
        reveal_strlit("size");
    }
    let r = cs.len() == 4 && cs[0] == 's' && cs[1] == 'i' && cs[2] == 'z' && cs[3] == 'e';
    proof {
        if r {
            assert(cs@ =~= "size"@);
        }
    }
    r
}

/// The three reserved keys differ from one another.
pub proof fn lemma_reserved_distinct()
    ensures
        "event"@ != "type"@,
        "event"@ != "size"@,
        "type"@ != "size"@,
        "event"@.len() == 5,
        "type"@.len() == 4,
        "size"@.len() == 4,
{
    reveal_strlit("event");
    reveal_strlit("type");
    reveal_strlit("size");
    assert("size"@[0] == 's' && "type"@[0] == 't' && "event"@[0] == 'e');
}

/// A mapping without the key has no last entry for it.
proof fn lemma_last_entry_absent(mems: Seq<(Seq<char>, JsonView)>, key: Seq<char>)
    requires
        forall|i: int| 0 <= i < mems.len() ==> (#[trigger] mems[i]).0 != key,
    ensures
        last_entry(mems, key) is None,
    decreases mems.len(),
{
    if mems.len() > 0 {
        lemma_last_entry_absent(mems.drop_last(), key);
    }
}

/// Appending one entry: its key wins, any other key looks past it.
proof fn lemma_last_entry_snoc(
    mems: Seq<(Seq<char>, JsonView)>,
    entry: (Seq<char>, JsonView),
    key: Seq<char>,
)
    ensures
        entry.0 == key ==> last_entry(mems.push(entry), key) == Some(entry.1),
        entry.0 != key ==> last_entry(mems.push(entry), key) == last_entry(mems, key),
{
    assert(mems.push(entry).last() == entry);
    assert(mems.push(entry).drop_last() =~= mems);
}

/// Filtering keeps a mapping whole when every entry passes.
proof fn lemma_filter_all_pass(mems: Seq<(Seq<char>, JsonView)>)
    requires
        forall|i: int| 0 <= i < mems.len() ==> !reserved_key((#[trigger] mems[i]).0),
    ensures
        mems.filter(|m: (Seq<char>, JsonView)| !reserved_key(m.0)) == mems,
    decreases mems.len(),
{
    reveal(Seq::filter);
    if mems.len() > 0 {
        lemma_filter_all_pass(mems.drop_last());
        assert(mems.filter(|m: (Seq<char>, JsonView)| !reserved_key(m.0)) =~= mems);
    } else {
        assert(mems.filter(|m: (Seq<char>, JsonView)| !reserved_key(m.0)) =~= mems);
    }
}

/// Appending a reserved entry leaves the filtered mapping unchanged.
proof fn lemma_filter_drop_reserved(
    mems: Seq<(Seq<char>, JsonView)>,
    entry: (Seq<char>, JsonView),
)
    requires
        reserved_key(entry.0),
    ensures
        mems.push(entry).filter(|m: (Seq<char>, JsonView)| !reserved_key(m.0)) == mems.filter(
            |m: (Seq<char>, JsonView)| !reserved_key(m.0),
        ),
{
    reveal(Seq::filter);
    assert(mems.push(entry).drop_last() =~= mems);
    assert(mems.push(entry).last() == entry);
}

/// The header mapping of a well-formed object is well formed.
pub proof fn lemma_header_members_wf(o: ObjShape)
    requires
        obj_wf(o),
    ensures
        crate::json::wf_members(header_members(o)),
{
    let hm = header_members(o);
    crate::json::lemma_wf_members(o.metadata);
    crate::json::lemma_wf_members(hm);
    assert forall|i: int| 0 <= i < hm.len() implies crate::json::wf_json(#[trigger] hm[i].1) by {
        if i < o.metadata.len() {
            assert(hm[i] == o.metadata[i]);
        } else {
            match o.size {
                Some(n) => {
                    crate::num::lemma_dec_digits_number_text(n as nat);
                },
                None => {},
            }
        }
    }
}

/// Scaffolding shared by the header lookups: the appended stages.
spec fn hm_with_type(o: ObjShape) -> Seq<(Seq<char>, JsonView)> {
    match o.typ {
        Some(t) => o.metadata + seq![("type"@, JsonView::Str(t))],
        None => o.metadata,
    }
}

spec fn hm_with_size(o: ObjShape) -> Seq<(Seq<char>, JsonView)> {
    match o.size {
        Some(n) => hm_with_type(o) + seq![("size"@, JsonView::Num(dec_digits(n as nat)))],
        None => hm_with_type(o),
    }
}

proof fn lemma_header_stages(o: ObjShape)
    ensures
        header_members(o) == (match o.event {
            Some(e) => hm_with_size(o).push(("event"@, JsonView::Str(e))),
            None => hm_with_size(o),
        }),
        hm_with_size(o) == (match o.size {
            Some(n) => hm_with_type(o).push(("size"@, JsonView::Num(dec_digits(n as nat)))),
            None => hm_with_type(o),
        }),
        hm_with_type(o) == (match o.typ {
            Some(t) => o.metadata.push(("type"@, JsonView::Str(t))),
            None => o.metadata,
        }),
{
    match o.typ {
        Some(t) => {
            assert(hm_with_type(o) =~= o.metadata.push(("type"@, JsonView::Str(t))));
        },
        None => {},
    }
    match o.size {
        Some(n) => {
            assert(hm_with_size(o) =~= hm_with_type(o).push(
                ("size"@, JsonView::Num(dec_digits(n as nat))),
            ));
        },
        None => {},
    }
    match o.event {
        Some(e) => {
            assert(header_members(o) =~= hm_with_size(o).push(("event"@, JsonView::Str(e))));
        },
        None => {
            assert(header_members(o) =~= hm_with_size(o));
        },
    }
}

/// The last entry for a reserved key in the header mapping resolves to the
/// stage that wrote it, or to nothing.
proof fn lemma_header_lookup(o: ObjShape, key: Seq<char>)
    requires
        obj_wf(o),
        reserved_key(key),
    ensures
        last_entry(header_members(o), key) == (if key == "event"@ {
            match o.event {
                Some(e) => Some(JsonView::Str(e)),
                None => None,
            }
        } else if key == "type"@ {
            match o.typ {
                Some(t) => Some(JsonView::Str(t)),
                None => None,
            }
        } else {
            match o.size {
                Some(n) => Some(JsonView::Num(dec_digits(n as nat))),
                None => None,
            }
        }),
{
    lemma_reserved_distinct();
    lemma_header_stages(o);
    lemma_last_entry_absent(o.metadata, key);
    match o.typ {
        Some(t) => {
            lemma_last_entry_snoc(o.metadata, ("type"@, JsonView::Str(t)), key);
        },
        None => {},
    }
    match o.size {
        Some(n) => {
            lemma_last_entry_snoc(
                hm_with_type(o),
                ("size"@, JsonView::Num(dec_digits(n as nat))),
                key,
            );
        },
        None => {},
    }
    match o.event {
        Some(e) => {
            lemma_last_entry_snoc(hm_with_size(o), ("event"@, JsonView::Str(e)), key);
        },
        None => {},
    }
}

/// Promoting the header mapping of a well-formed object gives the object
/// back, less its payload: the reserved fields written last are found, and
/// the filtered metadata is the metadata itself.
proof fn lemma_header_filter(o: ObjShape)
    requires
        obj_wf(o),
    ensures
        header_members(o).filter(|mm: (Seq<char>, JsonView)| !reserved_key(mm.0)) == o.metadata,
{
    lemma_reserved_distinct();
    lemma_header_stages(o);
    lemma_filter_all_pass(o.metadata);
    match o.typ {
        Some(t) => {
            lemma_filter_drop_reserved(o.metadata, ("type"@, JsonView::Str(t)));
        },
        None => {},
    }
    match o.size {
        Some(n) => {
            lemma_filter_drop_reserved(
                hm_with_type(o),
                ("size"@, JsonView::Num(dec_digits(n as nat))),
            );
        },
        None => {},
    }
    match o.event {
        Some(e) => {
            lemma_filter_drop_reserved(hm_with_size(o), ("event"@, JsonView::Str(e)));
        },
        None => {},
    }
}

proof fn lemma_header_size_value(o: ObjShape)
    requires
        obj_wf(o),
    ensures
        size_opt(last_entry(header_members(o), "size"@)) == o.size,
{
    lemma_reserved_distinct();
    lemma_header_lookup(o, "size"@);
    match o.size {
        Some(n) => {
            crate::num::lemma_dec_digits_shape(n as nat);
            crate::num::lemma_dec_digits_val(n as nat);
            assert(size_of_num(dec_digits(n as nat)) == Some(n));
        },
        None => {},
    }
}

pub proof fn lemma_promote_header(o: ObjShape)
    requires
        obj_wf(o),
    ensures
        promote(header_members(o)) == (ObjShape { payload: None, ..o }),
{
    lemma_reserved_distinct();
    lemma_header_lookup(o, "event"@);
    lemma_header_lookup(o, "type"@);
    lemma_header_size_value(o);
    lemma_header_filter(o);
    assert(str_opt(last_entry(header_members(o), "event"@)) == o.event);
    assert(str_opt(last_entry(header_members(o), "type"@)) == o.typ);
}

impl BusinessObject {
    /// A copy of the object, equal in every field.
    pub fn duplicate(&self) -> (r: BusinessObject)
        ensures
            r@ == self@,
    {
        let event = match &self.event {
            Some(e) => Some(e.clone()),
            None => None,
        };
        let typ = match &self._type {
            Some(t) => Some(t.clone()),
            None => None,
        };
        let size = match &self.size {
            Some(n) => Some(*n),
            None => None,
        };
        let payload = match &self.payload {
            Some(Payload::Bytes(b)) => {
                let mut copy: Vec<u8> = Vec::new();
                let mut i: usize = 0;
                while i < b.len()
                    invariant
                        i <= b@.len(),
                        copy@ == b@.take(i as int),
                    decreases b@.len() - i,
                {
                    copy.push(b[i]);
                    proof {
                        assert(copy@ =~= b@.take(i + 1));
                    }
                    i += 1;
                }
                proof {
                    assert(b@.take(i as int) =~= b@);
                }
                Some(Payload::Bytes(copy))
            },
            None => None,
        };
        let mut metadata: Vec<(String, JsonValue)> = Vec::new();
        let mut i: usize = 0;
        while i < self.metadata.len()
            invariant
                i <= self.metadata@.len(),
                metadata@.len() == i,
                forall|j: int|
                    0 <= j < i ==> (#[trigger] metadata@[j]).0@ == self.metadata@[j].0@
                        && metadata@[j].1.shape() == self.metadata@[j].1.shape(),
            decreases self.metadata@.len() - i,
        {
            let k = self.metadata[i].0.clone();
            let v = self.metadata[i].1.deep_copy();
            metadata.push((k, v));
            i += 1;
        }
        proof {
            lemma_member_shapes(self.metadata@);
            lemma_member_shapes(metadata@);
            assert(member_shapes(metadata@) =~= member_shapes(self.metadata@));
        }
        let r = BusinessObject { event, _type: typ, size, payload, metadata };
        proof {
            assert(r@.payload == self@.payload);
        }
        r
    }
}

} // verus!
