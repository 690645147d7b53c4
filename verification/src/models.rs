use vstd::prelude::*;
use vstd::utf8::{encode_utf8, is_ascii_chars};

verus! {

// ---------------------------------------------------------------------------
// JSON values
//
// A record is a JSON object whose values the store works with as plain
// shapes: null, booleans, unsigned 64-bit integers, other numbers kept as
// their literal text, strings, and nested arrays or objects kept as their
// canonical literal text.
// ---------------------------------------------------------------------------

/// Mathematical JSON value: the view of `JsonVal`.
pub enum JVal {
    Null,
    Bool(bool),
    UInt(u64),
    /// A JSON number that is not a canonical `u64`, kept as its literal text.
    Num(Seq<char>),
    Str(Seq<char>),
    /// A nested array or object, kept as its literal text.
    Nested(Seq<char>),
}

/// Executable JSON value.
#[derive(Debug)]
pub enum JsonVal {
    Null,
    Bool(bool),
    UInt(u64),
    /// A JSON number that is not a canonical `u64`, kept as its literal text.
    Num(String),
    Str(String),
    /// A nested array or object, kept as its literal text.
    Nested(String),
}

impl View for JsonVal {
    type V = JVal;

    open spec fn view(&self) -> JVal {
        match self {
            JsonVal::Null => JVal::Null,
            JsonVal::Bool(b) => JVal::Bool(*b),
            JsonVal::UInt(n) => JVal::UInt(*n),
            JsonVal::Num(t) => JVal::Num(t@),
            JsonVal::Str(s) => JVal::Str(s@),
            JsonVal::Nested(t) => JVal::Nested(t@),
        }
    }
}

/// Mathematical record: an ordered list of (field name, value) pairs.
pub type RecordV = Seq<(Seq<char>, JVal)>;

/// Executable record: a JSON object with its fields in order.
#[derive(Debug)]
pub struct Record {
    pub fields: Vec<(String, JsonVal)>,
}

/// The mathematical record carried by a list of executable fields.
pub open spec fn rec_view(fields: Seq<(String, JsonVal)>) -> RecordV {
    fields.map(|i: int, p: (String, JsonVal)| (p.0@, p.1@))
}

impl View for Record {
    type V = RecordV;

    open spec fn view(&self) -> RecordV {
        rec_view(self.fields@)
    }
}

pub proof fn lemma_rec_view_push(fields: Seq<(String, JsonVal)>, p: (String, JsonVal))
    ensures
        rec_view(fields.push(p)) == rec_view(fields).push((p.0@, p.1@)),
{
    assert(rec_view(fields.push(p)) =~= rec_view(fields).push((p.0@, p.1@)));
}

// ---------------------------------------------------------------------------
// Well-formedness
// ---------------------------------------------------------------------------

/// Bytes admitted inside a JSON number literal.
pub open spec fn is_num_byte(b: u8) -> bool {
    (48 <= b <= 57) || b == 45 || b == 43 || b == 46 || b == 101 || b == 69
}

pub open spec fn is_digit_byte(b: u8) -> bool {
    48 <= b <= 57
}

/// Numeric value of a sequence of decimal digit bytes.
pub open spec fn digits_val(s: Seq<u8>) -> nat
    decreases s.len(),
{
    if s.len() == 0 {
        0
    } else {
        digits_val(s.drop_last()) * 10 + (s.last() - 48) as nat
    }
}

/// The canonical decimal text of a `u64`: digits only, no leading zero.
pub open spec fn is_canon_u64(s: Seq<u8>) -> bool {
    &&& s.len() >= 1
    &&& forall|i: int| 0 <= i < s.len() ==> is_digit_byte(#[trigger] s[i])
    &&& (s.len() == 1 || s[0] != 48)
    &&& digits_val(s) <= u64::MAX
}

/// Shape of a `JVal::Num` literal: ASCII number bytes, starting with a digit
/// or a minus sign, and not the canonical text of a `u64` (that shape is
/// `JVal::UInt`).
pub open spec fn wf_num(t: Seq<char>) -> bool {
    &&& is_ascii_chars(t)
    &&& wf_num_bytes(encode_utf8(t))
}

pub open spec fn wf_num_bytes(s: Seq<u8>) -> bool {
    &&& s.len() >= 1
    &&& forall|i: int| 0 <= i < s.len() ==> is_num_byte(#[trigger] s[i])
    &&& (s[0] == 45 || is_digit_byte(s[0]))
    &&& !is_canon_u64(s)
}

/// One step of the balanced scan over a nested value's bytes: `depth` open
/// braces or brackets, possibly inside a string (`instr`), possibly right
/// after a backslash (`esc`).  Returns the position just after the close
/// that balances the opener, or `None` when the bytes run out first.
pub open spec fn skip_nested(s: Seq<u8>, i: int, depth: int, instr: bool, esc: bool) -> Option<
    int,
>
    decreases s.len() - i,
{
    if i < 0 || i >= s.len() {
        None
    } else {
        let b = s[i];
        if instr {
            if esc {
                skip_nested(s, i + 1, depth, true, false)
            } else if b == 92 {
                skip_nested(s, i + 1, depth, true, true)
            } else if b == 34 {
                skip_nested(s, i + 1, depth, false, false)
            } else {
                skip_nested(s, i + 1, depth, true, false)
            }
        } else {
            if b == 34 {
                skip_nested(s, i + 1, depth, true, false)
            } else if b == 123 || b == 91 {
                skip_nested(s, i + 1, depth + 1, false, false)
            } else if b == 125 || b == 93 {
                if depth <= 1 {
                    Some(i + 1)
                } else {
                    skip_nested(s, i + 1, depth - 1, false, false)
                }
            } else {
                skip_nested(s, i + 1, depth, false, false)
            }
        }
    }
}

/// End of the nested value whose opening brace or bracket stands at `i`.
pub open spec fn nested_end(s: Seq<u8>, i: int) -> Option<int> {
    if 0 <= i < s.len() && (s[i] == 123 || s[i] == 91) {
        skip_nested(s, i + 1, 1, false, false)
    } else {
        None
    }
}

/// Shape of a nested value literal: its UTF-8 bytes open with a brace or
/// bracket whose balancing close is exactly the final byte.
pub open spec fn wf_nested(t: Seq<char>) -> bool {
    nested_end(encode_utf8(t), 0) == Some(encode_utf8(t).len() as int)
}

pub open spec fn wf_jval(v: JVal) -> bool {
    match v {
        JVal::Num(t) => wf_num(t),
        JVal::Nested(t) => wf_nested(t),
        _ => true,
    }
}

/// A well-formed record: well-formed values and no duplicate field names.
pub open spec fn wf_record(r: RecordV) -> bool {
    &&& forall|i: int| 0 <= i < r.len() ==> wf_jval(#[trigger] r[i].1)
    &&& forall|i: int, j: int| 0 <= i < j < r.len() ==> r[i].0 != r[j].0
}

// ---------------------------------------------------------------------------
// Record lookup and identity
// ---------------------------------------------------------------------------

/// The value of the first field named `name`, if any.
pub open spec fn rec_lookup(r: RecordV, name: Seq<char>) -> Option<JVal>
    decreases r.len(),
{
    if r.len() == 0 {
        None
    } else if r[0].0 == name {
        Some(r[0].1)
    } else {
        rec_lookup(r.drop_first(), name)
    }
}

pub open spec fn rec_has_field(r: RecordV, name: Seq<char>) -> bool {
    rec_lookup(r, name) is Some
}

/// The record's id: its `id` field, when that field holds a `u64`.
pub open spec fn rec_id(r: RecordV) -> Option<u64> {
    match rec_lookup(r, "id"@) {
        Some(JVal::UInt(n)) => Some(n),
        _ => None,
    }
}

// ---------------------------------------------------------------------------
// Log entries
// ---------------------------------------------------------------------------

/// Operation tag of a log entry.  Only inserts are admitted by the engine;
/// the other tags exist for the on-disk format.
pub enum Operation {
    Insert,
    Update,
    Delete,
}

/// A log entry as handed to and returned by a segment.
pub struct LogEntry<T> {
    pub timestamp: u64,
    pub operation: Operation,
    pub data: T,
}

/// The on-disk shape of one payload: timestamp, operation byte, and the
/// JSON-encoded record bytes.
pub struct RawEntry {
    pub timestamp: u64,
    pub operation: u8,
    pub data: Vec<u8>,
}

pub open spec fn spec_op_byte(op: Operation) -> u8 {
    match op {
        Operation::Insert => 0,
        Operation::Update => 1,
        Operation::Delete => 2,
    }
}

/// The operation byte of an entry; unknown bytes read back as `Insert`.
pub open spec fn spec_byte_op(b: u8) -> Operation {
    if b == 1 {
        Operation::Update
    } else if b == 2 {
        Operation::Delete
    } else {
        Operation::Insert
    }
}

pub fn op_byte(op: &Operation) -> (r: u8)
    ensures
        r == spec_op_byte(*op),
{
    match op {
        Operation::Insert => 0,
        Operation::Update => 1,
        Operation::Delete => 2,
    }
}

pub fn byte_op(b: u8) -> (r: Operation)
    ensures
        r == spec_byte_op(b),
{
    if b == 1 {
        Operation::Update
    } else if b == 2 {
        Operation::Delete
    } else {
        Operation::Insert
    }
}

/// One entry of a segment's logical history: the timestamp, the raw
/// operation byte, and the record carried by the payload.
pub struct EntryV {
    pub timestamp: u64,
    pub op: u8,
    pub rec: RecordV,
}

} // verus!

verus! {

/// The record's id, computed; see `rec_id`.
pub fn rec_get_id(rec: &Record) -> (r: Option<u64>)
    ensures
        r == rec_id(rec@),
{
    let idkey = <String as vstd::string::StringExecFns>::from_str("id");
    let mut q: usize = 0;
    proof {
        assert(rec@.skip(0) =~= rec@);
    }
    while q < rec.fields.len()
        invariant
            0 <= q <= rec.fields@.len(),
            idkey@ == "id"@,
            rec_lookup(rec@, "id"@) == rec_lookup(rec@.skip(q as int), "id"@),
        decreases rec.fields@.len() - q,
    {
        proof {
            assert(rec@.skip(q as int)[0] == rec@[q as int]);
            assert(rec@.skip(q as int).drop_first() =~= rec@.skip(q as int + 1));
            assert(rec@[q as int] == (rec.fields@[q as int].0@, rec.fields@[q as int].1@));
        }
        if rec.fields[q].0.eq(&idkey) {
            match &rec.fields[q].1 {
                JsonVal::UInt(n) => {
                    return Some(*n);
                },
                _ => {
                    return None;
                },
            }
        }
        q += 1;
    }
    proof {
        assert(rec@.skip(rec@.len() as int) =~= Seq::<(Seq<char>, JVal)>::empty());
    }
    None
}

/// Whether the record holds a field with this name; see `rec_has_field`.
pub fn rec_field_value<'a>(rec: &'a Record, name: &String) -> (r: Option<&'a JsonVal>)
    ensures
        match r {
            Some(v) => rec_lookup(rec@, name@) == Some(v@),
            None => rec_lookup(rec@, name@) is None,
        },
{
    let mut q: usize = 0;
    proof {
        assert(rec@.skip(0) =~= rec@);
    }
    while q < rec.fields.len()
        invariant
            0 <= q <= rec.fields@.len(),
            rec_lookup(rec@, name@) == rec_lookup(rec@.skip(q as int), name@),
        decreases rec.fields@.len() - q,
    {
        proof {
            assert(rec@.skip(q as int)[0] == rec@[q as int]);
            assert(rec@.skip(q as int).drop_first() =~= rec@.skip(q as int + 1));
            assert(rec@[q as int] == (rec.fields@[q as int].0@, rec.fields@[q as int].1@));
        }
        if rec.fields[q].0.eq(name) {
            return Some(&rec.fields[q].1);
        }
        q += 1;
    }
    proof {
        assert(rec@.skip(rec@.len() as int) =~= Seq::<(Seq<char>, JVal)>::empty());
    }
    None
}

} // verus!
