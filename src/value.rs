//! Published values, subscription identities and the publisher wire
//! vocabulary.

use vstd::prelude::*;
use vstd::string::*;

verus! {

/// Process-unique identity of a subscription handle.
#[derive(Debug, Clone, Copy, PartialEq, Eq, Structural, PartialOrd, Ord, Hash)]
pub struct SubId(pub u64);

/// Process-unique identity of a fan-out channel endpoint. Subscriptions
/// that share a destination share its `ChanId`.
#[derive(Debug, Clone, Copy, PartialEq, Eq, Structural, PartialOrd, Ord, Hash)]
pub struct ChanId(pub u64);

/// A source of identities that are never reused: each one issued is larger
/// than every one before it.
pub struct IdGen {
    next: u64,
}

impl IdGen {
    /// The next identity to be issued.
    pub closed spec fn next_v(&self) -> u64 {
        self.next
    }

    pub fn new() -> (r: IdGen)
        ensures
            r.next_v() == 0,
    {
        IdGen { next: 0 }
    }

    /// Issue the next identity, or `None` once all are used up.
    pub fn issue(&mut self) -> (r: Option<u64>)
        ensures
            old(self).next_v() < u64::MAX ==> r == Some(old(self).next_v()) && final(self).next_v()
                == old(self).next_v() + 1,
            old(self).next_v() == u64::MAX ==> r is None && final(self).next_v() == old(
                self,
            ).next_v(),
    {
        if self.next == u64::MAX {
            None
        } else {
            let id = self.next;
            self.next = self.next + 1;
            Some(id)
        }
    }
}

impl SubId {
    /// A fresh subscription identity from `g`.
    pub fn new(g: &mut IdGen) -> (r: Option<SubId>)
        ensures
            old(g).next_v() < u64::MAX ==> r == Some(SubId(old(g).next_v())) && final(g).next_v()
                == old(g).next_v() + 1,
            old(g).next_v() == u64::MAX ==> r is None && final(g).next_v() == old(g).next_v(),
    {
        match g.issue() {
            Some(id) => Some(SubId(id)),
            None => None,
        }
    }
}

impl ChanId {
    /// A fresh channel identity from `g`.
    pub fn new(g: &mut IdGen) -> (r: Option<ChanId>)
        ensures
            old(g).next_v() < u64::MAX ==> r == Some(ChanId(old(g).next_v())) && final(g).next_v()
                == old(g).next_v() + 1,
            old(g).next_v() == u64::MAX ==> r is None && final(g).next_v() == old(g).next_v(),
    {
        match g.issue() {
            Some(id) => Some(ChanId(id)),
            None => None,
        }
    }
}

/// A published value. Floating-point numbers are carried as their IEEE 754
/// bit patterns; date-times as seconds and nanoseconds since the Unix epoch.
#[derive(Debug, Clone, PartialEq, Eq)]
pub enum Value {
    U32(u32),
    V32(u32),
    I32(i32),
    Z32(i32),
    U64(u64),
    V64(u64),
    I64(i64),
    Z64(i64),
    F32(u32),
    F64(u64),
    DateTime(i64, u32),
    Duration(u64, u32),
    String(String),
    Bytes(Vec<u8>),
    True,
    False,
    Null,
    Okay,
    Error(String),
}

/// The mathematical content of a `Value`.
pub enum ValueV {
    U32(u32),
    V32(u32),
    I32(i32),
    Z32(i32),
    U64(u64),
    V64(u64),
    I64(i64),
    Z64(i64),
    F32(u32),
    F64(u64),
    DateTime(i64, u32),
    Duration(u64, u32),
    String(Seq<char>),
    Bytes(Seq<u8>),
    True,
    False,
    Null,
    Okay,
    Error(Seq<char>),
}

impl View for Value {
    type V = ValueV;

    open spec fn view(&self) -> ValueV {
        match self {
            Value::U32(x) => ValueV::U32(*x),
            Value::V32(x) => ValueV::V32(*x),
            Value::I32(x) => ValueV::I32(*x),
            Value::Z32(x) => ValueV::Z32(*x),
            Value::U64(x) => ValueV::U64(*x),
            Value::V64(x) => ValueV::V64(*x),
            Value::I64(x) => ValueV::I64(*x),
            Value::Z64(x) => ValueV::Z64(*x),
            Value::F32(x) => ValueV::F32(*x),
            Value::F64(x) => ValueV::F64(*x),
            Value::DateTime(s, n) => ValueV::DateTime(*s, *n),
            Value::Duration(s, n) => ValueV::Duration(*s, *n),
            Value::String(s) => ValueV::String(s@),
            Value::Bytes(b) => ValueV::Bytes(b@),
            Value::True => ValueV::True,
            Value::False => ValueV::False,
            Value::Null => ValueV::Null,
            Value::Okay => ValueV::Okay,
            Value::Error(s) => ValueV::Error(s@),
        }
    }
}

/// A copy of `b` with the same bytes.
pub fn copy_bytes(b: &Vec<u8>) -> (r: Vec<u8>)
    ensures
        r@ == b@,
{
    let mut r: Vec<u8> = Vec::with_capacity(b.len());
    let mut i: usize = 0;
    while i < b.len()
        invariant
            i <= b@.len(),
            r@ =~= b@.subrange(0, i as int),
        decreases b.len() - i,
    {
        r.push(b[i]);
        i = i + 1;
    }
    assert(r@ =~= b@);
    r
}

impl Value {
    /// An independent copy of this value.
    pub fn duplicate(&self) -> (r: Value)
        ensures
            r@ == self@,
    {
        match self {
            Value::U32(x) => Value::U32(*x),
            Value::V32(x) => Value::V32(*x),
            Value::I32(x) => Value::I32(*x),
            Value::Z32(x) => Value::Z32(*x),
            Value::U64(x) => Value::U64(*x),
            Value::V64(x) => Value::V64(*x),
            Value::I64(x) => Value::I64(*x),
            Value::Z64(x) => Value::Z64(*x),
            Value::F32(x) => Value::F32(*x),
            Value::F64(x) => Value::F64(*x),
            Value::DateTime(s, n) => Value::DateTime(*s, *n),
            Value::Duration(s, n) => Value::Duration(*s, *n),
            Value::String(s) => Value::String(s.clone()),
            Value::Bytes(b) => Value::Bytes(copy_bytes(b)),
            Value::True => Value::True,
            Value::False => Value::False,
            Value::Null => Value::Null,
            Value::Okay => Value::Okay,
            Value::Error(s) => Value::Error(s.clone()),
        }
    }
}

/// Commands a subscriber sends to a publisher.
#[derive(Debug, Clone, PartialEq, Eq)]
pub enum ToPublisher {
    Subscribe { path: String, resolver: u64, token: Vec<u8> },
    Unsubscribe(u64),
}

/// Replies a publisher sends to a subscriber. Ids are the publisher's own,
/// unique within one connection.
#[derive(Debug, Clone, PartialEq, Eq)]
pub enum FromPublisher {
    Subscribed(String, u64, Value),
    Update(u64, Value),
    Unsubscribed(u64),
    NoSuchValue(String),
    Denied(String),
    Heartbeat,
}

/// Why a subscription failed or ended.
#[derive(Debug, Clone, Copy, PartialEq, Eq, Structural)]
pub enum SubError {
    ResolveFailed,
    PathNotFound,
    AccessDenied,
    AuthFailed,
    TimedOut,
    ConnectionDied,
    InvalidData,
    HungPublisher,
}


pub open spec fn digit_char(d: nat) -> char {
    if d == 0 {
        '0'
    } else if d == 1 {
        '1'
    } else if d == 2 {
        '2'
    } else if d == 3 {
        '3'
    } else if d == 4 {
        '4'
    } else if d == 5 {
        '5'
    } else if d == 6 {
        '6'
    } else if d == 7 {
        '7'
    } else if d == 8 {
        '8'
    } else {
        '9'
    }
}

/// Decimal digits of `n`, most significant first.
pub open spec fn dec_spec(n: nat) -> Seq<char>
    decreases n,
{
    if n < 10 {
        seq![digit_char(n)]
    } else {
        dec_spec(n / 10).push(digit_char(n % 10))
    }
}

/// Decimal text of a signed number.
pub open spec fn int_text(n: int) -> Seq<char> {
    if n < 0 {
        seq!['-'] + dec_spec((-n) as nat)
    } else {
        dec_spec(n as nat)
    }
}

/// `s` with each backslash and double quote escaped by a backslash.
pub open spec fn escape_spec(s: Seq<char>) -> Seq<char>
    decreases s.len(),
{
    if s.len() == 0 {
        Seq::empty()
    } else {
        let c = s.last();
        let e = if c == '"' || c == '\\' {
            seq!['\\', c]
        } else {
            seq![c]
        };
        escape_spec(s.drop_last()) + e
    }
}

pub open spec fn quoted(s: Seq<char>) -> Seq<char> {
    seq!['"'] + escape_spec(s) + seq!['"']
}

/// The bytes as comma-separated decimal numbers.
pub open spec fn bytes_text(b: Seq<u8>) -> Seq<char>
    decreases b.len(),
{
    if b.len() == 0 {
        Seq::empty()
    } else if b.len() == 1 {
        dec_spec(b[0] as nat)
    } else {
        bytes_text(b.drop_last()) + seq![','] + dec_spec(b.last() as nat)
    }
}

/// The text form of a value: a tag and the content, or a quoted string.
pub open spec fn value_text(v: ValueV) -> Seq<char> {
    match v {
        ValueV::U32(x) => seq!['u', '3', '2', ':'] + dec_spec(x as nat),
        ValueV::V32(x) => seq!['v', '3', '2', ':'] + dec_spec(x as nat),
        ValueV::I32(x) => seq!['i', '3', '2', ':'] + int_text(x as int),
        ValueV::Z32(x) => seq!['z', '3', '2', ':'] + int_text(x as int),
        ValueV::U64(x) => seq!['u', '6', '4', ':'] + dec_spec(x as nat),
        ValueV::V64(x) => seq!['v', '6', '4', ':'] + dec_spec(x as nat),
        ValueV::I64(x) => seq!['i', '6', '4', ':'] + int_text(x as int),
        ValueV::Z64(x) => seq!['z', '6', '4', ':'] + int_text(x as int),
        ValueV::F32(b) => seq!['f', '3', '2', 'b', 'i', 't', 's', ':'] + dec_spec(b as nat),
        ValueV::F64(b) => seq!['f', '6', '4', 'b', 'i', 't', 's', ':'] + dec_spec(b as nat),
        ValueV::DateTime(sec, ns) => seq!['d', 'a', 't', 'e', 't', 'i', 'm', 'e', ':'] + int_text(
            sec as int,
        ) + seq!['s'] + dec_spec(ns as nat) + seq!['n', 's'],
        ValueV::Duration(sec, ns) => seq!['d', 'u', 'r', 'a', 't', 'i', 'o', 'n', ':'] + dec_spec(
            sec as nat,
        ) + seq!['s'] + dec_spec(ns as nat) + seq!['n', 's'],
        ValueV::String(s) => quoted(s),
        ValueV::Bytes(b) => seq!['b', 'y', 't', 'e', 's', ':', '['] + bytes_text(b) + seq![']'],
        ValueV::True => seq!['t', 'r', 'u', 'e'],
        ValueV::False => seq!['f', 'a', 'l', 's', 'e'],
        ValueV::Null => seq!['n', 'u', 'l', 'l'],
        ValueV::Okay => seq!['o', 'k'],
        ValueV::Error(s) => seq!['e', 'r', 'r', 'o', 'r', ':'] + quoted(s),
    }
}

fn push_digit(out: &mut String, d: u64)
    requires
        d < 10,
    ensures
        final(out)@ == old(out)@.push(digit_char(d as nat)),
{
    let t = if d == 0 {
        proof { reveal_strlit("0"); }
        "0"
    } else if d == 1 {
        proof { reveal_strlit("1"); }
        "1"
    } else if d == 2 {
        proof { reveal_strlit("2"); }
        "2"
    } else if d == 3 {
        proof { reveal_strlit("3"); }
        "3"
    } else if d == 4 {
        proof { reveal_strlit("4"); }
        "4"
    } else if d == 5 {
        proof { reveal_strlit("5"); }
        "5"
    } else if d == 6 {
        proof { reveal_strlit("6"); }
        "6"
    } else if d == 7 {
        proof { reveal_strlit("7"); }
        "7"
    } else if d == 8 {
        proof { reveal_strlit("8"); }
        "8"
    } else {
        proof { reveal_strlit("9"); }
        "9"
    };
    assert(t@ =~= seq![digit_char(d as nat)]);
    out.append(t);
}

/// Append the decimal digits of `n`.
pub fn push_decimal(out: &mut String, n: u64)
    ensures
        final(out)@ == old(out)@ + dec_spec(n as nat),
    decreases n,
{
    if n >= 10 {
        push_decimal(out, n / 10);
    }
    push_digit(out, n % 10);
    if n >= 10 {
        assert(dec_spec(n as nat) == dec_spec((n / 10) as nat).push(digit_char((n % 10) as nat)));
    }
    assert(final(out)@ =~= old(out)@ + dec_spec(n as nat));
}

/// Append the decimal text of a signed number.
pub fn push_signed(out: &mut String, n: i64)
    ensures
        final(out)@ == old(out)@ + int_text(n as int),
{
    if n < 0 {
        proof { reveal_strlit("-"); }
        out.append("-");
        let m: u64 = if n == i64::MIN {
            9223372036854775808u64
        } else {
            (-n) as u64
        };
        push_decimal(out, m);
        assert(final(out)@ =~= old(out)@ + int_text(n as int));
    } else {
        push_decimal(out, n as u64);
    }
}

/// Append `s` between double quotes, escaping backslashes and quotes.
pub fn push_quoted(out: &mut String, s: &String)
    ensures
        final(out)@ == old(out)@ + quoted(s@),
{
    let ghost o0 = out@;
    proof { reveal_strlit("\""); }
    out.append("\"");
    let st = s.as_str();
    let n = st.unicode_len();
    let mut i: usize = 0;
    while i < n
        invariant
            i <= n,
            n == s@.len(),
            st@ == s@,
            out@ == o0 + seq!['"'] + escape_spec(s@.take(i as int)),
        decreases n - i,
    {
        let c = st.get_char(i);
        proof {
            assert(s@.take(i + 1).drop_last() =~= s@.take(i as int));
            assert(s@.take(i + 1).last() == c);
        }
        if c == '"' {
            proof { reveal_strlit("\\\""); }
            out.append("\\\"");
        } else if c == '\\' {
            proof { reveal_strlit("\\\\"); }
            out.append("\\\\");
        } else {
            out.append(st.substring_char(i, i + 1));
        }
        assert(out@ =~= o0 + seq!['"'] + escape_spec(s@.take(i + 1)));
        i = i + 1;
    }
    assert(s@.take(n as int) =~= s@);
    out.append("\"");
    assert(out@ =~= o0 + quoted(s@));
}

fn push_bytes(out: &mut String, b: &Vec<u8>)
    ensures
        final(out)@ == old(out)@ + bytes_text(b@),
{
    let ghost o0 = out@;
    let mut i: usize = 0;
    assert(bytes_text(b@.take(0)) =~= Seq::<char>::empty());
    while i < b.len()
        invariant
            i <= b@.len(),
            out@ == o0 + bytes_text(b@.take(i as int)),
        decreases b.len() - i,
    {
        proof {
            assert(b@.take(i + 1).drop_last() =~= b@.take(i as int));
        }
        if i > 0 {
            proof { reveal_strlit(","); }
            out.append(",");
        }
        push_decimal(out, b[i] as u64);
        proof {
            if i == 0 {
                assert(b@.take(1) =~= seq![b@[0]]);
            }
        }
        assert(out@ =~= o0 + bytes_text(b@.take(i + 1)));
        i = i + 1;
    }
    assert(b@.take(i as int) =~= b@);
}

impl Value {
    /// Append the text form of this value.
    pub fn push_text(&self, out: &mut String)
        ensures
            final(out)@ == old(out)@ + value_text(self@),
    {
        let ghost o0 = out@;
        match self {
            Value::U32(x) => {
                proof { reveal_strlit("u32:"); }
                out.append("u32:");
                push_decimal(out, *x as u64);
            },
            Value::V32(x) => {
                proof { reveal_strlit("v32:"); }
                out.append("v32:");
                push_decimal(out, *x as u64);
            },
            Value::I32(x) => {
                proof { reveal_strlit("i32:"); }
                out.append("i32:");
                push_signed(out, *x as i64);
            },
            Value::Z32(x) => {
                proof { reveal_strlit("z32:"); }
                out.append("z32:");
                push_signed(out, *x as i64);
            },
            Value::U64(x) => {
                proof { reveal_strlit("u64:"); }
                out.append("u64:");
                push_decimal(out, *x);
            },
            Value::V64(x) => {
                proof { reveal_strlit("v64:"); }
                out.append("v64:");
                push_decimal(out, *x);
            },
            Value::I64(x) => {
                proof { reveal_strlit("i64:"); }
                out.append("i64:");
                push_signed(out, *x);
            },
            Value::Z64(x) => {
                proof { reveal_strlit("z64:"); }
                out.append("z64:");
                push_signed(out, *x);
            },
            Value::F32(b) => {
                proof { reveal_strlit("f32bits:"); }
                out.append("f32bits:");
                push_decimal(out, *b as u64);
            },
            Value::F64(b) => {
                proof { reveal_strlit("f64bits:"); }
                out.append("f64bits:");
                push_decimal(out, *b);
            },
            Value::DateTime(sec, ns) => {
                proof { reveal_strlit("datetime:"); reveal_strlit("s"); reveal_strlit("ns"); }
                out.append("datetime:");
                push_signed(out, *sec);
                out.append("s");
                push_decimal(out, *ns as u64);
                out.append("ns");
            },
            Value::Duration(sec, ns) => {
                proof { reveal_strlit("duration:"); reveal_strlit("s"); reveal_strlit("ns"); }
                out.append("duration:");
                push_decimal(out, *sec);
                out.append("s");
                push_decimal(out, *ns as u64);
                out.append("ns");
            },
            Value::String(s) => {
                push_quoted(out, s);
            },
            Value::Bytes(b) => {
                proof { reveal_strlit("bytes:["); reveal_strlit("]"); }
                out.append("bytes:[");
                push_bytes(out, b);
                out.append("]");
            },
            Value::True => {
                proof { reveal_strlit("true"); }
                out.append("true");
            },
            Value::False => {
                proof { reveal_strlit("false"); }
                out.append("false");
            },
            Value::Null => {
                proof { reveal_strlit("null"); }
                out.append("null");
            },
            Value::Okay => {
                proof { reveal_strlit("ok"); }
                out.append("ok");
            },
            Value::Error(s) => {
                proof { reveal_strlit("error:"); }
                out.append("error:");
                push_quoted(out, s);
            },
        }
        assert(out@ =~= o0 + value_text(self@));
    }

    /// The text form of this value.
    pub fn to_text(&self) -> (r: String)
        ensures
            r@ == value_text(self@),
    {
        let mut out = String::new();
        self.push_text(&mut out);
        assert(out@ =~= value_text(self@));
        out
    }
}

/// Whether two byte buffers hold the same bytes.
pub fn bytes_equal(a: &Vec<u8>, b: &Vec<u8>) -> (r: bool)
    ensures
        r == (a@ == b@),
{
    if a.len() != b.len() {
        return false;
    }
    let mut i: usize = 0;
    while i < a.len()
        invariant
            i <= a@.len(),
            a@.len() == b@.len(),
            forall|j: int| 0 <= j < i ==> a@[j] == b@[j],
        decreases a.len() - i,
    {
        if a[i] != b[i] {
            return false;
        }
        i = i + 1;
    }
    assert(a@ =~= b@);
    true
}

impl Value {
    /// Whether two values have the same content.
    pub fn same(&self, other: &Value) -> (r: bool)
        ensures
            r == (self@ == other@),
    {
        match (self, other) {
            (Value::U32(x), Value::U32(y)) => *x == *y,
            (Value::V32(x), Value::V32(y)) => *x == *y,
            (Value::I32(x), Value::I32(y)) => *x == *y,
            (Value::Z32(x), Value::Z32(y)) => *x == *y,
            (Value::U64(x), Value::U64(y)) => *x == *y,
            (Value::V64(x), Value::V64(y)) => *x == *y,
            (Value::I64(x), Value::I64(y)) => *x == *y,
            (Value::Z64(x), Value::Z64(y)) => *x == *y,
            (Value::F32(x), Value::F32(y)) => *x == *y,
            (Value::F64(x), Value::F64(y)) => *x == *y,
            (Value::DateTime(s1, n1), Value::DateTime(s2, n2)) => *s1 == *s2 && *n1 == *n2,
            (Value::Duration(s1, n1), Value::Duration(s2, n2)) => *s1 == *s2 && *n1 == *n2,
            (Value::String(x), Value::String(y)) => *x == *y,
            (Value::Bytes(x), Value::Bytes(y)) => bytes_equal(x, y),
            (Value::True, Value::True) => true,
            (Value::False, Value::False) => true,
            (Value::Null, Value::Null) => true,
            (Value::Okay, Value::Okay) => true,
            (Value::Error(x), Value::Error(y)) => *x == *y,
            _ => false,
        }
    }
}

} // verus!
