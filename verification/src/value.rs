//! Values held in the columns of a tuple, and content identifiers.

use vstd::prelude::*;
use vstd::utf8::encode_utf8;

verus! {

/// What `cid::Cid::try_from` makes of `bytes`, written back as bytes: the
/// binary form of the content identifier that `bytes` starts with, or `None`
/// where `bytes` does not start with one.
pub uninterp spec fn binary_cid(bytes: Seq<u8>) -> Option<Seq<u8>>;

/// Reads a content identifier with `cid::Cid::try_from` and writes it back
/// with `to_bytes`. The contract only names the outcome: the same bytes give
/// the same identifier, and nothing more is claimed of it.
#[verifier::external_body]
fn read_binary_cid(bytes: &Vec<u8>) -> (r: Option<Vec<u8>>)
    ensures
        r.is_some() == binary_cid(bytes@).is_some(),
        r matches Some(b) ==> b@ == binary_cid(bytes@).unwrap(),
{
    match cid::Cid::try_from(bytes.as_slice()) {
        Ok(parsed) => Some(parsed.to_bytes()),
        Err(_) => None,
    }
}

/// A content identifier: the stable name of an input fact, compared and
/// ordered by its bytes.
#[derive(Debug, PartialEq, Eq, Hash, PartialOrd, Ord)]
pub struct Cid {
    bytes: Vec<u8>,
}

impl View for Cid {
    type V = Seq<u8>;

    closed spec fn view(&self) -> Seq<u8> {
        self.bytes@
    }
}

/// Whether `a` comes before `b` in the lexicographic order of bytes.
pub open spec fn bytes_less(a: Seq<u8>, b: Seq<u8>) -> bool
    decreases a.len(),
{
    if b.len() == 0 {
        false
    } else if a.len() == 0 {
        true
    } else if a[0] != b[0] {
        a[0] < b[0]
    } else {
        bytes_less(a.drop_first(), b.drop_first())
    }
}

/// Compares two byte strings lexicographically.
pub fn bytes_lt(a: &[u8], b: &[u8]) -> (less: bool)
    ensures
        less == bytes_less(a@, b@),
{
    let mut i: usize = 0;
    assert(a@.skip(0) =~= a@ && b@.skip(0) =~= b@);
    while i < a.len() && i < b.len()
        invariant
            i <= a.len(),
            i <= b.len(),
            bytes_less(a@, b@) == bytes_less(a@.skip(i as int), b@.skip(i as int)),
        decreases a.len() - i,
    {
        proof {
            let sa = a@.skip(i as int);
            let sb = b@.skip(i as int);
            assert(sa[0] == a@[i as int]);
            assert(sb[0] == b@[i as int]);
            assert(sa.drop_first() == a@.skip(i + 1));
            assert(sb.drop_first() == b@.skip(i + 1));
        }
        if a[i] != b[i] {
            return a[i] < b[i];
        }
        i += 1;
    }
    proof {
        assert(a@.skip(i as int).len() == a.len() - i);
        assert(b@.skip(i as int).len() == b.len() - i);
    }
    i < b.len()
}

impl Cid {
    /// Reads a content identifier from its binary form. Bytes after the
    /// identifier are dropped.
    pub fn try_from_bytes(bytes: &Vec<u8>) -> (r: Option<Cid>)
        ensures
            r.is_some() == binary_cid(bytes@).is_some(),
            r matches Some(c) ==> binary_cid(bytes@) == Some(c@),
    {
        match read_binary_cid(bytes) {
            Some(canonical) => Some(Cid { bytes: canonical }),
            None => None,
        }
    }

    /// The binary form of the identifier.
    pub fn to_bytes(&self) -> (bytes: Vec<u8>)
        ensures
            bytes@ == self@,
    {
        self.bytes.clone()
    }

    /// Whether the two identifiers are the same.
    pub fn same(&self, other: &Cid) -> (eq: bool)
        ensures
            eq == (self@ == other@),
    {
        let a = &self.bytes;
        let b = &other.bytes;
        if a.len() != b.len() {
            return false;
        }
        let mut i: usize = 0;
        while i < a.len()
            invariant
                i <= a.len(),
                a.len() == b.len(),
                a@ == self@,
                b@ == other@,
                forall|j: int| 0 <= j < i ==> a@[j] == b@[j],
            decreases a.len() - i,
        {
            if a[i] != b[i] {
                assert(a@[i as int] != b@[i as int]);
                return false;
            }
            i += 1;
        }
        assert(a@ =~= b@);
        true
    }

    /// Whether this identifier comes before `other` in byte order.
    pub fn less(&self, other: &Cid) -> (less: bool)
        ensures
            less == bytes_less(self@, other@),
    {
        bytes_lt(self.bytes.as_slice(), other.bytes.as_slice())
    }
}

impl Clone for Cid {
    fn clone(&self) -> (c: Self)
        ensures
            c@ == self@,
    {
        Cid { bytes: self.bytes.clone() }
    }
}

/// A value of a column: a tagged sum over booleans, integers, strings and
/// content identifiers.
#[derive(Debug, PartialEq, Eq, Hash, PartialOrd, Ord)]
pub enum Value {
    Bool(bool),
    I64(i64),
    Str(String),
    Cid(Cid),
}

/// The mathematical content of a [`Value`].
pub enum ValueView {
    Bool(bool),
    I64(i64),
    Str(Seq<char>),
    Cid(Seq<u8>),
}

impl View for Value {
    type V = ValueView;

    open spec fn view(&self) -> ValueView {
        match self {
            Value::Bool(b) => ValueView::Bool(*b),
            Value::I64(i) => ValueView::I64(*i),
            Value::Str(s) => ValueView::Str(s@),
            Value::Cid(c) => ValueView::Cid(c@),
        }
    }
}

/// Whether `a` comes before `b`, for two values of one tag: `false` before
/// `true`, integers by size, strings by their UTF-8 bytes and identifiers by
/// their bytes. `None` where the tags differ.
pub open spec fn value_less(a: ValueView, b: ValueView) -> Option<bool> {
    match (a, b) {
        (ValueView::Bool(x), ValueView::Bool(y)) => Some(!x && y),
        (ValueView::I64(x), ValueView::I64(y)) => Some(x < y),
        (ValueView::Str(x), ValueView::Str(y)) => Some(bytes_less(encode_utf8(x), encode_utf8(y))),
        (ValueView::Cid(x), ValueView::Cid(y)) => Some(bytes_less(x, y)),
        _ => None,
    }
}

impl Value {
    pub fn from_bool(b: bool) -> (v: Value)
        ensures
            v@ == ValueView::Bool(b),
    {
        Value::Bool(b)
    }

    pub fn from_i64(i: i64) -> (v: Value)
        ensures
            v@ == ValueView::I64(i),
    {
        Value::I64(i)
    }

    pub fn from_str(s: &str) -> (v: Value)
        ensures
            v@ == ValueView::Str(s@),
    {
        Value::Str(s.to_owned())
    }

    pub fn from_cid(c: Cid) -> (v: Value)
        ensures
            v@ == ValueView::Cid(c@),
    {
        Value::Cid(c)
    }

    /// Whether the two values are equal: same tag, same content.
    pub fn same(&self, other: &Value) -> (eq: bool)
        ensures
            eq == (self@ == other@),
    {
        match (self, other) {
            (Value::Bool(a), Value::Bool(b)) => *a == *b,
            (Value::I64(a), Value::I64(b)) => *a == *b,
            (Value::Str(a), Value::Str(b)) => *a == *b,
            (Value::Cid(a), Value::Cid(b)) => a.same(b),
            _ => false,
        }
    }

    /// Whether this value comes before `other`; `None` where the two carry
    /// different tags.
    pub fn less(&self, other: &Value) -> (r: Option<bool>)
        ensures
            r == value_less(self@, other@),
    {
        match (self, other) {
            (Value::Bool(a), Value::Bool(b)) => Some(!*a && *b),
            (Value::I64(a), Value::I64(b)) => Some(*a < *b),
            (Value::Str(a), Value::Str(b)) => Some(
                bytes_lt(a.as_str().as_bytes(), b.as_str().as_bytes()),
            ),
            (Value::Cid(a), Value::Cid(b)) => Some(a.less(b)),
            _ => None,
        }
    }
}

impl Clone for Value {
    fn clone(&self) -> (v: Self)
        ensures
            v@ == self@,
    {
        match self {
            Value::Bool(b) => Value::Bool(*b),
            Value::I64(i) => Value::I64(*i),
            Value::Str(s) => Value::Str(s.clone()),
            Value::Cid(c) => Value::Cid(c.clone()),
        }
    }
}

/// The views of the items of a sequence, in order.
pub open spec fn views<T: View>(s: Seq<T>) -> Seq<T::V> {
    s.map_values(|t: T| t@)
}

} // verus!
