//! Column types and the schema of one table: each column validates raw
//! input text into a typed attribute value.

use crate::row::SQLType;
use vstd::prelude::*;

verus! {

use vstd::utf8::encode_utf8;

/// Every byte is an ASCII decimal digit.
pub open spec fn spec_all_digits(s: Seq<u8>) -> bool {
    forall|i: int| 0 <= i < s.len() ==> 48 <= #[trigger] s[i] <= 57
}

/// Numeric value of a string of ASCII decimal digits.
pub open spec fn spec_digits_val(s: Seq<u8>) -> int
    decreases s.len(),
{
    if s.len() == 0 {
        0
    } else {
        spec_digits_val(s.drop_last()) * 10 + (s.last() - 48)
    }
}

/// Decimal parse of an unsigned number: an optional leading `+`, then at
/// least one digit, rejecting values above the given bound.
pub open spec fn spec_parse_uint(s: Seq<u8>, bound: int) -> Option<int> {
    let digits = if s.len() > 0 && s[0] == 43 {
        s.drop_first()
    } else {
        s
    };
    if digits.len() > 0 && spec_all_digits(digits) && spec_digits_val(digits) <= bound {
        Some(spec_digits_val(digits))
    } else {
        None
    }
}

/// Decimal parse of an `i32`: an optional sign, then at least one digit,
/// rejecting values outside the type's range.
pub open spec fn spec_parse_i32(s: Seq<u8>) -> Option<i32> {
    if s.len() > 0 && s[0] == 45 {
        match spec_parse_uint(s.drop_first(), 0x80000000) {
            Some(v) => if s.drop_first().len() > 0 && s.drop_first()[0] == 43 {
                None
            } else {
                Some((-v) as i32)
            },
            None => None,
        }
    } else {
        match spec_parse_uint(s, 0x7fffffff) {
            Some(v) => Some(v as i32),
            None => None,
        }
    }
}

/// The value of a digit string never shrinks as digits are appended.
proof fn lemma_digits_val_monotone(s: Seq<u8>, k: int)
    requires
        0 <= k <= s.len(),
        spec_all_digits(s),
    ensures
        spec_digits_val(s.take(k)) <= spec_digits_val(s),
        spec_digits_val(s) >= 0,
    decreases s.len() - k,
{
    if k == s.len() {
        assert(s.take(k) =~= s);
        lemma_digits_val_nonneg(s);
    } else {
        lemma_digits_val_monotone(s, k + 1);
        lemma_digits_val_nonneg(s.take(k));
        assert(s.take(k + 1).drop_last() =~= s.take(k));
        assert(spec_digits_val(s.take(k + 1)) == spec_digits_val(s.take(k)) * 10 + (s[k] - 48));
    }
}

proof fn lemma_digits_val_nonneg(s: Seq<u8>)
    requires
        spec_all_digits(s),
    ensures
        spec_digits_val(s) >= 0,
    decreases s.len(),
{
    if s.len() > 0 {
        assert(spec_all_digits(s.drop_last()));
        lemma_digits_val_nonneg(s.drop_last());
    }
}

/// Parse an unsigned decimal number out of digit bytes, up to `bound`.
#[verifier::loop_isolation(false)]
fn parse_uint_bytes(s: &[u8], bound: u64) -> (r: Option<u64>)
    ensures
        r matches Some(v) ==> spec_parse_uint(s@, bound as int) == Some(v as int),
        r is None ==> spec_parse_uint(s@, bound as int) is None,
{
    let v = vstd::slice::slice_to_vec(s);
    let start: usize = if v.len() > 0 && v[0] == 43 {
        1
    } else {
        0
    };
    let ghost digits = if s@.len() > 0 && s@[0] == 43 {
        s@.drop_first()
    } else {
        s@
    };
    proof {
        assert(digits =~= v@.subrange(start as int, v@.len() as int));
    }
    let n = v.len();
    if start >= n {
        return None;
    }
    let mut acc: u64 = 0;
    let mut i: usize = start;
    while i < n
        invariant
            start <= i <= n,
            n == v@.len(),
            v@ == s@,
            digits == v@.subrange(start as int, n as int),
            spec_all_digits(digits.take(i - start)),
            acc == spec_digits_val(digits.take(i - start)),
            acc <= bound,
        decreases n - i,
    {
        let b = v[i];
        if b < 48 || b > 57 {
            proof {
                assert(digits[i - start] == b);
                assert(!spec_all_digits(digits));
            }
            return None;
        }
        let d = (b - 48) as u64;
        proof {
            assert(digits.take(i - start + 1).drop_last() =~= digits.take(i - start));
        }
        if acc > bound / 10 {
            // The next value would exceed the bound, and appending more
            // digits can only grow it.
            proof {
                if spec_all_digits(digits) {
                    lemma_digits_val_monotone(digits, i - start + 1);
                    assert(spec_digits_val(digits.take(i - start + 1)) == acc * 10 + d);
                    assert(bound == (bound / 10) * 10 + bound % 10);
                    assert(acc * 10 > bound);
                }
                assert(spec_parse_uint(s@, bound as int) is None);
            }
            return None;
        }
        proof {
            assert(acc * 10 <= (bound / 10) * 10 <= bound);
        }
        let acc10 = 10 * acc;
        if d > bound - acc10 {
            proof {
                if spec_all_digits(digits) {
                    lemma_digits_val_monotone(digits, i - start + 1);
                    assert(spec_digits_val(digits.take(i - start + 1)) == acc * 10 + d);
                }
                assert(spec_parse_uint(s@, bound as int) is None);
            }
            return None;
        }
        acc = acc10 + d;
        i += 1;
    }
    proof {
        assert(digits.take(n - start) =~= digits);
    }
    Some(acc)
}

/// Column kinds for integer-valued columns.
#[derive(Debug, Clone, PartialEq, Eq, Structural)]
pub enum IntegerType {
    Int,
    UBigInt,
}

/// Column kinds for text-valued columns: `varchar` with a byte limit.
#[derive(Debug, Clone, PartialEq, Eq, Structural)]
pub enum TextType {
    Varchar(u8),
}

/// A column type validates raw input text into a typed value.
pub trait ColumnType {
    /// Whether `validate` accepts this input.
    spec fn spec_accepts(&self, input: &str) -> bool;

    /// What an accepted input validates to.
    spec fn spec_validates_to(&self, input: &str, v: SQLType) -> bool;

    /// Check raw input text against this column type, producing the typed
    /// value on success.
    fn validate(&self, input: &str) -> (r: Option<SQLType>)
        ensures
            r is Some <==> self.spec_accepts(input),
            r matches Some(v) ==> self.spec_validates_to(input, v),
    ;
}

impl ColumnType for IntegerType {
    open spec fn spec_accepts(&self, input: &str) -> bool {
        match self {
            IntegerType::Int => spec_parse_i32(encode_utf8(input@)) is Some,
            IntegerType::UBigInt => spec_parse_uint(encode_utf8(input@), 0xffffffffffffffff)
                is Some,
        }
    }

    open spec fn spec_validates_to(&self, input: &str, v: SQLType) -> bool {
        match self {
            IntegerType::Int => v == Some(SQLType::Integer(
                spec_parse_i32(encode_utf8(input@))->Some_0,
            ))->Some_0,
            IntegerType::UBigInt => v == Some(SQLType::UBigInt(
                spec_parse_uint(encode_utf8(input@), 0xffffffffffffffff)->Some_0 as u64,
            ))->Some_0,
        }
    }

    fn validate(&self, input: &str) -> (r: Option<SQLType>)
        ensures
            r is Some <==> self.spec_accepts(input),
            r matches Some(v) ==> self.spec_validates_to(input, v),
    {
        let bytes = input.as_bytes();
        match self {
            IntegerType::Int => {
                let (neg, digits_start): (bool, usize) = if bytes.len() > 0 && *vstd::slice::slice_index_get(bytes, 0) == 45 {
                    (true, 1)
                } else {
                    (false, 0)
                };
                if neg {
                    let rest = vstd::slice::slice_subrange(bytes, 1, bytes.len());
                    match parse_uint_bytes(rest, 0x80000000) {
                        Some(v) => {
                            if rest.len() > 0 && *vstd::slice::slice_index_get(rest, 0) == 43 {
                                None
                            } else {
                                Some(SQLType::Integer((-(v as i64)) as i32))
                            }
                        },
                        None => None,
                    }
                } else {
                    match parse_uint_bytes(bytes, 0x7fffffff) {
                        Some(v) => Some(SQLType::Integer(v as i32)),
                        None => None,
                    }
                }
            },
            IntegerType::UBigInt => {
                match parse_uint_bytes(bytes, 0xffffffffffffffff) {
                    Some(v) => Some(SQLType::UBigInt(v)),
                    None => None,
                }
            },
        }
    }
}

impl ColumnType for TextType {
    open spec fn spec_accepts(&self, input: &str) -> bool {
        match self {
            TextType::Varchar(max_size) => encode_utf8(input@).len() <= *max_size,
        }
    }

    open spec fn spec_validates_to(&self, input: &str, v: SQLType) -> bool {
        v matches SQLType::Text(s) && s@ == input@
    }

    fn validate(&self, input: &str) -> (r: Option<SQLType>)
        ensures
            r is Some <==> self.spec_accepts(input),
            r matches Some(v) ==> self.spec_validates_to(input, v),
    {
        match self {
            TextType::Varchar(max_size) => {
                if input.as_bytes().len() <= *max_size as usize {
                    Some(SQLType::Text(input.to_owned()))
                } else {
                    None
                }
            },
        }
    }
}

/// A column's type: an integer kind or a text kind.
#[derive(Debug, Clone, PartialEq, Eq, Structural)]
pub enum ColumnItemType {
    Integer(IntegerType),
    Text(TextType),
}

/// Check raw input against either kind of column type.
pub fn validate_column(input: &str, column_type: &ColumnItemType) -> (r: Option<SQLType>)
    ensures
        column_type matches ColumnItemType::Integer(t) ==> (r is Some <==> t.spec_accepts(input))
            && (r matches Some(v) ==> t.spec_validates_to(input, v)),
        column_type matches ColumnItemType::Text(t) ==> (r is Some <==> t.spec_accepts(input)) && (
        r matches Some(v) ==> t.spec_validates_to(input, v)),
{
    match column_type {
        ColumnItemType::Integer(int_type) => int_type.validate(input),
        ColumnItemType::Text(text_type) => text_type.validate(input),
    }
}

/// A table's schema: the column names with their types, in order.
#[derive(Debug, Clone)]
pub struct Columns(pub Vec<(String, ColumnItemType)>);

impl Columns {
    /// An empty schema.
    pub fn new() -> (r: Columns)
        ensures
            r.0@.len() == 0,
    {
        Columns(Vec::new())
    }

    /// The column names, in schema order.
    pub fn to_printable(&self) -> (r: Vec<String>)
        ensures
            r@.len() == self.0@.len(),
            forall|i: int| 0 <= i < r@.len() ==> (#[trigger] r@[i])@ == self.0@[i].0@,
    {
        let mut out: Vec<String> = Vec::new();
        let n = self.0.len();
        let mut i: usize = 0;
        while i < n
            invariant
                i <= n,
                n == self.0@.len(),
                out@.len() == i,
                forall|j: int| 0 <= j < i ==> (#[trigger] out@[j])@ == self.0@[j].0@,
            decreases n - i,
        {
            out.push(self.0[i].0.clone());
            i += 1;
        }
        out
    }
}

} // verus!
