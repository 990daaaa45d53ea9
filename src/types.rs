//! The closed set of field types: wire size, ordering weight, canonical
//! names and parsing from the type names of a dialect document.
use std::cmp::Ordering;
use vstd::prelude::*;
use vstd::string::*;

use crate::text::{decimal, find_char, first_index_of, parse_unsigned, push_decimal, str_eq, unsigned_value};

verus! {

#[derive(Debug, Default)]
pub enum MavType {
    UInt8MavlinkVersion,
    #[default]
    UInt8,
    UInt16,
    UInt32,
    UInt64,
    Int8,
    Int16,
    Int32,
    Int64,
    Char,
    Float,
    Double,
    String(usize),
    Array(Box<MavType>, usize),
}

/// The width in bytes of a scalar, and of the single character of a string.
pub open spec fn scalar_width(t: MavType) -> nat {
    match t {
        MavType::UInt8MavlinkVersion | MavType::UInt8 | MavType::Int8 | MavType::Char => 1,
        MavType::UInt16 | MavType::Int16 => 2,
        MavType::UInt32 | MavType::Int32 | MavType::Float => 4,
        MavType::UInt64 | MavType::Int64 | MavType::Double => 8,
        MavType::String(_) => 1,
        MavType::Array(_, _) => 0,
    }
}

/// Number of bytes a value of the type takes on the wire.
pub open spec fn wire_size(t: MavType) -> nat
    decreases t,
{
    match t {
        MavType::String(n) => n as nat,
        MavType::Array(e, n) => wire_size(*e) * (n as nat),
        _ => scalar_width(t),
    }
}

/// The weight by which core fields are ordered: the element size for
/// arrays and strings, the size otherwise.
pub open spec fn order_weight(t: MavType) -> nat {
    match t {
        MavType::Array(e, _) => wire_size(*e),
        _ => scalar_width(t),
    }
}

/// Whether the sizes of the type and of its element fit in a `usize`.
pub open spec fn sizes_fit(t: MavType) -> bool
    decreases t,
{
    match t {
        MavType::Array(e, _) => sizes_fit(*e) && wire_size(t) <= usize::MAX,
        _ => wire_size(t) <= usize::MAX,
    }
}

/// Whether the ordering weight fits in a `usize`.
pub open spec fn weight_fits(t: MavType) -> bool {
    match t {
        MavType::Array(e, _) => sizes_fit(*e),
        _ => true,
    }
}

/// Whether the type is a scalar.
pub open spec fn is_scalar(t: MavType) -> bool {
    !(t is String) && !(t is Array)
}

/// A type the format can express: a scalar, a string, or an array whose
/// element is a scalar.
pub open spec fn valid_type(t: MavType) -> bool {
    match t {
        MavType::Array(e, _) => is_scalar(*e),
        _ => true,
    }
}

/// The ordering weight of a valid type is one of the scalar widths.
pub proof fn lemma_valid_weight(t: MavType)
    requires
        valid_type(t),
    ensures
        weight_fits(t),
        order_weight(t) == 1 || order_weight(t) == 2 || order_weight(t) == 4 || order_weight(t) == 8,
{
}

/// The canonical scalar type name, looking through arrays to their element.
pub open spec fn primitive_name(t: MavType) -> Seq<char>
    decreases t,
{
    match t {
        MavType::UInt8MavlinkVersion | MavType::UInt8 => "uint8_t"@,
        MavType::Int8 => "int8_t"@,
        MavType::Char | MavType::String(_) => "char"@,
        MavType::UInt16 => "uint16_t"@,
        MavType::Int16 => "int16_t"@,
        MavType::UInt32 => "uint32_t"@,
        MavType::Int32 => "int32_t"@,
        MavType::Float => "float"@,
        MavType::UInt64 => "uint64_t"@,
        MavType::Int64 => "int64_t"@,
        MavType::Double => "double"@,
        MavType::Array(e, _) => primitive_name(*e),
    }
}

/// The Rust type that represents the type in generated code.
pub open spec fn rust_name(t: MavType) -> Seq<char>
    decreases t,
{
    match t {
        MavType::UInt8MavlinkVersion | MavType::UInt8 | MavType::Char => "u8"@,
        MavType::Int8 => "i8"@,
        MavType::UInt16 => "u16"@,
        MavType::Int16 => "i16"@,
        MavType::UInt32 => "u32"@,
        MavType::Int32 => "i32"@,
        MavType::Float => "f32"@,
        MavType::UInt64 => "u64"@,
        MavType::Int64 => "i64"@,
        MavType::Double => "f64"@,
        MavType::String(n) => "arrayvec::ArrayString<"@ + decimal(n as nat) + ">"@,
        MavType::Array(e, n) => "["@ + rust_name(*e) + ";"@ + decimal(n as nat) + "]"@,
    }
}

/// The Rust type of a scalar, or of an array's element.
pub open spec fn rust_primitive_name(t: MavType) -> Seq<char>
    decreases t,
{
    match t {
        MavType::Array(e, _) => rust_primitive_name(*e),
        _ => rust_name(t),
    }
}

/// The type a dialect document's type name denotes: a scalar name, or a
/// name followed by `[N]`, which is a string for `char` and an array otherwise.
pub open spec fn type_of_name(s: Seq<char>) -> Option<MavType>
    decreases s.len(),
{
    if s == "uint8_t_mavlink_version"@ { Some(MavType::UInt8MavlinkVersion) }
    else if s == "uint8_t"@ { Some(MavType::UInt8) }
    else if s == "uint16_t"@ { Some(MavType::UInt16) }
    else if s == "uint32_t"@ { Some(MavType::UInt32) }
    else if s == "uint64_t"@ { Some(MavType::UInt64) }
    else if s == "int8_t"@ { Some(MavType::Int8) }
    else if s == "int16_t"@ { Some(MavType::Int16) }
    else if s == "int32_t"@ { Some(MavType::Int32) }
    else if s == "int64_t"@ { Some(MavType::Int64) }
    else if s == "char"@ { Some(MavType::Char) }
    else if s == "float"@ { Some(MavType::Float) }
    else if s == "Double"@ || s == "double"@ { Some(MavType::Double) }
    else if s.len() > 0 && s.last() == ']' {
        match first_index_of(s, '[') {
            None => None,
            Some(start) => if 0 <= start < s.len() - 1 {
                match unsigned_value(s.subrange(start + 1, s.len() - 1)) {
                    None => None,
                    Some(n) => if n > usize::MAX {
                        None
                    } else {
                        match type_of_name(s.subrange(0, start)) {
                            None => None,
                            Some(MavType::Char) => Some(MavType::String(n as usize)),
                            Some(e) => Some(MavType::Array(Box::new(e), n as usize)),
                        }
                    },
                }
            } else {
                None
            },
        }
    } else {
        None
    }
}

fn names_scalar(s: &str) -> (r: Option<MavType>)
    ensures
        r == (if s@ == "uint8_t_mavlink_version"@ { Some(MavType::UInt8MavlinkVersion) }
        else if s@ == "uint8_t"@ { Some(MavType::UInt8) }
        else if s@ == "uint16_t"@ { Some(MavType::UInt16) }
        else if s@ == "uint32_t"@ { Some(MavType::UInt32) }
        else if s@ == "uint64_t"@ { Some(MavType::UInt64) }
        else if s@ == "int8_t"@ { Some(MavType::Int8) }
        else if s@ == "int16_t"@ { Some(MavType::Int16) }
        else if s@ == "int32_t"@ { Some(MavType::Int32) }
        else if s@ == "int64_t"@ { Some(MavType::Int64) }
        else if s@ == "char"@ { Some(MavType::Char) }
        else if s@ == "float"@ { Some(MavType::Float) }
        else if s@ == "Double"@ || s@ == "double"@ { Some(MavType::Double) }
        else { None::<MavType> }),
{

    if str_eq(s, "uint8_t_mavlink_version") { Some(MavType::UInt8MavlinkVersion) }
    else if str_eq(s, "uint8_t") { Some(MavType::UInt8) }
    else if str_eq(s, "uint16_t") { Some(MavType::UInt16) }
    else if str_eq(s, "uint32_t") { Some(MavType::UInt32) }
    else if str_eq(s, "uint64_t") { Some(MavType::UInt64) }
    else if str_eq(s, "int8_t") { Some(MavType::Int8) }
    else if str_eq(s, "int16_t") { Some(MavType::Int16) }
    else if str_eq(s, "int32_t") { Some(MavType::Int32) }
    else if str_eq(s, "int64_t") { Some(MavType::Int64) }
    else if str_eq(s, "char") { Some(MavType::Char) }
    else if str_eq(s, "float") { Some(MavType::Float) }
    else if str_eq(s, "Double") || str_eq(s, "double") { Some(MavType::Double) }
    else { None }
}

fn copy_type(t: &MavType) -> (r: MavType)
    ensures
        r == *t,
    decreases t,
{
    match t {
        MavType::UInt8MavlinkVersion => MavType::UInt8MavlinkVersion,
        MavType::UInt8 => MavType::UInt8,
        MavType::UInt16 => MavType::UInt16,
        MavType::UInt32 => MavType::UInt32,
        MavType::UInt64 => MavType::UInt64,
        MavType::Int8 => MavType::Int8,
        MavType::Int16 => MavType::Int16,
        MavType::Int32 => MavType::Int32,
        MavType::Int64 => MavType::Int64,
        MavType::Char => MavType::Char,
        MavType::Float => MavType::Float,
        MavType::Double => MavType::Double,
        MavType::String(n) => MavType::String(*n),
        MavType::Array(e, n) => MavType::Array(Box::new(copy_type(e)), *n),
    }
}

fn same_type(a: &MavType, b: &MavType) -> (r: bool)
    ensures
        r == (*a == *b),
    decreases a,
{
    match (a, b) {
        (MavType::UInt8MavlinkVersion, MavType::UInt8MavlinkVersion) => true,
        (MavType::UInt8, MavType::UInt8) => true,
        (MavType::UInt16, MavType::UInt16) => true,
        (MavType::UInt32, MavType::UInt32) => true,
        (MavType::UInt64, MavType::UInt64) => true,
        (MavType::Int8, MavType::Int8) => true,
        (MavType::Int16, MavType::Int16) => true,
        (MavType::Int32, MavType::Int32) => true,
        (MavType::Int64, MavType::Int64) => true,
        (MavType::Char, MavType::Char) => true,
        (MavType::Float, MavType::Float) => true,
        (MavType::Double, MavType::Double) => true,
        (MavType::String(n), MavType::String(m)) => *n == *m,
        (MavType::Array(e, n), MavType::Array(f, m)) => *n == *m && same_type(e, f),
        _ => false,
    }
}

impl Clone for MavType {
    fn clone(&self) -> (r: Self)
        ensures
            r == *self,
    {
        copy_type(self)
    }
}

impl PartialEq for MavType {
    fn eq(&self, other: &MavType) -> (r: bool) {
        same_type(self, other)
    }
}

impl vstd::std_specs::cmp::PartialEqSpecImpl for MavType {
    open spec fn obeys_eq_spec() -> bool {
        true
    }

    open spec fn eq_spec(&self, other: &MavType) -> bool {
        *self == *other
    }
}

impl MavType {
    /// Reads a type name of a dialect document (`uint16_t`, `char[16]`,
    /// `float[4]`); `None` for a name that denotes no type.
    #[verifier::rlimit(40)]
    pub fn parse_type(s: &str) -> (r: Option<Self>)
        ensures
            r == type_of_name(s@),
            r matches Some(t) ==> valid_type(t),
            r matches Some(t) ==> (is_scalar(t) || exists|i: int| 0 <= i < s@.len() && s@[i] == '['),
        decreases s@.len(),
    {
        let scalar = names_scalar(s);
        if scalar.is_some() {
            return scalar;
        }
        let n = s.unicode_len();
        if n == 0 || s.get_char(n - 1) != ']' {
            return None;
        }
        let start = match find_char(s, '[') {
            None => {
                return None;
            },
            Some(i) => i,
        };
        if start >= n - 1 {
            return None;
        }
        let size = match parse_unsigned(s.substring_char(start + 1, n - 1)) {
            None => {
                return None;
            },
            Some(v) => v,
        };
        assert(s@[start as int] == '[');
        let prefix = s.substring_char(0, start);
        assert(forall|j: int| 0 <= j < prefix@.len() ==> prefix@[j] == s@[j]);
        let elem = match Self::parse_type(prefix) {
            None => {
                return None;
            },
            Some(e) => e,
        };
        match elem {
            MavType::Char => Some(MavType::String(size)),
            _ => Some(MavType::Array(Box::new(elem), size)),
        }
    }

    /// Number of bytes a value of this type takes on the wire.
    pub fn len(&self) -> (r: usize)
        requires
            sizes_fit(*self),
        ensures
            r == wire_size(*self),
        decreases self,
    {
        match self {
            MavType::UInt8MavlinkVersion | MavType::UInt8 | MavType::Int8 | MavType::Char => 1,
            MavType::UInt16 | MavType::Int16 => 2,
            MavType::UInt32 | MavType::Int32 | MavType::Float => 4,
            MavType::UInt64 | MavType::Int64 | MavType::Double => 8,
            MavType::String(size) => *size,
            MavType::Array(t, size) => t.len() * *size,
        }
    }

    /// The weight that orders core fields: the element size for arrays and
    /// strings, the size otherwise.
    pub fn order_len(&self) -> (r: usize)
        requires
            weight_fits(*self),
        ensures
            r == order_weight(*self),
    {
        match self {
            MavType::String(_) => 1,
            MavType::Array(t, _) => t.len(),
            MavType::UInt8MavlinkVersion | MavType::UInt8 | MavType::Int8 | MavType::Char => 1,
            MavType::UInt16 | MavType::Int16 => 2,
            MavType::UInt32 | MavType::Int32 | MavType::Float => 4,
            MavType::UInt64 | MavType::Int64 | MavType::Double => 8,
        }
    }

    /// The canonical scalar type name, used by the layout fingerprint.
    pub fn primitive_type(&self) -> (r: String)
        ensures
            r@ == primitive_name(*self),
        decreases self,
    {
        match self {
            MavType::UInt8MavlinkVersion => String::from_str("uint8_t"),
            MavType::UInt8 => String::from_str("uint8_t"),
            MavType::Int8 => String::from_str("int8_t"),
            MavType::Char => String::from_str("char"),
            MavType::UInt16 => String::from_str("uint16_t"),
            MavType::Int16 => String::from_str("int16_t"),
            MavType::UInt32 => String::from_str("uint32_t"),
            MavType::Int32 => String::from_str("int32_t"),
            MavType::Float => String::from_str("float"),
            MavType::UInt64 => String::from_str("uint64_t"),
            MavType::Int64 => String::from_str("int64_t"),
            MavType::Double => String::from_str("double"),
            MavType::String(_) => String::from_str("char"),
            MavType::Array(t, _) => t.primitive_type(),
        }
    }

    /// The Rust type that stands for this type in generated code.
    pub fn rust_type(&self) -> (r: String)
        ensures
            r@ == rust_name(*self),
        decreases self,
    {
        match self {
            MavType::UInt8 | MavType::UInt8MavlinkVersion => String::from_str("u8"),
            MavType::Int8 => String::from_str("i8"),
            MavType::Char => String::from_str("u8"),
            MavType::UInt16 => String::from_str("u16"),
            MavType::Int16 => String::from_str("i16"),
            MavType::UInt32 => String::from_str("u32"),
            MavType::Int32 => String::from_str("i32"),
            MavType::Float => String::from_str("f32"),
            MavType::UInt64 => String::from_str("u64"),
            MavType::Int64 => String::from_str("i64"),
            MavType::Double => String::from_str("f64"),
            MavType::String(size) => {
                let mut r = String::from_str("arrayvec::ArrayString<");
                push_decimal(&mut r, *size);
                r.append(">");
                r
            },
            MavType::Array(t, size) => {
                let inner = t.rust_type();
                let mut r = String::from_str("[");
                r.append(inner.as_str());
                r.append(";");
                push_decimal(&mut r, *size);
                r.append("]");
                r
            },
        }
    }

    /// The Rust type of a scalar, or of the element of an array.
    pub fn rust_primitive_type(&self) -> (r: String)
        ensures
            r@ == rust_primitive_name(*self),
        decreases self,
    {
        match self {
            MavType::Array(t, _) => t.rust_primitive_type(),
            _ => self.rust_type(),
        }
    }

    /// Orders types by descending ordering weight, so that a sort by this
    /// comparison puts the widest types first.
    pub fn compare(&self, other: &Self) -> (r: Ordering)
        requires
            weight_fits(*self),
            weight_fits(*other),
        ensures
            r == (if order_weight(*self) > order_weight(*other) {
                Ordering::Less
            } else if order_weight(*self) == order_weight(*other) {
                Ordering::Equal
            } else {
                Ordering::Greater
            }),
    {
        let a = self.order_len();
        let b = other.order_len();
        if a > b {
            Ordering::Less
        } else if a == b {
            Ordering::Equal
        } else {
            Ordering::Greater
        }
    }
}

} // verus!
