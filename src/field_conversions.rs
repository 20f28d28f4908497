//! Conversions between single values and fields, and typed access to a field's values.

use crate::errors::FieldExtractionError;
use crate::ifd_field::{FieldValue, IFDField};
use vstd::prelude::*;

verus! {

impl IFDField {
    /// A `Byte` field holding `val`.
    pub fn from_byte(val: u8) -> (r: Self)
        ensures
            r@ == FieldValue::Byte(seq![val]),
    {
        let v = vec![val];
        assert(v@ =~= seq![val]);
        IFDField::Byte(v)
    }

    /// A `Short` field holding `val`.
    pub fn from_short(val: u16) -> (r: Self)
        ensures
            r@ == FieldValue::Short(seq![val]),
    {
        let v = vec![val];
        assert(v@ =~= seq![val]);
        IFDField::Short(v)
    }

    /// A `Long` field holding `val`.
    pub fn from_long(val: u32) -> (r: Self)
        ensures
            r@ == FieldValue::Long(seq![val]),
    {
        let v = vec![val];
        assert(v@ =~= seq![val]);
        IFDField::Long(v)
    }

    /// A `Rational` field holding `val`.
    pub fn from_rational(val: (u32, u32)) -> (r: Self)
        ensures
            r@ == FieldValue::Rational(seq![val]),
    {
        let v = vec![val];
        assert(v@ =~= seq![val]);
        IFDField::Rational(v)
    }

    /// The values of a `Byte` field.
    pub fn bytes(&self) -> (r: Result<&[u8], FieldExtractionError>)
        ensures
            self@ is Byte <==> r is Ok,
            r is Ok ==> self@ == FieldValue::Byte(r->Ok_0@),
            r is Err ==> r->Err_0 == FieldExtractionError::WrongDataType,
    {
        match self {
            IFDField::Byte(v) => Ok(v.as_slice()),
            _ => Err(FieldExtractionError::WrongDataType),
        }
    }

    /// The values of a `Short` field.
    pub fn shorts(&self) -> (r: Result<&[u16], FieldExtractionError>)
        ensures
            self@ is Short <==> r is Ok,
            r is Ok ==> self@ == FieldValue::Short(r->Ok_0@),
            r is Err ==> r->Err_0 == FieldExtractionError::WrongDataType,
    {
        match self {
            IFDField::Short(v) => Ok(v.as_slice()),
            _ => Err(FieldExtractionError::WrongDataType),
        }
    }

    /// The values of a `Long` field.
    pub fn longs(&self) -> (r: Result<&[u32], FieldExtractionError>)
        ensures
            self@ is Long <==> r is Ok,
            r is Ok ==> self@ == FieldValue::Long(r->Ok_0@),
            r is Err ==> r->Err_0 == FieldExtractionError::WrongDataType,
    {
        match self {
            IFDField::Long(v) => Ok(v.as_slice()),
            _ => Err(FieldExtractionError::WrongDataType),
        }
    }

    /// The values of a `Rational` field.
    pub fn rationals(&self) -> (r: Result<&[(u32, u32)], FieldExtractionError>)
        ensures
            self@ is Rational <==> r is Ok,
            r is Ok ==> self@ == FieldValue::Rational(r->Ok_0@),
            r is Err ==> r->Err_0 == FieldExtractionError::WrongDataType,
    {
        match self {
            IFDField::Rational(v) => Ok(v.as_slice()),
            _ => Err(FieldExtractionError::WrongDataType),
        }
    }

    /// The strings of an `Ascii` field.
    pub fn strings(&self) -> (r: Result<&[String], FieldExtractionError>)
        ensures
            self@ is Ascii <==> r is Ok,
            r is Ok ==> self@ == FieldValue::Ascii(crate::ifd_field::strings_view(r->Ok_0@)),
            r is Err ==> r->Err_0 == FieldExtractionError::WrongDataType,
    {
        match self {
            IFDField::Ascii(v) => Ok(v.as_slice()),
            _ => Err(FieldExtractionError::WrongDataType),
        }
    }

    /// The first value of a `Byte` field.
    pub fn first_byte(&self) -> (r: Result<u8, FieldExtractionError>)
        ensures
            match self@ {
                FieldValue::Byte(v) => if v.len() > 0 {
                    r == Ok::<u8, FieldExtractionError>(v[0])
                } else {
                    r == Err::<u8, FieldExtractionError>(FieldExtractionError::InsufficientData)
                },
                _ => r == Err::<u8, FieldExtractionError>(FieldExtractionError::WrongDataType),
            },
    {
        let v = self.bytes()?;
        if v.len() == 0 {
            Err(FieldExtractionError::InsufficientData)
        } else {
            Ok(v[0])
        }
    }

    /// The first value of a `Short` field.
    pub fn first_short(&self) -> (r: Result<u16, FieldExtractionError>)
        ensures
            match self@ {
                FieldValue::Short(v) => if v.len() > 0 {
                    r == Ok::<u16, FieldExtractionError>(v[0])
                } else {
                    r == Err::<u16, FieldExtractionError>(FieldExtractionError::InsufficientData)
                },
                _ => r == Err::<u16, FieldExtractionError>(FieldExtractionError::WrongDataType),
            },
    {
        let v = self.shorts()?;
        if v.len() == 0 {
            Err(FieldExtractionError::InsufficientData)
        } else {
            Ok(v[0])
        }
    }

    /// The first value of a `Long` field.
    pub fn first_long(&self) -> (r: Result<u32, FieldExtractionError>)
        ensures
            match self@ {
                FieldValue::Long(v) => if v.len() > 0 {
                    r == Ok::<u32, FieldExtractionError>(v[0])
                } else {
                    r == Err::<u32, FieldExtractionError>(FieldExtractionError::InsufficientData)
                },
                _ => r == Err::<u32, FieldExtractionError>(FieldExtractionError::WrongDataType),
            },
    {
        let v = self.longs()?;
        if v.len() == 0 {
            Err(FieldExtractionError::InsufficientData)
        } else {
            Ok(v[0])
        }
    }

    /// The first value of a `Rational` field.
    pub fn first_rational(&self) -> (r: Result<(u32, u32), FieldExtractionError>)
        ensures
            match self@ {
                FieldValue::Rational(v) => if v.len() > 0 {
                    r == Ok::<(u32, u32), FieldExtractionError>(v[0])
                } else {
                    r == Err::<(u32, u32), FieldExtractionError>(
                        FieldExtractionError::InsufficientData,
                    )
                },
                _ => r == Err::<(u32, u32), FieldExtractionError>(
                    FieldExtractionError::WrongDataType,
                ),
            },
    {
        let v = self.rationals()?;
        if v.len() == 0 {
            Err(FieldExtractionError::InsufficientData)
        } else {
            Ok(v[0])
        }
    }

    /// The first string of an `Ascii` field.
    pub fn first_string(&self) -> (r: Result<&String, FieldExtractionError>)
        ensures
            match self@ {
                FieldValue::Ascii(v) => if v.len() > 0 {
                    r is Ok && r->Ok_0@ == v[0]
                } else {
                    r == Err::<&String, FieldExtractionError>(FieldExtractionError::InsufficientData)
                },
                _ => r == Err::<&String, FieldExtractionError>(FieldExtractionError::WrongDataType),
            },
    {
        let v = self.strings()?;
        if v.len() == 0 {
            Err(FieldExtractionError::InsufficientData)
        } else {
            Ok(&v[0])
        }
    }
}

} // verus!
