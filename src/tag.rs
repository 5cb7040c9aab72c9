//! Group delimiter tags and the classification of tag bytes.
use vstd::prelude::*;

verus! {

pub const OPERATION_ATTRIBUTES_TAG: u8 = 0x01;
pub const JOB_ATTRIBUTES_TAG: u8 = 0x02;
pub const END_OF_ATTRIBUTES_TAG: u8 = 0x03;
pub const PRINTER_ATTRIBUTES_TAG: u8 = 0x04;
pub const UNSUPPORTED_ATTRIBUTES_TAG: u8 = 0x05;

pub const INTEGER_TAG: u8 = 0x21;
pub const BOOLEAN_TAG: u8 = 0x22;
pub const ENUM_TAG: u8 = 0x23;
pub const BEG_COLLECTION_TAG: u8 = 0x34;
pub const END_COLLECTION_TAG: u8 = 0x37;
pub const TEXT_WITHOUT_LANGUAGE_TAG: u8 = 0x41;
pub const NAME_WITHOUT_LANGUAGE_TAG: u8 = 0x42;
pub const KEYWORD_TAG: u8 = 0x44;
pub const URI_TAG: u8 = 0x45;
pub const CHARSET_TAG: u8 = 0x47;
pub const NATURAL_LANGUAGE_TAG: u8 = 0x48;
pub const MIME_MEDIA_TYPE_TAG: u8 = 0x49;
pub const MEMBER_ATTR_NAME_TAG: u8 = 0x4a;

/// A group of attributes, named by the delimiter tag that opens it.
#[derive(Clone, Copy, Debug, PartialEq, Eq, Structural, Hash)]
pub enum DelimiterTag {
    OperationAttributes,
    JobAttributes,
    EndOfAttributes,
    PrinterAttributes,
    UnsupportedAttributes,
}

/// A byte in the delimiter range (group boundaries and the end marker).
pub open spec fn spec_is_delimiter_tag(tag: u8) -> bool {
    0x01 <= tag <= 0x0f
}

/// A byte in the value range (attribute values and collection brackets).
pub open spec fn spec_is_value_tag(tag: u8) -> bool {
    0x10 <= tag <= 0x4a
}

/// Whether `tag` lies in the delimiter range.
pub fn is_delimiter_tag(tag: u8) -> (r: bool)
    ensures
        r == spec_is_delimiter_tag(tag),
{
    0x01 <= tag && tag <= 0x0f
}

/// Whether `tag` lies in the value range.
pub fn is_value_tag(tag: u8) -> (r: bool)
    ensures
        r == spec_is_value_tag(tag),
{
    0x10 <= tag && tag <= 0x4a
}

impl DelimiterTag {
    /// The wire byte of the delimiter.
    pub open spec fn byte(self) -> u8 {
        match self {
            DelimiterTag::OperationAttributes => OPERATION_ATTRIBUTES_TAG,
            DelimiterTag::JobAttributes => JOB_ATTRIBUTES_TAG,
            DelimiterTag::EndOfAttributes => END_OF_ATTRIBUTES_TAG,
            DelimiterTag::PrinterAttributes => PRINTER_ATTRIBUTES_TAG,
            DelimiterTag::UnsupportedAttributes => UNSUPPORTED_ATTRIBUTES_TAG,
        }
    }

    /// The delimiter whose wire byte is `tag`, if there is one.
    pub open spec fn spec_from_byte(tag: u8) -> Option<DelimiterTag> {
        if tag == OPERATION_ATTRIBUTES_TAG {
            Some(DelimiterTag::OperationAttributes)
        } else if tag == JOB_ATTRIBUTES_TAG {
            Some(DelimiterTag::JobAttributes)
        } else if tag == END_OF_ATTRIBUTES_TAG {
            Some(DelimiterTag::EndOfAttributes)
        } else if tag == PRINTER_ATTRIBUTES_TAG {
            Some(DelimiterTag::PrinterAttributes)
        } else if tag == UNSUPPORTED_ATTRIBUTES_TAG {
            Some(DelimiterTag::UnsupportedAttributes)
        } else {
            None
        }
    }

    /// The wire byte of the delimiter.
    pub fn to_u8(self) -> (r: u8)
        ensures
            r == self.byte(),
    {
        match self {
            DelimiterTag::OperationAttributes => OPERATION_ATTRIBUTES_TAG,
            DelimiterTag::JobAttributes => JOB_ATTRIBUTES_TAG,
            DelimiterTag::EndOfAttributes => END_OF_ATTRIBUTES_TAG,
            DelimiterTag::PrinterAttributes => PRINTER_ATTRIBUTES_TAG,
            DelimiterTag::UnsupportedAttributes => UNSUPPORTED_ATTRIBUTES_TAG,
        }
    }

    /// The delimiter whose wire byte is `tag`, if there is one.
    pub fn from_u8(tag: u8) -> (r: Option<DelimiterTag>)
        ensures
            r == Self::spec_from_byte(tag),
            r matches Some(d) ==> d.byte() == tag,
    {
        if tag == OPERATION_ATTRIBUTES_TAG {
            Some(DelimiterTag::OperationAttributes)
        } else if tag == JOB_ATTRIBUTES_TAG {
            Some(DelimiterTag::JobAttributes)
        } else if tag == END_OF_ATTRIBUTES_TAG {
            Some(DelimiterTag::EndOfAttributes)
        } else if tag == PRINTER_ATTRIBUTES_TAG {
            Some(DelimiterTag::PrinterAttributes)
        } else if tag == UNSUPPORTED_ATTRIBUTES_TAG {
            Some(DelimiterTag::UnsupportedAttributes)
        } else {
            None
        }
    }
}

} // verus!
