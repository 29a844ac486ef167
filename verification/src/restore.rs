//! The restore method of PPMd8 and its numeric values.
use vstd::prelude::*;
use vstd::std_specs::convert::FromSpecImpl;

verus! {

/// The restore method used in PPMd8 when the model memory is exhausted.
#[derive(Debug, Copy, Clone, PartialEq, Eq, Structural, Hash)]
pub enum RestoreMethod {
    /// Restart the model from scratch.
    Restart,
    /// Cut off the oldest parts of the model.
    CutOff,
    /// Any other value; refused by the coders.
    Unsupported,
}

/// The restore method that a numeric value stands for.
pub open spec fn restore_method_of(value: int) -> RestoreMethod {
    if value == 0 {
        RestoreMethod::Restart
    } else if value == 1 {
        RestoreMethod::CutOff
    } else {
        RestoreMethod::Unsupported
    }
}

impl RestoreMethod {
    /// The restore method that `value` stands for: 0 is `Restart`, 1 is
    /// `CutOff`, every other value is `Unsupported`.
    pub fn from_u64(value: u64) -> (r: RestoreMethod)
        ensures
            r == restore_method_of(value as int),
    {
        if value == 0 {
            RestoreMethod::Restart
        } else if value == 1 {
            RestoreMethod::CutOff
        } else {
            RestoreMethod::Unsupported
        }
    }

    /// The restore method that a signed `value` stands for: 0 is `Restart`,
    /// 1 is `CutOff`, every other value (negative ones too) is `Unsupported`.
    pub fn from_i64(value: i64) -> (r: RestoreMethod)
        ensures
            r == restore_method_of(value as int),
    {
        if value == 0 {
            RestoreMethod::Restart
        } else if value == 1 {
            RestoreMethod::CutOff
        } else {
            RestoreMethod::Unsupported
        }
    }

    /// The numeric value of the restore method as the format stores it.
    pub fn to_u32(self) -> (r: u32)
        ensures
            self != RestoreMethod::Unsupported ==> restore_method_of(r as int) == self,
            self == RestoreMethod::Restart ==> r == 0,
            self == RestoreMethod::CutOff ==> r == 1,
            self == RestoreMethod::Unsupported ==> r == 2,
    {
        match self {
            RestoreMethod::Restart => 0,
            RestoreMethod::CutOff => 1,
            RestoreMethod::Unsupported => 2,
        }
    }
}


impl From<u8> for RestoreMethod {
    fn from(value: u8) -> (r: RestoreMethod) {
        if value == 0 {
            RestoreMethod::Restart
        } else if value == 1 {
            RestoreMethod::CutOff
        } else {
            RestoreMethod::Unsupported
        }
    }
}

impl FromSpecImpl<u8> for RestoreMethod {
    open spec fn obeys_from_spec() -> bool {
        true
    }

    open spec fn from_spec(v: u8) -> RestoreMethod {
        restore_method_of(v as int)
    }
}

impl From<u16> for RestoreMethod {
    fn from(value: u16) -> (r: RestoreMethod) {
        if value == 0 {
            RestoreMethod::Restart
        } else if value == 1 {
            RestoreMethod::CutOff
        } else {
            RestoreMethod::Unsupported
        }
    }
}

impl FromSpecImpl<u16> for RestoreMethod {
    open spec fn obeys_from_spec() -> bool {
        true
    }

    open spec fn from_spec(v: u16) -> RestoreMethod {
        restore_method_of(v as int)
    }
}

impl From<u32> for RestoreMethod {
    fn from(value: u32) -> (r: RestoreMethod) {
        if value == 0 {
            RestoreMethod::Restart
        } else if value == 1 {
            RestoreMethod::CutOff
        } else {
            RestoreMethod::Unsupported
        }
    }
}

impl FromSpecImpl<u32> for RestoreMethod {
    open spec fn obeys_from_spec() -> bool {
        true
    }

    open spec fn from_spec(v: u32) -> RestoreMethod {
        restore_method_of(v as int)
    }
}

impl From<u64> for RestoreMethod {
    fn from(value: u64) -> (r: RestoreMethod) {
        if value == 0 {
            RestoreMethod::Restart
        } else if value == 1 {
            RestoreMethod::CutOff
        } else {
            RestoreMethod::Unsupported
        }
    }
}

impl FromSpecImpl<u64> for RestoreMethod {
    open spec fn obeys_from_spec() -> bool {
        true
    }

    open spec fn from_spec(v: u64) -> RestoreMethod {
        restore_method_of(v as int)
    }
}

impl From<u128> for RestoreMethod {
    fn from(value: u128) -> (r: RestoreMethod) {
        if value == 0 {
            RestoreMethod::Restart
        } else if value == 1 {
            RestoreMethod::CutOff
        } else {
            RestoreMethod::Unsupported
        }
    }
}

impl FromSpecImpl<u128> for RestoreMethod {
    open spec fn obeys_from_spec() -> bool {
        true
    }

    open spec fn from_spec(v: u128) -> RestoreMethod {
        restore_method_of(v as int)
    }
}

impl From<usize> for RestoreMethod {
    fn from(value: usize) -> (r: RestoreMethod) {
        if value == 0 {
            RestoreMethod::Restart
        } else if value == 1 {
            RestoreMethod::CutOff
        } else {
            RestoreMethod::Unsupported
        }
    }
}

impl FromSpecImpl<usize> for RestoreMethod {
    open spec fn obeys_from_spec() -> bool {
        true
    }

    open spec fn from_spec(v: usize) -> RestoreMethod {
        restore_method_of(v as int)
    }
}

impl From<i8> for RestoreMethod {
    fn from(value: i8) -> (r: RestoreMethod) {
        if value == 0 {
            RestoreMethod::Restart
        } else if value == 1 {
            RestoreMethod::CutOff
        } else {
            RestoreMethod::Unsupported
        }
    }
}

impl FromSpecImpl<i8> for RestoreMethod {
    open spec fn obeys_from_spec() -> bool {
        true
    }

    open spec fn from_spec(v: i8) -> RestoreMethod {
        restore_method_of(v as int)
    }
}

impl From<i16> for RestoreMethod {
    fn from(value: i16) -> (r: RestoreMethod) {
        if value == 0 {
            RestoreMethod::Restart
        } else if value == 1 {
            RestoreMethod::CutOff
        } else {
            RestoreMethod::Unsupported
        }
    }
}

impl FromSpecImpl<i16> for RestoreMethod {
    open spec fn obeys_from_spec() -> bool {
        true
    }

    open spec fn from_spec(v: i16) -> RestoreMethod {
        restore_method_of(v as int)
    }
}

impl From<i32> for RestoreMethod {
    fn from(value: i32) -> (r: RestoreMethod) {
        if value == 0 {
            RestoreMethod::Restart
        } else if value == 1 {
            RestoreMethod::CutOff
        } else {
            RestoreMethod::Unsupported
        }
    }
}

impl FromSpecImpl<i32> for RestoreMethod {
    open spec fn obeys_from_spec() -> bool {
        true
    }

    open spec fn from_spec(v: i32) -> RestoreMethod {
        restore_method_of(v as int)
    }
}

impl From<i64> for RestoreMethod {
    fn from(value: i64) -> (r: RestoreMethod) {
        if value == 0 {
            RestoreMethod::Restart
        } else if value == 1 {
            RestoreMethod::CutOff
        } else {
            RestoreMethod::Unsupported
        }
    }
}

impl FromSpecImpl<i64> for RestoreMethod {
    open spec fn obeys_from_spec() -> bool {
        true
    }

    open spec fn from_spec(v: i64) -> RestoreMethod {
        restore_method_of(v as int)
    }
}

impl From<i128> for RestoreMethod {
    fn from(value: i128) -> (r: RestoreMethod) {
        if value == 0 {
            RestoreMethod::Restart
        } else if value == 1 {
            RestoreMethod::CutOff
        } else {
            RestoreMethod::Unsupported
        }
    }
}

impl FromSpecImpl<i128> for RestoreMethod {
    open spec fn obeys_from_spec() -> bool {
        true
    }

    open spec fn from_spec(v: i128) -> RestoreMethod {
        restore_method_of(v as int)
    }
}

impl From<isize> for RestoreMethod {
    fn from(value: isize) -> (r: RestoreMethod) {
        if value == 0 {
            RestoreMethod::Restart
        } else if value == 1 {
            RestoreMethod::CutOff
        } else {
            RestoreMethod::Unsupported
        }
    }
}

impl FromSpecImpl<isize> for RestoreMethod {
    open spec fn obeys_from_spec() -> bool {
        true
    }

    open spec fn from_spec(v: isize) -> RestoreMethod {
        restore_method_of(v as int)
    }
}

} // verus!
