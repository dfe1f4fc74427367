use vstd::prelude::*;

verus! {

/// Increments index types.
pub trait Step: Sized {
    /// The mathematical value of `self`.
    spec fn spec_value(&self) -> int;

    /// The greatest value supported by `Self`.
    spec fn spec_max() -> int;

    /// Return the incremented value of `self`.  If this would overflow the range of values
    /// supported by `Self`, returns `None`.
    fn increment(&self) -> (r: Option<Self>)
        ensures
            self.spec_value() < Self::spec_max() ==> (r matches Some(n) && n.spec_value()
                == self.spec_value() + 1),
            self.spec_value() >= Self::spec_max() ==> r is None,
    ;
}

impl Step for u8 {
    open spec fn spec_value(&self) -> int {
        *self as int
    }

    open spec fn spec_max() -> int {
        u8::MAX as int
    }

    fn increment(&self) -> (r: Option<Self>) {
        self.checked_add(1)
    }
}

impl Step for i8 {
    open spec fn spec_value(&self) -> int {
        *self as int
    }

    open spec fn spec_max() -> int {
        i8::MAX as int
    }

    fn increment(&self) -> (r: Option<Self>) {
        self.checked_add(1)
    }
}

impl Step for u16 {
    open spec fn spec_value(&self) -> int {
        *self as int
    }

    open spec fn spec_max() -> int {
        u16::MAX as int
    }

    fn increment(&self) -> (r: Option<Self>) {
        self.checked_add(1)
    }
}

impl Step for i16 {
    open spec fn spec_value(&self) -> int {
        *self as int
    }

    open spec fn spec_max() -> int {
        i16::MAX as int
    }

    fn increment(&self) -> (r: Option<Self>) {
        self.checked_add(1)
    }
}

impl Step for u32 {
    open spec fn spec_value(&self) -> int {
        *self as int
    }

    open spec fn spec_max() -> int {
        u32::MAX as int
    }

    fn increment(&self) -> (r: Option<Self>) {
        self.checked_add(1)
    }
}

impl Step for i32 {
    open spec fn spec_value(&self) -> int {
        *self as int
    }

    open spec fn spec_max() -> int {
        i32::MAX as int
    }

    fn increment(&self) -> (r: Option<Self>) {
        self.checked_add(1)
    }
}

impl Step for u64 {
    open spec fn spec_value(&self) -> int {
        *self as int
    }

    open spec fn spec_max() -> int {
        u64::MAX as int
    }

    fn increment(&self) -> (r: Option<Self>) {
        self.checked_add(1)
    }
}

impl Step for i64 {
    open spec fn spec_value(&self) -> int {
        *self as int
    }

    open spec fn spec_max() -> int {
        i64::MAX as int
    }

    fn increment(&self) -> (r: Option<Self>) {
        self.checked_add(1)
    }
}

impl Step for u128 {
    open spec fn spec_value(&self) -> int {
        *self as int
    }

    open spec fn spec_max() -> int {
        u128::MAX as int
    }

    fn increment(&self) -> (r: Option<Self>) {
        self.checked_add(1)
    }
}

impl Step for i128 {
    open spec fn spec_value(&self) -> int {
        *self as int
    }

    open spec fn spec_max() -> int {
        i128::MAX as int
    }

    fn increment(&self) -> (r: Option<Self>) {
        self.checked_add(1)
    }
}

impl Step for usize {
    open spec fn spec_value(&self) -> int {
        *self as int
    }

    open spec fn spec_max() -> int {
        usize::MAX as int
    }

    fn increment(&self) -> (r: Option<Self>) {
        self.checked_add(1)
    }
}

impl Step for isize {
    open spec fn spec_value(&self) -> int {
        *self as int
    }

    open spec fn spec_max() -> int {
        isize::MAX as int
    }

    fn increment(&self) -> (r: Option<Self>) {
        self.checked_add(1)
    }
}

} // verus!
