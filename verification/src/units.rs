//! The size classes of the memory allocator shared by both models.
//!
//! The allocator hands out blocks of 1 to 128 units of 12 bytes, grouped in
//! 38 size classes: classes 0..4 hold 1..4 units, classes 4..8 step by two
//! units, classes 8..12 by three and the rest by four, up to 128 units.
use vstd::prelude::*;

verus! {

/// The size of one allocation unit, in bytes.
pub const UNIT_SIZE: u32 = 12;

/// The number of size classes.
pub const NUM_INDEXES: u32 = 38;

/// The number of units of the size class `i`.
pub open spec fn units_of_index(i: int) -> int {
    if i < 4 {
        i + 1
    } else if i < 8 {
        2 * i - 2
    } else if i < 12 {
        3 * i - 9
    } else {
        4 * i - 20
    }
}

/// The number of units of the size classes before `i` (zero before class 0).
pub open spec fn units_before_index(i: int) -> int {
    if i <= 0 {
        0
    } else {
        units_of_index(i - 1)
    }
}

/// Whether `i` is the smallest size class that holds `nu` units.
pub open spec fn is_index_of_units(nu: int, i: int) -> bool {
    0 <= i < NUM_INDEXES && units_before_index(i) < nu <= units_of_index(i)
}

/// The smallest size class that holds `nu` units: class 0 for no units and
/// the largest class for more than 128.
pub open spec fn class_of(nu: int) -> int {
    if nu <= 0 {
        0
    } else if nu <= 4 {
        nu - 1
    } else if nu <= 12 {
        (nu + 3) / 2
    } else if nu <= 24 {
        (nu + 11) / 3
    } else if nu <= 128 {
        (nu + 23) / 4
    } else {
        NUM_INDEXES - 1
    }
}

/// The number of units of size class `i`, and zero past the last class.
pub open spec fn class_units(i: u32) -> u32 {
    if i < NUM_INDEXES {
        units_of_index(i as int) as u32
    } else {
        0
    }
}

/// `class_of` picks the smallest class that holds the units.
pub proof fn lemma_class_of(nu: int)
    requires
        1 <= nu <= 128,
    ensures
        is_index_of_units(nu, class_of(nu)),
{
}

/// The lookup tables of the allocator.
pub struct UnitTables {
    /// `index2units[i]` is the number of units of size class `i`.
    pub index2units: Vec<u8>,
    /// `units2index[nu - 1]` is the smallest size class that holds `nu` units.
    pub units2index: Vec<u8>,
}

impl UnitTables {
    /// The tables hold what their names say.
    pub open spec fn wf(&self) -> bool {
        &&& self.index2units@.len() == NUM_INDEXES
        &&& self.units2index@.len() == 128
        &&& forall|i: int| 0 <= i < NUM_INDEXES ==> #[trigger] self.index2units@[i] == units_of_index(i)
        &&& forall|k: int| 0 <= k < 128 ==> is_index_of_units(k + 1, #[trigger] self.units2index@[k] as int)
    }

    /// Builds both tables.
    pub fn new() -> (r: UnitTables)
        ensures
            r.wf(),
    {
        let mut index2units: Vec<u8> = Vec::new();
        let mut units2index: Vec<u8> = Vec::new();
        let mut k: u32 = 0;
        let mut i: u32 = 0;
        while i < NUM_INDEXES
            invariant
                i <= NUM_INDEXES,
                k == units_before_index(i as int),
                index2units@.len() == i,
                units2index@.len() == k,
                forall|j: int| 0 <= j < i ==> #[trigger] index2units@[j] == units_of_index(j),
                forall|kk: int| 0 <= kk < k ==> is_index_of_units(kk + 1, #[trigger] units2index@[kk] as int),
            decreases NUM_INDEXES - i,
        {
            let step: u32 = if i >= 12 { 4 } else { (i / 4) + 1 };
            let end: u32 = k + step;
            assert(end == units_of_index(i as int));
            while k < end
                invariant
                    i < NUM_INDEXES,
                    end == units_of_index(i as int),
                    units_before_index(i as int) <= k <= end,
                    units2index@.len() == k,
                    forall|kk: int| 0 <= kk < k ==> is_index_of_units(kk + 1, #[trigger] units2index@[kk] as int),
                decreases end - k,
            {
                units2index.push(i as u8);
                k = k + 1;
            }
            index2units.push(k as u8);
            i = i + 1;
        }
        UnitTables { index2units, units2index }
    }

    /// The number of units of size class `i`; zero for a class that does not exist.
    pub fn units(&self, i: u32) -> (r: u32)
        requires
            self.wf(),
        ensures
            i < NUM_INDEXES ==> r == units_of_index(i as int),
            i >= NUM_INDEXES ==> r == 0,
            r == class_units(i),
    {
        if i < NUM_INDEXES {
            self.index2units[i as usize] as u32
        } else {
            0
        }
    }

    /// The smallest size class that holds `nu` units; class 0 for no units
    /// and the largest class for more than 128 units.
    pub fn index(&self, nu: u32) -> (r: u32)
        requires
            self.wf(),
        ensures
            r < NUM_INDEXES,
            1 <= nu <= 128 ==> is_index_of_units(nu as int, r as int),
            nu == 0 ==> r == 0,
            nu > 128 ==> r == NUM_INDEXES - 1,
            r == class_of(nu as int),
    {
        if nu == 0 {
            0
        } else if nu > 128 {
            NUM_INDEXES - 1
        } else {
            let r = self.units2index[(nu - 1) as usize] as u32;
            proof {
                lemma_class_of(nu as int);
                crate::laws::law_size_class_fits(nu as int, class_of(nu as int), r as int);
            }
            r
        }
    }
}

} // verus!
