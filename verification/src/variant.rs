//! The members of the device family and what distinguishes them.

use vstd::prelude::*;

verus! {

/// The largest capacity that a 24-bit address can reach.
pub const ADDRESS_SPACE: usize = 0x100_0000;

/// A member of the family with a known geometry, named by its density.
#[derive(Clone, Copy, Debug, PartialEq, Eq, Structural)]
pub enum Model {
    Density8k,
    Density16k,
    Density32k,
    Density64k,
    Density128k,
    Density256k,
    Density512k,
    Density1024k,
}

/// The properties of one device variant: its geometry and its capabilities.
#[derive(Clone, Copy, Debug)]
pub struct Variant {
    capacity: usize,
    page_size: usize,
    deep_sleep: bool,
    wide_identity: bool,
    status_protection: bool,
}

/// Whether `page_size` is a page size that the family offers.
pub open spec fn page_size_known(page_size: int) -> bool {
    page_size == 16 || page_size == 32 || page_size == 64 || page_size == 128 || page_size == 256
}

impl Variant {
    #[verifier::type_invariant]
    spec fn well_formed(self) -> bool {
        page_size_known(self.page_size as int) && self.capacity <= ADDRESS_SPACE
    }

    /// The number of bytes that the device holds.
    pub closed spec fn size(self) -> nat {
        self.capacity as nat
    }

    /// The number of bytes in one page.
    pub closed spec fn page(self) -> nat {
        self.page_size as nat
    }

    /// Whether the device has a deep-sleep mode.
    pub closed spec fn sleeps(self) -> bool {
        self.deep_sleep
    }

    /// Whether the identity transaction carries a third dummy address byte.
    pub closed spec fn wide(self) -> bool {
        self.wide_identity
    }

    /// Whether the status register is locked against writes at start-up.
    pub closed spec fn guards_status(self) -> bool {
        self.status_protection
    }

    /// The variant of a known model.
    pub fn of(model: Model) -> (r: Variant)
        ensures
            r.size() == match model {
                Model::Density8k => 8 * 1024nat,
                Model::Density16k => 16 * 1024nat,
                Model::Density32k => 32 * 1024nat,
                Model::Density64k => 64 * 1024nat,
                Model::Density128k => 128 * 1024nat,
                Model::Density256k => 256 * 1024nat,
                Model::Density512k => 512 * 1024nat,
                Model::Density1024k => 1024 * 1024nat,
            },
            r.page() == match model {
                Model::Density8k | Model::Density16k => 16nat,
                Model::Density32k | Model::Density64k => 32nat,
                Model::Density128k | Model::Density256k => 64nat,
                Model::Density512k => 128nat,
                Model::Density1024k => 256nat,
            },
            r.sleeps() == (model == Model::Density512k || model == Model::Density1024k),
            r.wide() == (model == Model::Density1024k),
            !r.guards_status(),
    {
        let (capacity, page_size): (usize, usize) = match model {
            Model::Density8k => (0x2000, 16),
            Model::Density16k => (0x4000, 16),
            Model::Density32k => (0x8000, 32),
            Model::Density64k => (0x1_0000, 32),
            Model::Density128k => (0x2_0000, 64),
            Model::Density256k => (0x4_0000, 64),
            Model::Density512k => (0x8_0000, 128),
            Model::Density1024k => (0x10_0000, 256),
        };
        let deep_sleep = match model {
            Model::Density512k | Model::Density1024k => true,
            _ => false,
        };
        let wide_identity = match model {
            Model::Density1024k => true,
            _ => false,
        };
        Variant { capacity, page_size, deep_sleep, wide_identity, status_protection: false }
    }

    /// A variant with the given properties, or nothing where the page size is
    /// not one of 16, 32, 64, 128 and 256, or the capacity is beyond what a
    /// 24-bit address reaches.
    pub fn custom(
        capacity: usize,
        page_size: usize,
        deep_sleep: bool,
        wide_identity: bool,
        status_protection: bool,
    ) -> (r: Option<Variant>)
        ensures
            r is Some <==> page_size_known(page_size as int) && capacity <= ADDRESS_SPACE,
            r matches Some(v) ==> v.size() == capacity && v.page() == page_size && v.sleeps()
                == deep_sleep && v.wide() == wide_identity && v.guards_status()
                == status_protection,
    {
        let known = page_size == 16 || page_size == 32 || page_size == 64 || page_size == 128
            || page_size == 256;
        if known && capacity <= ADDRESS_SPACE {
            Some(Variant { capacity, page_size, deep_sleep, wide_identity, status_protection })
        } else {
            None
        }
    }

    /// The number of bytes that the device holds; every address of the device
    /// fits into 24 bits.
    pub fn capacity(&self) -> (r: usize)
        ensures
            r == self.size(),
            r <= ADDRESS_SPACE,
    {
        proof {
            use_type_invariant(self);
        }
        self.capacity
    }

    /// The number of bytes in one page, which is one of the sizes that the
    /// family offers.
    pub fn page_size(&self) -> (r: usize)
        ensures
            r == self.page(),
            page_size_known(r as int),
    {
        proof {
            use_type_invariant(self);
        }
        self.page_size
    }

    /// Whether the device has a deep-sleep mode.
    pub fn has_deep_sleep(&self) -> (r: bool)
        ensures
            r == self.sleeps(),
    {
        self.deep_sleep
    }

    /// Whether the identity transaction carries a third dummy address byte.
    pub fn has_wide_identity(&self) -> (r: bool)
        ensures
            r == self.wide(),
    {
        self.wide_identity
    }

    /// Whether the status register is locked against writes at start-up.
    pub fn has_status_protection(&self) -> (r: bool)
        ensures
            r == self.guards_status(),
    {
        self.status_protection
    }
}

} // verus!
