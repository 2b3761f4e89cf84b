//! Input devices.
use vstd::prelude::*;

verus! {

/// An axis that reports positions, and their range.
#[derive(Clone, Copy, Debug, PartialEq, Eq, Structural)]
pub struct AbsAxis {
    pub code: u16,
    pub min: i32,
    pub max: i32,
    pub fuzz: i32,
    pub flat: i32,
    pub resolution: i32,
}

/// What a client has to know of a device to make one like it.
#[derive(Debug)]
pub struct Device {
    pub name: Vec<u8>,
    pub vendor: u16,
    pub product: u16,
    pub version: u16,
    pub rel: Vec<u16>,
    pub abs: Vec<AbsAxis>,
    pub keys: Vec<u16>,
    pub delay: Option<i32>,
    pub period: Option<i32>,
}

/// What a [`Device`] says.
#[verifier::ext_equal]
pub struct Description {
    pub name: Seq<u8>,
    pub vendor: u16,
    pub product: u16,
    pub version: u16,
    pub rel: Seq<u16>,
    pub abs: Seq<AbsAxis>,
    pub keys: Seq<u16>,
    pub delay: Option<i32>,
    pub period: Option<i32>,
}

impl View for Device {
    type V = Description;

    open spec fn view(&self) -> Description {
        Description {
            name: self.name@,
            vendor: self.vendor,
            product: self.product,
            version: self.version,
            rel: self.rel@,
            abs: self.abs@,
            keys: self.keys@,
            delay: self.delay,
            period: self.period,
        }
    }
}

impl Clone for Device {
    fn clone(&self) -> (r: Self)
        ensures
            r@ == self@,
    {
        let r = Device {
            name: self.name.clone(),
            vendor: self.vendor,
            product: self.product,
            version: self.version,
            rel: self.rel.clone(),
            abs: self.abs.clone(),
            keys: self.keys.clone(),
            delay: self.delay,
            period: self.period,
        };
        assert(r@ =~= self@);
        r
    }
}

/// A device is described by all that it has.
pub proof fn law_description_is_all_of_the_device(device: Device)
    ensures
        device@.name == device.name@,
        device@.vendor == device.vendor,
        device@.product == device.product,
        device@.version == device.version,
        device@.rel == device.rel@,
        device@.abs == device.abs@,
        device@.keys == device.keys@,
        device@.delay == device.delay,
        device@.period == device.period,
{
}

} // verus!
