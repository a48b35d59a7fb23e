//! A small arithmetic aggregate exercising the engine: a running value that
//! events add to, subtract from, multiply and divide.

use vstd::bytes::{
    spec_u16_from_le_bytes, spec_u16_to_le_bytes, spec_u64_from_le_bytes, spec_u64_to_le_bytes,
    u16_from_le_bytes, u16_to_le_bytes, u64_from_le_bytes, u64_to_le_bytes,
};
use vstd::prelude::*;

use crate::agg::{Aggregator, AggregatorEvent, Payload};
use crate::{Event, EventView};

verus! {

/// Add `value` to the running value.
#[derive(Clone, Copy, PartialEq, Eq, Structural, Debug)]
pub struct Added {
    pub value: i16,
}

/// Subtract `value` from the running value.
#[derive(Clone, Copy, PartialEq, Eq, Structural, Debug)]
pub struct Subtracted {
    pub value: i16,
}

/// Multiply the running value by `value`.
#[derive(Clone, Copy, PartialEq, Eq, Structural, Debug)]
pub struct Multiplied {
    pub value: i16,
}

/// Divide the running value by `value`.
#[derive(Clone, Copy, PartialEq, Eq, Structural, Debug)]
pub struct Divided {
    pub value: i16,
}

/// The payload bytes of one 16-bit value: its two's-complement image, little
/// endian.
pub open spec fn spec_i16_bytes(v: i16) -> Seq<u8> {
    spec_u16_to_le_bytes(v as u16)
}

/// The 16-bit value a payload decodes to.
pub open spec fn spec_i16_from_bytes(bytes: Seq<u8>) -> Option<i16> {
    if bytes.len() == 2 {
        Some(spec_u16_from_le_bytes(bytes) as i16)
    } else {
        None
    }
}

/// The 16-bit codec round-trips.
proof fn lemma_i16_round_trip(v: i16)
    ensures
        spec_i16_from_bytes(spec_i16_bytes(v)) == Some(v),
{
    vstd::bytes::lemma_auto_spec_u16_to_from_le_bytes();
    assert((v as u16) as i16 == v) by (bit_vector);
}

/// Encode one 16-bit value.
fn i16_to_bytes(v: i16) -> (r: Vec<u8>)
    ensures
        r@ == spec_i16_bytes(v),
{
    u16_to_le_bytes(v as u16)
}

/// Decode one 16-bit value.
fn i16_from_bytes(bytes: &[u8]) -> (r: Option<i16>)
    ensures
        r == spec_i16_from_bytes(bytes@),
{
    if bytes.len() == 2 {
        Some(u16_from_le_bytes(bytes) as i16)
    } else {
        None
    }
}

impl Payload for Added {
    open spec fn spec_to_bytes(self) -> Seq<u8> {
        spec_i16_bytes(self.value)
    }

    open spec fn spec_from_bytes(bytes: Seq<u8>) -> Option<Added> {
        match spec_i16_from_bytes(bytes) {
            Some(v) => Some(Added { value: v }),
            None => None,
        }
    }

    proof fn lemma_bytes_round_trip(self) {
        lemma_i16_round_trip(self.value);
    }

    fn to_bytes(&self) -> (r: Vec<u8>) {
        i16_to_bytes(self.value)
    }

    fn from_bytes(bytes: &[u8]) -> (r: Option<Added>) {
        match i16_from_bytes(bytes) {
            Some(v) => Some(Added { value: v }),
            None => None,
        }
    }
}

impl AggregatorEvent for Added {
    open spec fn spec_name() -> Seq<char> {
        "Added"@
    }

    fn name() -> (r: &'static str) {
        "Added"
    }
}

impl Payload for Subtracted {
    open spec fn spec_to_bytes(self) -> Seq<u8> {
        spec_i16_bytes(self.value)
    }

    open spec fn spec_from_bytes(bytes: Seq<u8>) -> Option<Subtracted> {
        match spec_i16_from_bytes(bytes) {
            Some(v) => Some(Subtracted { value: v }),
            None => None,
        }
    }

    proof fn lemma_bytes_round_trip(self) {
        lemma_i16_round_trip(self.value);
    }

    fn to_bytes(&self) -> (r: Vec<u8>) {
        i16_to_bytes(self.value)
    }

    fn from_bytes(bytes: &[u8]) -> (r: Option<Subtracted>) {
        match i16_from_bytes(bytes) {
            Some(v) => Some(Subtracted { value: v }),
            None => None,
        }
    }
}

impl AggregatorEvent for Subtracted {
    open spec fn spec_name() -> Seq<char> {
        "Subtracted"@
    }

    fn name() -> (r: &'static str) {
        "Subtracted"
    }
}

impl Payload for Multiplied {
    open spec fn spec_to_bytes(self) -> Seq<u8> {
        spec_i16_bytes(self.value)
    }

    open spec fn spec_from_bytes(bytes: Seq<u8>) -> Option<Multiplied> {
        match spec_i16_from_bytes(bytes) {
            Some(v) => Some(Multiplied { value: v }),
            None => None,
        }
    }

    proof fn lemma_bytes_round_trip(self) {
        lemma_i16_round_trip(self.value);
    }

    fn to_bytes(&self) -> (r: Vec<u8>) {
        i16_to_bytes(self.value)
    }

    fn from_bytes(bytes: &[u8]) -> (r: Option<Multiplied>) {
        match i16_from_bytes(bytes) {
            Some(v) => Some(Multiplied { value: v }),
            None => None,
        }
    }
}

impl AggregatorEvent for Multiplied {
    open spec fn spec_name() -> Seq<char> {
        "Multiplied"@
    }

    fn name() -> (r: &'static str) {
        "Multiplied"
    }
}

impl Payload for Divided {
    open spec fn spec_to_bytes(self) -> Seq<u8> {
        spec_i16_bytes(self.value)
    }

    open spec fn spec_from_bytes(bytes: Seq<u8>) -> Option<Divided> {
        match spec_i16_from_bytes(bytes) {
            Some(v) => Some(Divided { value: v }),
            None => None,
        }
    }

    proof fn lemma_bytes_round_trip(self) {
        lemma_i16_round_trip(self.value);
    }

    fn to_bytes(&self) -> (r: Vec<u8>) {
        i16_to_bytes(self.value)
    }

    fn from_bytes(bytes: &[u8]) -> (r: Option<Divided>) {
        match i16_from_bytes(bytes) {
            Some(v) => Some(Divided { value: v }),
            None => None,
        }
    }
}

impl AggregatorEvent for Divided {
    open spec fn spec_name() -> Seq<char> {
        "Divided"@
    }

    fn name() -> (r: &'static str) {
        "Divided"
    }
}

/// The running value the arithmetic events fold into.
#[derive(Clone, Copy, PartialEq, Eq, Structural, Debug)]
pub struct Calcul {
    pub value: i64,
}

/// What folding one event into a [`Calcul`] yields: the new value, or `None`
/// when a payload does not decode, the arithmetic leaves `i64`, or a division
/// is by a non-positive divisor or of a negative value. An event of an
/// unknown kind leaves the state unchanged.
pub open spec fn spec_calc_apply(c: Calcul, e: EventView) -> Option<Calcul> {
    if e.name == Added::spec_name() {
        match spec_i16_from_bytes(e.data) {
            Some(v) => {
                let next = c.value + v;
                if i64::MIN <= next <= i64::MAX {
                    Some(Calcul { value: next as i64 })
                } else {
                    None
                }
            },
            None => None,
        }
    } else if e.name == Subtracted::spec_name() {
        match spec_i16_from_bytes(e.data) {
            Some(v) => {
                let next = c.value - v;
                if i64::MIN <= next <= i64::MAX {
                    Some(Calcul { value: next as i64 })
                } else {
                    None
                }
            },
            None => None,
        }
    } else if e.name == Multiplied::spec_name() {
        match spec_i16_from_bytes(e.data) {
            Some(v) => {
                let next = c.value * v;
                if i64::MIN <= next <= i64::MAX {
                    Some(Calcul { value: next as i64 })
                } else {
                    None
                }
            },
            None => None,
        }
    } else if e.name == Divided::spec_name() {
        match spec_i16_from_bytes(e.data) {
            Some(v) => {
                if c.value >= 0 && v > 0 {
                    Some(Calcul { value: (c.value as int / v as int) as i64 })
                } else {
                    None
                }
            },
            None => None,
        }
    } else {
        Some(c)
    }
}

impl Payload for Calcul {
    open spec fn spec_to_bytes(self) -> Seq<u8> {
        spec_u64_to_le_bytes(self.value as u64)
    }

    open spec fn spec_from_bytes(bytes: Seq<u8>) -> Option<Calcul> {
        if bytes.len() == 8 {
            Some(Calcul { value: spec_u64_from_le_bytes(bytes) as i64 })
        } else {
            None
        }
    }

    proof fn lemma_bytes_round_trip(self) {
        vstd::bytes::lemma_auto_spec_u64_to_from_le_bytes();
        let v = self.value;
        assert((v as u64) as i64 == v) by (bit_vector);
    }

    fn to_bytes(&self) -> (r: Vec<u8>) {
        u64_to_le_bytes(self.value as u64)
    }

    fn from_bytes(bytes: &[u8]) -> (r: Option<Calcul>) {
        if bytes.len() == 8 {
            Some(Calcul { value: u64_from_le_bytes(bytes) as i64 })
        } else {
            None
        }
    }
}

impl Aggregator for Calcul {
    open spec fn spec_name() -> Seq<char> {
        "Calcul"@
    }

    open spec fn spec_revision() -> Seq<char> {
        "calcul-1"@
    }

    open spec fn spec_initial() -> Calcul {
        Calcul { value: 0 }
    }

    open spec fn spec_apply(self, event: EventView) -> Option<Calcul> {
        spec_calc_apply(self, event)
    }

    fn name() -> (r: &'static str) {
        "Calcul"
    }

    fn revision() -> (r: &'static str) {
        "calcul-1"
    }

    fn initial() -> (r: Calcul) {
        Calcul { value: 0 }
    }

    fn duplicate(&self) -> (r: Calcul) {
        Calcul { value: self.value }
    }

    fn apply(&mut self, event: &Event) -> (ok: bool) {
        if event.name == "Added".to_owned() {
            proof {
                assert(event@.name == Added::spec_name());
            }
            match i16_from_bytes(event.data.as_slice()) {
                Some(v) => {
                    let next: i128 = self.value as i128 + v as i128;
                    if i64::MIN as i128 <= next && next <= i64::MAX as i128 {
                        self.value = next as i64;
                        true
                    } else {
                        false
                    }
                },
                None => false,
            }
        } else if event.name == "Subtracted".to_owned() {
            proof {
                assert(event@.name == Subtracted::spec_name());
            }
            match i16_from_bytes(event.data.as_slice()) {
                Some(v) => {
                    let next: i128 = self.value as i128 - v as i128;
                    if i64::MIN as i128 <= next && next <= i64::MAX as i128 {
                        self.value = next as i64;
                        true
                    } else {
                        false
                    }
                },
                None => false,
            }
        } else if event.name == "Multiplied".to_owned() {
            proof {
                assert(event@.name == Multiplied::spec_name());
            }
            match i16_from_bytes(event.data.as_slice()) {
                Some(v) => {
                    proof {
                        let a = self.value as int;
                        let b = v as int;
                        assert(a * b <= i128::MAX && a * b >= i128::MIN) by (nonlinear_arith)
                            requires
                                -0x8000_0000_0000_0000 <= a <= 0x7fff_ffff_ffff_ffff,
                                -0x8000 <= b <= 0x7fff,
                        {
                        }
                    }
                    let next: i128 = self.value as i128 * v as i128;
                    if i64::MIN as i128 <= next && next <= i64::MAX as i128 {
                        self.value = next as i64;
                        true
                    } else {
                        false
                    }
                },
                None => false,
            }
        } else if event.name == "Divided".to_owned() {
            proof {
                assert(event@.name == Divided::spec_name());
            }
            match i16_from_bytes(event.data.as_slice()) {
                Some(v) => {
                    if self.value >= 0 && v > 0 {
                        let q: u64 = (self.value as u64) / (v as u64);
                        proof {
                            assert(self.value as u64 == self.value as int);
                            assert(v as u64 == v as int);
                            assert(q as int == self.value as int / v as int);
                            assert(q <= i64::MAX as u64);
                        }
                        self.value = q as i64;
                        true
                    } else {
                        false
                    }
                },
                None => false,
            }
        } else {
            proof {
                assert(event@.name != Added::spec_name());
                assert(event@.name != Subtracted::spec_name());
                assert(event@.name != Multiplied::spec_name());
                assert(event@.name != Divided::spec_name());
            }
            true
        }
    }
}

} // verus!
