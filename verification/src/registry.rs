//! What can be registered, as plain values.
//!
//! A registration names a function that knows how to add a benchmark, an
//! alternative or an input. Those functions are kept in a table by whoever
//! collects the registrations, and a registration holds a position in that
//! table. Types are likewise told apart by an identity, a number that is the
//! same for one type wherever it is named and different for different types.

use crate::text;
use vstd::prelude::*;

verus! {

/// The identity of the unit type.
pub const UNIT_TYPE: u64 = 0;

/// The position kept for the function that makes the unit input.
pub const UNIT_MAKE: usize = 0;

/// One registered standalone benchmark.
///
/// Nothing orders registrations: two from different compilation units arrive
/// in an order the linker chose, so anything that depends on order has to be
/// decided from the fields rather than from position.
#[derive(Debug, Clone, Copy)]
pub struct Registered {
    /// What the report calls this.
    pub name: &'static str,
    /// The crate this was registered from.
    pub crate_name: &'static str,
    /// That crate's version.
    pub crate_version: &'static str,
    /// The position of the function that adds it to a suite.
    pub add: usize,
}

/// One implementation to be measured against whatever candidates and inputs
/// share one of its groups and its input type.
///
/// Candidates and inputs are registered separately so that each
/// implementation and each input is written once and every pairing is
/// measured.
#[derive(Debug, Clone, Copy)]
pub struct Candidate {
    /// The groups this belongs to.
    pub groups: &'static [&'static str],
    /// What the report calls it.
    pub name: &'static str,
    /// The identity of the input type it takes.
    pub input_type: u64,
    /// That type as the source spells it, which is also what pairs
    /// candidates with inputs.
    pub input_type_name: &'static str,
    /// Whether it asks to be what the others are compared with.
    pub is_baseline: bool,
    /// The crate this was registered from.
    pub crate_name: &'static str,
    /// That crate's version.
    pub crate_version: &'static str,
    /// The position of the function that adds it to a comparison.
    pub add_alt: usize,
}

/// One input, offered to every candidate that shares one of its groups and
/// its type.
#[derive(Debug, Clone, Copy)]
pub struct Input {
    /// The groups this belongs to.
    pub groups: &'static [&'static str],
    /// What the report calls it.
    pub name: &'static str,
    /// The crate this was registered from.
    pub crate_name: &'static str,
    /// That crate's version.
    pub crate_version: &'static str,
    /// The identity of the type it produces.
    pub type_id: u64,
    /// That type as the source spells it.
    pub ty_name: &'static str,
    /// The position of the function that makes it.
    pub make: usize,
}

/// The values of a [`Registered`].
#[verifier::ext_equal]
pub struct RegisteredView {
    pub name: Seq<char>,
    pub crate_name: Seq<char>,
    pub crate_version: Seq<char>,
    pub add: usize,
}

/// The values of a [`Candidate`].
#[verifier::ext_equal]
pub struct CandidateView {
    pub groups: Seq<Seq<char>>,
    pub name: Seq<char>,
    pub input_type: u64,
    pub input_type_name: Seq<char>,
    pub is_baseline: bool,
    pub crate_name: Seq<char>,
    pub crate_version: Seq<char>,
    pub add_alt: usize,
}

/// The values of an [`Input`].
#[verifier::ext_equal]
pub struct InputView {
    pub groups: Seq<Seq<char>>,
    pub name: Seq<char>,
    pub crate_name: Seq<char>,
    pub crate_version: Seq<char>,
    pub type_id: u64,
    pub ty_name: Seq<char>,
    pub make: usize,
}

impl View for Registered {
    type V = RegisteredView;

    open spec fn view(&self) -> RegisteredView {
        RegisteredView {
            name: self.name@,
            crate_name: self.crate_name@,
            crate_version: self.crate_version@,
            add: self.add,
        }
    }
}

impl View for Candidate {
    type V = CandidateView;

    open spec fn view(&self) -> CandidateView {
        CandidateView {
            groups: text::texts(self.groups@),
            name: self.name@,
            input_type: self.input_type,
            input_type_name: self.input_type_name@,
            is_baseline: self.is_baseline,
            crate_name: self.crate_name@,
            crate_version: self.crate_version@,
            add_alt: self.add_alt,
        }
    }
}

impl View for Input {
    type V = InputView;

    open spec fn view(&self) -> InputView {
        InputView {
            groups: text::texts(self.groups@),
            name: self.name@,
            crate_name: self.crate_name@,
            crate_version: self.crate_version@,
            type_id: self.type_id,
            ty_name: self.ty_name@,
            make: self.make,
        }
    }
}

} // verus!
