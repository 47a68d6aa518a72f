//! The outcome of looking for the variable in one process's environment.

use vstd::prelude::*;

verus! {

/// What searching one process's environment block for the variable
/// yielded. The three variants are mutually exclusive and exhaustive:
/// the variable was found and carried this text, the block was read but
/// held no entry for the variable, or the block could not be read at
/// all.
#[derive(Debug, Eq, Hash)]
pub enum EnvVal {
    Value(String),
    Nothing,
    Fail,
}

/// The mathematical shape of an [`EnvVal`]: the carried text becomes a
/// sequence of characters.
pub enum EnvValView {
    Value(Seq<char>),
    Nothing,
    Fail,
}

impl View for EnvVal {
    type V = EnvValView;

    open spec fn view(&self) -> EnvValView {
        match self {
            EnvVal::Value(s) => EnvValView::Value(s@),
            EnvVal::Nothing => EnvValView::Nothing,
            EnvVal::Fail => EnvValView::Fail,
        }
    }
}

impl PartialEq for EnvVal {
    /// Outcomes are equal exactly when their views are: two `Value`s
    /// with the same text, or the same bare variant.
    fn eq(&self, other: &EnvVal) -> (r: bool) {
        match (self, other) {
            (EnvVal::Value(a), EnvVal::Value(b)) => a.eq(b),
            (EnvVal::Nothing, EnvVal::Nothing) => true,
            (EnvVal::Fail, EnvVal::Fail) => true,
            _ => false,
        }
    }
}

impl vstd::std_specs::cmp::PartialEqSpecImpl for EnvVal {
    open spec fn obeys_eq_spec() -> bool {
        true
    }

    open spec fn eq_spec(&self, other: &EnvVal) -> bool {
        self@ == other@
    }
}

/// One line of the final table: every process whose environment gave
/// the same outcome, in the order the outcomes arrived.
pub struct Group {
    pub outcome: EnvVal,
    pub pids: Vec<u32>,
}

/// The mathematical shape of a [`Group`].
pub struct GroupView {
    pub outcome: EnvValView,
    pub pids: Seq<u32>,
}

impl View for Group {
    type V = GroupView;

    open spec fn view(&self) -> GroupView {
        GroupView { outcome: self.outcome@, pids: self.pids@ }
    }
}

} // verus!
