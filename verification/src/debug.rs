//! Rendering for diagnosis: the elements in logical order.

use vstd::prelude::*;
use std::fmt::{Debug, Error, Formatter};
use crate::vec_rotate::VecRotate;

verus! {

/// The formatter that the standard library hands to `fmt`. Nothing is known
/// of what it holds.
#[verifier::external_type_specification]
#[verifier::external_body]
pub struct ExFormatter<'a>(Formatter<'a>);

/// The error of the standard library's formatting. Nothing is known of what
/// it holds.
#[verifier::external_type_specification]
#[verifier::external_body]
pub struct ExError(Error);

/// Calls `Debug::fmt` of the standard library's `Vec`, which renders the
/// items as a list, each by its own `Debug`. Nothing is claimed of the text
/// or of the outcome.
#[verifier::external_body]
fn fmt_list<T: Debug>(items: &Vec<T>, f: &mut Formatter<'_>) -> (outcome: Result<(), Error>) {
    Debug::fmt(items, f)
}

impl<T: Debug + Clone> Debug for VecRotate<T> {
    /// Renders the elements as a list in logical order, whatever the order
    /// in which the store holds them.
    fn fmt(&self, f: &mut Formatter<'_>) -> (outcome: Result<(), Error>) {
        let items = self.to_vec();
        fmt_list(&items, f)
    }
}

} // verus!
