//! Recipes: the payload of the edges of a production graph.

use vstd::prelude::*;
use crate::error::{Failure, FlowError};
use crate::fraction::{Frac, lemma_quotient_valid};
use crate::rate::Rate;

verus! {

/// An amount of one item, as a recipe consumes or yields it in one run.
#[derive(Debug, Clone, Copy)]
pub struct Reagent {
    /// The key of the item.
    pub widget: u64,
    pub quantity: u64,
}

/// A process that turns reagents into products in a given time.
#[derive(Debug)]
pub struct Recipe {
    pub name: String,
    pub builder: String,
    /// The time that one run takes, in seconds.
    pub duration: Rate,
    /// What one run yields.
    pub products: Vec<Reagent>,
    /// What one run consumes, in the order in which the recipe names it.
    pub reagents: Vec<Reagent>,
}

/// The quantity of the first entry of `amounts` that names `widget`; zero if
/// there is none.
pub open spec fn quantity_of(amounts: Seq<Reagent>, widget: u64) -> u64
    decreases amounts.len(),
{
    if amounts.len() == 0 {
        0
    } else if amounts[0].widget == widget {
        amounts[0].quantity
    } else {
        quantity_of(amounts.drop_first(), widget)
    }
}

impl Recipe {
    /// How much of `widget` one run yields.
    pub open spec fn produced(&self, widget: u64) -> u64 {
        quantity_of(self.products@, widget)
    }

    /// The rate at which the recipe yields `widget`: the quantity of one run
    /// by the duration of one run.
    pub open spec fn spec_rate(&self, widget: u64) -> Result<Frac, Failure> {
        let yielded = Frac::from_int(self.produced(widget) as int);
        if self.produced(widget) == 0 || self.duration@.is_zero() {
            Err(Failure::InvalidPayload)
        } else if self.produced(widget) > i64::MAX || !yielded.quotient_fits(self.duration@) {
            Err(Failure::RateOverflow)
        } else {
            Ok(yielded.quotient(self.duration@))
        }
    }

    /// How much of `widget` one run yields.
    pub fn produced_quantity(&self, widget: u64) -> (quantity: u64)
        ensures
            quantity == self.produced(widget),
    {
        let mut i: usize = 0;
        assert(self.products@.skip(0) == self.products@);
        while i < self.products.len()
            invariant
                i <= self.products.len(),
                quantity_of(self.products@, widget) == quantity_of(
                    self.products@.skip(i as int),
                    widget,
                ),
            decreases self.products.len() - i,
        {
            let ghost rest = self.products@.skip(i as int);
            assert(rest[0] == self.products@[i as int]);
            assert(rest.drop_first() == self.products@.skip(i + 1));
            if self.products[i].widget == widget {
                return self.products[i].quantity;
            }
            i += 1;
        }
        0
    }

    /// The rate, in units per second, at which the recipe yields `widget`.
    /// A recipe that takes no time or yields nothing of `widget` is invalid.
    pub fn rate(&self, widget: u64) -> (r: Result<Rate, FlowError>)
        ensures
            match self.spec_rate(widget) {
                Ok(rate) => r is Ok && r->Ok_0@ == rate && rate.valid() && rate.num > 0,
                Err(failure) => r is Err && r->Err_0@ == failure,
            },
    {
        let quantity = self.produced_quantity(widget);
        if quantity == 0 || self.duration.is_zero() {
            return Err(FlowError::InvalidPayload);
        }
        let yielded = match Rate::from_integer(quantity) {
            Some(yielded) => yielded,
            None => {
                return Err(FlowError::RateOverflow);
            },
        };
        match yielded.checked_div(&self.duration) {
            Some(rate) => {
                proof {
                    lemma_quotient_valid(yielded@, self.duration@);
                }
                Ok(rate)
            },
            None => Err(FlowError::RateOverflow),
        }
    }
}

} // verus!
