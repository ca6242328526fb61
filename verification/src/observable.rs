use vstd::prelude::*;

verus! {

/// Whether an observable grows, shrinks, or stays constant under RG flow.
#[derive(Debug, Clone, Copy, PartialEq, Eq, Structural)]
pub enum Relevance {
    Relevant,
    Irrelevant,
    Marginal,
}

/// An observable quantity tracked across scales: one value per scale, in
/// the order in which the scales were visited.
#[derive(Debug, Clone)]
pub struct Observable<T> {
    pub name: String,
    pub values: Vec<T>,
    pub relevance: Relevance,
    pub scaling_dimension: T,
}

impl<T> Observable<T> {
    /// Create a new observable whose relevance is not yet known (marginal).
    pub fn new(name: &str, values: Vec<T>, scaling_dimension: T) -> (o: Self)
        ensures
            o.name@ == name@,
            o.values@ == values@,
            o.relevance == Relevance::Marginal,
            o.scaling_dimension == scaling_dimension,
    {
        Observable {
            name: String::from_str(name),
            values,
            relevance: Relevance::Marginal,
            scaling_dimension,
        }
    }

    /// Classify relevance from how the values change across scales.
    ///
    /// With fewer than two values the observable is marginal; otherwise
    /// `rule(first, last)` decides from the first and the last value (the
    /// usual rule compares their ratio with a threshold). Only the
    /// relevance changes.
    pub fn classify_with<R: Fn(&T, &T) -> Relevance>(&mut self, rule: R)
        requires
            forall|a: &T, b: &T| #[trigger] call_requires(rule, (a, b)),
        ensures
            final(self).name == old(self).name,
            final(self).values == old(self).values,
            final(self).scaling_dimension == old(self).scaling_dimension,
            old(self).values@.len() < 2 ==> final(self).relevance == Relevance::Marginal,
            old(self).values@.len() >= 2 ==> call_ensures(
                rule,
                (&old(self).values@[0], &old(self).values@.last()),
                final(self).relevance,
            ),
    {
        let n = self.values.len();
        if n < 2 {
            self.relevance = Relevance::Marginal;
            return;
        }
        let r = rule(&self.values[0], &self.values[n - 1]);
        self.relevance = r;
    }
}

} // verus!
