//! Parameter distributions: one kind per search space, each converting
//! between the value a caller sees and the scalar that is stored.

use vstd::prelude::*;
use crate::error::Error;
use crate::scalar::{Scalar, lemma_int_round_trip};

verus! {

/// Longest list of labels whose every position a scalar holds exactly.
pub const MAX_CHOICES: u64 = 0x0020_0000_0000_0000;

/// The labels of a list of strings, as sequences of characters.
pub open spec fn labels(choices: Seq<String>) -> Seq<Seq<char>> {
    choices.map_values(|s: String| s@)
}

/// First position at or after `start` where `label` stands in `choices`;
/// zero when there is none.
pub open spec fn position_from(choices: Seq<Seq<char>>, label: Seq<char>, start: nat) -> nat
    decreases choices.len() - start,
{
    if start >= choices.len() {
        0
    } else if choices[start as int] == label {
        start
    } else {
        position_from(choices, label, start + 1)
    }
}

/// First position of `label` in `choices`; zero when it is absent.
pub open spec fn position_or_zero(choices: Seq<Seq<char>>, label: Seq<char>) -> nat {
    position_from(choices, label, 0)
}

/// A label that occurs in the list is found at its first occurrence.
pub proof fn lemma_position_from(choices: Seq<Seq<char>>, label: Seq<char>, start: nat, k: nat)
    requires
        start <= k < choices.len(),
        choices[k as int] == label,
    ensures
        start <= position_from(choices, label, start) <= k,
        choices[position_from(choices, label, start) as int] == label,
    decreases k - start,
{
    if choices[start as int] != label {
        lemma_position_from(choices, label, (start + 1) as nat, k);
    }
}

/// The position found is always a position of the list, when the list is
/// not empty: the fallback for an absent label is a position too.
pub proof fn lemma_position_in_range(choices: Seq<Seq<char>>, label: Seq<char>, start: nat)
    requires
        choices.len() > 0,
    ensures
        position_from(choices, label, start) < choices.len(),
    decreases choices.len() - start,
{
    if start < choices.len() && choices[start as int] != label {
        lemma_position_in_range(choices, label, start + 1);
    }
}

/// A copy of a list of labels.
pub fn copy_labels(src: &Vec<String>) -> (dst: Vec<String>)
    ensures
        labels(dst@) == labels(src@),
{
    let mut dst: Vec<String> = Vec::new();
    let mut i: usize = 0;
    while i < src.len()
        invariant
            i <= src.len(),
            dst@.len() == i,
            forall|j: int| 0 <= j < i ==> dst@[j]@ == src@[j]@,
        decreases src.len() - i,
    {
        dst.push(src[i].clone());
        i = i + 1;
    }
    assert(labels(dst@) =~= labels(src@));
    dst
}

/// Integers from `low` to `high`, both included.
#[derive(Clone, Copy, Debug, PartialEq, Eq, Structural)]
pub struct IntUniformDistribution {
    pub low: i64,
    pub high: i64,
}

impl IntUniformDistribution {
    /// The distribution with the given bounds, which are not examined.
    pub fn new(low: i64, high: i64) -> (d: Self)
        ensures
            d.low == low,
            d.high == high,
    {
        IntUniformDistribution { low, high }
    }

    /// The bounds are in order.
    pub open spec fn valid(self) -> bool {
        self.low <= self.high
    }

    /// The scalar nearest to the integer; the integer itself up to two to
    /// the 53 in magnitude.
    pub fn to_internal_repr(&self, external_repr: i64) -> (internal: Scalar)
        ensures
            internal == Scalar::of_int(external_repr as int),
    {
        Scalar::from_int(external_repr)
    }

    /// The integer part of the scalar.
    pub fn to_external_repr(&self, internal_repr: Scalar) -> (external: i64)
        ensures
            external == internal_repr.truncated(),
    {
        internal_repr.to_int()
    }
}

/// Numbers from `low` to `high`, both included.
#[derive(Clone, Copy, Debug, PartialEq, Eq, Structural)]
pub struct UniformDistribution {
    pub low: Scalar,
    pub high: Scalar,
}

impl UniformDistribution {
    /// The distribution with the given bounds, which are not examined.
    pub fn new(low: Scalar, high: Scalar) -> (d: Self)
        ensures
            d.low == low,
            d.high == high,
    {
        UniformDistribution { low, high }
    }

    /// The bounds are numbers, in order.
    pub open spec fn valid(self) -> bool {
        self.low.at_most(self.high)
    }

    /// The number lies between the bounds, both included.
    pub open spec fn covers(self, x: Scalar) -> bool {
        self.low.at_most(x) && x.at_most(self.high)
    }

    /// Whether the number lies between the bounds, both included.
    pub fn contains(&self, x: Scalar) -> (r: bool)
        ensures
            r == self.covers(x),
    {
        self.low.le(x) && x.le(self.high)
    }

    /// The number itself.
    pub fn to_internal_repr(&self, external_repr: Scalar) -> (internal: Scalar)
        ensures
            internal == external_repr,
    {
        external_repr
    }

    /// The number itself.
    pub fn to_external_repr(&self, internal_repr: Scalar) -> (external: Scalar)
        ensures
            external == internal_repr,
    {
        internal_repr
    }
}

/// Positive numbers from `low` to `high`, both included, spread evenly on a
/// logarithmic scale.
#[derive(Clone, Copy, Debug, PartialEq, Eq, Structural)]
pub struct LogUniformDistribution {
    pub low: Scalar,
    pub high: Scalar,
}

impl LogUniformDistribution {
    /// The distribution with the given bounds, which are not examined.
    pub fn new(low: Scalar, high: Scalar) -> (d: Self)
        ensures
            d.low == low,
            d.high == high,
    {
        LogUniformDistribution { low, high }
    }

    /// The bounds are numbers, in order, and the lower one is above zero.
    pub open spec fn valid(self) -> bool {
        (Scalar { bits: 0 }).less_than(self.low) && self.low.at_most(self.high)
    }

    /// The number lies between the bounds, both included.
    pub open spec fn covers(self, x: Scalar) -> bool {
        self.low.at_most(x) && x.at_most(self.high)
    }

    /// Whether the number lies between the bounds, both included.
    pub fn contains(&self, x: Scalar) -> (r: bool)
        ensures
            r == self.covers(x),
    {
        self.low.le(x) && x.le(self.high)
    }

    /// The number itself.
    pub fn to_internal_repr(&self, external_repr: Scalar) -> (internal: Scalar)
        ensures
            internal == external_repr,
    {
        external_repr
    }

    /// The number itself.
    pub fn to_external_repr(&self, internal_repr: Scalar) -> (external: Scalar)
        ensures
            external == internal_repr,
    {
        internal_repr
    }
}

/// One of a list of labels, told apart by position.
#[derive(Debug)]
pub struct CategoricalDistribution {
    pub choices: Vec<String>,
}

impl View for CategoricalDistribution {
    type V = Seq<Seq<char>>;

    open spec fn view(&self) -> Seq<Seq<char>> {
        labels(self.choices@)
    }
}

impl Clone for CategoricalDistribution {
    fn clone(&self) -> (d: Self)
        ensures
            d@ == self@,
    {
        CategoricalDistribution { choices: copy_labels(&self.choices) }
    }
}

impl CategoricalDistribution {
    /// The distribution over the given labels, which are not examined.
    pub fn new(choices: Vec<String>) -> (d: Self)
        ensures
            d.choices == choices,
            d@ == labels(choices@),
    {
        CategoricalDistribution { choices }
    }

    /// There is a label, and no more labels than a scalar can number.
    pub open spec fn valid(self) -> bool {
        0 < self@.len() <= MAX_CHOICES
    }

    /// The position of the label's first occurrence, as a scalar; position
    /// zero for a label that is not in the list.
    pub fn to_internal_repr(&self, external_repr: String) -> (internal: Scalar)
        ensures
            internal == Scalar::of_magnitude(position_or_zero(self@, external_repr@)),
    {
        let mut i: usize = 0;
        while i < self.choices.len()
            invariant
                i <= self.choices.len(),
                self@.len() == self.choices.len(),
                position_or_zero(self@, external_repr@) == position_from(
                    self@,
                    external_repr@,
                    i as nat,
                ),
            decreases self.choices.len() - i,
        {
            assert(self@[i as int] == self.choices@[i as int]@);
            if self.choices[i] == external_repr {
                return Scalar::from_magnitude(i as u64);
            }
            i = i + 1;
        }
        Scalar::from_magnitude(0)
    }

    /// The label at position `i`.
    pub fn choice(&self, i: usize) -> (label: String)
        requires
            i < self@.len(),
        ensures
            label@ == self@[i as int],
    {
        assert(self@[i as int] == self.choices@[i as int]@);
        self.choices[i].clone()
    }

    /// The label at the position that the scalar names.
    pub fn to_external_repr(&self, internal_repr: Scalar) -> (external: String)
        requires
            internal_repr.index() < self@.len(),
        ensures
            external@ == self@[internal_repr.index() as int],
    {
        let count: usize = self.choices.len();
        assert(self@.len() == count);
        let i: usize = internal_repr.to_index();
        assert(self@[i as int] == self.choices@[i as int]@);
        self.choices[i].clone()
    }
}

/// A distribution of any kind.
#[derive(Debug)]
pub enum Distributions {
    Uni(UniformDistribution),
    IntUni(IntUniformDistribution),
    Categorical(CategoricalDistribution),
    LogUni(LogUniformDistribution),
}

/// What a distribution is, apart from how its labels are stored.
#[allow(inconsistent_fields)]
pub enum DistributionModel {
    Uni { low: Scalar, high: Scalar },
    IntUni { low: int, high: int },
    Categorical { choices: Seq<Seq<char>> },
    LogUni { low: Scalar, high: Scalar },
}

impl DistributionModel {
    /// Whether the scalar can be turned back into a value of this
    /// distribution: for labels it must name a position of the list.
    pub open spec fn admits(self, internal: Scalar) -> bool {
        match self {
            DistributionModel::Categorical { choices } => internal.index() < choices.len(),
            _ => true,
        }
    }

    /// The value that a caller sees for a stored scalar.
    pub open spec fn external(self, internal: Scalar) -> ExternalModel {
        match self {
            DistributionModel::Uni { .. } => ExternalModel::Float(internal),
            DistributionModel::LogUni { .. } => ExternalModel::Float(internal),
            DistributionModel::IntUni { .. } => ExternalModel::Int(internal.truncated()),
            DistributionModel::Categorical { choices } => ExternalModel::Str(
                choices[internal.index() as int],
            ),
        }
    }

    /// Whether the bounds or choices are well formed.
    pub open spec fn valid(self) -> bool {
        match self {
            DistributionModel::Uni { low, high } => low.at_most(high),
            DistributionModel::LogUni { low, high } => (Scalar { bits: 0 }).less_than(low)
                && low.at_most(high),
            DistributionModel::IntUni { low, high } => low <= high,
            DistributionModel::Categorical { choices } => 0 < choices.len() <= MAX_CHOICES,
        }
    }
}

impl View for Distributions {
    type V = DistributionModel;

    open spec fn view(&self) -> DistributionModel {
        match *self {
            Distributions::Uni(d) => DistributionModel::Uni { low: d.low, high: d.high },
            Distributions::IntUni(d) => DistributionModel::IntUni {
                low: d.low as int,
                high: d.high as int,
            },
            Distributions::Categorical(d) => DistributionModel::Categorical { choices: d@ },
            Distributions::LogUni(d) => DistributionModel::LogUni { low: d.low, high: d.high },
        }
    }
}

impl Clone for Distributions {
    fn clone(&self) -> (d: Self)
        ensures
            d@ == self@,
    {
        match self {
            Distributions::Uni(d) => Distributions::Uni(*d),
            Distributions::IntUni(d) => Distributions::IntUni(*d),
            Distributions::Categorical(d) => Distributions::Categorical(d.clone()),
            Distributions::LogUni(d) => Distributions::LogUni(*d),
        }
    }
}

impl Distributions {
    /// Refuses a distribution whose bounds or choices are malformed.
    pub fn check(&self) -> (r: Result<(), Error>)
        ensures
            self@.valid() ==> r == Ok::<(), Error>(()),
            !self@.valid() ==> r == Err::<(), Error>(Error::Configuration),
    {
        let ok: bool = match self {
            Distributions::Uni(d) => d.low.le(d.high),
            Distributions::IntUni(d) => d.low <= d.high,
            Distributions::Categorical(d) => 0 < d.choices.len() && d.choices.len() as u64 <= MAX_CHOICES,
            Distributions::LogUni(d) => Scalar::zero().lt(d.low) && d.low.le(d.high),
        };
        if ok {
            Ok(())
        } else {
            Err(Error::Configuration)
        }
    }

    /// Whether the scalar can be turned back into a value of this
    /// distribution.
    pub fn admits(&self, internal: Scalar) -> (r: bool)
        ensures
            r == self@.admits(internal),
    {
        match self {
            Distributions::Categorical(d) => {
                let count: usize = d.choices.len();
                assert(d@.len() == count);
                internal.to_index() < count
            },
            _ => true,
        }
    }

    /// The value that a caller sees for a stored scalar.
    pub fn to_external_repr(&self, internal_repr: Scalar) -> (external: ExternalRepr)
        requires
            self@.admits(internal_repr),
        ensures
            external@ == self@.external(internal_repr),
    {
        match self {
            Distributions::Uni(d) => ExternalRepr::Float(d.to_external_repr(internal_repr)),
            Distributions::IntUni(d) => ExternalRepr::Int(d.to_external_repr(internal_repr)),
            Distributions::Categorical(d) => ExternalRepr::Str(d.to_external_repr(internal_repr)),
            Distributions::LogUni(d) => ExternalRepr::Float(d.to_external_repr(internal_repr)),
        }
    }
}

/// A parameter value as a caller sees it.
#[derive(Debug)]
pub enum ExternalRepr {
    Int(i64),
    Float(Scalar),
    Str(String),
}

/// A parameter value as a caller sees it, with a label as its characters.
pub enum ExternalModel {
    Int(int),
    Float(Scalar),
    Str(Seq<char>),
}

impl View for ExternalRepr {
    type V = ExternalModel;

    open spec fn view(&self) -> ExternalModel {
        match *self {
            ExternalRepr::Int(n) => ExternalModel::Int(n as int),
            ExternalRepr::Float(x) => ExternalModel::Float(x),
            ExternalRepr::Str(s) => ExternalModel::Str(s@),
        }
    }
}

/// Every integer between the bounds of the distribution survives the way
/// into the stored scalar and back, as long as its magnitude is at most two
/// to the 53; beyond that a scalar no longer holds every integer.
pub proof fn lemma_int_uniform_round_trip(d: IntUniformDistribution, n: i64)
    requires
        d.low <= n <= d.high,
        -0x0020_0000_0000_0000 <= n <= 0x0020_0000_0000_0000,
    ensures
        Scalar::of_int(n as int).truncated() == n,
{
    lemma_int_round_trip(n as int);
}

/// Whatever a well-formed logarithmic range covers is above zero.
pub proof fn lemma_log_uniform_positive(d: LogUniformDistribution, x: Scalar)
    requires
        d.valid(),
        d.covers(x),
    ensures
        (Scalar { bits: 0 }).less_than(x),
{
}

/// Every position of a well-formed list of labels survives the way into the
/// stored scalar and back.
pub proof fn lemma_position_round_trip(i: nat)
    requires
        i <= MAX_CHOICES,
    ensures
        Scalar::of_magnitude(i).index() == i,
{
    lemma_int_round_trip(i as int);
}

/// Whatever the label, what a well-formed list of labels stores for it can
/// be turned back into one of its labels.
pub proof fn lemma_categorical_internal_admitted(choices: Seq<Seq<char>>, label: Seq<char>)
    requires
        0 < choices.len() <= MAX_CHOICES,
    ensures
        (DistributionModel::Categorical { choices }).admits(
            Scalar::of_magnitude(position_or_zero(choices, label)),
        ),
{
    lemma_position_in_range(choices, label, 0);
    lemma_position_round_trip(position_or_zero(choices, label));
}

/// Every label of a well-formed list survives the way into the stored
/// scalar and back.
pub proof fn lemma_categorical_round_trip(choices: Seq<Seq<char>>, k: int)
    requires
        0 <= k < choices.len() <= MAX_CHOICES,
    ensures
        Scalar::of_magnitude(position_or_zero(choices, choices[k])).index() < choices.len(),
        choices[Scalar::of_magnitude(position_or_zero(choices, choices[k])).index() as int]
            == choices[k],
{
    lemma_position_from(choices, choices[k], 0, k as nat);
    lemma_position_round_trip(position_or_zero(choices, choices[k]));
}

} // verus!
