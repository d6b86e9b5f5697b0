//! A study, which holds the store and the sampler, and the handle through
//! which the objective of one trial asks for its parameter values.

use vstd::prelude::*;
use crate::distribution::{
    CategoricalDistribution,
    DistributionModel,
    Distributions,
    IntUniformDistribution,
    LogUniformDistribution,
    MAX_CHOICES,
    UniformDistribution,
    labels,
    lemma_position_from,
    lemma_position_round_trip,
    position_or_zero,
};
use crate::error::Error;
use crate::sampler::Sampler;
use crate::scalar::Scalar;
use crate::storage::{
    FrozenTrial,
    FrozenTrialState,
    ParamModel,
    Storage,
    TrialModel,
    best_among,
    fresh_trial,
    guard,
    with_param,
    with_state,
    with_value,
};

verus! {

/// The records after the trial `id` was sealed: completed with the value,
/// where the objective gave one, and failed where it gave none. A trial
/// that does not exist or is already sealed leaves the records as they are.
pub open spec fn sealed(trials: Seq<TrialModel>, id: nat, outcome: Option<Scalar>) -> Seq<
    TrialModel,
> {
    if guard(trials, id) is Err {
        trials
    } else {
        match outcome {
            Some(value) => with_state(
                with_value(trials, id, value),
                id,
                FrozenTrialState::Completed,
            ),
            None => with_state(trials, id, FrozenTrialState::Failed),
        }
    }
}

/// The records after an attempt to write `param` under `name` in trial
/// `id`: unchanged where the trial does not exist or is sealed.
pub open spec fn recorded(trials: Seq<TrialModel>, id: nat, name: Seq<char>, param: ParamModel) -> Seq<
    TrialModel,
> {
    if guard(trials, id) is Err {
        trials
    } else {
        with_param(trials, id, name, param)
    }
}

/// The store of trial records and the sampler that draws their parameters.
pub struct Study {
    pub storage: Storage,
    pub sampler: Sampler,
}

/// A study on the given store and sampler.
pub fn create_study(storage: Storage, sampler: Sampler) -> (study: Study)
    ensures
        study.storage == storage,
        study.sampler == sampler,
{
    Study { storage, sampler }
}

impl Study {
    /// A study on the given store and sampler.
    pub fn new(storage: Storage, sampler: Sampler) -> (study: Self)
        ensures
            study.storage == storage,
            study.sampler == sampler,
    {
        Study { storage, sampler }
    }

    /// The completed trial with the smallest finite value; among equal
    /// values, the one created first.
    pub fn best_trial(&self) -> (r: Option<FrozenTrial>)
        ensures
            match r {
                None => forall|i: int|
                    0 <= i < self.storage@.len() ==> !(#[trigger] self.storage@[i]).eligible(),
                Some(t) => {
                    &&& t@.trial_id < self.storage@.len()
                    &&& t@ == self.storage@[t@.trial_id as int]
                    &&& best_among(self.storage@, t@.trial_id as int, self.storage@.len() as int)
                },
            },
    {
        self.storage.get_best_trial()
    }

    /// Opens the next trial: a running record is appended, and the handle
    /// for its objective is returned. The handle holds the study until the
    /// trial is sealed.
    pub fn start_trial(self) -> (trial: Trial)
        ensures
            trial.id() == self.storage@.len(),
            trial.records() == self.storage@.push(fresh_trial(trial.id())),
    {
        let mut study = self;
        let trial_id: usize = study.storage.create_new_trial();
        Trial { study, trial_id }
    }

    /// Seals a trial and takes the study back: with a value the trial is
    /// completed, without one it has failed. Afterwards the trial can no
    /// longer be changed.
    pub fn finish_trial(trial: Trial, outcome: Option<Scalar>) -> (study: Self)
        ensures
            study.storage@ == sealed(trial.records(), trial.id(), outcome),
            guard(study.storage@, trial.id()) is Err,
    {
        let trial_id: usize = trial.trial_id;
        let mut study = trial.study;
        match outcome {
            Some(value) => {
                match study.storage.set_trial_value(trial_id, value) {
                    Ok(()) => {
                        let _ = study.storage.set_trial_state(
                            trial_id,
                            FrozenTrialState::Completed,
                        );
                    },
                    Err(_) => {},
                }
            },
            None => {
                let _ = study.storage.set_trial_state(trial_id, FrozenTrialState::Failed);
            },
        }
        study
    }
}

/// The handle of one trial: the identifier of its record, and the study
/// whose store and sampler it works on.
pub struct Trial {
    study: Study,
    trial_id: usize,
}

impl Trial {
    /// The identifier of the trial's record.
    pub closed spec fn id(&self) -> nat {
        self.trial_id as nat
    }

    /// All records of the study that the handle holds.
    pub closed spec fn records(&self) -> Seq<TrialModel> {
        self.study.storage@
    }

    /// A handle for the trial `trial_id` of the study.
    pub fn new(study: Study, trial_id: usize) -> (trial: Self)
        ensures
            trial.id() == trial_id,
            trial.records() == study.storage@,
    {
        Trial { study, trial_id }
    }

    /// The identifier of the trial's record.
    pub fn trial_id(&self) -> (id: usize)
        ensures
            id == self.id(),
    {
        self.trial_id
    }

    /// A copy of the trial's record as it stands.
    pub fn snapshot(&self) -> (r: Result<FrozenTrial, Error>)
        ensures
            match r {
                Ok(t) => self.id() < self.records().len() && t@ == self.records()[self.id() as int],
                Err(e) => self.id() >= self.records().len() && e == Error::NotFound,
            },
    {
        self.study.storage.get_trial(self.trial_id)
    }

    /// Gives the study back, as it stands.
    pub fn into_study(self) -> (study: Study)
        ensures
            study.storage@ == self.records(),
    {
        self.study
    }

    /// Writes a parameter of this trial into the store.
    fn write(&mut self, name: &str, distribution: Distributions, internal: Scalar) -> (r: Result<
        (),
        Error,
    >)
        requires
            distribution@.admits(internal),
        ensures
            final(self).id() == old(self).id(),
            r == guard(old(self).records(), old(self).id()),
            final(self).records() == recorded(
                old(self).records(),
                old(self).id(),
                name@,
                ParamModel { value: internal, distribution: distribution@ },
            ),
    {
        self.study.storage.set_trial_param(self.trial_id, name, distribution, internal)
    }

    /// Records an integer drawn for the parameter `name` from the integers
    /// between `low` and `high`, and returns it. Bounds out of order are
    /// refused; a trial that is sealed or unknown is refused by the store.
    /// A refusal leaves the records as they were.
    pub fn record_int(&mut self, name: &str, low: i64, high: i64, drawn: i64) -> (r: Result<
        i64,
        Error,
    >)
        ensures
            final(self).id() == old(self).id(),
            match r {
                Ok(n) => {
                    &&& n == drawn
                    &&& low <= high
                    &&& guard(old(self).records(), old(self).id()) is Ok
                    &&& final(self).records() == with_param(
                        old(self).records(),
                        old(self).id(),
                        name@,
                        ParamModel {
                            value: Scalar::of_int(drawn as int),
                            distribution: DistributionModel::IntUni {
                                low: low as int,
                                high: high as int,
                            },
                        },
                    )
                },
                Err(e) => {
                    &&& final(self).records() == old(self).records()
                    &&& if low > high {
                        e == Error::Configuration
                    } else {
                        guard(old(self).records(), old(self).id()) == Err::<(), Error>(e)
                    }
                },
            },
    {
        let distribution = IntUniformDistribution::new(low, high);
        let wrapped = Distributions::IntUni(distribution);
        match wrapped.check() {
            Ok(()) => {},
            Err(e) => {
                return Err(e);
            },
        }
        let internal: Scalar = distribution.to_internal_repr(drawn);
        match self.write(name, wrapped, internal) {
            Ok(()) => Ok(drawn),
            Err(e) => Err(e),
        }
    }

    /// Draws an integer between `low` and `high`, both included, records it
    /// under `name` and returns it. Bounds out of order are refused before
    /// anything is drawn; a trial that is sealed or unknown is refused by
    /// the store. A refusal leaves the records as they were.
    pub fn suggest_int(&mut self, name: &str, low: i64, high: i64) -> (r: Result<i64, Error>)
        ensures
            final(self).id() == old(self).id(),
            match r {
                Ok(n) => {
                    &&& low <= n <= high
                    &&& guard(old(self).records(), old(self).id()) is Ok
                    &&& final(self).records() == with_param(
                        old(self).records(),
                        old(self).id(),
                        name@,
                        ParamModel {
                            value: Scalar::of_int(n as int),
                            distribution: DistributionModel::IntUni {
                                low: low as int,
                                high: high as int,
                            },
                        },
                    )
                },
                Err(e) => {
                    &&& final(self).records() == old(self).records()
                    &&& if low > high {
                        e == Error::Configuration
                    } else {
                        guard(old(self).records(), old(self).id()) == Err::<(), Error>(e)
                    }
                },
            },
    {
        let distribution = IntUniformDistribution::new(low, high);
        match self.study.sampler.sample_independent_int(&distribution) {
            Ok(drawn) => self.record_int(name, low, high, drawn),
            Err(e) => Err(e),
        }
    }

    /// Records the label at position `drawn` of `choices` for the parameter
    /// `name`, and returns it. What is stored is the first position at
    /// which that label stands. A list too long for its positions to be
    /// stored is refused; a trial that is sealed or unknown is refused by
    /// the store. A refusal leaves the records as they were.
    pub fn record_categorical(&mut self, name: &str, choices: Vec<String>, drawn: usize) -> (r:
        Result<String, Error>)
        requires
            drawn < choices@.len(),
        ensures
            final(self).id() == old(self).id(),
            match r {
                Ok(label) => {
                    &&& label@ == labels(choices@)[drawn as int]
                    &&& choices@.len() <= MAX_CHOICES
                    &&& guard(old(self).records(), old(self).id()) is Ok
                    &&& final(self).records() == with_param(
                        old(self).records(),
                        old(self).id(),
                        name@,
                        ParamModel {
                            value: Scalar::of_magnitude(
                                position_or_zero(labels(choices@), label@),
                            ),
                            distribution: DistributionModel::Categorical {
                                choices: labels(choices@),
                            },
                        },
                    )
                },
                Err(e) => {
                    &&& final(self).records() == old(self).records()
                    &&& if choices@.len() > MAX_CHOICES {
                        e == Error::Configuration
                    } else {
                        guard(old(self).records(), old(self).id()) == Err::<(), Error>(e)
                    }
                },
            },
    {
        let distribution = CategoricalDistribution::new(choices);
        let wrapped_check: bool = distribution.choices.len() as u64 <= MAX_CHOICES;
        if !wrapped_check {
            return Err(Error::Configuration);
        }
        let label: String = distribution.choice(drawn);
        let internal: Scalar = distribution.to_internal_repr(label.clone());
        proof {
            lemma_position_from(distribution@, label@, 0, drawn as nat);
            lemma_position_round_trip(position_or_zero(distribution@, label@));
        }
        match self.write(name, Distributions::Categorical(distribution), internal) {
            Ok(()) => Ok(label),
            Err(e) => Err(e),
        }
    }

    /// Draws one of the labels, records it under `name` and returns it. An
    /// empty list of labels, or one too long for its positions to be
    /// stored, is refused before anything is drawn; a trial that is sealed
    /// or unknown is refused by the store. A refusal leaves the records as
    /// they were.
    pub fn suggest_categorical(&mut self, name: &str, choices: Vec<String>) -> (r: Result<
        String,
        Error,
    >)
        ensures
            final(self).id() == old(self).id(),
            match r {
                Ok(label) => {
                    &&& labels(choices@).contains(label@)
                    &&& 0 < choices@.len() <= MAX_CHOICES
                    &&& guard(old(self).records(), old(self).id()) is Ok
                    &&& final(self).records() == with_param(
                        old(self).records(),
                        old(self).id(),
                        name@,
                        ParamModel {
                            value: Scalar::of_magnitude(
                                position_or_zero(labels(choices@), label@),
                            ),
                            distribution: DistributionModel::Categorical {
                                choices: labels(choices@),
                            },
                        },
                    )
                },
                Err(e) => {
                    &&& final(self).records() == old(self).records()
                    &&& if !(0 < choices@.len() <= MAX_CHOICES) {
                        e == Error::Configuration
                    } else {
                        guard(old(self).records(), old(self).id()) == Err::<(), Error>(e)
                    }
                },
            },
    {
        let distribution = CategoricalDistribution::new(choices);
        match self.study.sampler.sample_independent_position(&distribution) {
            Ok(drawn) => self.record_categorical(name, distribution.choices, drawn),
            Err(e) => Err(e),
        }
    }

    /// Records a number drawn for the parameter `name` from the range
    /// between `low` and `high`, and returns it. Bounds that are out of
    /// order or not numbers are refused; a trial that is sealed or unknown
    /// is refused by the store. A refusal leaves the records as they were.
    pub fn record_uniform(&mut self, name: &str, low: Scalar, high: Scalar, drawn: Scalar) -> (r:
        Result<Scalar, Error>)
        ensures
            final(self).id() == old(self).id(),
            match r {
                Ok(x) => {
                    &&& x == drawn
                    &&& low.at_most(high)
                    &&& guard(old(self).records(), old(self).id()) is Ok
                    &&& final(self).records() == with_param(
                        old(self).records(),
                        old(self).id(),
                        name@,
                        ParamModel {
                            value: drawn,
                            distribution: DistributionModel::Uni { low, high },
                        },
                    )
                },
                Err(e) => {
                    &&& final(self).records() == old(self).records()
                    &&& if !low.at_most(high) {
                        e == Error::Configuration
                    } else {
                        guard(old(self).records(), old(self).id()) == Err::<(), Error>(e)
                    }
                },
            },
    {
        let distribution = UniformDistribution::new(low, high);
        let wrapped = Distributions::Uni(distribution);
        match wrapped.check() {
            Ok(()) => {},
            Err(e) => {
                return Err(e);
            },
        }
        let internal: Scalar = distribution.to_internal_repr(drawn);
        match self.write(name, wrapped, internal) {
            Ok(()) => Ok(drawn),
            Err(e) => Err(e),
        }
    }

    /// Records a number drawn for the parameter `name` from the
    /// logarithmic range between `low` and `high`, and returns it. Bounds
    /// that are out of order, not numbers, or not above zero are refused; a
    /// trial that is sealed or unknown is refused by the store. A refusal
    /// leaves the records as they were.
    pub fn record_log(&mut self, name: &str, low: Scalar, high: Scalar, drawn: Scalar) -> (r:
        Result<Scalar, Error>)
        ensures
            final(self).id() == old(self).id(),
            match r {
                Ok(x) => {
                    &&& x == drawn
                    &&& (LogUniformDistribution { low, high }).valid()
                    &&& guard(old(self).records(), old(self).id()) is Ok
                    &&& final(self).records() == with_param(
                        old(self).records(),
                        old(self).id(),
                        name@,
                        ParamModel {
                            value: drawn,
                            distribution: DistributionModel::LogUni { low, high },
                        },
                    )
                },
                Err(e) => {
                    &&& final(self).records() == old(self).records()
                    &&& if !(LogUniformDistribution { low, high }).valid() {
                        e == Error::Configuration
                    } else {
                        guard(old(self).records(), old(self).id()) == Err::<(), Error>(e)
                    }
                },
            },
    {
        let distribution = LogUniformDistribution::new(low, high);
        let wrapped = Distributions::LogUni(distribution);
        match wrapped.check() {
            Ok(()) => {},
            Err(e) => {
                return Err(e);
            },
        }
        let internal: Scalar = distribution.to_internal_repr(drawn);
        match self.write(name, wrapped, internal) {
            Ok(()) => Ok(drawn),
            Err(e) => Err(e),
        }
    }
}

} // verus!
