//! Trial records and the store that owns them. A record changes only while
//! its trial is running, and only through the store.

use vstd::prelude::*;
use crate::distribution::{DistributionModel, Distributions, ExternalModel, ExternalRepr};
use crate::error::Error;
use crate::scalar::Scalar;

verus! {

/// Where a trial stands in its life cycle. Only `Running` can be left.
#[derive(Clone, Copy, Debug, PartialEq, Eq, Structural)]
pub enum FrozenTrialState {
    Running,
    Completed,
    Failed,
}

/// One recorded parameter: its name, the stored scalar, and the
/// distribution that the scalar was drawn from.
#[derive(Debug)]
struct ParamEntry {
    name: String,
    value: Scalar,
    distribution: Distributions,
}

/// What is recorded under a parameter name.
pub struct ParamModel {
    pub value: Scalar,
    pub distribution: DistributionModel,
}

impl ParamModel {
    /// The value that a caller sees.
    pub open spec fn external(self) -> ExternalModel {
        self.distribution.external(self.value)
    }
}

impl ParamEntry {
    spec fn model(self) -> ParamModel {
        ParamModel { value: self.value, distribution: self.distribution@ }
    }
}

/// The map from parameter names to what is recorded under them; where a
/// name stands twice, the later entry counts.
spec fn params_of(entries: Seq<ParamEntry>) -> Map<Seq<char>, ParamModel>
    decreases entries.len(),
{
    if entries.len() == 0 {
        Map::empty()
    } else {
        params_of(entries.drop_last()).insert(entries.last().name@, entries.last().model())
    }
}

/// The map from names to values that a list of pairs stands for.
pub open spec fn values_of(pairs: Seq<(String, ExternalRepr)>) -> Map<Seq<char>, ExternalModel>
    decreases pairs.len(),
{
    if pairs.len() == 0 {
        Map::empty()
    } else {
        values_of(pairs.drop_last()).insert(pairs.last().0@, pairs.last().1@)
    }
}

/// No name stands twice.
spec fn distinct_names(entries: Seq<ParamEntry>) -> bool {
    forall|i: int, j: int|
        0 <= i < j < entries.len() ==> (#[trigger] entries[i]).name@ != (#[trigger] entries[j]).name@
}

/// Two lists record the same things in the same order.
spec fn same_entries(a: Seq<ParamEntry>, b: Seq<ParamEntry>) -> bool {
    &&& a.len() == b.len()
    &&& forall|i: int|
        0 <= i < a.len() ==> (#[trigger] a[i]).name@ == b[i].name@ && a[i].model() == b[i].model()
}

/// No name stands twice in a list of pairs.
pub open spec fn distinct_labels(pairs: Seq<(String, ExternalRepr)>) -> bool {
    forall|i: int, j: int|
        0 <= i < j < pairs.len() ==> (#[trigger] pairs[i]).0@ != (#[trigger] pairs[j]).0@
}

/// No name is recorded twice, and every stored scalar can be turned back
/// into a value of its distribution.
spec fn entries_wf(entries: Seq<ParamEntry>) -> bool {
    &&& distinct_names(entries)
    &&& forall|i: int|
        0 <= i < entries.len() ==> (#[trigger] entries[i]).distribution@.admits(entries[i].value)
}

proof fn lemma_same_entries_wf(a: Seq<ParamEntry>, b: Seq<ParamEntry>)
    requires
        same_entries(a, b),
        entries_wf(a),
    ensures
        entries_wf(b),
{
    assert forall|i: int, j: int| 0 <= i < j < b.len() implies (#[trigger] b[i]).name@ != (
    #[trigger] b[j]).name@ by {
        assert(a[i].name@ == b[i].name@ && a[j].name@ == b[j].name@);
    }
    assert forall|i: int| 0 <= i < b.len() implies (#[trigger] b[i]).distribution@.admits(
        b[i].value,
    ) by {
        assert(a[i].model() == b[i].model());
    }
}

/// A name that no entry bears is not in the map.
proof fn lemma_params_absent(entries: Seq<ParamEntry>, name: Seq<char>)
    requires
        forall|k: int| 0 <= k < entries.len() ==> (#[trigger] entries[k]).name@ != name,
    ensures
        !params_of(entries).dom().contains(name),
    decreases entries.len(),
{
    if entries.len() > 0 {
        lemma_params_absent(entries.drop_last(), name);
        assert(entries.last() == entries[entries.len() - 1]);
    }
}

/// The map holds each entry under its name, when no name stands twice.
proof fn lemma_params_found(entries: Seq<ParamEntry>, j: int)
    requires
        distinct_names(entries),
        0 <= j < entries.len(),
    ensures
        params_of(entries).dom().contains(entries[j].name@),
        params_of(entries)[entries[j].name@] == entries[j].model(),
    decreases entries.len(),
{
    if j < entries.len() - 1 {
        assert(entries[j].name@ != entries.last().name@);
        assert(distinct_names(entries.drop_last())) by {
            assert forall|a: int, b: int| 0 <= a < b < entries.drop_last().len() implies (
            #[trigger] entries.drop_last()[a]).name@ != (#[trigger] entries.drop_last()[b]).name@ by {
                assert(entries[a].name@ != entries[b].name@);
            }
        }
        lemma_params_found(entries.drop_last(), j);
    }
}

proof fn lemma_params_push(entries: Seq<ParamEntry>, e: ParamEntry)
    ensures
        params_of(entries.push(e)) == params_of(entries).insert(e.name@, e.model()),
{
    assert(entries.push(e).drop_last() =~= entries);
}

proof fn lemma_params_same(a: Seq<ParamEntry>, b: Seq<ParamEntry>)
    requires
        same_entries(a, b),
    ensures
        params_of(a) == params_of(b),
    decreases a.len(),
{
    if a.len() > 0 {
        lemma_params_same(a.drop_last(), b.drop_last());
    }
}

/// Replacing an entry by one of the same name is an insertion into the map,
/// when no name stands twice.
proof fn lemma_params_update(entries: Seq<ParamEntry>, j: int, e: ParamEntry)
    requires
        distinct_names(entries),
        0 <= j < entries.len(),
        e.name@ == entries[j].name@,
    ensures
        params_of(entries.update(j, e)) == params_of(entries).insert(e.name@, e.model()),
    decreases entries.len(),
{
    let after = entries.update(j, e);
    if j == entries.len() - 1 {
        assert(after.drop_last() =~= entries.drop_last());
        assert(params_of(after) =~= params_of(entries).insert(e.name@, e.model()));
    } else {
        let last = entries.last();
        assert(after.drop_last() =~= entries.drop_last().update(j, e));
        assert(distinct_names(entries.drop_last())) by {
            assert forall|a: int, b: int| 0 <= a < b < entries.drop_last().len() implies (
            #[trigger] entries.drop_last()[a]).name@ != (#[trigger] entries.drop_last()[b]).name@ by {
                assert(entries[a].name@ != entries[b].name@);
            }
        }
        lemma_params_update(entries.drop_last(), j, e);
        assert(entries[j].name@ != last.name@);
        assert(params_of(after) =~= params_of(entries).insert(e.name@, e.model()));
    }
}

/// A copy of a list of entries.
fn copy_entries(src: &Vec<ParamEntry>) -> (dst: Vec<ParamEntry>)
    ensures
        same_entries(dst@, src@),
{
    let mut dst: Vec<ParamEntry> = Vec::new();
    let mut i: usize = 0;
    while i < src.len()
        invariant
            i <= src.len(),
            dst@.len() == i,
            forall|j: int|
                0 <= j < i ==> (#[trigger] dst@[j]).name@ == src@[j].name@ && dst@[j].model()
                    == src@[j].model(),
        decreases src.len() - i,
    {
        let e: &ParamEntry = &src[i];
        dst.push(
            ParamEntry {
                name: e.name.clone(),
                value: e.value,
                distribution: e.distribution.clone(),
            },
        );
        i = i + 1;
    }
    dst
}

/// The record of one trial.
#[derive(Debug)]
pub struct FrozenTrial {
    trial_id: usize,
    state: FrozenTrialState,
    value: Scalar,
    entries: Vec<ParamEntry>,
}

/// What a trial record says: identifier, state, objective value, and the
/// recorded parameters by name.
pub struct TrialModel {
    pub trial_id: nat,
    pub state: FrozenTrialState,
    pub value: Scalar,
    pub params: Map<Seq<char>, ParamModel>,
}

impl TrialModel {
    /// The parameters as a caller sees them.
    pub open spec fn external_params(self) -> Map<Seq<char>, ExternalModel> {
        self.params.map_values(|p: ParamModel| p.external())
    }

    /// Completed with a finite value: a candidate for the best trial.
    pub open spec fn eligible(self) -> bool {
        self.state == FrozenTrialState::Completed && self.value.finite()
    }
}

impl View for FrozenTrial {
    type V = TrialModel;

    closed spec fn view(&self) -> TrialModel {
        TrialModel {
            trial_id: self.trial_id as nat,
            state: self.state,
            value: self.value,
            params: params_of(self.entries@),
        }
    }
}

impl Clone for FrozenTrial {
    fn clone(&self) -> (t: Self)
        ensures
            t@ == self@,
    {
        let entries = copy_entries(&self.entries);
        proof {
            use_type_invariant(self);
            lemma_params_same(entries@, self.entries@);
            lemma_same_entries_wf(self.entries@, entries@);
        }
        FrozenTrial { trial_id: self.trial_id, state: self.state, value: self.value, entries }
    }
}

impl FrozenTrial {
    /// No name is recorded twice, and every stored scalar can be turned
    /// back into a value of its distribution.
    #[verifier::type_invariant]
    spec fn wf(&self) -> bool {
        entries_wf(self.entries@)
    }

    /// A record without parameters.
    pub fn new(trial_id: usize, state: FrozenTrialState, value: Scalar) -> (t: Self)
        ensures
            t@ == (TrialModel { trial_id: trial_id as nat, state, value, params: Map::empty() }),
    {
        FrozenTrial { trial_id, state, value, entries: Vec::new() }
    }

    /// The identifier: the number of trials created before this one.
    pub fn trial_id(&self) -> (id: usize)
        ensures
            id == self@.trial_id,
    {
        self.trial_id
    }

    /// Where the trial stands in its life cycle.
    pub fn state(&self) -> (state: FrozenTrialState)
        ensures
            state == self@.state,
    {
        self.state
    }

    /// The objective value; it means something only once the trial is
    /// completed.
    pub fn value(&self) -> (value: Scalar)
        ensures
            value == self@.value,
    {
        self.value
    }

    /// The scalar stored under a parameter name, if the name is recorded.
    pub fn internal_value(&self, name: &str) -> (r: Option<Scalar>)
        ensures
            match r {
                Some(value) => self@.params.dom().contains(name@) && self@.params[name@].value
                    == value,
                None => !self@.params.dom().contains(name@),
            },
    {
        let owned: String = name.to_owned();
        let mut i: usize = 0;
        proof {
            use_type_invariant(self);
        }
        while i < self.entries.len()
            invariant
                i <= self.entries.len(),
                owned@ == name@,
                entries_wf(self.entries@),
                forall|k: int| 0 <= k < i ==> (#[trigger] self.entries@[k]).name@ != name@,
            decreases self.entries.len() - i,
        {
            if self.entries[i].name == owned {
                proof {
                    lemma_params_found(self.entries@, i as int);
                }
                return Some(self.entries[i].value);
            }
            i = i + 1;
        }
        proof {
            lemma_params_absent(self.entries@, name@);
        }
        None
    }

    /// Whether the trial has left the running state.
    pub fn is_finished(&self) -> (r: bool)
        ensures
            r == (self@.state != FrozenTrialState::Running),
    {
        match self.state {
            FrozenTrialState::Running => false,
            _ => true,
        }
    }

    /// The recorded parameters as a caller sees them: each stored scalar
    /// turned back through its distribution, one pair per name.
    pub fn params(&self) -> (pairs: Vec<(String, ExternalRepr)>)
        ensures
            values_of(pairs@) == self@.external_params(),
            distinct_labels(pairs@),
    {
        let mut pairs: Vec<(String, ExternalRepr)> = Vec::new();
        let mut i: usize = 0;
        proof {
            use_type_invariant(self);
        }
        assert(self.entries@.take(0) =~= Seq::<ParamEntry>::empty());
        assert(values_of(pairs@) =~= params_of(self.entries@.take(0)).map_values(
            |p: ParamModel| p.external(),
        ));
        while i < self.entries.len()
            invariant
                i <= self.entries.len(),
                entries_wf(self.entries@),
                pairs@.len() == i,
                forall|j: int| 0 <= j < i ==> (#[trigger] pairs@[j]).0@ == self.entries@[j].name@,
                values_of(pairs@) == params_of(self.entries@.take(i as int)).map_values(
                    |p: ParamModel| p.external(),
                ),
            decreases self.entries.len() - i,
        {
            let e: &ParamEntry = &self.entries[i];
            let external: ExternalRepr = e.distribution.to_external_repr(e.value);
            let pair: (String, ExternalRepr) = (e.name.clone(), external);
            proof {
                let before = self.entries@.take(i as int);
                let after = self.entries@.take(i + 1);
                assert(after.drop_last() =~= before);
                assert(after.last() == self.entries@[i as int]);
                assert(pairs@.push(pair).drop_last() =~= pairs@);
                assert(values_of(pairs@.push(pair)) =~= params_of(after).map_values(
                    |p: ParamModel| p.external(),
                ));
            }
            pairs.push(pair);
            i = i + 1;
        }
        assert(self.entries@.take(i as int) =~= self.entries@);
        assert(distinct_labels(pairs@)) by {
            assert forall|a: int, b: int| 0 <= a < b < pairs@.len() implies (#[trigger] pairs@[a]).0@
                != (#[trigger] pairs@[b]).0@ by {
                assert(self.entries@[a].name@ != self.entries@[b].name@);
            }
        }
        pairs
    }
}

/// Whether a trial may be changed: it must exist and be running.
pub open spec fn guard(trials: Seq<TrialModel>, id: nat) -> Result<(), Error> {
    if id >= trials.len() {
        Err(Error::NotFound)
    } else if trials[id as int].state != FrozenTrialState::Running {
        Err(Error::AlreadyFinished)
    } else {
        Ok(())
    }
}

/// The records after trial `id` got the objective value `value`.
pub open spec fn with_value(trials: Seq<TrialModel>, id: nat, value: Scalar) -> Seq<TrialModel> {
    trials.update(id as int, TrialModel { value, ..trials[id as int] })
}

/// The records after trial `id` got the state `state`.
pub open spec fn with_state(trials: Seq<TrialModel>, id: nat, state: FrozenTrialState) -> Seq<
    TrialModel,
> {
    trials.update(id as int, TrialModel { state, ..trials[id as int] })
}

/// The records after `param` was written under `name` in trial `id`.
pub open spec fn with_param(
    trials: Seq<TrialModel>,
    id: nat,
    name: Seq<char>,
    param: ParamModel,
) -> Seq<TrialModel> {
    trials.update(
        id as int,
        TrialModel { params: trials[id as int].params.insert(name, param), ..trials[id as int] },
    )
}

/// A fresh record: running, value zero, no parameters.
pub open spec fn fresh_trial(id: nat) -> TrialModel {
    TrialModel {
        trial_id: id,
        state: FrozenTrialState::Running,
        value: Scalar { bits: 0 },
        params: Map::empty(),
    }
}

/// Trial `i` is a candidate, and among the first `n` records no candidate
/// has a smaller value, nor an equal value and a smaller identifier.
pub open spec fn best_among(trials: Seq<TrialModel>, i: int, n: int) -> bool {
    &&& 0 <= i < trials.len()
    &&& trials[i].eligible()
    &&& forall|j: int|
        0 <= j < n && j < trials.len() && (#[trigger] trials[j]).eligible() ==> {
            ||| trials[i].value.order_key() < trials[j].value.order_key()
            ||| (trials[i].value.order_key() == trials[j].value.order_key() && i <= j)
        }
}

/// The trial records, in the order of their creation.
#[derive(Debug)]
pub struct Storage {
    trials: Vec<FrozenTrial>,
}

impl View for Storage {
    type V = Seq<TrialModel>;

    closed spec fn view(&self) -> Seq<TrialModel> {
        self.trials@.map_values(|t: FrozenTrial| t@)
    }
}

impl Clone for Storage {
    fn clone(&self) -> (s: Self)
        ensures
            s@ == self@,
    {
        let mut trials: Vec<FrozenTrial> = Vec::new();
        let mut i: usize = 0;
        proof {
            use_type_invariant(self);
        }
        while i < self.trials.len()
            invariant
                i <= self.trials.len(),
                trials@.len() == i,
                self.wf(),
                forall|j: int| 0 <= j < i ==> (#[trigger] trials@[j])@ == self.trials@[j]@,
                forall|j: int| 0 <= j < i ==> (#[trigger] trials@[j]).wf(),
            decreases self.trials.len() - i,
        {
            let copy: FrozenTrial = self.trials[i].clone();
            proof {
                use_type_invariant(&copy);
            }
            trials.push(copy);
            i = i + 1;
        }
        let s = Storage { trials };
        assert(s@ =~= self@);
        s
    }
}

impl Storage {
    /// Every record stands at the position that its identifier names, and
    /// is well formed.
    #[verifier::type_invariant]
    spec fn wf(&self) -> bool {
        forall|i: int|
            0 <= i < self.trials@.len() ==> (#[trigger] self.trials@[i]).trial_id == i
                && self.trials@[i].wf()
    }

    /// A store without trials.
    pub fn new() -> (s: Self)
        ensures
            s@ == Seq::<TrialModel>::empty(),
    {
        let s = Storage { trials: Vec::new() };
        assert(s@ =~= Seq::<TrialModel>::empty());
        s
    }

    /// How many trials were created. The identifier of each record is its
    /// position.
    pub fn len(&self) -> (n: usize)
        ensures
            n == self@.len(),
            forall|i: int| 0 <= i < self@.len() ==> (#[trigger] self@[i]).trial_id == i,
    {
        proof {
            use_type_invariant(self);
        }
        self.trials.len()
    }

    /// Appends a running record and returns its identifier, the number of
    /// trials created before it.
    pub fn create_new_trial(&mut self) -> (trial_id: usize)
        ensures
            trial_id == old(self)@.len(),
            final(self)@ == old(self)@.push(fresh_trial(trial_id as nat)),
    {
        proof {
            use_type_invariant(&*self);
        }
        let trial_id: usize = self.trials.len();
        let trial = FrozenTrial::new(trial_id, FrozenTrialState::Running, Scalar::zero());
        proof {
            use_type_invariant(&trial);
        }
        let mut trials: Vec<FrozenTrial> = Vec::new();
        std::mem::swap(&mut trials, &mut self.trials);
        trials.push(trial);
        self.trials = trials;
        assert(self@ =~= old(self)@.push(fresh_trial(trial_id as nat)));
        trial_id
    }

    /// A copy of the record of trial `trial_id`.
    pub fn get_trial(&self, trial_id: usize) -> (r: Result<FrozenTrial, Error>)
        ensures
            match r {
                Ok(t) => {
                    &&& trial_id < self@.len()
                    &&& t@ == self@[trial_id as int]
                    &&& t@.trial_id == trial_id
                },
                Err(e) => trial_id >= self@.len() && e == Error::NotFound,
            },
    {
        proof {
            use_type_invariant(self);
        }
        if trial_id >= self.trials.len() {
            return Err(Error::NotFound);
        }
        Ok(self.trials[trial_id].clone())
    }

    /// The completed trial with the smallest finite value; among equal
    /// values, the one created first. `None` when no trial is completed
    /// with a finite value.
    pub fn get_best_trial(&self) -> (r: Option<FrozenTrial>)
        ensures
            match r {
                None => forall|i: int| 0 <= i < self@.len() ==> !(#[trigger] self@[i]).eligible(),
                Some(t) => {
                    &&& t@.trial_id < self@.len()
                    &&& t@ == self@[t@.trial_id as int]
                    &&& best_among(self@, t@.trial_id as int, self@.len() as int)
                },
            },
    {
        let mut best: Option<usize> = None;
        let mut i: usize = 0;
        proof {
            use_type_invariant(self);
        }
        while i < self.trials.len()
            invariant
                i <= self.trials.len(),
                self.wf(),
                match best {
                    None => forall|j: int| 0 <= j < i ==> !(#[trigger] self@[j]).eligible(),
                    Some(b) => b < i && best_among(self@, b as int, i as int),
                },
            decreases self.trials.len() - i,
        {
            let t: &FrozenTrial = &self.trials[i];
            assert(self@[i as int] == t@);
            if t.state == FrozenTrialState::Completed && t.value.is_finite() {
                match best {
                    None => {
                        best = Some(i);
                    },
                    Some(b) => {
                        assert(self@[b as int] == self.trials@[b as int]@);
                        if t.value.key() < self.trials[b].value.key() {
                            best = Some(i);
                        }
                    },
                }
            }
            i = i + 1;
        }
        match best {
            None => None,
            Some(b) => {
                assert(self@[b as int] == self.trials@[b as int]@);
                Some(self.trials[b].clone())
            },
        }
    }

    /// Writes the objective value of a running trial.
    pub fn set_trial_value(&mut self, trial_id: usize, value: Scalar) -> (r: Result<(), Error>)
        ensures
            r == guard(old(self)@, trial_id as nat),
            r is Ok ==> final(self)@ == with_value(old(self)@, trial_id as nat, value),
            r is Err ==> final(self)@ == old(self)@,
    {
        proof {
            use_type_invariant(&*self);
        }
        if trial_id >= self.trials.len() {
            return Err(Error::NotFound);
        }
        if self.trials[trial_id].is_finished() {
            return Err(Error::AlreadyFinished);
        }
        let mut trials: Vec<FrozenTrial> = Vec::new();
        std::mem::swap(&mut trials, &mut self.trials);
        trials[trial_id].value = value;
        self.trials = trials;
        assert(self@ =~= with_value(old(self)@, trial_id as nat, value));
        Ok(())
    }

    /// Writes the state of a running trial. Any state but `Running` seals
    /// the record.
    pub fn set_trial_state(&mut self, trial_id: usize, state: FrozenTrialState) -> (r: Result<
        (),
        Error,
    >)
        ensures
            r == guard(old(self)@, trial_id as nat),
            r is Ok ==> final(self)@ == with_state(old(self)@, trial_id as nat, state),
            r is Err ==> final(self)@ == old(self)@,
    {
        proof {
            use_type_invariant(&*self);
        }
        if trial_id >= self.trials.len() {
            return Err(Error::NotFound);
        }
        if self.trials[trial_id].is_finished() {
            return Err(Error::AlreadyFinished);
        }
        let mut trials: Vec<FrozenTrial> = Vec::new();
        std::mem::swap(&mut trials, &mut self.trials);
        trials[trial_id].state = state;
        self.trials = trials;
        assert(self@ =~= with_state(old(self)@, trial_id as nat, state));
        Ok(())
    }

    /// Records a parameter of a running trial: the stored scalar and the
    /// distribution it was drawn from. A value recorded earlier under the
    /// same name is replaced.
    pub fn set_trial_param(
        &mut self,
        trial_id: usize,
        name: &str,
        distribution: Distributions,
        value: Scalar,
    ) -> (r: Result<(), Error>)
        requires
            distribution@.admits(value),
        ensures
            r == guard(old(self)@, trial_id as nat),
            r is Ok ==> final(self)@ == with_param(
                old(self)@,
                trial_id as nat,
                name@,
                ParamModel { value, distribution: distribution@ },
            ),
            r is Err ==> final(self)@ == old(self)@,
    {
        proof {
            use_type_invariant(&*self);
        }
        if trial_id >= self.trials.len() {
            return Err(Error::NotFound);
        }
        if self.trials[trial_id].is_finished() {
            return Err(Error::AlreadyFinished);
        }
        let owned: String = name.to_owned();
        let ghost before = self.trials@[trial_id as int].entries@;
        let ghost param = ParamModel { value, distribution: distribution@ };
        let count: usize = self.trials[trial_id].entries.len();
        let mut j: usize = 0;
        let mut found: bool = false;
        while j < count && !found
            invariant
                j <= count,
                count == before.len(),
                trial_id < self.trials@.len(),
                self.trials@[trial_id as int].entries@ == before,
                owned@ == name@,
                forall|k: int| 0 <= k < j ==> (#[trigger] before[k]).name@ != name@,
                found ==> j < count && before[j as int].name@ == name@,
            decreases
                    if found {
                        0
                    } else {
                        count - j + 1
                    },
        {
            if self.trials[trial_id].entries[j].name == owned {
                found = true;
            } else {
                j = j + 1;
            }
        }
        let entry = ParamEntry { name: owned, value, distribution };
        let ghost after = if found {
            before.update(j as int, entry)
        } else {
            before.push(entry)
        };
        proof {
            assert(old(self).trials@[trial_id as int].wf());
            if found {
                lemma_params_update(before, j as int, entry);
            } else {
                lemma_params_push(before, entry);
            }
            assert(distinct_names(after)) by {
                assert forall|a: int, b: int| 0 <= a < b < after.len() implies (#[trigger] after[a]).name@
                    != (#[trigger] after[b]).name@ by {
                    if found {
                        assert(after[a].name@ == before[a].name@);
                        assert(after[b].name@ == before[b].name@);
                    } else if b < before.len() {
                        assert(after[a] == before[a] && after[b] == before[b]);
                    } else {
                        assert(after[a] == before[a]);
                    }
                }
            }
            assert forall|k: int| 0 <= k < after.len() implies (#[trigger] after[k]).distribution@.admits(
                after[k].value,
            ) by {
                if k < before.len() && !(found && k == j) {
                    assert(after[k] == before[k]);
                }
            }
        }
        let mut trials: Vec<FrozenTrial> = Vec::new();
        std::mem::swap(&mut trials, &mut self.trials);
        let mut entries: Vec<ParamEntry> = Vec::new();
        std::mem::swap(&mut entries, &mut trials[trial_id].entries);
        if found {
            entries[j] = entry;
        } else {
            entries.push(entry);
        }
        assert(entries@ == after);
        trials[trial_id].entries = entries;
        self.trials = trials;
        assert(self@ =~= with_param(old(self)@, trial_id as nat, name@, param));
        Ok(())
    }
}

/// Once a running trial has been given a state other than `Running`, the
/// guard that every write passes answers `AlreadyFinished` for it: no
/// value, state or parameter of the trial can be written any more.
pub proof fn lemma_finished_is_final(trials: Seq<TrialModel>, id: nat, state: FrozenTrialState)
    requires
        guard(trials, id) is Ok,
        state != FrozenTrialState::Running,
    ensures
        guard(with_state(trials, id, state), id) == Err::<(), Error>(Error::AlreadyFinished),
{
}

/// At most one trial is the best: the choice among equal values is settled
/// by the identifier.
pub proof fn lemma_best_is_unique(trials: Seq<TrialModel>, i: int, j: int)
    requires
        best_among(trials, i, trials.len() as int),
        best_among(trials, j, trials.len() as int),
    ensures
        i == j,
{
    assert(trials[i].eligible());
    assert(trials[j].eligible());
}

/// A refused write leaves the guard as it was, and a write to one trial
/// leaves the guard of every trial that is finished as it was: a sealed
/// record stays sealed whatever is written afterwards.
pub proof fn lemma_sealed_stays_sealed(
    trials: Seq<TrialModel>,
    id: nat,
    other: nat,
    value: Scalar,
    state: FrozenTrialState,
    name: Seq<char>,
    param: ParamModel,
)
    requires
        guard(trials, id) == Err::<(), Error>(Error::AlreadyFinished),
        guard(trials, other) is Ok,
    ensures
        guard(with_value(trials, other, value), id) == guard(trials, id),
        guard(with_state(trials, other, state), id) == guard(trials, id),
        guard(with_param(trials, other, name, param), id) == guard(trials, id),
        with_value(trials, other, value)[id as int] == trials[id as int],
        with_state(trials, other, state)[id as int] == trials[id as int],
        with_param(trials, other, name, param)[id as int] == trials[id as int],
{
}

} // verus!
