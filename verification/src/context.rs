//! The in-memory projection of the driver's state that the interactive
//! front end reads.
//!
//! A [`TuiContext`] caches the current mode and the last-known value of
//! each parameter it was initialised with.  All mutation goes through
//! [`TuiContext::update_param_value`], which writes through the store
//! first and updates the cache only on a confirmed write; after a mode
//! switch, [`TuiContext::reset_current_parameters`] re-reads every value,
//! since the driver may have reset some of them.  The store is passed
//! into each call, so one context and one store live side by side under
//! a single owner.

use crate::curve::AllParamArgs;
use crate::fixed::Fpt;
use crate::params::{spec_slot, AccelMode, Param};
use crate::persist::{same_acceptance, would_write, ParamStore, StoreError};
use crate::params::spec_validate_ok;
use vstd::prelude::*;

verus! {

/// A parameter tag paired with its last-known value.
#[derive(Debug, Clone, Copy, PartialEq, Eq, Structural)]
pub struct Parameter {
    pub tag: Param,
    pub value: Fpt,
}

impl Parameter {
    /// Pair a tag with a value.
    pub fn new(param: Param, value: Fpt) -> (r: Parameter)
        ensures
            r.tag == param,
            r.value == value,
    {
        Parameter { tag: param, value }
    }
}

/// Index of the first entry carrying `tag`, or `s.len()` if none does.
pub open spec fn spec_param_index(s: Seq<Parameter>, tag: Param) -> int
    decreases s.len(),
{
    if s.len() == 0 {
        0
    } else if s[0].tag == tag {
        0
    } else {
        1 + spec_param_index(s.drop_first(), tag)
    }
}

/// Whether some entry carries `tag`.
pub open spec fn spec_has_tag(s: Seq<Parameter>, tag: Param) -> bool {
    exists|i: int| 0 <= i < s.len() && s[i].tag == tag
}

proof fn lemma_param_index(s: Seq<Parameter>, tag: Param)
    ensures
        0 <= spec_param_index(s, tag) <= s.len(),
        forall|i: int| 0 <= i < spec_param_index(s, tag) ==> s[i].tag != tag,
        spec_param_index(s, tag) < s.len() ==> s[spec_param_index(s, tag)].tag == tag,
        spec_has_tag(s, tag) <==> spec_param_index(s, tag) < s.len(),
    decreases s.len(),
{
    if s.len() > 0 && s[0].tag != tag {
        lemma_param_index(s.drop_first(), tag);
        let k = spec_param_index(s, tag);
        assert forall|i: int| 0 <= i < k implies s[i].tag != tag by {
            if i > 0 {
                assert(s.drop_first()[i - 1] == s[i]);
            }
        }
        if k < s.len() {
            assert(s.drop_first()[k - 1] == s[k]);
        }
        if spec_has_tag(s, tag) {
            let w = choose|i: int| 0 <= i < s.len() && s[i].tag == tag;
            assert(s.drop_first()[w - 1] == s[w]);
        }
        if spec_has_tag(s.drop_first(), tag) {
            let w = choose|i: int| 0 <= i < s.drop_first().len() && s.drop_first()[i].tag == tag;
            assert(s[w + 1] == s.drop_first()[w]);
        }
    }
}

/// Index of the first entry whose read the store would refuse, or
/// `entries.len()` if it would accept them all.
pub open spec fn spec_first_refused<S: ParamStore>(store: &S, entries: Seq<Parameter>) -> int
    decreases entries.len(),
{
    if entries.len() == 0 {
        0
    } else if !store.accepts_get(entries[0].tag) {
        0
    } else {
        1 + spec_first_refused(store, entries.drop_first())
    }
}

proof fn lemma_first_refused_at<S: ParamStore>(store: &S, s: Seq<Parameter>, k: int)
    requires
        0 <= k <= s.len(),
        forall|j: int| 0 <= j < k ==> store.accepts_get((#[trigger] s[j]).tag),
        k == s.len() || !store.accepts_get(s[k].tag),
    ensures
        spec_first_refused(store, s) == k,
    decreases s.len(),
{
    if s.len() > 0 && store.accepts_get(s[0].tag) {
        assert forall|j: int| 0 <= j < k - 1 implies store.accepts_get(
            (#[trigger] s.drop_first()[j]).tag,
        ) by {
            assert(s.drop_first()[j] == s[j + 1]);
        }
        if k < s.len() {
            assert(s.drop_first()[k - 1] == s[k]);
        }
        lemma_first_refused_at(store, s.drop_first(), k - 1);
    }
}

proof fn lemma_param_index_at(s: Seq<Parameter>, tag: Param, k: int)
    requires
        0 <= k <= s.len(),
        forall|i: int| 0 <= i < k ==> (#[trigger] s[i]).tag != tag,
        k == s.len() || s[k].tag == tag,
    ensures
        spec_param_index(s, tag) == k,
{
    lemma_param_index(s, tag);
    let f = spec_param_index(s, tag);
    if f < k {
        assert(s[f].tag == tag);
    }
    if k < f {
        assert(s[k].tag != tag);
    }
}

/// The cached mode and parameter values.
#[derive(Debug)]
pub struct TuiContext {
    /// The mode the front end is looking at.
    pub current_mode: AccelMode,
    /// The cached entries, only ever written through
    /// [`TuiContext::update_param_value`] and
    /// [`TuiContext::reset_current_parameters`].
    pub parameters: Vec<Parameter>,
}

impl TuiContext {
    /// The cached entries, in initialisation order.
    pub open spec fn cached(&self) -> Seq<Parameter> {
        self.parameters@
    }

    /// Read the current mode and every requested parameter through the
    /// store.  Any single failure aborts: a context is fully populated
    /// or not created.
    pub fn new<S: ParamStore>(store: &S, parameters: &[Param]) -> (r: Result<
        TuiContext,
        StoreError,
    >)
        ensures
            r is Ok <==> store.accepts_mode() && (forall|i: int|
                0 <= i < parameters@.len() ==> store.accepts_get(#[trigger] parameters@[i])),
            match r {
                Err(_) => true,
                Ok(ctx) => {
                &&& ctx.current_mode == store.mode_val()
                &&& ctx.cached().len() == parameters@.len()
                &&& forall|i: int|
                    0 <= i < parameters@.len() ==> (#[trigger] ctx.cached()[i]).tag
                        == parameters@[i]
                &&& forall|i: int|
                    0 <= i < parameters@.len() ==> store.param_vals().contains_key(
                        spec_slot(parameters@[i]),
                    ) && (#[trigger] ctx.cached()[i]).value == store.param_vals()[spec_slot(
                        parameters@[i],
                    )]
                },
            },
    {
        let current_mode = match store.get_current_accel_mode() {
            Ok(m) => m,
            Err(e) => {
                return Err(e);
            },
        };
        let mut cached: Vec<Parameter> = Vec::new();
        let mut i: usize = 0;
        while i < parameters.len()
            invariant
                i <= parameters@.len(),
                cached@.len() == i,
                store.accepts_mode(),
                forall|j: int| 0 <= j < i ==> store.accepts_get(#[trigger] parameters@[j]),
                forall|j: int|
                    0 <= j < i ==> (#[trigger] cached@[j]).tag == parameters@[j],
                forall|j: int|
                    0 <= j < i ==> store.param_vals().contains_key(spec_slot(parameters@[j])) && (
                    #[trigger] cached@[j]).value == store.param_vals()[spec_slot(parameters@[j])],
            decreases parameters@.len() - i,
        {
            let p = parameters[i];
            let value = match store.get(p) {
                Ok(v) => v,
                Err(e) => {
                    return Err(e);
                },
            };
            cached.push(Parameter::new(p, value));
            i = i + 1;
        }
        Ok(TuiContext { current_mode, parameters: cached })
    }

    /// Look up the cached entry of one parameter.
    pub fn parameter(&self, param: Param) -> (r: Option<&Parameter>)
        ensures
            match r {
                Some(p) => spec_has_tag(self.cached(), param) && *p == self.cached()[
                    spec_param_index(self.cached(), param)
                ],
                None => !spec_has_tag(self.cached(), param),
            },
    {
        proof {
            lemma_param_index(self.cached(), param);
        }
        let mut i: usize = 0;
        while i < self.parameters.len()
            invariant
                i <= self.cached().len(),
                forall|j: int| 0 <= j < i ==> (#[trigger] self.cached()[j]).tag != param,
            decreases self.cached().len() - i,
        {
            if self.parameters[i].tag == param {
                proof {
                    lemma_param_index(self.cached(), param);
                }
                return Some(&self.parameters[i]);
            }
            i = i + 1;
        }
        None
    }

    /// The one mutation entry point: write through the store, and only
    /// on a confirmed write update the cached value.  A failed write
    /// leaves the cache exactly as it was.
    pub fn update_param_value<S: ParamStore>(
        &mut self,
        store: &mut S,
        param_id: Param,
        value: Fpt,
    ) -> (r: Result<(), StoreError>)
        ensures
            final(self).current_mode == old(self).current_mode,
            final(store).mode_val() == old(store).mode_val(),
            same_acceptance(old(store), final(store)),
            !spec_has_tag(old(self).cached(), param_id) ==> r == Err::<(), StoreError>(
                StoreError::UnknownParameter,
            ) && final(self).cached() == old(self).cached() && final(store).param_vals() == old(store).param_vals(),
            spec_has_tag(old(self).cached(), param_id) ==> (r is Ok <==> would_write(
                old(store),
                param_id,
                value,
            )),
            spec_has_tag(old(self).cached(), param_id) && !spec_validate_ok(
                param_id,
                value.0 as int,
            ) ==> r == Err::<(), StoreError>(StoreError::Invalid),
            r is Ok ==> final(store).param_vals() == old(store).param_vals().insert(
                spec_slot(param_id),
                value,
            ) && final(self).cached() == old(self).cached().update(
                spec_param_index(old(self).cached(), param_id),
                Parameter { tag: param_id, value },
            ),
            r is Err ==> final(self).cached() == old(self).cached() && final(store).param_vals()
                == old(store).param_vals(),
    {
        proof {
            lemma_param_index(self.cached(), param_id);
        }
        let mut idx: usize = 0;
        let n = self.parameters.len();
        while idx < n
            invariant
                n == self.cached().len(),
                idx <= n,
                forall|j: int| 0 <= j < idx ==> (#[trigger] self.cached()[j]).tag != param_id,
            ensures
                n == self.cached().len(),
                idx <= n,
                forall|j: int| 0 <= j < idx ==> (#[trigger] self.cached()[j]).tag != param_id,
                idx < n ==> self.cached()[idx as int].tag == param_id,
            decreases n - idx,
        {
            if self.parameters[idx].tag == param_id {
                break;
            }
            idx = idx + 1;
        }
        proof {
            lemma_param_index_at(self.cached(), param_id, idx as int);
            lemma_param_index(self.cached(), param_id);
        }
        if idx == n {
            return Err(StoreError::UnknownParameter);
        }
        match store.set(param_id, value) {
            Ok(_) => {
                self.parameters[idx] = Parameter { tag: param_id, value };
                Ok(())
            },
            Err(e) => Err(e),
        }
    }

    /// Re-read every cached parameter from the store, as after a mode
    /// switch, when the driver may have reset values behind the cache.
    /// On success every cached value equals what the store holds now;
    /// a read failure aborts, leaving the entries before it refreshed.
    #[verifier::rlimit(60)]
    pub fn reset_current_parameters<S: ParamStore>(&mut self, store: &S) -> (r: Result<
        (),
        StoreError,
    >)
        ensures
            final(self).current_mode == old(self).current_mode,
            final(self).cached().len() == old(self).cached().len(),
            forall|i: int|
                0 <= i < old(self).cached().len() ==> (#[trigger] final(self).cached()[i]).tag
                    == old(self).cached()[i].tag,
            r is Ok <==> (forall|i: int|
                0 <= i < old(self).cached().len() ==> store.accepts_get(
                    (#[trigger] old(self).cached()[i]).tag,
                )),
            r is Ok ==> forall|i: int|
                0 <= i < final(self).cached().len() ==> store.param_vals().contains_key(
                    spec_slot(final(self).cached()[i].tag),
                ) && (#[trigger] final(self).cached()[i]).value == store.param_vals()[spec_slot(
                    final(self).cached()[i].tag,
                )],
            r is Err ==> spec_first_refused(store, old(self).cached()) < old(self).cached().len()
                && !store.accepts_get(
                old(self).cached()[spec_first_refused(store, old(self).cached())].tag,
            ),
            r is Err ==> forall|j: int|
                0 <= j < spec_first_refused(store, old(self).cached())
                    ==> store.param_vals().contains_key(spec_slot(old(self).cached()[j].tag)) && (
                #[trigger] final(self).cached()[j]).value == store.param_vals()[spec_slot(
                    old(self).cached()[j].tag,
                )],
            r is Err ==> forall|j: int|
                spec_first_refused(store, old(self).cached()) <= j < old(self).cached().len()
                    ==> (#[trigger] final(self).cached()[j]).value == old(self).cached()[j].value,
    {
        let n = self.parameters.len();
        let mut i: usize = 0;
        while i < n
            invariant
                n == self.cached().len(),
                n == old(self).cached().len(),
                i <= n,
                self.current_mode == old(self).current_mode,
                forall|j: int|
                    0 <= j < n ==> (#[trigger] self.cached()[j]).tag == old(self).cached()[j].tag,
                forall|j: int|
                    0 <= j < i ==> store.param_vals().contains_key(
                        spec_slot(self.cached()[j].tag),
                    ) && (#[trigger] self.cached()[j]).value == store.param_vals()[spec_slot(
                        self.cached()[j].tag,
                    )],
                forall|j: int|
                    0 <= j < i ==> store.accepts_get((#[trigger] self.cached()[j]).tag),
                forall|j: int|
                    i <= j < n ==> (#[trigger] self.cached()[j]).value == old(self).cached()[
                        j
                    ].value,
            decreases n - i,
        {
            let tag = self.parameters[i].tag;
            match store.get(tag) {
                Ok(v) => {
                    self.parameters[i] = Parameter { tag, value: v };
                },
                Err(e) => {
                    proof {
                        let k = i as int;
                        assert(!store.accepts_get(old(self).cached()[k].tag));
                        assert forall|j: int| 0 <= j < k implies store.accepts_get(
                            (#[trigger] old(self).cached()[j]).tag,
                        ) by {
                            assert(self.cached()[j].tag == old(self).cached()[j].tag);
                        }
                        lemma_first_refused_at(store, old(self).cached(), k);
                        assert forall|j: int|
                            0 <= j < k implies store.param_vals().contains_key(
                            spec_slot(old(self).cached()[j].tag),
                        ) && (#[trigger] self.cached()[j]).value == store.param_vals()[spec_slot(
                            old(self).cached()[j].tag,
                        )] by {
                            assert(self.cached()[j].tag == old(self).cached()[j].tag);
                        }
                        assert(forall|j: int|
                            k <= j < old(self).cached().len() ==> (#[trigger] self.cached()[
                                j
                            ]).value == old(self).cached()[j].value);
                    }
                    return Err(e);
                },
            }
            i = i + 1;
        }
        proof {
            assert forall|j: int|
                0 <= j < old(self).cached().len() implies store.accepts_get(
                (#[trigger] old(self).cached()[j]).tag,
            ) by {
                assert(self.cached()[j].tag == old(self).cached()[j].tag);
            }
        }
        Ok(())
    }

    /// Switch the current mode: write it through the store and, on a
    /// confirmed write, record it as the mode being looked at.
    pub fn set_current_mode<S: ParamStore>(&mut self, store: &mut S, mode: AccelMode) -> (r: Result<
        (),
        StoreError,
    >)
        ensures
            final(self).cached() == old(self).cached(),
            final(store).param_vals() == old(store).param_vals(),
            same_acceptance(old(store), final(store)),
            r is Ok <==> old(store).accepts_mode(),
            r is Ok ==> final(self).current_mode == mode && final(store).mode_val() == mode,
            r is Err ==> final(self).current_mode == old(self).current_mode && final(store).mode_val() == old(store).mode_val(),
    {
        match store.set_current_accel_mode(mode) {
            Ok(_) => {
                self.current_mode = mode;
                Ok(())
            },
            Err(e) => Err(e),
        }
    }

    /// The cached value of one parameter that is known to be present.
    fn cached_value(&self, tag: Param) -> (r: Fpt)
        requires
            spec_has_tag(self.cached(), tag),
        ensures
            r == self.cached()[spec_param_index(self.cached(), tag)].value,
    {
        proof {
            lemma_param_index(self.cached(), tag);
        }
        let mut i: usize = 0;
        while i < self.parameters.len()
            invariant
                spec_has_tag(self.cached(), tag),
                i <= self.cached().len(),
                forall|j: int| 0 <= j < i ==> (#[trigger] self.cached()[j]).tag != tag,
            decreases self.cached().len() - i,
        {
            if self.parameters[i].tag == tag {
                proof {
                    lemma_param_index(self.cached(), tag);
                }
                return self.parameters[i].value;
            }
            i = i + 1;
        }
        proof {
            lemma_param_index(self.cached(), tag);
            assert(false);
        }
        Fpt(0)
    }

    /// Whether the cache holds every parameter of the schema, as a
    /// fully initialised context does.
    pub open spec fn has_all_params(&self) -> bool {
        forall|p: Param| spec_has_tag(self.cached(), p)
    }

    /// Assemble the flat snapshot of every parameter's cached value for
    /// the curve engine, whatever the active mode.
    pub fn params_snapshot(&self) -> (r: AllParamArgs)
        requires
            self.has_all_params(),
        ensures
            r.sens_mult == self.cached()[spec_param_index(self.cached(), Param::SensMult)].value,
            r.yx_ratio == self.cached()[spec_param_index(self.cached(), Param::YxRatio)].value,
            r.input_dpi == self.cached()[spec_param_index(self.cached(), Param::InputDpi)].value,
            r.accel == self.cached()[spec_param_index(self.cached(), Param::Accel)].value,
            r.offset_linear == self.cached()[
                spec_param_index(self.cached(), Param::OffsetLinear)
            ].value,
            r.output_cap == self.cached()[spec_param_index(self.cached(), Param::OutputCap)].value,
            r.decay_rate == self.cached()[spec_param_index(self.cached(), Param::DecayRate)].value,
            r.offset_natural == self.cached()[
                spec_param_index(self.cached(), Param::OffsetNatural)
            ].value,
            r.limit == self.cached()[spec_param_index(self.cached(), Param::Limit)].value,
            r.gamma == self.cached()[spec_param_index(self.cached(), Param::Gamma)].value,
            r.smooth == self.cached()[spec_param_index(self.cached(), Param::Smooth)].value,
            r.motivity == self.cached()[spec_param_index(self.cached(), Param::Motivity)].value,
            r.sync_speed == self.cached()[spec_param_index(self.cached(), Param::SyncSpeed)].value,
    {
        AllParamArgs {
            sens_mult: self.cached_value(Param::SensMult),
            yx_ratio: self.cached_value(Param::YxRatio),
            input_dpi: self.cached_value(Param::InputDpi),
            accel: self.cached_value(Param::Accel),
            offset_linear: self.cached_value(Param::OffsetLinear),
            output_cap: self.cached_value(Param::OutputCap),
            decay_rate: self.cached_value(Param::DecayRate),
            offset_natural: self.cached_value(Param::OffsetNatural),
            limit: self.cached_value(Param::Limit),
            gamma: self.cached_value(Param::Gamma),
            smooth: self.cached_value(Param::Smooth),
            motivity: self.cached_value(Param::Motivity),
            sync_speed: self.cached_value(Param::SyncSpeed),
        }
    }
}

} // verus!
