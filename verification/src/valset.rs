//! Validator registry: a state-based record per remote validator.
//!
//! Validators arrive and leave with height/time-stamped events; removal
//! only marks a record inactive, while tombstoning is a distinct terminal
//! state that forbids any future delegation.

use vstd::prelude::*;

verus! {

/// One validator's record.
#[derive(Debug, Clone, Copy, PartialEq, Eq, Structural)]
pub struct ValidatorRecord {
    pub validator: u64,
    /// The consensus public key the validator signs blocks with.
    pub pub_key: u64,
    /// First height the validator was active.
    pub start_height: u64,
    /// Timestamp of the first active block, unix seconds.
    pub start_time: u64,
    pub active: bool,
    pub tombstoned: bool,
}

/// The registry: records sorted strictly ascending by validator.
#[derive(Debug, Clone, PartialEq, Eq)]
pub struct ValidatorSet {
    pub records: Vec<ValidatorRecord>,
}

impl ValidatorSet {
    /// Records sorted strictly by validator.
    pub open spec fn wf(self) -> bool {
        forall|i: int, j: int|
            0 <= i < j < self.records@.len() ==> (#[trigger] self.records@[i]).validator
                < (#[trigger] self.records@[j]).validator
    }

    /// There is a record for the validator.
    pub open spec fn has_val(self, validator: u64) -> bool {
        exists|i: int|
            0 <= i < self.records@.len() && (#[trigger] self.records@[i]).validator == validator
    }

    /// Index of the validator's record.
    pub open spec fn val_ix(self, validator: u64) -> int {
        choose|i: int|
            0 <= i < self.records@.len() && (#[trigger] self.records@[i]).validator == validator
    }

    /// The validator's record.
    pub open spec fn val_at(self, validator: u64) -> ValidatorRecord {
        self.records@[self.val_ix(validator)]
    }

    /// An empty registry.
    pub fn new() -> (v: ValidatorSet)
        ensures
            v.wf(),
            v.records@.len() == 0,
    {
        ValidatorSet { records: Vec::new() }
    }

    /// Finds where the validator sits in the sorted table.
    fn locate(&self, validator: u64) -> (r: (usize, bool))
        requires
            self.wf(),
        ensures
            r.0 <= self.records@.len(),
            forall|i: int| 0 <= i < r.0 ==> (#[trigger] self.records@[i]).validator < validator,
            r.1 ==> r.0 < self.records@.len() && self.records@[r.0 as int].validator == validator
                && self.has_val(validator) && self.val_ix(validator) == r.0,
            !r.1 && r.0 < self.records@.len() ==> self.records@[r.0 as int].validator > validator,
            !r.1 ==> !self.has_val(validator),
    {
        let mut i: usize = 0;
        while i < self.records.len() && self.records[i].validator < validator
            invariant
                i <= self.records@.len(),
                forall|j: int| 0 <= j < i ==> (#[trigger] self.records@[j]).validator < validator,
            decreases self.records@.len() - i,
        {
            i = i + 1;
        }
        let found = i < self.records.len() && self.records[i].validator == validator;
        proof {
            if found {
                self.lemma_val_ix(i as int, validator);
            } else {
                if self.has_val(validator) {
                    let j = choose|j: int|
                        0 <= j < self.records@.len() && (#[trigger] self.records@[j]).validator
                            == validator;
                    if (i as int) < j {
                        assert(self.records@[i as int].validator < self.records@[j].validator);
                    }
                }
            }
        }
        (i, found)
    }

    /// In a sorted registry a validator determines its index.
    proof fn lemma_val_ix(self, i: int, validator: u64)
        requires
            self.wf(),
            0 <= i < self.records@.len(),
            self.records@[i].validator == validator,
        ensures
            self.has_val(validator),
            self.val_ix(validator) == i,
            self.val_at(validator) == self.records@[i],
    {
        assert(self.has_val(validator));
        let j = self.val_ix(validator);
        if j < i {
            assert(self.records@[j].validator < self.records@[i].validator);
        } else if i < j {
            assert(self.records@[i].validator < self.records@[j].validator);
        }
    }

    /// Registers or refreshes a validator: a new record arrives active; an
    /// existing one is refreshed and reactivated unless it was tombstoned,
    /// which is terminal.
    pub fn add_validator(&mut self, validator: u64, pub_key: u64, start_height: u64, start_time: u64)
        requires
            old(self).wf(),
        ensures
            final(self).wf(),
            final(self).has_val(validator),
            !old(self).has_val(validator) ==> final(self).val_at(validator) == (ValidatorRecord {
                validator,
                pub_key,
                start_height,
                start_time,
                active: true,
                tombstoned: false,
            }),
            old(self).has_val(validator) && !old(self).val_at(validator).tombstoned
                ==> final(self).val_at(validator) == (ValidatorRecord {
                validator,
                pub_key,
                start_height,
                start_time,
                active: true,
                tombstoned: false,
            }),
            old(self).has_val(validator) && old(self).val_at(validator).tombstoned ==> *final(self)
                == *old(self),
            forall|v2: u64|
                v2 != validator && old(self).has_val(v2) ==> #[trigger] final(self).has_val(v2),
            forall|v2: u64|
                v2 != validator && old(self).has_val(v2) ==> #[trigger] final(self).val_at(v2)
                    == old(self).val_at(v2),
    {
        let (ix, found) = self.locate(validator);
        let ghost pre = *self;
        if found {
            if self.records[ix].tombstoned {
                return ;
            }
            let mut rec = self.records.remove(ix);
            rec.pub_key = pub_key;
            rec.start_height = start_height;
            rec.start_time = start_time;
            rec.active = true;
            self.records.insert(ix, rec);
            proof {
                assert(self.records@ =~= pre.records@.update(ix as int, self.records@[ix as int]));
                self.lemma_upsert_frame(pre, ix as int, validator);
            }
        } else {
            self.records.insert(ix, ValidatorRecord {
                validator,
                pub_key,
                start_height,
                start_time,
                active: true,
                tombstoned: false,
            });
            proof {
                pre.records@.insert_ensures(ix as int, self.records@[ix as int]);
                self.lemma_insert_frame(pre, ix as int, validator);
            }
        }
    }

    /// Marks a validator inactive; unknown validators are ignored.
    pub fn remove_validator(&mut self, validator: u64)
        requires
            old(self).wf(),
        ensures
            final(self).wf(),
            !old(self).has_val(validator) ==> *final(self) == *old(self),
            old(self).has_val(validator) ==> final(self).has_val(validator) && final(self).val_at(
                validator,
            ) == (ValidatorRecord { active: false, ..old(self).val_at(validator) }),
            forall|v2: u64|
                v2 != validator && old(self).has_val(v2) ==> #[trigger] final(self).has_val(v2),
            forall|v2: u64|
                v2 != validator && old(self).has_val(v2) ==> #[trigger] final(self).val_at(v2)
                    == old(self).val_at(v2),
    {
        let (ix, found) = self.locate(validator);
        if !found {
            return ;
        }
        let ghost pre = *self;
        let mut rec = self.records.remove(ix);
        rec.active = false;
        self.records.insert(ix, rec);
        proof {
            assert(self.records@ =~= pre.records@.update(ix as int, self.records@[ix as int]));
            self.lemma_upsert_frame(pre, ix as int, validator);
        }
    }

    /// Tombstones a validator: terminal, no future delegation; unknown
    /// validators are ignored.
    pub fn tombstone_validator(&mut self, validator: u64)
        requires
            old(self).wf(),
        ensures
            final(self).wf(),
            !old(self).has_val(validator) ==> *final(self) == *old(self),
            old(self).has_val(validator) ==> final(self).has_val(validator) && final(self).val_at(
                validator,
            ) == (ValidatorRecord {
                active: false,
                tombstoned: true,
                ..old(self).val_at(validator)
            }),
            forall|v2: u64|
                v2 != validator && old(self).has_val(v2) ==> #[trigger] final(self).has_val(v2),
            forall|v2: u64|
                v2 != validator && old(self).has_val(v2) ==> #[trigger] final(self).val_at(v2)
                    == old(self).val_at(v2),
    {
        let (ix, found) = self.locate(validator);
        if !found {
            return ;
        }
        let ghost pre = *self;
        let mut rec = self.records.remove(ix);
        rec.active = false;
        rec.tombstoned = true;
        self.records.insert(ix, rec);
        proof {
            assert(self.records@ =~= pre.records@.update(ix as int, self.records@[ix as int]));
            self.lemma_upsert_frame(pre, ix as int, validator);
        }
    }

    /// Whether the validator can receive delegations.
    pub fn is_active(&self, validator: u64) -> (b: bool)
        requires
            self.wf(),
        ensures
            b == (self.has_val(validator) && self.val_at(validator).active && !self.val_at(
                validator,
            ).tombstoned),
    {
        let (ix, found) = self.locate(validator);
        if !found {
            return false;
        }
        self.records[ix].active && !self.records[ix].tombstoned
    }

    /// Paginated list of the validators that can receive delegations,
    /// ascending; `start_after` is exclusive.
    pub fn list_active(&self, start_after: Option<u64>, limit: Option<u32>) -> (resp: Vec<
        ValidatorRecord,
    >)
        requires
            self.wf(),
        ensures
            resp@ == spec_active_page(
                self.records@,
                start_after,
                crate::pages::spec_page_limit(limit),
            ),
    {
        let lim = crate::pages::clamp_page_limit(limit);
        let mut out: Vec<ValidatorRecord> = Vec::new();
        let mut i: usize = 0;
        proof {
            assert(self.records@.skip(0) =~= self.records@);
            assert(out@ + spec_active_page(self.records@, start_after, lim as int)
                =~= spec_active_page(self.records@, start_after, lim as int));
        }
        while i < self.records.len() && out.len() < lim
            invariant
                i <= self.records@.len(),
                out@.len() <= lim,
                spec_active_page(self.records@, start_after, lim as int) == out@
                    + spec_active_page(
                    self.records@.skip(i as int),
                    start_after,
                    lim - out@.len(),
                ),
            decreases self.records@.len() - i,
        {
            proof {
                assert(self.records@.skip(i as int)[0] == self.records@[i as int]);
                assert(self.records@.skip(i as int).skip(1) =~= self.records@.skip(i + 1));
            }
            let h = self.records[i];
            let skipped = (match start_after {
                Some(a) => h.validator <= a,
                None => false,
            }) || !h.active || h.tombstoned;
            if !skipped {
                let ghost out0 = out@;
                out.push(h);
                proof {
                    assert(out0 + (seq![h] + spec_active_page(
                        self.records@.skip(i + 1),
                        start_after,
                        lim - out0.len() - 1,
                    )) =~= out@ + spec_active_page(
                        self.records@.skip(i + 1),
                        start_after,
                        lim - out@.len(),
                    ));
                }
            }
            i = i + 1;
        }
        proof {
            if out@.len() == lim {
                assert(spec_active_page(self.records@.skip(i as int), start_after, 0) =~= Seq::<
                    ValidatorRecord,
                >::empty());
            } else {
                assert(self.records@.skip(i as int) =~= Seq::<ValidatorRecord>::empty());
            }
            assert(out@ + Seq::<ValidatorRecord>::empty() =~= out@);
        }
        out
    }

    /// After updating the record at `ix` in place (validator kept), the
    /// registry is sorted and everything else unchanged.
    proof fn lemma_upsert_frame(self, pre: ValidatorSet, ix: int, validator: u64)
        requires
            pre.wf(),
            0 <= ix < pre.records@.len(),
            pre.records@[ix].validator == validator,
            self.records@ == pre.records@.update(ix, self.records@[ix]),
            self.records@[ix].validator == validator,
        ensures
            self.wf(),
            self.has_val(validator),
            self.val_at(validator) == self.records@[ix],
            forall|v2: u64| v2 != validator && pre.has_val(v2) ==> #[trigger] self.has_val(v2),
            forall|v2: u64|
                v2 != validator && pre.has_val(v2) ==> #[trigger] self.val_at(v2) == pre.val_at(
                    v2,
                ),
    {
        assert forall|i: int, j: int| 0 <= i < j < self.records@.len()
            implies (#[trigger] self.records@[i]).validator
                < (#[trigger] self.records@[j]).validator by {
            assert(pre.records@[i].validator < pre.records@[j].validator);
        }
        self.lemma_val_ix(ix, validator);
        assert forall|v2: u64| v2 != validator && pre.has_val(v2) implies #[trigger] self.has_val(
            v2,
        ) by {
            let pj = pre.val_ix(v2);
            pre.lemma_val_ix(pj, v2);
            assert(self.records@[pj].validator == v2);
            self.lemma_val_ix(pj, v2);
        }
        assert forall|v2: u64| v2 != validator && pre.has_val(v2) implies #[trigger] self.val_at(
            v2,
        ) == pre.val_at(v2) by {
            let pj = pre.val_ix(v2);
            pre.lemma_val_ix(pj, v2);
            assert(self.records@[pj].validator == v2);
            self.lemma_val_ix(pj, v2);
        }
    }

    /// After inserting a fresh record at its sorted place, the registry is
    /// sorted and everything else unchanged.
    proof fn lemma_insert_frame(self, pre: ValidatorSet, ix: int, validator: u64)
        requires
            pre.wf(),
            0 <= ix <= pre.records@.len(),
            !pre.has_val(validator),
            forall|i: int| 0 <= i < ix ==> (#[trigger] pre.records@[i]).validator < validator,
            forall|i: int|
                ix <= i < pre.records@.len() ==> (#[trigger] pre.records@[i]).validator
                    > validator,
            self.records@ == pre.records@.insert(ix, self.records@[ix]),
            self.records@[ix].validator == validator,
        ensures
            self.wf(),
            self.has_val(validator),
            self.val_at(validator) == self.records@[ix],
            forall|v2: u64| v2 != validator && pre.has_val(v2) ==> #[trigger] self.has_val(v2),
            forall|v2: u64|
                v2 != validator && pre.has_val(v2) ==> #[trigger] self.val_at(v2) == pre.val_at(
                    v2,
                ),
    {
        pre.records@.insert_ensures(ix, self.records@[ix]);
        assert forall|i: int, j: int| 0 <= i < j < self.records@.len()
            implies (#[trigger] self.records@[i]).validator
                < (#[trigger] self.records@[j]).validator by {
            if j < ix {
                assert(pre.records@[i].validator < pre.records@[j].validator);
            } else if j == ix {
                assert(pre.records@[i].validator < validator);
            } else if i < ix {
                assert(pre.records@[i].validator < validator);
                assert(pre.records@[j - 1].validator > validator);
            } else if i == ix {
                assert(pre.records@[j - 1].validator > validator);
            } else {
                assert(pre.records@[i - 1].validator < pre.records@[j - 1].validator);
            }
        }
        self.lemma_val_ix(ix, validator);
        assert forall|v2: u64| v2 != validator && pre.has_val(v2) implies #[trigger] self.has_val(
            v2,
        ) by {
            let pj = pre.val_ix(v2);
            pre.lemma_val_ix(pj, v2);
            if pj < ix {
                self.lemma_val_ix(pj, v2);
            } else {
                assert(self.records@[pj + 1] == pre.records@[pj]);
                self.lemma_val_ix(pj + 1, v2);
            }
        }
        assert forall|v2: u64| v2 != validator && pre.has_val(v2) implies #[trigger] self.val_at(
            v2,
        ) == pre.val_at(v2) by {
            let pj = pre.val_ix(v2);
            pre.lemma_val_ix(pj, v2);
            if pj < ix {
                self.lemma_val_ix(pj, v2);
            } else {
                assert(self.records@[pj + 1] == pre.records@[pj]);
                self.lemma_val_ix(pj + 1, v2);
            }
        }
    }
}

/// The page of active, non-tombstoned records that follows `after`
/// (exclusive), at most `limit` entries, in table order.
pub open spec fn spec_active_page(
    records: Seq<ValidatorRecord>,
    after: Option<u64>,
    limit: int,
) -> Seq<ValidatorRecord>
    decreases records.len(),
{
    if records.len() == 0 || limit <= 0 {
        Seq::empty()
    } else {
        let h = records[0];
        let skipped = (match after {
            Some(a) => h.validator <= a,
            None => false,
        }) || !h.active || h.tombstoned;
        if skipped {
            spec_active_page(records.skip(1), after, limit)
        } else {
            seq![h] + spec_active_page(records.skip(1), after, limit - 1)
        }
    }
}

} // verus!
