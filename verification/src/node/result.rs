//! The result of matching input against the node tree: the task found, how sure the
//! match is, how many words it covered and the field values collected on the way.
use vstd::prelude::*;
use crate::phrase::result::{combine, conf_mul, FieldMap, FieldValues, PhraseResult};

verus! {

/// The view of a node result.
pub struct NodeOutcome {
    pub task: Seq<char>,
    pub confidence: nat,
    pub fields: FieldMap,
    pub length: nat,
}

/// How good a result is: its length weighted by its confidence.
pub open spec fn node_score(o: NodeOutcome) -> nat {
    o.length * o.confidence
}

/// A result for `task` with no field values.
pub open spec fn plain_outcome(task: Seq<char>, confidence: nat, length: nat) -> NodeOutcome {
    NodeOutcome { task, confidence, fields: FieldMap::empty(), length }
}

/// `o` extended by a phrase match in front of it: confidences multiply, lengths add
/// and the phrase's field values are added.
pub open spec fn extended(o: NodeOutcome, confidence: nat, length: nat, fields: FieldMap) -> NodeOutcome {
    NodeOutcome {
        task: o.task,
        confidence: conf_mul(o.confidence as int, confidence as int) as nat,
        fields: combine(o.fields, fields),
        length: o.length + length,
    }
}

/// The result of matching input against nodes.
pub struct NodeResult {
    confidence: u64,
    fields: FieldValues,
    length: usize,
    task: String,
}

impl NodeResult {
    pub closed spec fn wf(&self) -> bool {
        self.fields.wf()
    }

    pub closed spec fn view(&self) -> NodeOutcome {
        NodeOutcome {
            task: self.task@,
            confidence: self.confidence as nat,
            fields: self.fields.view(),
            length: self.length as nat,
        }
    }

    /// The confidence of a result is a `u64` and its length a `usize`.
    pub proof fn lemma_view_bounds(&self)
        ensures
            self@.confidence <= u64::MAX,
            self@.length <= usize::MAX,
    {
    }

    /// A result for `task` with the given confidence and length and no fields.
    pub fn new(task: &String, confidence: u64, length: usize) -> (res: NodeResult)
        ensures
            res.wf(),
            res@ == plain_outcome(task@, confidence as nat, length as nat),
    {
        NodeResult { confidence, fields: FieldValues::new(), length, task: task.clone() }
    }

    /// A result for `task` that takes over confidence, length and fields of `result`.
    pub fn new_from_phrase(task: &String, result: &PhraseResult) -> (res: NodeResult)
        requires
            result.wf(),
        ensures
            res.wf(),
            res@ == (NodeOutcome {
                task: task@,
                confidence: result@.confidence,
                fields: result@.fields,
                length: result@.length,
            }),
    {
        NodeResult {
            confidence: result.get_confidence(),
            fields: result.get_fields().clone(),
            length: result.len(),
            task: task.clone(),
        }
    }

    pub fn get_task(&self) -> (res: &String)
        ensures
            res@ == self@.task,
    {
        &self.task
    }

    pub fn get_confidence(&self) -> (res: u64)
        ensures
            res == self@.confidence,
    {
        self.confidence
    }

    pub fn get_fields(&self) -> (res: &FieldValues)
        ensures
            res.view() == self@.fields,
            self.wf() ==> res.wf(),
    {
        &self.fields
    }

    pub fn len(&self) -> (res: usize)
        ensures
            res == self@.length,
    {
        self.length
    }

    /// The length weighted by the confidence.
    pub fn get_score(&self) -> (res: u128)
        ensures
            res == node_score(self@),
    {
        proof {
            assert(self.length as int * self.confidence as int <= u64::MAX as int * u64::MAX as int)
                by (nonlinear_arith)
                requires
                    self.length <= u64::MAX,
                    self.confidence <= u64::MAX,
            ;
            assert(u64::MAX as int * u64::MAX as int <= u128::MAX) by (nonlinear_arith);
        }
        (self.length as u128) * (self.confidence as u128)
    }

    /// Adds the field values of `fields` (see `combine`).
    pub fn add_fields(&mut self, fields: &FieldValues)
        requires
            old(self).wf(),
            fields.wf(),
        ensures
            final(self).wf(),
            final(self)@ == (NodeOutcome { fields: combine(old(self)@.fields, fields.view()), ..old(self)@ }),
    {
        self.fields.add_all(fields);
    }

    pub fn add_length(&mut self, length: usize)
        requires
            old(self)@.length + length <= usize::MAX,
        ensures
            final(self).wf() == old(self).wf(),
            final(self)@ == (NodeOutcome { length: (old(self)@.length + length) as nat, ..old(self)@ }),
    {
        self.length = self.length + length;
    }

    /// Multiplies the confidence by `confidence` (fixed point).
    pub fn mult_confidence(&mut self, confidence: u64)
        requires
            conf_mul(old(self)@.confidence as int, confidence as int) <= u64::MAX,
        ensures
            final(self).wf() == old(self).wf(),
            final(self)@ == (NodeOutcome {
                confidence: conf_mul(old(self)@.confidence as int, confidence as int) as nat,
                ..old(self)@
            }),
    {
        proof {
            assert(self.confidence as int * confidence as int <= u64::MAX as int * u64::MAX as int)
                by (nonlinear_arith)
                requires
                    self.confidence <= u64::MAX,
                    confidence <= u64::MAX,
            ;
            assert(u64::MAX as int * u64::MAX as int <= u128::MAX) by (nonlinear_arith);
        }
        let product: u128 = (self.confidence as u128) * (confidence as u128) / (
        crate::phrase::result::CONFIDENCE_SCALE as u128);
        self.confidence = product as u64;
    }
}

} // verus!
