//! The in-memory transaction types and the builder that assembles them.

use vstd::prelude::*;

use crate::model::{
    wf_input, wf_outpoint, wf_output, wf_transaction, OutPointModel, TransactionModel,
    TxInputModel, TxOutputModel,
};

verus! {

/// A pair of equally-typed coordinates.
#[derive(Debug, Clone, PartialEq)]
pub struct Point<T> {
    pub x: T,
    pub y: T,
}

impl<T> Point<T> {
    pub fn new(x: T, y: T) -> (r: Self)
        ensures
            r.x == x,
            r.y == y,
    {
        Self { x, y }
    }
}

/// A reference to one output of a prior transaction: its 32-byte id, in
/// wire byte order, and the index of the output.
#[derive(Debug, Clone, PartialEq, Eq)]
pub struct OutPoint {
    pub txid: [u8; 32],
    pub vout: u32,
}

impl View for OutPoint {
    type V = OutPointModel;

    open spec fn view(&self) -> OutPointModel {
        OutPointModel { txid: self.txid@, vout: self.vout }
    }
}

/// One spend of a previously created output, with its opaque signature
/// script and sequence number.
#[derive(Debug, Clone, PartialEq, Eq)]
pub struct TxInput {
    pub previous_output: OutPoint,
    pub script_sig: Vec<u8>,
    pub sequence: u32,
}

impl View for TxInput {
    type V = TxInputModel;

    open spec fn view(&self) -> TxInputModel {
        TxInputModel {
            previous_output: self.previous_output@,
            script_sig: self.script_sig@,
            sequence: self.sequence,
        }
    }
}

/// One newly created output: its value in the smallest currency unit and
/// its opaque locking script.
#[derive(Debug, Clone, PartialEq, Eq)]
pub struct TxOutput {
    pub value: u64,
    pub script_pubkey: Vec<u8>,
}

impl View for TxOutput {
    type V = TxOutputModel;

    open spec fn view(&self) -> TxOutputModel {
        TxOutputModel { value: self.value, script_pubkey: self.script_pubkey@ }
    }
}

/// A legacy transaction: version, ordered inputs, ordered outputs, lock
/// time.  The order of inputs and outputs is significant and is preserved
/// exactly through encode and decode.
#[derive(Debug, Clone, PartialEq, Eq)]
pub struct LegacyTransaction {
    pub version: i32,
    pub inputs: Vec<TxInput>,
    pub outputs: Vec<TxOutput>,
    pub lock_time: u32,
}

impl View for LegacyTransaction {
    type V = TransactionModel;

    open spec fn view(&self) -> TransactionModel {
        TransactionModel {
            version: self.version,
            inputs: self.inputs@.map_values(|i: TxInput| i@),
            outputs: self.outputs@.map_values(|o: TxOutput| o@),
            lock_time: self.lock_time,
        }
    }
}

/// Every in-memory value is well formed: arrays are 32 bytes long by type,
/// and no `Vec` can outgrow a 64-bit length.
pub proof fn lemma_outpoint_wf(p: OutPoint)
    ensures
        wf_outpoint(p@),
{
}

pub proof fn lemma_input_wf(i: TxInput)
    ensures
        wf_input(i@),
{
    vstd::std_specs::vec::axiom_spec_len(&i.script_sig);
}

pub proof fn lemma_output_wf(o: TxOutput)
    ensures
        wf_output(o@),
{
    vstd::std_specs::vec::axiom_spec_len(&o.script_pubkey);
}

pub proof fn lemma_transaction_wf(t: LegacyTransaction)
    ensures
        wf_transaction(t@),
{
    vstd::std_specs::vec::axiom_spec_len(&t.inputs);
    vstd::std_specs::vec::axiom_spec_len(&t.outputs);
    assert forall|k: int| 0 <= k < t@.inputs.len() implies wf_input(#[trigger] t@.inputs[k]) by {
        lemma_input_wf(t.inputs@[k]);
    }
    assert forall|k: int| 0 <= k < t@.outputs.len() implies wf_output(
        #[trigger] t@.outputs[k],
    ) by {
        lemma_output_wf(t.outputs@[k]);
    }
}

impl LegacyTransaction {
    /// A fresh builder with the default field values.
    pub fn builder() -> (r: LegacyTransactionBuilder)
        ensures
            r.version == 1i32,
            r.inputs@.len() == 0,
            r.outputs@.len() == 0,
            r.lock_time == 0u32,
    {
        LegacyTransactionBuilder::new()
    }
}

/// Assembles a `LegacyTransaction` field by field; each method returns the
/// updated builder, so calls chain.
pub struct LegacyTransactionBuilder {
    pub version: i32,
    pub inputs: Vec<TxInput>,
    pub outputs: Vec<TxOutput>,
    pub lock_time: u32,
}

impl Default for LegacyTransactionBuilder {
    /// Version 1, no inputs, no outputs, lock time 0.
    fn default() -> (r: Self)
        ensures
            r.version == 1i32,
            r.inputs@.len() == 0,
            r.outputs@.len() == 0,
            r.lock_time == 0u32,
    {
        Self { version: 1, inputs: Vec::new(), outputs: Vec::new(), lock_time: 0 }
    }
}

impl LegacyTransactionBuilder {
    pub fn new() -> (r: Self)
        ensures
            r.version == 1i32,
            r.inputs@.len() == 0,
            r.outputs@.len() == 0,
            r.lock_time == 0u32,
    {
        Self::default()
    }

    pub fn version(self, version: i32) -> (r: Self)
        ensures
            r.version == version,
            r.inputs == self.inputs,
            r.outputs == self.outputs,
            r.lock_time == self.lock_time,
    {
        Self { version, ..self }
    }

    pub fn add_input(self, input: TxInput) -> (r: Self)
        ensures
            r.version == self.version,
            r.inputs@ == self.inputs@.push(input),
            r.outputs == self.outputs,
            r.lock_time == self.lock_time,
    {
        let mut inputs = self.inputs;
        inputs.push(input);
        Self { inputs, ..self }
    }

    pub fn add_output(self, output: TxOutput) -> (r: Self)
        ensures
            r.version == self.version,
            r.inputs == self.inputs,
            r.outputs@ == self.outputs@.push(output),
            r.lock_time == self.lock_time,
    {
        let mut outputs = self.outputs;
        outputs.push(output);
        Self { outputs, ..self }
    }

    pub fn lock_time(self, lock_time: u32) -> (r: Self)
        ensures
            r.version == self.version,
            r.inputs == self.inputs,
            r.outputs == self.outputs,
            r.lock_time == lock_time,
    {
        Self { lock_time, ..self }
    }

    /// Finalizes the builder into an immutable transaction carrying exactly
    /// the accumulated fields.
    pub fn build(self) -> (r: LegacyTransaction)
        ensures
            r.version == self.version,
            r.inputs == self.inputs,
            r.outputs == self.outputs,
            r.lock_time == self.lock_time,
    {
        LegacyTransaction {
            version: self.version,
            inputs: self.inputs,
            outputs: self.outputs,
            lock_time: self.lock_time,
        }
    }
}

} // verus!
