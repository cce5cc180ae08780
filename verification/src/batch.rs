//! Forwarding a batch to the destination: the writes that carry it, in order,
//! and the error that names the write that failed.
use vstd::prelude::*;
use vstd::string::*;

use crate::text::{append_decimal, decimal, wire_of};

verus! {

/// The step of a forwarding attempt.
#[derive(PartialEq, Eq, Debug, Clone, Copy, Structural)]
pub enum SendStage {
    /// Opening the connection to the destination.
    Connect,
    /// Writing the text of the record at this index of the batch.
    WriteMessage(usize),
    /// Writing the `'\n'` after the record at this index.
    WriteNewline(usize),
    /// Flushing the connection after the last write.
    Flush,
}

/// What the error of a failed stage says before the cause.
pub open spec fn stage_prefix(stage: SendStage) -> Seq<char> {
    match stage {
        SendStage::Connect => "Connection failed: "@,
        SendStage::WriteMessage(i) => "Failed to write message "@ + decimal(i as nat) + ": "@,
        SendStage::WriteNewline(i) => "Failed to write newline after message "@ + decimal(
            i as nat,
        ) + ": "@,
        SendStage::Flush => "Failed to flush stream: "@,
    }
}

/// A forwarding attempt that failed, with a description of the failed stage
/// and of its cause.
pub struct SendError {
    detail: String,
}

impl View for SendError {
    type V = Seq<char>;

    closed spec fn view(&self) -> Seq<char> {
        self.detail@
    }
}

impl SendError {
    /// The error for `stage`, failed for the reason `cause`.
    pub fn new(stage: SendStage, cause: &str) -> (r: Self)
        ensures
            r@ == stage_prefix(stage) + cause@,
    {
        let mut detail = String::new();
        match stage {
            SendStage::Connect => {
                detail.append("Connection failed: ");
            },
            SendStage::WriteMessage(i) => {
                detail.append("Failed to write message ");
                append_decimal(&mut detail, i as u64);
                detail.append(": ");
            },
            SendStage::WriteNewline(i) => {
                detail.append("Failed to write newline after message ");
                append_decimal(&mut detail, i as u64);
                detail.append(": ");
            },
            SendStage::Flush => {
                detail.append("Failed to flush stream: ");
            },
        }
        detail.append(cause);
        proof {
            assert(Seq::<char>::empty() + stage_prefix(stage) == stage_prefix(stage));
        }
        SendError { detail }
    }

    /// The description of the failed stage and its cause.
    pub fn detail(&self) -> (r: &str)
        ensures
            r@ == self@,
    {
        self.detail.as_str()
    }

    /// The error as it is reported: `SendError: ` and the description.
    pub fn describe(&self) -> (r: String)
        ensures
            r@ == "SendError: "@ + self@,
    {
        let mut r = String::from_str("SendError: ");
        r.append(self.detail.as_str());
        r
    }
}

/// One write of a forwarding attempt, and the stage it belongs to.
pub struct PlannedWrite {
    pub text: String,
    pub stage: SendStage,
}

/// The text of writes `0..n` of a plan, one after another.
pub open spec fn plan_text(plan: Seq<PlannedWrite>) -> Seq<char>
    decreases plan.len(),
{
    if plan.len() == 0 {
        seq![]
    } else {
        plan_text(plan.drop_last()) + plan.last().text@
    }
}

/// The writes that forward `batch`: each record, then its `'\n'`, in order.
/// Together they write the wire form of the batch.
pub fn write_plan(batch: &[String]) -> (plan: Vec<PlannedWrite>)
    ensures
        plan@.len() == 2 * batch@.len(),
        forall|i: int|
            0 <= i < batch@.len() ==> {
                &&& (#[trigger] plan@[2 * i]).text@ == batch@[i]@
                &&& plan@[2 * i].stage == SendStage::WriteMessage(i as usize)
                &&& plan@[2 * i + 1].text@ == seq!['\n']
                &&& plan@[2 * i + 1].stage == SendStage::WriteNewline(i as usize)
            },
        plan_text(plan@) == wire_of(batch.deep_view()),
{
    let mut plan: Vec<PlannedWrite> = Vec::new();
    let n = batch.len();
    for i in 0..n
        invariant
            n == batch@.len(),
            plan@.len() == 2 * i,
            forall|j: int|
                0 <= j < i ==> {
                    &&& (#[trigger] plan@[2 * j]).text@ == batch@[j]@
                    &&& plan@[2 * j].stage == SendStage::WriteMessage(j as usize)
                    &&& plan@[2 * j + 1].text@ == seq!['\n']
                    &&& plan@[2 * j + 1].stage == SendStage::WriteNewline(j as usize)
                },
            plan_text(plan@) == wire_of(batch.deep_view().take(i as int)),
    {
        let ghost before = plan@;
        plan.push(PlannedWrite { text: batch[i].clone(), stage: SendStage::WriteMessage(i) });
        plan.push(PlannedWrite { text: String::from_str("\n"), stage: SendStage::WriteNewline(i) });
        proof {
            reveal_strlit("\n");
            assert(plan@.drop_last().drop_last() == before);
            assert(plan_text(plan@) == plan_text(plan@.drop_last()) + seq!['\n']);
            assert(plan_text(plan@.drop_last()) == plan_text(before) + batch@[i as int]@);
            assert(batch.deep_view().take(i as int + 1).drop_last() == batch.deep_view().take(
                i as int,
            ));
            assert(batch.deep_view().take(i as int + 1).last() == batch@[i as int]@);
            assert forall|j: int| 0 <= j < i + 1 implies {
                &&& (#[trigger] plan@[2 * j]).text@ == batch@[j]@
                &&& plan@[2 * j].stage == SendStage::WriteMessage(j as usize)
                &&& plan@[2 * j + 1].text@ == seq!['\n']
                &&& plan@[2 * j + 1].stage == SendStage::WriteNewline(j as usize)
            } by {
                if j < i {
                    assert(plan@[2 * j] == before[2 * j]);
                    assert(plan@[2 * j + 1] == before[2 * j + 1]);
                }
            }
        }
    }
    proof {
        assert(batch.deep_view().take(n as int) == batch.deep_view());
    }
    plan
}

} // verus!
