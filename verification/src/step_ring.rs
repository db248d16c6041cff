//! The queue of model steps: both ends of a crossbeam channel, held together.
//!
//! Nobody else has an end of the channel, so that only the functions here change
//! what it holds, and neither end is ever cut off.

use crate::swamp_vm::ModelStepOpcode;
use vstd::prelude::*;

verus! {

/// The sending end of a channel.
#[verifier::external_type_specification]
#[verifier::external_body]
#[verifier::reject_recursive_types(T)]
pub struct ExSender<T>(crossbeam::channel::Sender<T>);

/// The receiving end of a channel.
#[verifier::external_type_specification]
#[verifier::external_body]
#[verifier::reject_recursive_types(T)]
pub struct ExReceiver<T>(crossbeam::channel::Receiver<T>);

pub struct StepRing {
    tx: crossbeam::channel::Sender<ModelStepOpcode>,
    rx: crossbeam::channel::Receiver<ModelStepOpcode>,
}

/// The steps in a channel, the one that was sent first in front.
pub uninterp spec fn queued(ring: StepRing) -> Seq<ModelStepOpcode>;

/// The two ends of a new channel, from `crossbeam::channel::unbounded`: it has room
/// for any number of messages and holds none.
#[verifier::external_body]
pub(crate) fn open_ring() -> (ring: StepRing)
    ensures
        queued(ring) == Seq::<ModelStepOpcode>::empty(),
{
    let (tx, rx) = crossbeam::channel::unbounded();
    StepRing { tx, rx }
}

/// `Sender::try_send`: puts a message behind all others.  A channel of unbounded
/// capacity refuses one only when its receiving end is gone, and the ring holds that
/// end.
#[verifier::external_body]
pub(crate) fn send(ring: &mut StepRing, op: ModelStepOpcode) -> (sent: bool)
    ensures
        sent,
        queued(*final(ring)) == queued(*old(ring)).push(op),
{
    ring.tx.try_send(op).is_ok()
}

/// `Receiver::try_recv`: takes the message that was sent first, and fails without
/// blocking when there is none.
#[verifier::external_body]
pub(crate) fn receive(ring: &mut StepRing) -> (r: Option<ModelStepOpcode>)
    ensures
        match r {
            Some(op) => {
                &&& queued(*old(ring)).len() > 0
                &&& op == queued(*old(ring))[0]
                &&& queued(*final(ring)) == queued(*old(ring)).drop_first()
            },
            None => {
                &&& queued(*old(ring)).len() == 0
                &&& queued(*final(ring)) == queued(*old(ring))
            },
        },
{
    ring.rx.try_recv().ok()
}

} // verus!
