//! The decision a poller makes on every tick: a successfully fetched,
//! representable price advances the statistics; any failure leaves them
//! untouched and the loop carries on. The asynchronous fetch-and-tick loop
//! around this step lives with the runtime, outside the library.

use vstd::prelude::*;
use crate::data_processor::{obs_ok, DataProcessor, PRICE_LIMIT};

verus! {

/// One tick of the poll loop. `fetched` is the price extracted from the
/// endpoint's reply, or nothing on any transport, decode, or range failure.
/// Returns whether a write happened.
pub fn poll_step(processor: &mut DataProcessor, fetched: Option<i64>) -> (wrote: bool)
    requires
        old(processor).wf(),
    ensures
        final(processor).wf(),
        final(processor).win_size() == old(processor).win_size(),
        wrote == (fetched matches Some(x) && obs_ok(x as int) && old(
            processor,
        ).history().len() < u64::MAX),
        wrote ==> final(processor).history() =~= old(processor).history().push(
            fetched.unwrap() as int,
        ),
        !wrote ==> *final(processor) == *old(processor),
    {
    match fetched {
        Some(x) => {
            if -PRICE_LIMIT <= x && x <= PRICE_LIMIT {
                let current = processor.read();
                if current.data_point < u64::MAX {
                    processor.write(x);
                    true
                } else {
                    false
                }
            } else {
                false
            }
        },
        None => false,
    }
}

} // verus!
