//! What the manager's HTTP endpoints answer, apart from the transport:
//! reports are stored, and queries are answered from the state. Each answer
//! is stamped with the time `now` that the caller read when the request came.

use vstd::prelude::*;
use crate::shared::{AggregatedMetrics, ApiResponse, UtcTime};
use crate::state::{with_report, AppState, NetworkUsersSnapshot};

verus! {

/// Stores a report from machine `machine_id` and acknowledges it.
pub fn report<M>(
    state: &mut AppState<M>,
    machine_id: String,
    metrics: M,
    now: UtcTime,
) -> (r: ApiResponse<String>)
    requires
        old(state).wf(),
    ensures
        final(state).wf(),
        final(state).histories() == with_report(
            old(state).histories(),
            machine_id@,
            metrics,
            old(state).max_history(),
        ),
        final(state).machines() == (if old(state).histories().dom().contains(machine_id@) {
            old(state).machines()
        } else {
            old(state).machines().push(machine_id@)
        }),
        final(state).max_history() == old(state).max_history(),
        final(state).network() == old(state).network(),
        final(state).snapshot() == old(state).snapshot(),
        r.success,
        r.error is None,
        r.data is Some && r.data->0@ == "Metrics received"@,
        r.timestamp == now,
{
    state.add_metrics(machine_id, metrics);
    ApiResponse::success(String::from_str("Metrics received"), now)
}

/// The newest report of every machine, in order of their first report.
pub fn get_latest<M: Clone>(state: &AppState<M>, now: UtcTime) -> (r: ApiResponse<
    AggregatedMetrics<M>,
>)
    requires
        state.wf(),
    ensures
        r.success,
        r.error is None,
        r.data is Some,
        r.timestamp == now,
        r.data->0.last_updated == now,
        r.data->0.machines@.len() == state.machines().len(),
        forall|i: int|
            0 <= i < state.machines().len() ==> cloned::<M>(
                state.histories()[#[trigger] state.machines()[i]].last(),
                r.data->0.machines@[i],
            ),
{
    let machines = state.get_latest_metrics();
    ApiResponse::success(AggregatedMetrics { machines, last_updated: now }, now)
}

/// The newest report of every machine, in order of their first report.
pub fn list_machines<M: Clone>(state: &AppState<M>, now: UtcTime) -> (r: ApiResponse<Vec<M>>)
    requires
        state.wf(),
    ensures
        r.success,
        r.error is None,
        r.data is Some,
        r.timestamp == now,
        r.data->0@.len() == state.machines().len(),
        forall|i: int|
            0 <= i < state.machines().len() ==> cloned::<M>(
                state.histories()[#[trigger] state.machines()[i]].last(),
                r.data->0@[i],
            ),
{
    ApiResponse::success(state.get_latest_metrics(), now)
}

/// The newest report of machine `machine_id`; a "Machine not found" failure
/// when it has not reported.
pub fn get_machine<M: Clone>(state: &AppState<M>, machine_id: &str, now: UtcTime) -> (r: Result<
    ApiResponse<M>,
    ApiResponse<()>,
>)
    requires
        state.wf(),
    ensures
        r is Ok <==> state.histories().dom().contains(machine_id@),
        match r {
            Ok(resp) => {
                &&& resp.success
                &&& resp.timestamp == now
                &&& resp.error is None
                &&& resp.data is Some
                &&& cloned::<M>(state.histories()[machine_id@].last(), resp.data->0)
            },
            Err(resp) => {
                &&& !resp.success
                &&& resp.timestamp == now
                &&& resp.data is None
                &&& resp.error is Some
                &&& resp.error->0@ == "Machine not found"@
            },
        },
{
    match state.get_machine_latest(machine_id) {
        Some(m) => Ok(ApiResponse::success(m, now)),
        None => Err(ApiResponse::<()>::error(String::from_str("Machine not found"), now)),
    }
}

/// The latest per-grade presence counts.
pub fn list_users<M>(state: &AppState<M>, now: UtcTime) -> (r: ApiResponse<NetworkUsersSnapshot>)
    ensures
        r.success,
        r.error is None,
        r.data is Some,
        r.timestamp == now,
        r.data->0@ == state.snapshot(),
{
    ApiResponse::success(state.network_snapshot(), now)
}

} // verus!
