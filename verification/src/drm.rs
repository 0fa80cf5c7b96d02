//! Decisions of the DRM/udev backend: which GPU and device to drive, which
//! mode a connector is lit with, and what a connector scan asks for.

use vstd::prelude::*;

verus! {

/// The index of the first set flag.
pub open spec fn first_set(flags: Seq<bool>) -> Option<int>
    decreases flags.len(),
{
    if flags.len() == 0 {
        None
    } else {
        match first_set(flags.drop_last()) {
            Some(i) => Some(i),
            None => if flags.last() {
                Some(flags.len() - 1)
            } else {
                None
            },
        }
    }
}

proof fn lemma_first_set_extend(flags: Seq<bool>, k: int, i: int)
    requires
        0 <= k <= flags.len(),
        first_set(flags.take(k)) == Some(i),
    ensures
        first_set(flags) == Some(i),
    decreases flags.len() - k,
{
    if k == flags.len() {
        assert(flags.take(k) =~= flags);
    } else {
        assert(flags.take(k + 1).drop_last() =~= flags.take(k));
        lemma_first_set_extend(flags, k + 1, i);
    }
}

/// The index of the first set flag, scanning left to right.
fn first_set_index(flags: &Vec<bool>) -> (r: Option<usize>)
    ensures
        match r {
            Some(i) => first_set(flags@) == Some(i as int),
            None => first_set(flags@) == None::<int>,
        },
{
    let mut i: usize = 0;
    assert(flags@.take(0).len() == 0);
    while i < flags.len()
        invariant
            i <= flags@.len(),
            first_set(flags@.take(i as int)) == None::<int>,
        decreases flags@.len() - i,
    {
        assert(flags@.take(i as int + 1).drop_last() =~= flags@.take(i as int));
        if flags[i] {
            proof {
                lemma_first_set_extend(flags@, i as int + 1, i as int);
            }
            return Some(i);
        }
        i = i + 1;
    }
    assert(flags@.take(i as int) =~= flags@);
    None
}

/// The mode a connector is lit with: the first mode flagged as preferred
/// (one flag per mode, in the connector's order), or the first mode when
/// none is.
pub fn preferred_mode_index(preferred: &Vec<bool>) -> (i: usize)
    requires
        preferred@.len() > 0,
    ensures
        i == (match first_set(preferred@) {
            Some(j) => j,
            None => 0,
        }),
        i < preferred@.len(),
{
    proof {
        lemma_first_set_bounds(preferred@);
    }
    match first_set_index(preferred) {
        Some(j) => j,
        None => 0,
    }
}

/// The first set flag lies inside the sequence, is set, and no flag
/// before it is; when there is none, no flag is set. So the preferred mode
/// is the first preferred one, and the primary device the first matching.
pub proof fn lemma_first_set_bounds(flags: Seq<bool>)
    ensures
        first_set(flags) matches Some(i) ==> 0 <= i < flags.len() && flags[i],
        first_set(flags) matches Some(i) ==> forall|j: int| 0 <= j < i ==> !#[trigger] flags[j],
        first_set(flags) is None ==> forall|j: int| 0 <= j < flags.len() ==> !#[trigger] flags[j],
    decreases flags.len(),
{
    if flags.len() > 0 {
        lemma_first_set_bounds(flags.drop_last());
        if let Some(i) = first_set(flags.drop_last()) {
            assert forall|j: int| 0 <= j < i implies !#[trigger] flags[j] by {
                assert(flags.drop_last()[j] == flags[j]);
            }
        } else {
            assert forall|j: int| 0 <= j < flags.len() - 1 implies !#[trigger] flags[j] by {
                assert(flags.drop_last()[j] == flags[j]);
            }
        }
        if first_set(flags) is None {
            assert forall|j: int| 0 <= j < flags.len() implies !#[trigger] flags[j] by {
                if j < flags.len() - 1 {
                    assert(flags.drop_last()[j] == flags[j]);
                }
            }
        }
    }
}

/// Whether a udev device is the primary GPU: it has the primary node's
/// device number (when the GPU has a primary node) or the GPU's own.
pub open spec fn is_primary_device(device_id: u64, primary_node: Option<u64>, primary_gpu: u64) -> bool {
    (primary_node matches Some(n) && device_id == n) || device_id == primary_gpu
}

/// The flags `is_primary_device` over a device list.
pub open spec fn primary_flags(device_ids: Seq<u64>, primary_node: Option<u64>, primary_gpu: u64) -> Seq<
    bool,
> {
    device_ids.map_values(|d: u64| is_primary_device(d, primary_node, primary_gpu))
}

/// The position, in the udev device list, of the first device that is the
/// primary GPU (see `is_primary_device`).
pub fn primary_device_index(device_ids: &Vec<u64>, primary_node: Option<u64>, primary_gpu: u64) -> (r:
    Option<usize>)
    ensures
        match r {
            Some(i) => first_set(primary_flags(device_ids@, primary_node, primary_gpu)) == Some(i as int),
            None => first_set(primary_flags(device_ids@, primary_node, primary_gpu)) == None::<int>,
        },
{
    let mut flags: Vec<bool> = Vec::new();
    let mut i: usize = 0;
    while i < device_ids.len()
        invariant
            i <= device_ids@.len(),
            flags@ =~= primary_flags(device_ids@, primary_node, primary_gpu).take(i as int),
        decreases device_ids@.len() - i,
    {
        let d = device_ids[i];
        let hit = match primary_node {
            Some(n) => d == n,
            None => false,
        } || d == primary_gpu;
        flags.push(hit);
        i = i + 1;
        assert(flags@ =~= primary_flags(device_ids@, primary_node, primary_gpu).take(i as int));
    }
    assert(flags@ =~= primary_flags(device_ids@, primary_node, primary_gpu));
    first_set_index(&flags)
}

/// The first present value.
pub open spec fn first_present(values: Seq<Option<u64>>) -> Option<u64>
    decreases values.len(),
{
    if values.len() == 0 {
        None
    } else if values[0] is Some {
        values[0]
    } else {
        first_present(values.drop_first())
    }
}

/// The GPU to drive: the primary GPU's render node when there is one,
/// otherwise the first GPU of the seat that could be opened (`None` for
/// one that could not).
pub fn pick_gpu(primary: Option<u64>, fallback: &Vec<Option<u64>>) -> (gpu: Option<u64>)
    ensures
        gpu == (match primary {
            Some(p) => Some(p),
            None => first_present(fallback@),
        }),
{
    if primary.is_some() {
        return primary;
    }
    let mut i: usize = 0;
    assert(fallback@.skip(0) =~= fallback@);
    while i < fallback.len()
        invariant
            i <= fallback@.len(),
            primary is None,
            first_present(fallback@) == first_present(fallback@.skip(i as int)),
        decreases fallback@.len() - i,
    {
        assert(fallback@.skip(i as int).drop_first() =~= fallback@.skip(i as int + 1));
        if fallback[i].is_some() {
            assert(fallback@.skip(i as int)[0] == fallback@[i as int]);
            return fallback[i];
        }
        i = i + 1;
    }
    assert(fallback@.skip(i as int).len() == 0);
    None
}

/// What a connector scan reported about one connector.
#[derive(Clone, Copy, Debug, PartialEq, Eq, Structural)]
pub enum ScanEventKind {
    Connected,
    Disconnected,
    Other,
}

/// One connector scan event: what happened and the CRTC the connector is
/// driven by, if any.
#[derive(Clone, Copy, Debug, PartialEq, Eq, Structural)]
pub struct ScanEvent {
    pub kind: ScanEventKind,
    pub crtc: Option<u32>,
}

/// What the backend does for a scan event: set up or tear down the output
/// of the connector of event number `event`, on the given CRTC.
#[derive(Clone, Copy, Debug, PartialEq, Eq, Structural)]
pub enum ConnectorAction {
    Connect { event: usize, crtc: u32 },
    Disconnect { event: usize, crtc: u32 },
}

/// The action for the event at `index`: connected and disconnected
/// connectors with a CRTC are handled, the rest ignored.
pub open spec fn action_of(e: ScanEvent, index: int) -> Seq<ConnectorAction> {
    match (e.kind, e.crtc) {
        (ScanEventKind::Connected, Some(c)) => seq![ConnectorAction::Connect { event: index as usize, crtc: c }],
        (ScanEventKind::Disconnected, Some(c)) => seq![
            ConnectorAction::Disconnect { event: index as usize, crtc: c },
        ],
        _ => Seq::empty(),
    }
}

/// The actions for a scan, in event order.
pub open spec fn scan_actions_spec(events: Seq<ScanEvent>) -> Seq<ConnectorAction>
    decreases events.len(),
{
    if events.len() == 0 {
        Seq::empty()
    } else {
        scan_actions_spec(events.drop_last()) + action_of(events.last(), events.len() - 1)
    }
}

/// What to do after a connector scan: connect each connected connector
/// that has a CRTC, disconnect each disconnected one that has a CRTC, in
/// the order of the scan.
pub fn scan_actions(events: &Vec<ScanEvent>) -> (actions: Vec<ConnectorAction>)
    ensures
        actions@ == scan_actions_spec(events@),
{
    let mut actions: Vec<ConnectorAction> = Vec::new();
    let mut i: usize = 0;
    while i < events.len()
        invariant
            i <= events@.len(),
            actions@ == scan_actions_spec(events@.take(i as int)),
        decreases events@.len() - i,
    {
        assert(events@.take(i as int + 1).drop_last() =~= events@.take(i as int));
        let e = events[i];
        match (e.kind, e.crtc) {
            (ScanEventKind::Connected, Some(c)) => {
                actions.push(ConnectorAction::Connect { event: i, crtc: c });
            },
            (ScanEventKind::Disconnected, Some(c)) => {
                actions.push(ConnectorAction::Disconnect { event: i, crtc: c });
            },
            _ => {},
        }
        i = i + 1;
        assert(actions@ =~= scan_actions_spec(events@.take(i as int)));
    }
    assert(events@.take(i as int) =~= events@);
    actions
}

/// The fallback GPU is the first one that could be opened: it is present
/// in the list and every entry before it is not; there is none exactly when
/// no entry is present.
pub proof fn lemma_first_present_is_first(values: Seq<Option<u64>>)
    ensures
        first_present(values) matches Some(v) ==> exists|i: int|
            0 <= i < values.len() && values[i] == Some(v) && forall|j: int| 0 <= j < i ==> #[trigger] values[j] is None,
        first_present(values) is None <==> forall|j: int| 0 <= j < values.len() ==> #[trigger] values[j] is None,
    decreases values.len(),
{
    if values.len() > 0 {
        let rest = values.drop_first();
        lemma_first_present_is_first(rest);
        assert forall|j: int| 0 <= j < rest.len() implies rest[j] == values[j + 1] by {}
        if values[0] is Some {
            let v = values[0]->0;
            assert(values[0] == Some(v));
            assert(forall|j: int| 0 <= j < 0 ==> #[trigger] values[j] is None);
        } else {
            if let Some(v) = first_present(rest) {
                let i = choose|i: int|
                    0 <= i < rest.len() && rest[i] == Some(v) && forall|j: int| 0 <= j < i ==> #[trigger] rest[j] is None;
                assert(values[i + 1] == Some(v));
                assert forall|j: int| 0 <= j < i + 1 implies #[trigger] values[j] is None by {
                    if j > 0 {
                        assert(rest[j - 1] is None);
                    }
                }
            }
            if first_present(values) is None {
                assert forall|j: int| 0 <= j < values.len() implies #[trigger] values[j] is None by {
                    if j > 0 {
                        assert(rest[j - 1] is None);
                    }
                }
            } else if forall|j: int| 0 <= j < values.len() ==> #[trigger] values[j] is None {
                assert forall|j: int| 0 <= j < rest.len() implies #[trigger] rest[j] is None by {
                    assert(values[j + 1] is None);
                }
            }
        }
    }
}

/// A scan yields one action per connected or disconnected connector that
/// has a CRTC, for exactly those events, in event order: the actions of a
/// scan are the actions of its first events followed by those of the rest.
pub proof fn lemma_scan_actions_split(events: Seq<ScanEvent>, k: int)
    requires
        0 <= k <= events.len(),
    ensures
        scan_actions_spec(events) == scan_actions_spec(events.take(k)) + scan_actions_spec_from(events, k),
    decreases events.len() - k,
{
    if k == events.len() {
        assert(events.take(k) =~= events);
        assert(scan_actions_spec_from(events, k) =~= Seq::<ConnectorAction>::empty());
        assert(scan_actions_spec(events) + Seq::<ConnectorAction>::empty() =~= scan_actions_spec(events));
    } else {
        lemma_scan_actions_split(events, k + 1);
        assert(events.take(k + 1).drop_last() =~= events.take(k));
        assert(scan_actions_spec(events.take(k + 1)) == scan_actions_spec(events.take(k)) + action_of(
            events[k],
            k,
        ));
        assert(scan_actions_spec(events.take(k)) + scan_actions_spec_from(events, k) =~= scan_actions_spec(
            events.take(k + 1),
        ) + scan_actions_spec_from(events, k + 1));
    }
}

/// The actions of the events from `k` on, each tagged with its own index.
pub open spec fn scan_actions_spec_from(events: Seq<ScanEvent>, k: int) -> Seq<ConnectorAction>
    decreases events.len() - k,
{
    if k < 0 || k >= events.len() {
        Seq::empty()
    } else {
        action_of(events[k], k) + scan_actions_spec_from(events, k + 1)
    }
}

/// What each event contributes: a connect for a connected connector with a
/// CRTC, a disconnect for a disconnected one with a CRTC, each naming that
/// event and its CRTC; nothing otherwise.
pub proof fn lemma_action_of_event(e: ScanEvent, index: int)
    requires
        0 <= index <= usize::MAX,
    ensures
        e.kind == ScanEventKind::Connected && e.crtc is Some ==> action_of(e, index) == seq![
            ConnectorAction::Connect { event: index as usize, crtc: e.crtc->0 },
        ],
        e.kind == ScanEventKind::Disconnected && e.crtc is Some ==> action_of(e, index) == seq![
            ConnectorAction::Disconnect { event: index as usize, crtc: e.crtc->0 },
        ],
        e.crtc is None || e.kind == ScanEventKind::Other ==> action_of(e, index).len() == 0,
{
}

} // verus!
