//! The sound server's playback streams and devices as plain values, and the
//! decisions taken while talking to the server.
use vstd::prelude::*;
use vstd::utf8::{decode_utf8, valid_utf8};

verus! {

/// One playback stream (a sink input) of the sound server.
#[derive(Clone, Debug)]
pub struct AudioStream {
    pub index: u32,
    pub name: String,
    /// Volume in percent of normal.
    pub volume: u32,
    pub app_name: String,
}

/// One playback (sink) or input (source) device of the sound server.
#[derive(Clone, Debug)]
pub struct AudioDevice {
    pub index: u32,
    pub name: String,
    pub description: String,
    pub is_default: bool,
}

/// A device as the sound server reports it.
pub struct DeviceReport {
    pub index: u32,
    pub name: String,
    pub description: String,
    /// For an input device that monitors a playback device, that device's index.
    pub monitor_of_sink: Option<u32>,
}

/// The devices that a device list shows for the reports `rs`, in order:
/// monitors of playback devices are left out when `skip_monitors` holds, and
/// the device named `default_name` is marked as the default.
pub open spec fn shown_devices(
    rs: Seq<DeviceReport>,
    default_name: Option<Seq<char>>,
    skip_monitors: bool,
) -> Seq<AudioDevice>
    decreases rs.len(),
{
    if rs.len() == 0 {
        Seq::empty()
    } else {
        let before = shown_devices(rs.drop_last(), default_name, skip_monitors);
        let r = rs.last();
        if skip_monitors && r.monitor_of_sink is Some {
            before
        } else {
            before.push(
                AudioDevice {
                    index: r.index,
                    name: r.name,
                    description: r.description,
                    is_default: (default_name matches Some(d) && r.name@ == d),
                },
            )
        }
    }
}

/// The devices to show for the server's reports `reports`: with
/// `skip_monitors` (the input list) the monitors of playback devices are
/// left out; the device whose name is the server's default `default_name`
/// is marked as the default.
pub fn devices_to_show(reports: &Vec<DeviceReport>, default_name: &Option<String>, skip_monitors: bool) -> (r:
    Vec<AudioDevice>)
    ensures
        r@ == shown_devices(
            reports@,
            match default_name {
                Some(d) => Some(d@),
                None => None,
            },
            skip_monitors,
        ),
{
    let ghost dv = match default_name {
        Some(d) => Some(d@),
        None => None::<Seq<char>>,
    };
    let mut out: Vec<AudioDevice> = Vec::new();
    let mut i: usize = 0;
    while i < reports.len()
        invariant
            i <= reports@.len(),
            dv == (match default_name {
                Some(d) => Some(d@),
                None => None::<Seq<char>>,
            }),
            out@ == shown_devices(reports@.take(i as int), dv, skip_monitors),
        decreases reports@.len() - i,
    {
        let r = &reports[i];
        assert(reports@.take(i + 1).drop_last() =~= reports@.take(i as int));
        assert(reports@.take(i + 1).last() == reports@[i as int]);
        let is_monitor = match r.monitor_of_sink {
            Some(_) => true,
            None => false,
        };
        if !(skip_monitors && is_monitor) {
            let is_default = match default_name {
                Some(d) => r.name == *d,
                None => false,
            };
            out.push(
                AudioDevice {
                    index: r.index,
                    name: r.name.clone(),
                    description: r.description.clone(),
                    is_default,
                },
            );
        }
        i = i + 1;
    }
    assert(reports@.take(i as int) =~= reports@);
    out
}

/// The bytes of a property value without the one NUL byte that may end it.
pub open spec fn without_trailing_nul(b: Seq<u8>) -> Seq<u8> {
    if b.len() > 0 && b.last() == 0 {
        b.drop_last()
    } else {
        b
    }
}

/// The application name that a stream's `application.name` property value
/// gives: its text without a trailing NUL when that is valid UTF-8, and
/// "Unknown" when it is not or the property is missing.
pub open spec fn app_name_of(property: Option<Seq<u8>>) -> Seq<char> {
    match property {
        Some(b) => if valid_utf8(without_trailing_nul(b)) {
            decode_utf8(without_trailing_nul(b))
        } else {
            "Unknown"@
        },
        None => "Unknown"@,
    }
}

/// Calls `std::str::from_utf8`. As its documentation states, it succeeds
/// exactly on valid UTF-8, and then gives the text that the bytes encode.
#[verifier::external_body]
fn str_from_utf8(bytes: &[u8]) -> (r: Option<&str>)
    ensures
        r is Some <==> valid_utf8(bytes@),
        r matches Some(s) ==> s@ == decode_utf8(bytes@),
{
    std::str::from_utf8(bytes).ok()
}

/// The application name of a stream, from the value of its
/// `application.name` property if it has one.
pub fn app_name_from_property(property: Option<&[u8]>) -> (r: String)
    ensures
        r@ == app_name_of(
            match property {
                Some(b) => Some(b@),
                None => None,
            },
        ),
        property is None ==> r@ == "Unknown"@,
        property matches Some(b) ==> ({
            let t = if b@.len() > 0 && b@.last() == 0u8 {
                b@.subrange(0, b@.len() - 1)
            } else {
                b@
            };
            &&& valid_utf8(t) ==> r@ == decode_utf8(t)
            &&& !valid_utf8(t) ==> r@ == "Unknown"@
        }),
{
    match property {
        None => "Unknown".to_owned(),
        Some(b) => {
            let n = b.len();
            let end = if n > 0 && b[n - 1] == 0 {
                n - 1
            } else {
                n
            };
            let mut bytes: Vec<u8> = Vec::new();
            let mut i: usize = 0;
            while i < end
                invariant
                    end <= n == b@.len(),
                    i <= end,
                    bytes@ == b@.subrange(0, i as int),
                decreases end - i,
            {
                bytes.push(b[i]);
                i = i + 1;
                assert(bytes@ =~= b@.subrange(0, i as int));
            }
            assert(bytes@ =~= without_trailing_nul(b@));
            match str_from_utf8(bytes.as_slice()) {
                Some(s) => s.to_owned(),
                None => "Unknown".to_owned(),
            }
        },
    }
}

/// How one turn of the sound server connection's main loop ended.
#[derive(PartialEq, Eq, Structural, Clone, Copy, Debug)]
pub enum IterateOutcome {
    /// Events were dispatched.
    Success,
    /// The loop was asked to quit.
    Quit,
    /// The loop failed.
    Failure,
}

/// What connecting does after a turn of the main loop.
#[derive(PartialEq, Eq, Structural, Clone, Copy, Debug)]
pub enum ConnectStep {
    /// Run the loop again.
    Wait,
    /// Connecting is over and the connection is used.
    Connected,
    /// Connecting failed.
    Failed,
}

/// The step after a turn that ended with `outcome`, `ready` telling whether
/// the connection then reports itself ready: a failing loop fails, a
/// quitting loop ends the wait, and a ready connection ends it too.
pub fn connect_step(outcome: IterateOutcome, ready: bool) -> (r: ConnectStep)
    ensures
        r == (match outcome {
            IterateOutcome::Failure => ConnectStep::Failed,
            IterateOutcome::Quit => ConnectStep::Connected,
            IterateOutcome::Success => if ready {
                ConnectStep::Connected
            } else {
                ConnectStep::Wait
            },
        }),
{
    match outcome {
        IterateOutcome::Failure => ConnectStep::Failed,
        IterateOutcome::Quit => ConnectStep::Connected,
        IterateOutcome::Success => if ready {
            ConnectStep::Connected
        } else {
            ConnectStep::Wait
        },
    }
}

/// The most turns of the main loop run to let a request complete.
pub const MAX_DRAIN_TURNS: u32 = 100;

/// Whether to run the main loop once more while letting a request complete,
/// after `turns` turns of which the last ended with `last`: only after a
/// successful turn, and at most `MAX_DRAIN_TURNS` turns in all.
pub fn drain_again(turns: u32, last: IterateOutcome) -> (r: bool)
    ensures
        r == (last == IterateOutcome::Success && turns < MAX_DRAIN_TURNS),
{
    match last {
        IterateOutcome::Success => turns < MAX_DRAIN_TURNS,
        _ => false,
    }
}

} // verus!

verus! {

/// Each shown device is one of the reports, taken in order and unchanged:
/// the result gives, for the shown devices, the positions of the reports
/// they come from. Those positions increase, take in exactly the reports
/// that are not skipped monitors, and each device carries its report's own
/// index, name and description, marked default exactly when its name is the
/// default name.
pub proof fn law_shown_devices_come_from_reports(
    rs: Seq<DeviceReport>,
    default_name: Option<Seq<char>>,
    skip_monitors: bool,
) -> (pos: Seq<int>)
    ensures
        pos.len() == shown_devices(rs, default_name, skip_monitors).len(),
        forall|k: int| 0 <= k < pos.len() ==> 0 <= #[trigger] pos[k] < rs.len(),
        forall|k: int, l: int| 0 <= k < l < pos.len() ==> pos[k] < pos[l],
        forall|k: int|
            #![trigger pos[k]]
            0 <= k < pos.len() ==> {
                let d = shown_devices(rs, default_name, skip_monitors)[k];
                let r = rs[pos[k]];
                &&& d.index == r.index
                &&& d.name == r.name
                &&& d.description == r.description
                &&& d.is_default == (default_name matches Some(n) && r.name@ == n)
                &&& !(skip_monitors && r.monitor_of_sink is Some)
            },
        forall|p: int|
            0 <= p < rs.len() && !(skip_monitors && (#[trigger] rs[p]).monitor_of_sink is Some)
                ==> pos.contains(p),
    decreases rs.len(),
{
    if rs.len() == 0 {
        Seq::empty()
    } else {
        let init = rs.drop_last();
        let before = law_shown_devices_come_from_reports(init, default_name, skip_monitors);
        let last = rs.len() - 1;
        assert(forall|p: int| 0 <= p < init.len() ==> init[p] == rs[p]);
        let out = shown_devices(rs, default_name, skip_monitors);
        let prev = shown_devices(init, default_name, skip_monitors);
        if skip_monitors && rs.last().monitor_of_sink is Some {
            assert forall|k: int|
                #![trigger before[k]]
                0 <= k < before.len() implies {
                let d = shown_devices(rs, default_name, skip_monitors)[k];
                let r = rs[before[k]];
                &&& d.index == r.index
                &&& d.name == r.name
                &&& d.description == r.description
                &&& d.is_default == (default_name matches Some(n) && r.name@ == n)
                &&& !(skip_monitors && r.monitor_of_sink is Some)
            } by {
                assert(out[k] == prev[k]);
                assert(rs[before[k]] == init[before[k]]);
            }
            assert forall|p: int|
                0 <= p < rs.len() && !(skip_monitors && (#[trigger] rs[p]).monitor_of_sink is Some)
                implies before.contains(p) by {
                assert(p != last);
                assert(init[p] == rs[p]);
            }
            assert(out =~= prev);
            before
        } else {
            let pos = before.push(last);
            assert(out.len() == prev.len() + 1);
            assert forall|k: int|
                #![trigger pos[k]]
                0 <= k < pos.len() implies {
                let d = shown_devices(rs, default_name, skip_monitors)[k];
                let r = rs[pos[k]];
                &&& d.index == r.index
                &&& d.name == r.name
                &&& d.description == r.description
                &&& d.is_default == (default_name matches Some(n) && r.name@ == n)
                &&& !(skip_monitors && r.monitor_of_sink is Some)
            } by {
                if k < before.len() {
                    assert(out[k] == prev[k]);
                    assert(pos[k] == before[k]);
                    assert(rs[before[k]] == init[before[k]]);
                } else {
                    assert(pos[k] == last);
                    assert(rs[last] == rs.last());
                }
            }
            assert forall|p: int|
                0 <= p < rs.len() && !(skip_monitors && (#[trigger] rs[p]).monitor_of_sink is Some)
                implies pos.contains(p) by {
                if p == last {
                    assert(pos[pos.len() - 1] == p);
                } else {
                    assert(init[p] == rs[p]);
                    let k = choose|k: int| 0 <= k < before.len() && before[k] == p;
                    assert(pos[k] == p);
                }
            }
            assert forall|k: int| 0 <= k < pos.len() implies 0 <= #[trigger] pos[k] < rs.len() by {
                if k < before.len() {
                    assert(pos[k] == before[k]);
                }
            }
            assert forall|k: int, l: int| 0 <= k < l < pos.len() implies pos[k] < pos[l] by {
                assert(pos[k] == before[k]);
                if l < before.len() {
                    assert(pos[l] == before[l]);
                }
            }
            pos
        }
    }
}

} // verus!

verus! {

/// A stream's application name is the whole text of its property value: one
/// trailing NUL byte is left off, and when the rest is valid UTF-8 the name
/// is exactly the text it encodes; otherwise, or without the property, the
/// name is "Unknown".
pub proof fn law_app_name_is_whole_property_text(b: Seq<u8>)
    ensures
        ({
            let t = if b.len() > 0 && b[b.len() - 1] == 0u8 {
                b.subrange(0, b.len() - 1)
            } else {
                b
            };
            &&& valid_utf8(t) ==> app_name_of(Some(b)) == decode_utf8(t)
            &&& !valid_utf8(t) ==> app_name_of(Some(b)) == "Unknown"@
        }),
        app_name_of(None) == "Unknown"@,
{
    if b.len() > 0 && b[b.len() - 1] == 0u8 {
        assert(b.drop_last() =~= b.subrange(0, b.len() - 1));
    }
}

} // verus!
