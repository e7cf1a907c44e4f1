//! The list of playback or input devices in the popup: which of the shown
//! widgets go, which stay and are restyled, and which are made, so that the
//! list follows the devices that the sound server reports.
use vstd::prelude::*;
use crate::audio::AudioDevice;
use crate::decimal::{decimal, law_parse_reads_decimal, parse_u32_range, parse_u32_spec, push_decimal};
use crate::text::{chars_of, has_prefix, range_equals, range_has_prefix};
use crate::widgets::{
    after_entries, kept_names, placeholder_name, lemma_after_entries, lemma_kept_names, names_view, plan_entries,
    removes_stale, split_stale, steps_fit, EntryStep, lemma_after_entries_keeps, lemma_kept_names_keeps,
    lemma_present_widget_is_updated, step_fits, lemma_kept_names_head, lemma_kept_names_no_duplicates, lemma_after_entries_no_duplicates, no_duplicates,
};

verus! {

/// The prefix of the widget name of a device's entry.
pub open spec fn device_prefix() -> Seq<char> {
    "device-"@
}

/// The widget name of the entry of the device with index `index`.
pub open spec fn device_widget_name(index: u32) -> Seq<char> {
    device_prefix() + decimal(index as nat)
}

/// The device index that a widget name `device-<index>` names.
pub open spec fn named_device(name: Seq<char>) -> Option<u32> {
    if has_prefix(name, device_prefix()) {
        parse_u32_spec(name.skip(device_prefix().len() as int))
    } else {
        None
    }
}

/// Whether some device has index `index`.
pub open spec fn has_device(devices: Seq<AudioDevice>, index: u32) -> bool {
    exists|j: int| 0 <= j < devices.len() && #[trigger] devices[j].index == index
}

/// Whether the widget `name` is stale: a placeholder while there are devices,
/// or the entry of a device that is gone.
pub open spec fn stale_device_widget(name: Seq<char>, devices: Seq<AudioDevice>) -> bool {
    if name == placeholder_name() {
        devices.len() > 0
    } else {
        match named_device(name) {
            Some(i) => !has_device(devices, i),
            None => false,
        }
    }
}

/// The staleness test of the device list, as a predicate on names.
pub open spec fn device_staleness(devices: Seq<AudioDevice>) -> spec_fn(Seq<char>) -> bool {
    |name: Seq<char>| stale_device_widget(name, devices)
}

/// The widget names of the devices' entries, in device order.
pub open spec fn device_entry_names(devices: Seq<AudioDevice>) -> Seq<Seq<char>> {
    devices.map_values(|d: AudioDevice| device_widget_name(d.index))
}

/// The widgets once the list has been brought up to date with `devices`.
pub open spec fn widgets_after_update(children: Seq<Seq<char>>, devices: Seq<AudioDevice>) -> Seq<
    Seq<char>,
> {
    let kept = kept_names(children, device_staleness(devices));
    if devices.len() == 0 {
        if kept.len() > 0 && kept[0] == placeholder_name() {
            kept
        } else {
            kept.push(placeholder_name())
        }
    } else {
        after_entries(kept, device_entry_names(devices))
    }
}

/// How to bring a device list up to date.
pub struct DeviceListPlan {
    /// The positions, among the current widgets, of those to remove, in
    /// increasing order.
    pub remove: Vec<usize>,
    /// Whether to add the placeholder label at the end.
    pub add_placeholder: bool,
    /// One step per device, in device order; positions count the kept
    /// widgets and then those made by earlier steps.
    pub steps: Vec<EntryStep>,
}

/// Whether the widget named `name` is stale.
pub fn is_stale_device_widget(name: &String, devices: &Vec<AudioDevice>) -> (r: bool)
    ensures
        r == stale_device_widget(name@, devices@),
{
    let c = chars_of(name.as_str());
    let placeholder = chars_of("placeholder");
    if range_equals(&c, 0, c.len(), &placeholder) {
        assert(c@.subrange(0, c@.len() as int) =~= c@);
        return devices.len() > 0;
    }
    assert(c@.subrange(0, c@.len() as int) =~= c@);
    let prefix = chars_of("device-");
    if !range_has_prefix(&c, 0, c.len(), &prefix) {
        return false;
    }
    assert(c@.skip(prefix@.len() as int) =~= c@.subrange(prefix@.len() as int, c@.len() as int));
    match parse_u32_range(&c, prefix.len(), c.len()) {
        None => false,
        Some(i) => {
            assert(named_device(name@) == Some(i));
            let mut j: usize = 0;
            while j < devices.len()
                invariant
                    j <= devices@.len(),
                    named_device(name@) == Some(i),
                    name@ != placeholder_name(),
                    forall|k: int| 0 <= k < j ==> (#[trigger] devices@[k]).index != i,
                decreases devices@.len() - j,
            {
                if devices[j].index == i {
                    assert(has_device(devices@, i));
                    return false;
                }
                j = j + 1;
            }
            true
        },
    }
}

/// The widget name of the entry of the device with index `index`.
pub fn device_widget_name_of(index: u32) -> (r: String)
    ensures
        r@ == device_widget_name(index),
        r@ == "device-"@ + decimal(index as nat),
{
    let mut s = "device-".to_owned();
    push_decimal(&mut s, index);
    s
}

/// Decides how to bring the device list up to date with `devices`, given
/// the names of the widgets it shows (`children`, in order): stale widgets
/// go; with no devices, a placeholder is added unless the first remaining
/// widget is one; otherwise each device's entry is updated where it exists
/// and made where it does not.
pub fn plan_device_list(children: &Vec<String>, devices: &Vec<AudioDevice>) -> (plan:
    DeviceListPlan)
    ensures
        removes_stale(plan.remove@, names_view(children@), device_staleness(devices@)),
        plan.add_placeholder == (devices@.len() == 0 && !(kept_names(
            names_view(children@),
            device_staleness(devices@),
        ).len() > 0 && kept_names(names_view(children@), device_staleness(devices@))[0]
            == placeholder_name())),
        devices@.len() == 0 ==> plan.steps@.len() == 0,
        devices@.len() > 0 ==> steps_fit(
            plan.steps@,
            kept_names(names_view(children@), device_staleness(devices@)),
            device_entry_names(devices@),
        ),
{
    let ghost stale = device_staleness(devices@);
    let mut flags: Vec<bool> = Vec::new();
    let mut p: usize = 0;
    while p < children.len()
        invariant
            p <= children@.len(),
            flags@.len() == p,
            stale == device_staleness(devices@),
            forall|q: int| 0 <= q < p ==> flags@[q] == stale(#[trigger] children@[q]@),
        decreases children@.len() - p,
    {
        flags.push(is_stale_device_widget(&children[p], devices));
        p = p + 1;
    }
    let (remove, kept) = split_stale(children, &flags, Ghost(stale));
    if devices.len() == 0 {
        let placeholder = "placeholder".to_owned();
        let add_placeholder = !(kept.len() > 0 && kept[0] == placeholder);
        return DeviceListPlan { remove, add_placeholder, steps: Vec::new() };
    }
    let mut entries: Vec<String> = Vec::new();
    let mut j: usize = 0;
    while j < devices.len()
        invariant
            j <= devices@.len(),
            entries@.len() == j,
            names_view(entries@) == device_entry_names(devices@).take(j as int),
        decreases devices@.len() - j,
    {
        let ghost before = entries@;
        let name = device_widget_name_of(devices[j].index);
        entries.push(name);
        assert(device_entry_names(devices@)[j as int] == name@);
        assert forall|i: int| 0 <= i < j implies names_view(entries@)[i] == device_entry_names(
            devices@,
        )[i] by {
            assert(entries@[i] == before[i]);
            assert(names_view(before)[i] == device_entry_names(devices@).take(j as int)[i]);
        }
        j = j + 1;
        assert(names_view(entries@) =~= device_entry_names(devices@).take(j as int));
    }
    assert(device_entry_names(devices@).take(j as int) =~= device_entry_names(devices@));
    let steps = plan_entries(kept, &entries);
    DeviceListPlan { remove, add_placeholder: false, steps }
}

} // verus!

verus! {

proof fn lemma_device_widget_name(i: u32)
    ensures
        named_device(device_widget_name(i)) == Some(i),
        device_widget_name(i) != placeholder_name(),
{
    let name = device_widget_name(i);
    reveal_strlit("device-");
    reveal_strlit("placeholder");
    assert(name.subrange(0, device_prefix().len() as int) =~= device_prefix());
    assert(name.skip(device_prefix().len() as int) =~= decimal(i as nat));
    law_parse_reads_decimal(i);
    assert(name[0] != placeholder_name()[0]);
}

proof fn lemma_placeholder_names_no_device()
    ensures
        named_device(placeholder_name()) is None,
{
    reveal_strlit("device-");
    reveal_strlit("placeholder");
    assert(placeholder_name().subrange(0, 7) != device_prefix()) by {
        assert(placeholder_name().subrange(0, 7)[0] != device_prefix()[0]);
    }
}

/// Once the device list is brought up to date, it shows an entry for every
/// device, every entry it shows names a device that exists, and it shows
/// the placeholder exactly when there are no devices.
pub proof fn law_device_list_follows_devices(children: Seq<Seq<char>>, devices: Seq<AudioDevice>)
    ensures
        forall|j: int|
            0 <= j < devices.len() ==> widgets_after_update(children, devices).contains(
                device_widget_name(#[trigger] devices[j].index),
            ),
        forall|k: int|
            0 <= k < widgets_after_update(children, devices).len() ==> match named_device(
                #[trigger] widgets_after_update(children, devices)[k],
            ) {
                Some(i) => has_device(devices, i),
                None => true,
            },
        widgets_after_update(children, devices).contains(placeholder_name()) <==> devices.len()
            == 0,
{
    let kept = kept_names(children, device_staleness(devices));
    let after = widgets_after_update(children, devices);
    let names = device_entry_names(devices);
    lemma_kept_names(children, device_staleness(devices));
    lemma_placeholder_names_no_device();
    if devices.len() == 0 {
        assert(after.contains(placeholder_name())) by {
            if kept.len() > 0 && kept[0] == placeholder_name() {
                assert(after[0] == placeholder_name());
            } else {
                assert(after[after.len() - 1] == placeholder_name());
            }
        }
        assert forall|k: int| 0 <= k < after.len() implies match named_device(
            #[trigger] after[k],
        ) {
            Some(i) => has_device(devices, i),
            None => true,
        } by {
            if k < kept.len() {
                assert(after[k] == kept[k]);
                assert(!device_staleness(devices)(kept[k]));
            }
        }
    } else {
        lemma_after_entries(kept, names);
        assert forall|j: int| 0 <= j < devices.len() implies after.contains(
            device_widget_name(#[trigger] devices[j].index),
        ) by {
            assert(names[j] == device_widget_name(devices[j].index));
        }
        assert forall|k: int| 0 <= k < after.len() implies match named_device(
            #[trigger] after[k],
        ) {
            Some(i) => has_device(devices, i),
            None => true,
        } && after[k] != placeholder_name() by {
            if kept.contains(after[k]) {
                let q = choose|q: int| 0 <= q < kept.len() && kept[q] == after[k];
                assert(!device_staleness(devices)(kept[q]));
            } else {
                let j = choose|j: int| 0 <= j < names.len() && names[j] == after[k];
                lemma_device_widget_name(devices[j].index);
                assert(has_device(devices, devices[j].index));
            }
        }
        assert(!after.contains(placeholder_name())) by {
            if after.contains(placeholder_name()) {
                let k = choose|k: int| 0 <= k < after.len() && after[k] == placeholder_name();
                assert(after[k] != placeholder_name());
            }
        }
    }
}

} // verus!

verus! {

/// The text of the placeholder label of an empty playback (`is_sink`) or
/// input device list.
pub fn empty_device_list_text(is_sink: bool) -> (r: &'static str)
    ensures
        r@ == (if is_sink {
            "No playback devices found"@
        } else {
            "No input devices found"@
        }),
{
    if is_sink {
        "No playback devices found"
    } else {
        "No input devices found"
    }
}

/// The glyph beside a playback (`is_sink`) or input device's entry.
pub fn device_icon(is_sink: bool) -> (r: &'static str)
    ensures
        r@ == (if is_sink {
            "\u{f057f}"@
        } else {
            "\u{f130}"@
        }),
{
    if is_sink {
        "\u{f057f}"
    } else {
        "\u{f130}"
    }
}

/// The style classes of a new device entry: `device-item`, and `default`
/// for the default device.
pub fn device_entry_classes(is_default: bool) -> (r: Vec<String>)
    ensures
        r@.len() == if is_default {
            2int
        } else {
            1int
        },
        r@[0]@ == "device-item"@,
        is_default ==> r@[1]@ == "default"@,
{
    let mut classes: Vec<String> = Vec::new();
    classes.push("device-item".to_owned());
    if is_default {
        classes.push("default".to_owned());
    }
    classes
}

} // verus!

verus! {

/// An entry that an earlier update made for a device that is still there
/// stays: it is not removed, and the device's step updates it in place
/// instead of making a new one.
pub proof fn law_device_entries_kept(
    children: Seq<Seq<char>>,
    devices: Seq<AudioDevice>,
    q: int,
    j: int,
    step: EntryStep,
)
    requires
        0 <= q < children.len(),
        0 <= j < devices.len(),
        children[q] == device_widget_name(devices[j].index),
    ensures
        !stale_device_widget(children[q], devices),
        widgets_after_update(children, devices).contains(children[q]),
        step_fits(
            step,
            after_entries(
                kept_names(children, device_staleness(devices)),
                device_entry_names(devices).take(j),
            ),
            device_entry_names(devices)[j],
        ) ==> step is Update,
{
    let stale = device_staleness(devices);
    let kept = kept_names(children, stale);
    let names = device_entry_names(devices);
    lemma_device_widget_name(devices[j].index);
    assert(has_device(devices, devices[j].index));
    assert(!stale(children[q]));
    lemma_kept_names_keeps(children, stale, q);
    lemma_after_entries_keeps(kept, names);
    let k = choose|k: int| 0 <= k < kept.len() && kept[k] == children[q];
    assert(after_entries(kept, names)[k] == children[q]);
    assert(names[j] == children[q]);
    if step_fits(step, after_entries(kept, names.take(j)), names[j]) {
        lemma_present_widget_is_updated(kept, names, j, step);
    }
}

} // verus!

verus! {

/// The device list never shows a name twice: if the widgets shown have no
/// name twice and a placeholder stands only at their head, the updated list
/// has no name twice either.
pub proof fn law_device_list_no_duplicates(children: Seq<Seq<char>>, devices: Seq<AudioDevice>)
    requires
        no_duplicates(children),
        forall|q: int| 0 < q < children.len() ==> children[q] != placeholder_name(),
    ensures
        no_duplicates(widgets_after_update(children, devices)),
{
    let stale = device_staleness(devices);
    let kept = kept_names(children, stale);
    lemma_kept_names_no_duplicates(children, stale);
    if devices.len() == 0 {
        if !(kept.len() > 0 && kept[0] == placeholder_name()) {
            assert(!kept.contains(placeholder_name())) by {
                if kept.contains(placeholder_name()) {
                    lemma_kept_names(children, stale);
                    let k = choose|k: int| 0 <= k < kept.len() && kept[k] == placeholder_name();
                    assert(children.contains(kept[k]));
                    let q = choose|q: int| 0 <= q < children.len() && children[q] == kept[k];
                    assert(q == 0);
                    assert(!stale(kept[k]));
                    lemma_kept_names_head(children, stale);
                }
            }
            let after = kept.push(placeholder_name());
            assert forall|i: int, j: int| 0 <= i < j < after.len() implies after[i] != after[j] by {
                assert(after[i] == kept[i]);
                if j < kept.len() {
                    assert(after[j] == kept[j]);
                }
            }
        }
    } else {
        lemma_after_entries_no_duplicates(kept, device_entry_names(devices));
    }
}

} // verus!
