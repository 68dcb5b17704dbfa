//! What the devices of a volume are put together from.
use crate::config::{device_name, Config, DeviceConfig, LogicalDeviceConfig};
use crate::interface::laws::{about_sizes, accepted_configuration_materializes};
use crate::plan::{
    device_choice, first_device, last_logical, layout_choices, member_choices, text_pairs,
    volume_choice, volume_choices, DeviceChoice,
};
use vstd::prelude::*;

verus! {

/// A planned device stands for a device of the configuration: a file of the whole capacity under
/// its path, which is replaced if and only if the volume is formatted anew; or as many whole slots
/// as the capacity has room for, under the name of the device at its address.
pub open spec fn stands_for(
    x: DeviceChoice,
    d: DeviceConfig,
    capacity: u64,
    format_new: bool,
) -> bool {
    match (d, x) {
        (DeviceConfig::File { name, path }, DeviceChoice::File { path: p, size, overwrite }) => {
            &&& p == path@
            &&& size == capacity
            &&& overwrite == format_new
        },
        (
            DeviceConfig::KVHttp { name, slot_capacity_bytes, url, headers },
            DeviceChoice::Http { url: u, key_prefix, headers: h, total_slots, slot_capacity },
        ) => {
            &&& u == url@
            &&& key_prefix == name@
            &&& slot_capacity == slot_capacity_bytes
            &&& slot_capacity > 0
            &&& total_slots * slot_capacity <= capacity < (total_slots + 1) * slot_capacity
            &&& headers is Some ==> h == text_pairs(headers->0@)
            &&& headers is None ==> h.len() == 0
        },
        _ => false,
    }
}

/// A planned device stands for a device of the configuration with a name.
pub open spec fn stands_for_named(
    c: Config,
    x: DeviceChoice,
    name: Seq<char>,
    capacity: u64,
    format_new: bool,
) -> bool {
    exists|k: int|
        0 <= k < c.devices@.len() && device_name(#[trigger] c.devices@[k]) == name && stands_for(
            x,
            c.devices@[k],
            capacity,
            format_new,
        )
}

proof fn lemma_first(v: Seq<DeviceConfig>, name: Seq<char>, k: int) -> (i: int)
    requires
        0 <= k,
        first_device(v, name, k) is Some,
    ensures
        k <= i < v.len(),
        v[i] == first_device(v, name, k)->0,
        device_name(v[i]) == name,
    decreases v.len() - k,
{
    if device_name(v[k]) == name {
        k
    } else {
        lemma_first(v, name, k + 1)
    }
}

proof fn lemma_stands(d: DeviceConfig, capacity: u64, format_new: bool, i: int, j: int)
    requires
        device_choice(d, capacity, format_new, i, j) is Ok,
    ensures
        stands_for(device_choice(d, capacity, format_new, i, j)->Ok_0, d, capacity, format_new),
{
    if let DeviceConfig::KVHttp { slot_capacity_bytes, .. } = d {
        let a = capacity as int;
        let b = slot_capacity_bytes as int;
        vstd::arithmetic::div_mod::lemma_fundamental_div_mod(a, b);
        let q = a / b;
        assert(b * q == q * b) by (nonlinear_arith);
        assert((q + 1) * b == q * b + b) by (nonlinear_arith);
    }
}

proof fn lemma_members(c: Config, i: int, format_new: bool, n: nat)
    requires
        0 <= i < c.configuration.logical@.len(),
        n <= c.configuration.logical@[i].members@.len(),
        member_choices(c, i, format_new, n) is Ok,
    ensures
        member_choices(c, i, format_new, n)->Ok_0.len() == n,
        forall|j: int|
            0 <= j < n ==> stands_for_named(
                c,
                #[trigger] member_choices(c, i, format_new, n)->Ok_0[j],
                c.configuration.logical@[i].members@[j]@,
                c.configuration.logical@[i].capacity.0,
                format_new,
            ),
    decreases n,
{
    if n > 0 {
        lemma_members(c, i, format_new, (n - 1) as nat);
        let l = c.configuration.logical@[i];
        let name = l.members@[n - 1]@;
        let k = lemma_first(c.devices@, name, 0);
        lemma_stands(c.devices@[k], l.capacity.0, format_new, i, n - 1);
    }
}

proof fn lemma_volume(c: Config, format_new: bool, n: nat)
    requires
        n <= c.configuration.logical@.len(),
        volume_choices(c, format_new, n) is Ok,
    ensures
        volume_choices(c, format_new, n)->Ok_0.len() == n,
        forall|i: int|
            0 <= i < n ==> (#[trigger] volume_choices(c, format_new, n)->Ok_0[i]).0
                == c.configuration.logical@[i].max_concurrent,
        forall|i: int|
            0 <= i < n ==> (#[trigger] volume_choices(c, format_new, n)->Ok_0[i]).1.len()
                == c.configuration.logical@[i].members@.len(),
        forall|i: int, j: int|
            0 <= i < n && 0 <= j < c.configuration.logical@[i].members@.len() ==> stands_for_named(
                c,
                #[trigger] volume_choices(c, format_new, n)->Ok_0[i].1[j],
                c.configuration.logical@[i].members@[j]@,
                c.configuration.logical@[i].capacity.0,
                format_new,
            ),
    decreases n,
{
    if n > 0 {
        lemma_volume(c, format_new, (n - 1) as nat);
        lemma_members(c, n - 1, format_new, c.configuration.logical@[n - 1].members@.len());
    }
}

proof fn lemma_last(v: Seq<LogicalDeviceConfig>, name: Seq<char>, n: nat)
    requires
        n <= v.len(),
        last_logical(v, name, n) is Some,
    ensures
        0 <= last_logical(v, name, n)->0 < n,
        v[last_logical(v, name, n)->0].name@ == name,
    decreases n,
{
    if v[n - 1].name@ != name {
        lemma_last(v, name, (n - 1) as nat);
    }
}

proof fn lemma_order(c: Config, n: nat)
    requires
        n <= c.configuration.layout@.len(),
        c.configuration.logical@.len() <= usize::MAX,
        layout_choices(c, n) is Ok,
    ensures
        layout_choices(c, n)->Ok_0.len() == n,
        forall|k: int|
            0 <= k < n ==> (#[trigger] layout_choices(c, n)->Ok_0[k])
                < c.configuration.logical@.len() && c.configuration.logical@[layout_choices(
                c,
                n,
            )->Ok_0[k] as int].name@ == c.configuration.layout@[k]@,
    decreases n,
{
    if n > 0 {
        lemma_order(c, (n - 1) as nat);
        let v = c.configuration.logical@;
        lemma_last(v, c.configuration.layout@[n - 1]@, v.len());
    }
}

/// What a volume is put together from is what the configuration says: each logical device has a
/// planned device for each of its members, which stands for the device with the name of the member,
/// and its number of concurrent requests; the disk goes through the logical devices that the layout
/// names, in its order.
pub proof fn planned_volume_follows_the_configuration(c: Config, format_new: bool)
    requires
        volume_choice(c, format_new) is Ok,
        c.configuration.logical@.len() <= usize::MAX,
    ensures
        ({
            let (l, order) = volume_choice(c, format_new)->Ok_0;
            let logical = c.configuration.logical@;
            &&& l.len() == logical.len()
            &&& order.len() == c.configuration.layout@.len()
            &&& forall|i: int|
                0 <= i < l.len() ==> (#[trigger] l[i]).0 == logical[i].max_concurrent
                    && l[i].1.len() == logical[i].members@.len()
            &&& forall|i: int, j: int|
                0 <= i < l.len() && 0 <= j < logical[i].members@.len() ==> stands_for_named(
                    c,
                    #[trigger] l[i].1[j],
                    logical[i].members@[j]@,
                    logical[i].capacity.0,
                    format_new,
                )
            &&& forall|k: int|
                0 <= k < order.len() ==> (#[trigger] order[k]) < logical.len()
                    && logical[order[k] as int].name@ == c.configuration.layout@[k]@
        }),
{
    lemma_volume(c, format_new, c.configuration.logical@.len());
    lemma_order(c, c.configuration.layout@.len());
}

/// A volume that is opened replaces no file: a file is replaced if and only if the volume is
/// formatted anew.
pub proof fn only_formatting_replaces_files(c: Config, format_new: bool, i: int, j: int)
    requires
        volume_choice(c, format_new) is Ok,
        c.configuration.logical@.len() <= usize::MAX,
        0 <= i < volume_choice(c, format_new)->Ok_0.0.len(),
        0 <= j < volume_choice(c, format_new)->Ok_0.0[i].1.len(),
        volume_choice(c, format_new)->Ok_0.0[i].1[j] is File,
    ensures
        volume_choice(c, format_new)->Ok_0.0[i].1[j]->overwrite == format_new,
{
    planned_volume_follows_the_configuration(c, format_new);
    let x = volume_choice(c, format_new)->Ok_0.0[i].1[j];
    let l = c.configuration.logical@[i];
    assert(stands_for_named(c, x, l.members@[j]@, l.capacity.0, format_new));
}

/// Formatting and opening plan the same devices but for the files to be replaced.
pub proof fn formatting_and_opening_plan_alike(c: Config)
    ensures
        volume_choice(c, true) is Ok <==> volume_choice(c, false) is Ok,
        volume_choice(c, true) is Err ==> volume_choice(c, true) == volume_choice(c, false),
        volume_choice(c, true) is Ok ==> volume_choice(c, true)->Ok_0.1 == volume_choice(
            c,
            false,
        )->Ok_0.1,
{
    lemma_alike(c, c.configuration.logical@.len());
}

proof fn lemma_alike_members(c: Config, i: int, n: nat)
    ensures
        member_choices(c, i, true, n) is Ok <==> member_choices(c, i, false, n) is Ok,
        member_choices(c, i, true, n) is Err ==> member_choices(c, i, true, n) == member_choices(
            c,
            i,
            false,
            n,
        ),
    decreases n,
{
    if n > 0 {
        lemma_alike_members(c, i, (n - 1) as nat);
    }
}

proof fn lemma_alike(c: Config, n: nat)
    ensures
        volume_choices(c, true, n) is Ok <==> volume_choices(c, false, n) is Ok,
        volume_choices(c, true, n) is Err ==> volume_choices(c, true, n) == volume_choices(
            c,
            false,
            n,
        ),
    decreases n,
{
    if n > 0 {
        lemma_alike(c, (n - 1) as nat);
        lemma_alike_members(c, n - 1, c.configuration.logical@[n - 1].members@.len());
    }
}

/// The machine can work with the sizes of a configuration: no slot is empty, and slots and
/// capacities can be addressed.
pub open spec fn sizes_fit(c: Config) -> bool {
    &&& forall|k: int|
        0 <= k < c.devices@.len() && (#[trigger] c.devices@[k]) is KVHttp ==> 0
            < c.devices@[k]->slot_capacity_bytes <= usize::MAX
    &&& forall|i: int|
        0 <= i < c.configuration.logical@.len() ==> (
        #[trigger] c.configuration.logical@[i]).capacity.0 <= usize::MAX
}

proof fn lemma_members_fit(c: Config, i: int, format_new: bool, n: nat)
    requires
        sizes_fit(c),
        0 <= i < c.configuration.logical@.len(),
        n <= c.configuration.logical@[i].members@.len(),
    ensures
        member_choices(c, i, format_new, n) is Err ==> !about_sizes(
            member_choices(c, i, format_new, n)->Err_0,
        ),
    decreases n,
{
    if n > 0 {
        lemma_members_fit(c, i, format_new, (n - 1) as nat);
        let l = c.configuration.logical@[i];
        let name = l.members@[n - 1]@;
        if first_device(c.devices@, name, 0) is Some {
            let k = lemma_first(c.devices@, name, 0);
            if c.devices@[k] is KVHttp {
                let a = l.capacity.0 as int;
                let b = c.devices@[k]->slot_capacity_bytes as int;
                assert(a / b <= a) by (nonlinear_arith)
                    requires
                        a >= 0,
                        b >= 1,
                ;
            }
        }
    }
}

proof fn lemma_volume_fit(c: Config, format_new: bool, n: nat)
    requires
        sizes_fit(c),
        n <= c.configuration.logical@.len(),
    ensures
        volume_choices(c, format_new, n) is Err ==> !about_sizes(
            volume_choices(c, format_new, n)->Err_0,
        ),
    decreases n,
{
    if n > 0 {
        lemma_volume_fit(c, format_new, (n - 1) as nat);
        lemma_members_fit(c, n - 1, format_new, c.configuration.logical@[n - 1].members@.len());
    }
}

proof fn lemma_order_fit(c: Config, n: nat)
    requires
        n <= c.configuration.layout@.len(),
    ensures
        layout_choices(c, n) is Err ==> !about_sizes(layout_choices(c, n)->Err_0),
    decreases n,
{
    if n > 0 {
        lemma_order_fit(c, (n - 1) as nat);
    }
}

/// An accepted configuration whose sizes the machine can work with can be put together.
pub proof fn fitting_configuration_materializes(c: Config, format_new: bool)
    requires
        c.fault() is None,
        sizes_fit(c),
    ensures
        volume_choice(c, format_new) is Ok,
{
    accepted_configuration_materializes(c, format_new);
    lemma_volume_fit(c, format_new, c.configuration.logical@.len());
    lemma_order_fit(c, c.configuration.layout@.len());
}

} // verus!
