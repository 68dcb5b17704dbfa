//! What a configuration is refused for.
use crate::config::{
    accepted_configuration_is_consistent, among, device_fault, device_name, device_names,
    layout_fault, logical_fault, logical_names, member_fault, payload, payload_hash, Config,
    ConfigFault, DeviceConfig,
};
use crate::utils::{absolute, components, texts};
use vstd::prelude::*;
use vstd::string::*;

verus! {

/// The configuration has the fault that is told of it.
pub open spec fn has_fault(c: Config, f: ConfigFault) -> bool {
    let devices = c.devices@;
    let logical = c.configuration.logical@;
    let layout = texts(c.configuration.layout@);
    match f {
        ConfigFault::DuplicateDevice { index } => index < devices.len() && exists|j: int|
            0 <= j < index && device_name(#[trigger] devices[j]) == device_name(
                devices[index as int],
            ),
        ConfigFault::PayloadUsed { index } => index < devices.len() && exists|j: int|
            0 <= j < index && payload_hash(#[trigger] devices[j]) == payload_hash(
                devices[index as int],
            ),
        ConfigFault::DuplicateLogical { index } => index < logical.len() && exists|j: int|
            0 <= j < index && (#[trigger] logical[j]).name@ == logical[index as int].name@,
        ConfigFault::UnknownDevice { logical: i, member } => i < logical.len() && member
            < logical[i as int].members@.len() && forall|j: int|
            0 <= j < devices.len() ==> device_name(#[trigger] devices[j])
                != logical[i as int].members@[member as int]@,
        ConfigFault::UnknownLogical { index } => index < layout.len() && forall|j: int|
            0 <= j < logical.len() ==> (#[trigger] logical[j]).name@ != layout[index as int],
        ConfigFault::LogicalTwice { index } => index < layout.len() && exists|j: int|
            0 <= j < index && #[trigger] layout[j] == layout[index as int],
        ConfigFault::NoDevices => devices.len() == 0,
        ConfigFault::NoLogical => logical.len() == 0,
        ConfigFault::NoLayout => layout.len() == 0,
        _ => false,
    }
}

proof fn lemma_device_fault(c: Config, n: nat)
    requires
        n <= c.devices@.len() <= usize::MAX,
        device_fault(c.devices@, n) is Some,
    ensures
        has_fault(c, device_fault(c.devices@, n)->0),
    decreases n,
{
    let v = c.devices@;
    if device_fault(v, (n - 1) as nat) is Some {
        lemma_device_fault(c, (n - 1) as nat);
    } else {
        let i = (n - 1) as int;
        if among(device_names(v), i, device_name(v[i])) {
            let j = choose|j: int|
                0 <= j < i && #[trigger] device_names(v)[j] == device_name(v[i]);
            assert(device_name(v[j]) == device_name(v[i]));
        }
    }
}

proof fn lemma_member_fault(c: Config, i: int, n: nat)
    requires
        0 <= i < c.configuration.logical@.len() <= usize::MAX,
        n <= c.configuration.logical@[i].members@.len() <= usize::MAX,
        member_fault(
            device_names(c.devices@),
            texts(c.configuration.logical@[i].members@),
            i,
            n,
        ) is Some,
    ensures
        has_fault(
            c,
            member_fault(
                device_names(c.devices@),
                texts(c.configuration.logical@[i].members@),
                i,
                n,
            )->0,
        ),
    decreases n,
{
    let known = device_names(c.devices@);
    let members = texts(c.configuration.logical@[i].members@);
    if member_fault(known, members, i, (n - 1) as nat) is Some {
        lemma_member_fault(c, i, (n - 1) as nat);
    } else {
        let x = members[n - 1];
        assert forall|j: int| 0 <= j < c.devices@.len() implies device_name(
            #[trigger] c.devices@[j],
        ) != x by {
            assert(known[j] == device_name(c.devices@[j]));
        }
    }
}

proof fn lemma_logical_fault(c: Config, n: nat)
    requires
        n <= c.configuration.logical@.len() <= usize::MAX,
        forall|i: int|
            0 <= i < c.configuration.logical@.len() ==> (
            #[trigger] c.configuration.logical@[i]).members@.len() <= usize::MAX,
        logical_fault(device_names(c.devices@), c.configuration.logical@, n) is Some,
    ensures
        has_fault(c, logical_fault(device_names(c.devices@), c.configuration.logical@, n)->0),
    decreases n,
{
    let known = device_names(c.devices@);
    let v = c.configuration.logical@;
    if logical_fault(known, v, (n - 1) as nat) is Some {
        lemma_logical_fault(c, (n - 1) as nat);
    } else {
        let i = (n - 1) as int;
        if among(logical_names(v), i, v[i].name@) {
            let j = choose|j: int| 0 <= j < i && #[trigger] logical_names(v)[j] == v[i].name@;
            assert(v[j].name@ == v[i].name@);
        } else {
            lemma_member_fault(c, i, v[i].members@.len());
        }
    }
}

proof fn lemma_layout_fault(c: Config, n: nat)
    requires
        n <= texts(c.configuration.layout@).len() <= usize::MAX,
        layout_fault(
            logical_names(c.configuration.logical@),
            texts(c.configuration.layout@),
            n,
        ) is Some,
    ensures
        has_fault(
            c,
            layout_fault(
                logical_names(c.configuration.logical@),
                texts(c.configuration.layout@),
                n,
            )->0,
        ),
    decreases n,
{
    let logical = c.configuration.logical@;
    let known = logical_names(logical);
    let layout = texts(c.configuration.layout@);
    if layout_fault(known, layout, (n - 1) as nat) is Some {
        lemma_layout_fault(c, (n - 1) as nat);
    } else {
        let i = (n - 1) as int;
        if !among(known, known.len() as int, layout[i]) {
            assert forall|j: int| 0 <= j < logical.len() implies (#[trigger] logical[j]).name@
                != layout[i] by {
                assert(known[j] == logical[j].name@);
            }
        }
    }
}

/// A configuration that is refused has the fault that it is refused for.
pub proof fn refused_configuration_has_the_fault(c: Config)
    requires
        c.fault() is Some,
        c.devices@.len() <= usize::MAX,
        c.configuration.logical@.len() <= usize::MAX,
        c.configuration.layout@.len() <= usize::MAX,
        forall|i: int|
            0 <= i < c.configuration.logical@.len() ==> (
            #[trigger] c.configuration.logical@[i]).members@.len() <= usize::MAX,
    ensures
        has_fault(c, c.fault()->0),
{
    let devices = c.devices@;
    let logical = c.configuration.logical@;
    let layout = texts(c.configuration.layout@);
    if device_fault(devices, devices.len()) is Some {
        lemma_device_fault(c, devices.len());
    } else if logical_fault(device_names(devices), logical, logical.len()) is Some {
        lemma_logical_fault(c, logical.len());
    } else if layout_fault(logical_names(logical), layout, layout.len()) is Some {
        lemma_layout_fault(c, layout.len());
    }
}

/// Two files at the same place are refused, however their paths are written; so are two remote
/// devices with the same name and address.
pub proof fn place_is_not_used_twice(c: Config, i: int, j: int)
    requires
        0 <= i < j < c.devices@.len(),
        match (c.devices@[i], c.devices@[j]) {
            (DeviceConfig::File { path: a, .. }, DeviceConfig::File { path: b, .. }) => absolute(
                components(a@),
            ) == absolute(components(b@)),
            (
                DeviceConfig::KVHttp { name: a, url: u, .. },
                DeviceConfig::KVHttp { name: b, url: v, .. },
            ) => a@ == b@ && u@ == v@,
            _ => false,
        },
    ensures
        c.fault() is Some,
{
    if c.fault() is None {
        accepted_configuration_is_consistent(c);
        assert(payload(c.devices@[i]) =~= payload(c.devices@[j]));
    }
}

} // verus!
