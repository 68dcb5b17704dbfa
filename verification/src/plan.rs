//! From a configuration to the devices that a volume is put together from.
use crate::config::{device_name, Config, ConfigFault, DeviceConfig, LogicalDeviceConfig};
use crate::error::seen;
use crate::interface::plan_laws::only_formatting_replaces_files;
use vstd::prelude::*;
use vstd::string::*;

verus! {

/// How one device is to be opened.
#[derive(Debug, Clone, PartialEq, Eq)]
pub enum DevicePlan {
    Http {
        url: String,
        key_prefix: String,
        headers: Vec<(String, String)>,
        total_slots: usize,
        slot_capacity: usize,
    },
    File { path: String, size: usize, overwrite: bool },
}

/// The value of a device's plan.
pub enum DeviceChoice {
    Http {
        url: Seq<char>,
        key_prefix: Seq<char>,
        headers: Seq<(Seq<char>, Seq<char>)>,
        total_slots: int,
        slot_capacity: int,
    },
    File { path: Seq<char>, size: int, overwrite: bool },
}

/// Pairs of texts.
pub open spec fn text_pairs(v: Seq<(String, String)>) -> Seq<(Seq<char>, Seq<char>)> {
    Seq::new(v.len(), |i: int| (v[i].0@, v[i].1@))
}

impl View for DevicePlan {
    type V = DeviceChoice;

    open spec fn view(&self) -> DeviceChoice {
        match self {
            DevicePlan::Http { url, key_prefix, headers, total_slots, slot_capacity } =>
                DeviceChoice::Http {
                url: url@,
                key_prefix: key_prefix@,
                headers: text_pairs(headers@),
                total_slots: *total_slots as int,
                slot_capacity: *slot_capacity as int,
            },
            DevicePlan::File { path, size, overwrite } => DeviceChoice::File {
                path: path@,
                size: *size as int,
                overwrite: *overwrite,
            },
        }
    }
}

/// The values of plans.
pub open spec fn choices(v: Seq<DevicePlan>) -> Seq<DeviceChoice> {
    Seq::new(v.len(), |i: int| v[i]@)
}

/// How a logical device is to be put together.
#[derive(Debug, Clone, PartialEq, Eq)]
pub struct LogicalPlan {
    pub max_concurrent: usize,
    pub devices: Vec<DevicePlan>,
}

/// The logical devices to put together, and which of them follow one another on the disk.
#[derive(Debug, Clone, PartialEq, Eq)]
pub struct VolumePlan {
    pub logical: Vec<LogicalPlan>,
    pub layout: Vec<usize>,
}

/// The values of logical plans.
pub open spec fn logical_choices(v: Seq<LogicalPlan>) -> Seq<(int, Seq<DeviceChoice>)> {
    Seq::new(v.len(), |i: int| (v[i].max_concurrent as int, choices(v[i].devices@)))
}

/// The first device with a name, from device `k` on.
pub open spec fn first_device(v: Seq<DeviceConfig>, name: Seq<char>, k: int) -> Option<DeviceConfig>
    decreases v.len() - k,
{
    if k >= v.len() {
        None
    } else if device_name(v[k]) == name {
        Some(v[k])
    } else {
        first_device(v, name, k + 1)
    }
}

/// The last logical device with a name among the first `n`.
pub open spec fn last_logical(v: Seq<LogicalDeviceConfig>, name: Seq<char>, n: nat) -> Option<int>
    decreases n,
{
    if n == 0 {
        None
    } else if v[n - 1].name@ == name {
        Some(n - 1)
    } else {
        last_logical(v, name, (n - 1) as nat)
    }
}

/// How a device with a given capacity is to be opened, as member `j` of logical device `i`.
pub open spec fn device_choice(
    d: DeviceConfig,
    capacity: u64,
    format_new: bool,
    i: int,
    j: int,
) -> Result<DeviceChoice, ConfigFault> {
    match d {
        DeviceConfig::KVHttp { name, slot_capacity_bytes, url, headers } => if slot_capacity_bytes
            == 0 {
            Err(ConfigFault::EmptySlots { logical: i as usize, member: j as usize })
        } else if slot_capacity_bytes > usize::MAX || capacity / slot_capacity_bytes > usize::MAX {
            Err(ConfigFault::SizeTooLarge { logical: i as usize, member: j as usize })
        } else {
            Ok(
                DeviceChoice::Http {
                    url: url@,
                    key_prefix: name@,
                    headers: match headers {
                        Some(h) => text_pairs(h@),
                        None => Seq::empty(),
                    },
                    total_slots: capacity as int / slot_capacity_bytes as int,
                    slot_capacity: slot_capacity_bytes as int,
                },
            )
        },
        DeviceConfig::File { name, path } => if capacity > usize::MAX {
            Err(ConfigFault::SizeTooLarge { logical: i as usize, member: j as usize })
        } else {
            Ok(DeviceChoice::File { path: path@, size: capacity as int, overwrite: format_new })
        },
    }
}

/// How the first `n` members of logical device `i` are to be opened.
pub open spec fn member_choices(c: Config, i: int, format_new: bool, n: nat) -> Result<
    Seq<DeviceChoice>,
    ConfigFault,
>
    decreases n,
{
    if n == 0 {
        Ok(Seq::empty())
    } else {
        let l = c.configuration.logical@[i];
        match member_choices(c, i, format_new, (n - 1) as nat) {
            Err(f) => Err(f),
            Ok(before) => match first_device(c.devices@, l.members@[n - 1]@, 0) {
                None => Err(
                    ConfigFault::UnknownDevice { logical: i as usize, member: (n - 1) as usize },
                ),
                Some(d) => match device_choice(d, l.capacity.0, format_new, i, n - 1) {
                    Err(f) => Err(f),
                    Ok(x) => Ok(before.push(x)),
                },
            },
        }
    }
}

/// How the first `n` logical devices are to be put together.
pub open spec fn volume_choices(c: Config, format_new: bool, n: nat) -> Result<
    Seq<(int, Seq<DeviceChoice>)>,
    ConfigFault,
>
    decreases n,
{
    if n == 0 {
        Ok(Seq::empty())
    } else {
        let l = c.configuration.logical@[n - 1];
        match volume_choices(c, format_new, (n - 1) as nat) {
            Err(f) => Err(f),
            Ok(before) => match member_choices(c, n - 1, format_new, l.members@.len()) {
                Err(f) => Err(f),
                Ok(x) => Ok(before.push((l.max_concurrent as int, x))),
            },
        }
    }
}

/// The logical devices that the first `n` names of the layout stand for.
pub open spec fn layout_choices(c: Config, n: nat) -> Result<Seq<usize>, ConfigFault>
    decreases n,
{
    if n == 0 {
        Ok(Seq::empty())
    } else {
        let logical = c.configuration.logical@;
        match layout_choices(c, (n - 1) as nat) {
            Err(f) => Err(f),
            Ok(before) => match last_logical(
                logical,
                c.configuration.layout@[n - 1]@,
                logical.len(),
            ) {
                None => Err(ConfigFault::UnknownLogical { index: (n - 1) as usize }),
                Some(k) => Ok(before.push(k as usize)),
            },
        }
    }
}

/// What a volume is put together from.
pub open spec fn volume_choice(c: Config, format_new: bool) -> Result<
    (Seq<(int, Seq<DeviceChoice>)>, Seq<usize>),
    ConfigFault,
> {
    match volume_choices(c, format_new, c.configuration.logical@.len()) {
        Err(f) => Err(f),
        Ok(l) => match layout_choices(c, c.configuration.layout@.len()) {
            Err(f) => Err(f),
            Ok(order) => Ok((l, order)),
        },
    }
}

proof fn lemma_members_err(c: Config, i: int, format_new: bool, a: nat, b: nat)
    requires
        a <= b,
        member_choices(c, i, format_new, a) is Err,
    ensures
        member_choices(c, i, format_new, b) == member_choices(c, i, format_new, a),
    decreases b,
{
    if a < b {
        lemma_members_err(c, i, format_new, a, (b - 1) as nat);
    }
}

proof fn lemma_volume_err(c: Config, format_new: bool, a: nat, b: nat)
    requires
        a <= b,
        volume_choices(c, format_new, a) is Err,
    ensures
        volume_choices(c, format_new, b) == volume_choices(c, format_new, a),
    decreases b,
{
    if a < b {
        lemma_volume_err(c, format_new, a, (b - 1) as nat);
    }
}

proof fn lemma_layout_err(c: Config, a: nat, b: nat)
    requires
        a <= b,
        layout_choices(c, a) is Err,
    ensures
        layout_choices(c, b) == layout_choices(c, a),
    decreases b,
{
    if a < b {
        lemma_layout_err(c, a, (b - 1) as nat);
    }
}

/// A copy of pairs of texts.
fn copy_pairs(v: &Vec<(String, String)>) -> (r: Vec<(String, String)>)
    ensures
        text_pairs(r@) == text_pairs(v@),
{
    let mut out: Vec<(String, String)> = Vec::new();
    let mut i: usize = 0;
    while i < v.len()
        invariant
            i <= v@.len(),
            out@.len() == i,
            forall|k: int|
                0 <= k < i ==> (#[trigger] out@[k]).0@ == v@[k].0@ && out@[k].1@ == v@[k].1@,
        decreases v@.len() - i,
    {
        out.push((v[i].0.clone(), v[i].1.clone()));
        i = i + 1;
    }
    assert(text_pairs(out@) =~= text_pairs(v@));
    out
}

/// The index of the first device with a name.
fn find_device(v: &Vec<DeviceConfig>, name: &String) -> (r: Option<usize>)
    ensures
        match r {
            Some(i) => i < v@.len() && first_device(v@, name@, 0) == Some(v@[i as int]),
            None => first_device(v@, name@, 0) is None,
        },
{
    let mut i: usize = 0;
    while i < v.len()
        invariant
            i <= v@.len(),
            first_device(v@, name@, 0) == first_device(v@, name@, i as int),
        decreases v@.len() - i,
    {
        let n = v[i].name();
        if n == *name {
            return Some(i);
        }
        i = i + 1;
    }
    None
}

/// The index of the last logical device with a name.
fn find_logical(v: &Vec<LogicalDeviceConfig>, name: &String) -> (r: Option<usize>)
    ensures
        match r {
            Some(i) => last_logical(v@, name@, v@.len()) == Some(i as int),
            None => last_logical(v@, name@, v@.len()) is None,
        },
{
    let mut n: usize = v.len();
    while n > 0
        invariant
            n <= v@.len(),
            last_logical(v@, name@, v@.len()) == last_logical(v@, name@, n as nat),
        decreases n,
    {
        if v[n - 1].name == *name {
            return Some(n - 1);
        }
        n = n - 1;
    }
    None
}

/// How a device with a given capacity is to be opened.
fn plan_device(d: &DeviceConfig, capacity: u64, format_new: bool, i: usize, j: usize) -> (r: Result<
    DevicePlan,
    ConfigFault,
>)
    ensures
        seen(r) == device_choice(*d, capacity, format_new, i as int, j as int),
{
    match d {
        DeviceConfig::KVHttp { name, slot_capacity_bytes, url, headers } => {
            if *slot_capacity_bytes == 0 {
                return Err(ConfigFault::EmptySlots { logical: i, member: j });
            }
            let slots: u64 = capacity / *slot_capacity_bytes;
            if *slot_capacity_bytes > usize::MAX as u64 || slots > usize::MAX as u64 {
                return Err(ConfigFault::SizeTooLarge { logical: i, member: j });
            }
            let copied = match headers {
                Some(h) => copy_pairs(h),
                None => {
                    let none: Vec<(String, String)> = Vec::new();
                    assert(text_pairs(none@) =~= Seq::empty());
                    none
                },
            };
            Ok(
                DevicePlan::Http {
                    url: url.clone(),
                    key_prefix: name.clone(),
                    headers: copied,
                    total_slots: slots as usize,
                    slot_capacity: *slot_capacity_bytes as usize,
                },
            )
        },
        DeviceConfig::File { path, .. } => {
            if capacity > usize::MAX as u64 {
                return Err(ConfigFault::SizeTooLarge { logical: i, member: j });
            }
            Ok(
                DevicePlan::File {
                    path: path.clone(),
                    size: capacity as usize,
                    overwrite: format_new,
                },
            )
        },
    }
}

impl Config {
    /// How the members of logical device `i` are to be opened.
    fn plan_members(&self, i: usize, format_new: bool) -> (r: Result<Vec<DevicePlan>, ConfigFault>)
        requires
            i < self.configuration.logical@.len(),
        ensures
            match r {
                Ok(v) => member_choices(
                    *self,
                    i as int,
                    format_new,
                    self.configuration.logical@[i as int].members@.len(),
                ) == Ok::<_, ConfigFault>(choices(v@)),
                Err(f) => member_choices(
                    *self,
                    i as int,
                    format_new,
                    self.configuration.logical@[i as int].members@.len(),
                ) == Err::<Seq<DeviceChoice>, _>(f),
            },
    {
        let l = &self.configuration.logical[i];
        let n: usize = l.members.len();
        let mut out: Vec<DevicePlan> = Vec::new();
        let mut j: usize = 0;
        assert(choices(out@) =~= Seq::empty());
        while j < n
            invariant
                j <= n,
                i < self.configuration.logical@.len(),
                *l == self.configuration.logical@[i as int],
                n == l.members@.len(),
                member_choices(*self, i as int, format_new, j as nat) == Ok::<_, ConfigFault>(
                    choices(out@),
                ),
            decreases n - j,
        {
            let ghost had = choices(out@);
            let k: usize = match find_device(&self.devices, &l.members[j]) {
                Some(k) => k,
                None => {
                    proof {
                        lemma_members_err(*self, i as int, format_new, (j + 1) as nat, n as nat);
                    }
                    return Err(ConfigFault::UnknownDevice { logical: i, member: j });
                },
            };
            match plan_device(&self.devices[k], l.capacity.0, format_new, i, j) {
                Ok(p) => {
                    out.push(p);
                    assert(choices(out@) =~= had.push(p@));
                },
                Err(f) => {
                    proof {
                        lemma_members_err(*self, i as int, format_new, (j + 1) as nat, n as nat);
                    }
                    return Err(f);
                },
            }
            j = j + 1;
        }
        Ok(out)
    }

    /// The devices to open, how they are grouped, and the order of the groups on the disk.
    pub fn materialize(&self, format_new: bool) -> (r: Result<VolumePlan, ConfigFault>)
        ensures
            match r {
                Ok(p) => volume_choice(*self, format_new) == Ok::<_, ConfigFault>(
                    (logical_choices(p.logical@), p.layout@),
                ),
                Err(f) => volume_choice(*self, format_new) == Err::<
                    (Seq<(int, Seq<DeviceChoice>)>, Seq<usize>),
                    _,
                >(f),
            },
            r is Ok ==> forall|i: int, j: int|
                0 <= i < r->Ok_0.logical@.len() && 0 <= j < r->Ok_0.logical@[i].devices@.len() && (
                #[trigger] r->Ok_0.logical@[i].devices@[j]) is File
                    ==> r->Ok_0.logical@[i].devices@[j]->overwrite == format_new,
    {
        let n: usize = self.configuration.logical.len();
        let mut logical: Vec<LogicalPlan> = Vec::new();
        let mut i: usize = 0;
        assert(logical_choices(logical@) =~= Seq::empty());
        while i < n
            invariant
                i <= n,
                n == self.configuration.logical@.len(),
                volume_choices(*self, format_new, i as nat) == Ok::<_, ConfigFault>(
                    logical_choices(logical@),
                ),
            decreases n - i,
        {
            let ghost had = logical_choices(logical@);
            match self.plan_members(i, format_new) {
                Ok(devices) => {
                    let max_concurrent: usize =
                        self.configuration.logical[i].max_concurrent as usize;
                    let p = LogicalPlan { max_concurrent, devices };
                    logical.push(p);
                    assert(logical_choices(logical@) =~= had.push(
                        (max_concurrent as int, choices(devices@)),
                    ));
                },
                Err(f) => {
                    proof {
                        lemma_volume_err(*self, format_new, (i + 1) as nat, n as nat);
                    }
                    return Err(f);
                },
            }
            i = i + 1;
        }
        let m: usize = self.configuration.layout.len();
        let mut layout: Vec<usize> = Vec::new();
        let mut j: usize = 0;
        while j < m
            invariant
                j <= m,
                m == self.configuration.layout@.len(),
                volume_choices(*self, format_new, self.configuration.logical@.len()) == Ok::<
                    _,
                    ConfigFault,
                >(logical_choices(logical@)),
                layout_choices(*self, j as nat) == Ok::<_, ConfigFault>(layout@),
            decreases m - j,
        {
            match find_logical(&self.configuration.logical, &self.configuration.layout[j]) {
                Some(k) => {
                    layout.push(k);
                },
                None => {
                    proof {
                        lemma_layout_err(*self, (j + 1) as nat, m as nat);
                    }
                    return Err(ConfigFault::UnknownLogical { index: j });
                },
            }
            j = j + 1;
        }
        proof {
            let all = logical_choices(logical@);
            assert forall|i: int, j: int|
                0 <= i < logical@.len() && 0 <= j < logical@[i].devices@.len() && (
                #[trigger] logical@[i].devices@[j]) is File implies logical@[i].devices@[j]->overwrite
                == format_new by {
                assert(all[i].1[j] == logical@[i].devices@[j]@);
                only_formatting_replaces_files(*self, format_new, i, j);
            }
        }
        Ok(VolumePlan { logical, layout })
    }
}

} // verus!
