//! What a volume is made of: devices, their grouping and their order.
use crate::crypto::KeyDerivation;
use crate::utils::{absolute, components, normalize_path, opt_string, texts};
use std::collections::hash_map::DefaultHasher;
use std::hash::Hasher;
use vstd::prelude::*;
use vstd::std_specs::hash::*;
use vstd::string::*;
use vstd::utf8::*;

verus! {

/// A number of bytes.
#[derive(Debug, Clone, Copy, PartialEq, Eq, Structural)]
pub struct Bytes(pub u64);

/// One device.
#[derive(Debug, Clone, PartialEq, Eq)]
pub enum DeviceConfig {
    KVHttp {
        name: String,
        slot_capacity_bytes: u64,
        url: String,
        headers: Option<Vec<(String, String)>>,
    },
    File { name: String, path: String },
}

/// Devices that hold the same bytes.
#[derive(Debug, Clone, PartialEq, Eq)]
pub struct LogicalDeviceConfig {
    pub name: String,
    pub members: Vec<String>,
    pub capacity: Bytes,
    pub max_concurrent: u8,
}

/// How devices are grouped, and the order of the groups on the disk.
#[derive(Debug, Clone, PartialEq, Eq)]
pub struct Configuration {
    pub logical: Vec<LogicalDeviceConfig>,
    pub layout: Vec<String>,
}

/// All that a volume is made of.
#[derive(Debug, Clone)]
pub struct Config {
    pub password: Option<String>,
    pub key_derivation: KeyDerivation,
    pub devices: Vec<DeviceConfig>,
    pub configuration: Configuration,
}

/// Reason for which a configuration is refused.
#[derive(Debug, Clone, Copy, PartialEq, Eq, Structural)]
pub enum ConfigFault {
    /// A device has the name of an earlier one.
    DuplicateDevice { index: usize },
    /// A device keeps its bytes where an earlier one does.
    PayloadUsed { index: usize },
    /// A logical device has the name of an earlier one.
    DuplicateLogical { index: usize },
    /// A logical device is made of a device that does not exist.
    UnknownDevice { logical: usize, member: usize },
    /// The layout names a logical device that does not exist.
    UnknownLogical { index: usize },
    /// The layout names a logical device twice.
    LogicalTwice { index: usize },
    NoDevices,
    NoLogical,
    NoLayout,
    /// A remote device has slots without room.
    EmptySlots { logical: usize, member: usize },
    /// A size is more than the machine can hold.
    SizeTooLarge { logical: usize, member: usize },
    /// A text is not a number of bytes.
    NotASize,
}

/// The number of bytes that `bytesize` reads from a text.
pub uninterp spec fn bytesize_parse(text: Seq<char>) -> Option<u64>;

/// `ByteSize::from_str` of `bytesize`: a number of bytes that depends on the text alone, or an
/// error.
#[verifier::external_body]
fn parse_byte_size(text: &str) -> (r: Option<u64>)
    ensures
        r == bytesize_parse(text@),
{
    match text.parse::<bytesize::ByteSize>() {
        Ok(b) => Some(b.as_u64()),
        Err(_) => None,
    }
}

impl Bytes {
    /// The number of bytes that a text such as `50 MiB` stands for.
    pub fn parse(text: &str) -> (r: Result<Self, ConfigFault>)
        ensures
            r == match bytesize_parse(text@) {
                Some(n) => Ok::<Bytes, ConfigFault>(Bytes(n)),
                None => Err(ConfigFault::NotASize),
            },
    {
        match parse_byte_size(text) {
            Some(n) => Ok(Bytes(n)),
            None => Err(ConfigFault::NotASize),
        }
    }
}

/// The name of a device.
pub open spec fn device_name(d: DeviceConfig) -> Seq<char> {
    match d {
        DeviceConfig::KVHttp { name, .. } => name@,
        DeviceConfig::File { name, .. } => name@,
    }
}

/// What tells the place where a device keeps its bytes from others.
pub open spec fn payload(d: DeviceConfig) -> Seq<Seq<char>> {
    match d {
        DeviceConfig::KVHttp { name, url, .. } => seq![name@, url@],
        DeviceConfig::File { path, .. } => seq![absolute(components(path@))],
    }
}

/// What is fed to a hasher for texts: of each its bytes, then a byte that no text holds.
pub open spec fn hashed(texts: Seq<Seq<char>>) -> Seq<Seq<u8>>
    decreases texts.len(),
{
    if texts.len() == 0 {
        Seq::empty()
    } else {
        hashed(texts.drop_last()).push(encode_utf8(texts.last())).push(seq![0xFFu8])
    }
}

/// The number by which the place where a device keeps its bytes is told from others: the hash of
/// its payload.
pub open spec fn payload_hash(d: DeviceConfig) -> u64 {
    DefaultHasher::spec_finish(hashed(payload(d)))
}

/// The names of devices.
pub open spec fn device_names(v: Seq<DeviceConfig>) -> Seq<Seq<char>> {
    Seq::new(v.len(), |i: int| device_name(v[i]))
}

/// The names of logical devices.
pub open spec fn logical_names(v: Seq<LogicalDeviceConfig>) -> Seq<Seq<char>> {
    Seq::new(v.len(), |i: int| v[i].name@)
}

/// `x` is among the first `n` names.
pub open spec fn among(names: Seq<Seq<char>>, n: int, x: Seq<char>) -> bool {
    exists|j: int| 0 <= j < n && #[trigger] names[j] == x
}

/// One of the first `n` devices has the payload hash `p`.
pub open spec fn payload_among(v: Seq<DeviceConfig>, n: int, p: u64) -> bool {
    exists|j: int| 0 <= j < n && payload_hash(#[trigger] v[j]) == p
}

/// The first fault among the first `n` devices.
pub open spec fn device_fault(v: Seq<DeviceConfig>, n: nat) -> Option<ConfigFault>
    decreases n,
{
    if n == 0 {
        None
    } else {
        let i = (n - 1) as int;
        match device_fault(v, (n - 1) as nat) {
            Some(f) => Some(f),
            None => if among(device_names(v), i, device_name(v[i])) {
                Some(ConfigFault::DuplicateDevice { index: i as usize })
            } else if payload_among(v, i, payload_hash(v[i])) {
                Some(ConfigFault::PayloadUsed { index: i as usize })
            } else {
                None
            },
        }
    }
}

/// The first of the first `n` names of `members` that is not among `known`.
pub open spec fn member_fault(
    known: Seq<Seq<char>>,
    members: Seq<Seq<char>>,
    logical: int,
    n: nat,
) -> Option<ConfigFault>
    decreases n,
{
    if n == 0 {
        None
    } else {
        match member_fault(known, members, logical, (n - 1) as nat) {
            Some(f) => Some(f),
            None => if among(known, known.len() as int, members[n - 1]) {
                None
            } else {
                Some(
                    ConfigFault::UnknownDevice {
                        logical: logical as usize,
                        member: (n - 1) as usize,
                    },
                )
            },
        }
    }
}

/// The first fault among the first `n` logical devices.
pub open spec fn logical_fault(
    known: Seq<Seq<char>>,
    v: Seq<LogicalDeviceConfig>,
    n: nat,
) -> Option<ConfigFault>
    decreases n,
{
    if n == 0 {
        None
    } else {
        let i = (n - 1) as int;
        match logical_fault(known, v, (n - 1) as nat) {
            Some(f) => Some(f),
            None => if among(logical_names(v), i, v[i].name@) {
                Some(ConfigFault::DuplicateLogical { index: i as usize })
            } else {
                member_fault(known, texts(v[i].members@), i, v[i].members@.len())
            },
        }
    }
}

/// The first fault among the first `n` names of a layout.
pub open spec fn layout_fault(
    known: Seq<Seq<char>>,
    layout: Seq<Seq<char>>,
    n: nat,
) -> Option<ConfigFault>
    decreases n,
{
    if n == 0 {
        None
    } else {
        let i = (n - 1) as int;
        match layout_fault(known, layout, (n - 1) as nat) {
            Some(f) => Some(f),
            None => if !among(known, known.len() as int, layout[i]) {
                Some(ConfigFault::UnknownLogical { index: i as usize })
            } else if among(layout, i, layout[i]) {
                Some(ConfigFault::LogicalTwice { index: i as usize })
            } else {
                None
            },
        }
    }
}

impl Config {
    /// The first fault of this configuration.
    pub open spec fn fault(&self) -> Option<ConfigFault> {
        let devices = self.devices@;
        let logical = self.configuration.logical@;
        let layout = texts(self.configuration.layout@);
        match device_fault(devices, devices.len()) {
            Some(f) => Some(f),
            None => match logical_fault(device_names(devices), logical, logical.len()) {
                Some(f) => Some(f),
                None => match layout_fault(logical_names(logical), layout, layout.len()) {
                    Some(f) => Some(f),
                    None => if devices.len() == 0 {
                        Some(ConfigFault::NoDevices)
                    } else if logical.len() == 0 {
                        Some(ConfigFault::NoLogical)
                    } else if layout.len() == 0 {
                        Some(ConfigFault::NoLayout)
                    } else {
                        None
                    },
                },
            },
        }
    }
}

/// A file device.
fn file_device(name: &str, path: &str) -> (r: DeviceConfig)
    ensures
        r is File,
        r->File_name@ == name@,
        r->File_path@ == path@,
{
    DeviceConfig::File { name: name.to_owned(), path: path.to_owned() }
}

/// Fifty mebibytes on the given devices.
fn example_logical(name: &str, members: Vec<String>, max_concurrent: u8) -> (r:
    LogicalDeviceConfig)
    ensures
        r.name@ == name@,
        r.members@ == members@,
        r.capacity == Bytes(52428800),
        r.max_concurrent == max_concurrent,
{
    LogicalDeviceConfig {
        name: name.to_owned(),
        members,
        capacity: Bytes(52428800),
        max_concurrent,
    }
}

impl Config {
    /// Two groups of fifty mebibytes in files, the first of them with a second copy.
    pub fn example() -> (r: Self)
        ensures
            opt_string(r.password) == Some("helloworld"@),
            r.key_derivation == KeyDerivation::Sha256,
            device_names(r.devices@) == seq!["blob1"@, "blob2"@, "blob3"@],
            r.devices@[0]->File_path@ == "./part1.bin"@,
            r.devices@[1]->File_path@ == "./part1-replica.bin"@,
            r.devices@[2]->File_path@ == "./part2.bin"@,
            forall|i: int| 0 <= i < 3 ==> r.devices@[i] is File,
            logical_names(r.configuration.logical@) == seq!["dev1"@, "dev2"@],
            texts(r.configuration.logical@[0].members@) == seq!["blob1"@, "blob2"@],
            texts(r.configuration.logical@[1].members@) == seq!["blob3"@],
            r.configuration.logical@[0].max_concurrent == 2,
            r.configuration.logical@[1].max_concurrent == 1,
            r.configuration.logical@[0].capacity == Bytes(52428800),
            r.configuration.logical@[1].capacity == Bytes(52428800),
            texts(r.configuration.layout@) == seq!["dev1"@, "dev2"@],
    {
        let mut devices: Vec<DeviceConfig> = Vec::new();
        devices.push(file_device("blob1", "./part1.bin"));
        devices.push(file_device("blob2", "./part1-replica.bin"));
        devices.push(file_device("blob3", "./part2.bin"));
        let mut first: Vec<String> = Vec::new();
        first.push("blob1".to_owned());
        first.push("blob2".to_owned());
        let mut second: Vec<String> = Vec::new();
        second.push("blob3".to_owned());
        let mut layout: Vec<String> = Vec::new();
        layout.push("dev1".to_owned());
        layout.push("dev2".to_owned());
        let mut logical: Vec<LogicalDeviceConfig> = Vec::new();
        assert(texts(first@) =~= seq!["blob1"@, "blob2"@]);
        assert(texts(second@) =~= seq!["blob3"@]);
        logical.push(example_logical("dev1", first, 2));
        logical.push(example_logical("dev2", second, 1));
        assert(device_names(devices@) =~= seq!["blob1"@, "blob2"@, "blob3"@]);
        assert(logical_names(logical@) =~= seq!["dev1"@, "dev2"@]);
        assert(texts(layout@) =~= seq!["dev1"@, "dev2"@]);
        Config {
            password: Some("helloworld".to_owned()),
            key_derivation: KeyDerivation::Sha256,
            devices,
            configuration: Configuration { logical, layout },
        }
    }
}

impl DeviceConfig {
    /// The name of this device.
    pub fn name(&self) -> (r: String)
        ensures
            r@ == device_name(*self),
    {
        match self {
            DeviceConfig::KVHttp { name, .. } => name.clone(),
            DeviceConfig::File { name, .. } => name.clone(),
        }
    }

    /// What tells the place where this device keeps its bytes from others: a hash of the place.
    pub fn payload_discriminator(&self) -> (r: u64)
        ensures
            r == payload_hash(*self),
    {
        let mut hasher = DefaultHasher::new();
        let ghost none = Seq::<Seq<char>>::empty();
        match self {
            DeviceConfig::KVHttp { name, url, .. } => {
                hash_text(&mut hasher, name.as_str(), Ghost(none));
                hash_text(&mut hasher, url.as_str(), Ghost(none.push(name@)));
                assert(none.push(name@).push(url@) =~= payload(*self));
            },
            DeviceConfig::File { path, .. } => {
                let place = normalize_path(path.as_str());
                hash_text(&mut hasher, place.as_str(), Ghost(none));
                assert(none.push(place@) =~= payload(*self));
            },
        }
        hasher.finish()
    }
}

/// Feeds one more text to a hasher.
fn hash_text(hasher: &mut DefaultHasher, text: &str, Ghost(before): Ghost<Seq<Seq<char>>>)
    requires
        old(hasher)@ == hashed(before),
    ensures
        final(hasher)@ == hashed(before.push(text@)),
{
    hasher.write(text.as_bytes());
    let end: [u8; 1] = [0xFF];
    assert(end@ =~= seq![0xFFu8]);
    hasher.write(end.as_slice());
    assert(before.push(text@).drop_last() =~= before);
}

/// True if one of the first `n` devices has the name `x`.
fn has_device(v: &Vec<DeviceConfig>, n: usize, x: &String) -> (r: bool)
    requires
        n <= v@.len(),
    ensures
        r == among(device_names(v@), n as int, x@),
{
    let mut i: usize = 0;
    while i < n
        invariant
            i <= n <= v@.len(),
            !among(device_names(v@), i as int, x@),
        decreases n - i,
    {
        let name = v[i].name();
        if name == *x {
            assert(device_names(v@)[i as int] == x@);
            return true;
        }
        i = i + 1;
    }
    false
}

/// True if one of the first `n` devices has the payload hash `p`.
fn has_payload(v: &Vec<DeviceConfig>, n: usize, p: u64) -> (r: bool)
    requires
        n <= v@.len(),
    ensures
        r == payload_among(v@, n as int, p),
{
    let mut i: usize = 0;
    while i < n
        invariant
            i <= n <= v@.len(),
            !payload_among(v@, i as int, p),
        decreases n - i,
    {
        let q: u64 = v[i].payload_discriminator();
        if q == p {
            assert(payload_hash(v@[i as int]) == p);
            return true;
        }
        i = i + 1;
    }
    false
}

/// True if one of the first `n` logical devices has the name `x`.
fn has_logical(v: &Vec<LogicalDeviceConfig>, n: usize, x: &String) -> (r: bool)
    requires
        n <= v@.len(),
    ensures
        r == among(logical_names(v@), n as int, x@),
{
    let mut i: usize = 0;
    while i < n
        invariant
            i <= n <= v@.len(),
            !among(logical_names(v@), i as int, x@),
        decreases n - i,
    {
        if v[i].name == *x {
            assert(logical_names(v@)[i as int] == x@);
            return true;
        }
        i = i + 1;
    }
    false
}

/// True if `x` is among the first `n` texts.
fn has_text(v: &Vec<String>, n: usize, x: &String) -> (r: bool)
    requires
        n <= v@.len(),
    ensures
        r == among(texts(v@), n as int, x@),
{
    let mut i: usize = 0;
    while i < n
        invariant
            i <= n <= v@.len(),
            !among(texts(v@), i as int, x@),
        decreases n - i,
    {
        if v[i] == *x {
            assert(texts(v@)[i as int] == x@);
            return true;
        }
        i = i + 1;
    }
    false
}

proof fn lemma_device_fault(v: Seq<DeviceConfig>, a: nat, b: nat)
    requires
        a <= b,
        device_fault(v, a) is Some,
    ensures
        device_fault(v, b) == device_fault(v, a),
    decreases b,
{
    if a < b {
        lemma_device_fault(v, a, (b - 1) as nat);
    }
}

proof fn lemma_member_fault(
    known: Seq<Seq<char>>,
    members: Seq<Seq<char>>,
    logical: int,
    a: nat,
    b: nat,
)
    requires
        a <= b,
        member_fault(known, members, logical, a) is Some,
    ensures
        member_fault(known, members, logical, b) == member_fault(known, members, logical, a),
    decreases b,
{
    if a < b {
        lemma_member_fault(known, members, logical, a, (b - 1) as nat);
    }
}

proof fn lemma_logical_fault(known: Seq<Seq<char>>, v: Seq<LogicalDeviceConfig>, a: nat, b: nat)
    requires
        a <= b,
        logical_fault(known, v, a) is Some,
    ensures
        logical_fault(known, v, b) == logical_fault(known, v, a),
    decreases b,
{
    if a < b {
        lemma_logical_fault(known, v, a, (b - 1) as nat);
    }
}

proof fn lemma_layout_fault(known: Seq<Seq<char>>, layout: Seq<Seq<char>>, a: nat, b: nat)
    requires
        a <= b,
        layout_fault(known, layout, a) is Some,
    ensures
        layout_fault(known, layout, b) == layout_fault(known, layout, a),
    decreases b,
{
    if a < b {
        lemma_layout_fault(known, layout, a, (b - 1) as nat);
    }
}

impl Config {
    /// Refuses names and places that are used twice, references to what does not exist, and
    /// empty lists.
    pub fn validate(&self) -> (r: Result<(), ConfigFault>)
        ensures
            r == match self.fault() {
                Some(f) => Err::<(), ConfigFault>(f),
                None => Ok(()),
            },
    {
        match self.check_devices() {
            Some(f) => return Err(f),
            None => {},
        }
        match self.check_logical() {
            Some(f) => return Err(f),
            None => {},
        }
        match self.check_layout() {
            Some(f) => return Err(f),
            None => {},
        }
        assert(texts(self.configuration.layout@).len() == self.configuration.layout@.len());
        if self.devices.len() == 0 {
            return Err(ConfigFault::NoDevices);
        }
        if self.configuration.logical.len() == 0 {
            return Err(ConfigFault::NoLogical);
        }
        if self.configuration.layout.len() == 0 {
            return Err(ConfigFault::NoLayout);
        }
        Ok(())
    }

    fn check_devices(&self) -> (r: Option<ConfigFault>)
        ensures
            r == device_fault(self.devices@, self.devices@.len()),
    {
        let n: usize = self.devices.len();
        let mut i: usize = 0;
        while i < n
            invariant
                i <= n,
                n == self.devices@.len(),
                device_fault(self.devices@, i as nat) is None,
            decreases n - i,
        {
            let name = self.devices[i].name();
            if has_device(&self.devices, i, &name) {
                proof {
                    lemma_device_fault(self.devices@, (i + 1) as nat, n as nat);
                }
                return Some(ConfigFault::DuplicateDevice { index: i });
            }
            let p: u64 = self.devices[i].payload_discriminator();
            if has_payload(&self.devices, i, p) {
                proof {
                    lemma_device_fault(self.devices@, (i + 1) as nat, n as nat);
                }
                return Some(ConfigFault::PayloadUsed { index: i });
            }
            i = i + 1;
        }
        None
    }

    fn check_logical(&self) -> (r: Option<ConfigFault>)
        ensures
            r == logical_fault(
                device_names(self.devices@),
                self.configuration.logical@,
                self.configuration.logical@.len(),
            ),
    {
        let ghost known = device_names(self.devices@);
        let n: usize = self.configuration.logical.len();
        let mut i: usize = 0;
        while i < n
            invariant
                i <= n,
                n == self.configuration.logical@.len(),
                known == device_names(self.devices@),
                logical_fault(known, self.configuration.logical@, i as nat) is None,
            decreases n - i,
        {
            let l = &self.configuration.logical[i];
            if has_logical(&self.configuration.logical, i, &l.name) {
                proof {
                    lemma_logical_fault(
                        known,
                        self.configuration.logical@,
                        (i + 1) as nat,
                        n as nat,
                    );
                }
                return Some(ConfigFault::DuplicateLogical { index: i });
            }
            match self.check_members(i) {
                Some(f) => {
                    proof {
                        lemma_logical_fault(
                            known,
                            self.configuration.logical@,
                            (i + 1) as nat,
                            n as nat,
                        );
                    }
                    return Some(f);
                },
                None => {},
            }
            i = i + 1;
        }
        None
    }

    fn check_members(&self, at: usize) -> (r: Option<ConfigFault>)
        requires
            at < self.configuration.logical@.len(),
        ensures
            r == member_fault(
                device_names(self.devices@),
                texts(self.configuration.logical@[at as int].members@),
                at as int,
                self.configuration.logical@[at as int].members@.len(),
            ),
    {
        let ghost known = device_names(self.devices@);
        let members = &self.configuration.logical[at].members;
        let n: usize = members.len();
        let mut i: usize = 0;
        while i < n
            invariant
                i <= n,
                n == members@.len(),
                at < self.configuration.logical@.len(),
                members@ == self.configuration.logical@[at as int].members@,
                known == device_names(self.devices@),
                member_fault(known, texts(members@), at as int, i as nat) is None,
            decreases n - i,
        {
            let all: usize = self.devices.len();
            if !has_device(&self.devices, all, &members[i]) {
                proof {
                    lemma_member_fault(
                        known,
                        texts(members@),
                        at as int,
                        (i + 1) as nat,
                        n as nat,
                    );
                }
                return Some(ConfigFault::UnknownDevice { logical: at, member: i });
            }
            i = i + 1;
        }
        None
    }

    fn check_layout(&self) -> (r: Option<ConfigFault>)
        ensures
            r == layout_fault(
                logical_names(self.configuration.logical@),
                texts(self.configuration.layout@),
                self.configuration.layout@.len(),
            ),
    {
        let ghost known = logical_names(self.configuration.logical@);
        let layout = &self.configuration.layout;
        let n: usize = layout.len();
        let mut i: usize = 0;
        while i < n
            invariant
                i <= n,
                n == layout@.len(),
                layout@ == self.configuration.layout@,
                known == logical_names(self.configuration.logical@),
                layout_fault(known, texts(layout@), i as nat) is None,
            decreases n - i,
        {
            let all: usize = self.configuration.logical.len();
            if !has_logical(&self.configuration.logical, all, &layout[i]) {
                proof {
                    lemma_layout_fault(known, texts(layout@), (i + 1) as nat, n as nat);
                }
                return Some(ConfigFault::UnknownLogical { index: i });
            }
            if has_text(layout, i, &layout[i]) {
                proof {
                    lemma_layout_fault(known, texts(layout@), (i + 1) as nat, n as nat);
                }
                return Some(ConfigFault::LogicalTwice { index: i });
            }
            i = i + 1;
        }
        None
    }
}

/// What holds of a configuration without fault: no name is used twice, no two places have the same
/// hash, every reference is to something that exists, and nothing is empty.
pub open spec fn consistent(c: Config) -> bool {
    let devices = c.devices@;
    let logical = c.configuration.logical@;
    let layout = texts(c.configuration.layout@);
    &&& devices.len() > 0 && logical.len() > 0 && layout.len() > 0
    &&& forall|i: int, j: int|
        0 <= i < j < devices.len() ==> device_name(#[trigger] devices[i]) != device_name(
            #[trigger] devices[j],
        ) && payload_hash(devices[i]) != payload_hash(devices[j])
    &&& forall|i: int, j: int|
        0 <= i < j < logical.len() ==> (#[trigger] logical[i]).name@ != (
        #[trigger] logical[j]).name@
    &&& forall|i: int, k: int|
        0 <= i < logical.len() && 0 <= k < logical[i].members@.len() ==> among(
            device_names(devices),
            devices.len() as int,
            (#[trigger] logical[i].members@[k])@,
        )
    &&& forall|i: int|
        0 <= i < layout.len() ==> among(
            logical_names(logical),
            logical.len() as int,
            #[trigger] layout[i],
        )
    &&& forall|i: int, j: int|
        0 <= i < j < layout.len() ==> #[trigger] layout[i] != #[trigger] layout[j]
}

proof fn lemma_devices_fine(v: Seq<DeviceConfig>, n: nat, j: int)
    requires
        0 <= j < n,
        device_fault(v, n) is None,
    ensures
        !among(device_names(v), j, device_name(v[j])),
        !payload_among(v, j, payload_hash(v[j])),
    decreases n,
{
    if j < n - 1 {
        lemma_devices_fine(v, (n - 1) as nat, j);
    }
}

proof fn lemma_members_fine(
    known: Seq<Seq<char>>,
    members: Seq<Seq<char>>,
    logical: int,
    n: nat,
    j: int,
)
    requires
        0 <= j < n,
        member_fault(known, members, logical, n) is None,
    ensures
        among(known, known.len() as int, members[j]),
    decreases n,
{
    if j < n - 1 {
        lemma_members_fine(known, members, logical, (n - 1) as nat, j);
    }
}

proof fn lemma_logical_fine(known: Seq<Seq<char>>, v: Seq<LogicalDeviceConfig>, n: nat, j: int)
    requires
        0 <= j < n,
        logical_fault(known, v, n) is None,
    ensures
        !among(logical_names(v), j, v[j].name@),
        member_fault(known, texts(v[j].members@), j, v[j].members@.len()) is None,
    decreases n,
{
    if j < n - 1 {
        lemma_logical_fine(known, v, (n - 1) as nat, j);
    }
}

proof fn lemma_layout_fine(known: Seq<Seq<char>>, layout: Seq<Seq<char>>, n: nat, j: int)
    requires
        0 <= j < n,
        layout_fault(known, layout, n) is None,
    ensures
        among(known, known.len() as int, layout[j]),
        !among(layout, j, layout[j]),
    decreases n,
{
    if j < n - 1 {
        lemma_layout_fine(known, layout, (n - 1) as nat, j);
    }
}

/// A configuration that is accepted is consistent; in particular no place is used twice.
pub proof fn accepted_configuration_is_consistent(c: Config)
    requires
        c.fault() is None,
    ensures
        consistent(c),
        forall|i: int, j: int|
            0 <= i < j < c.devices@.len() ==> payload(#[trigger] c.devices@[i]) != payload(
                #[trigger] c.devices@[j],
            ),
{
    let devices = c.devices@;
    let logical = c.configuration.logical@;
    let layout = texts(c.configuration.layout@);
    let known = device_names(devices);
    assert forall|i: int, j: int| 0 <= i < j < devices.len() implies device_name(
        #[trigger] devices[i],
    ) != device_name(#[trigger] devices[j]) && payload_hash(devices[i]) != payload_hash(devices[j]) by {
        lemma_devices_fine(devices, devices.len(), j);
        assert(known[i] == device_name(devices[i]));
    }
    assert forall|i: int, j: int| 0 <= i < j < logical.len() implies (
    #[trigger] logical[i]).name@ != (#[trigger] logical[j]).name@ by {
        lemma_logical_fine(known, logical, logical.len(), j);
        assert(logical_names(logical)[i] == logical[i].name@);
    }
    assert forall|i: int, k: int|
        0 <= i < logical.len() && 0 <= k < logical[i].members@.len() implies among(
        known,
        devices.len() as int,
        (#[trigger] logical[i].members@[k])@,
    ) by {
        lemma_logical_fine(known, logical, logical.len(), i);
        lemma_members_fine(
            known,
            texts(logical[i].members@),
            i,
            logical[i].members@.len(),
            k,
        );
    }
    assert forall|i: int| 0 <= i < layout.len() implies among(
        logical_names(logical),
        logical.len() as int,
        #[trigger] layout[i],
    ) by {
        lemma_layout_fine(logical_names(logical), layout, layout.len(), i);
    }
    assert forall|i: int, j: int| 0 <= i < j < layout.len() implies #[trigger] layout[i]
        != #[trigger] layout[j] by {
        lemma_layout_fine(logical_names(logical), layout, layout.len(), j);
    }
}

proof fn lemma_devices_faultless(v: Seq<DeviceConfig>, n: nat)
    requires
        n <= v.len(),
        forall|i: int, j: int|
            0 <= i < j < v.len() ==> device_name(#[trigger] v[i]) != device_name(#[trigger] v[j])
                && payload_hash(v[i]) != payload_hash(v[j]),
    ensures
        device_fault(v, n) is None,
    decreases n,
{
    if n > 0 {
        lemma_devices_faultless(v, (n - 1) as nat);
        let i = n - 1;
        if among(device_names(v), i, device_name(v[i])) {
            let j = choose|j: int|
                0 <= j < i && #[trigger] device_names(v)[j] == device_name(v[i]);
            assert(device_name(v[j]) != device_name(v[i]));
        }
        if payload_among(v, i, payload_hash(v[i])) {
            let j = choose|j: int| 0 <= j < i && payload_hash(#[trigger] v[j]) == payload_hash(v[i]);
            assert(payload_hash(v[j]) != payload_hash(v[i]));
        }
    }
}

proof fn lemma_members_faultless(
    known: Seq<Seq<char>>,
    members: Seq<Seq<char>>,
    logical: int,
    n: nat,
)
    requires
        n <= members.len(),
        forall|k: int|
            0 <= k < members.len() ==> among(known, known.len() as int, #[trigger] members[k]),
    ensures
        member_fault(known, members, logical, n) is None,
    decreases n,
{
    if n > 0 {
        lemma_members_faultless(known, members, logical, (n - 1) as nat);
        assert(among(known, known.len() as int, members[n - 1]));
    }
}

proof fn lemma_logical_faultless(known: Seq<Seq<char>>, v: Seq<LogicalDeviceConfig>, n: nat)
    requires
        n <= v.len(),
        forall|i: int, j: int|
            0 <= i < j < v.len() ==> (#[trigger] v[i]).name@ != (#[trigger] v[j]).name@,
        forall|i: int, k: int|
            0 <= i < v.len() && 0 <= k < v[i].members@.len() ==> among(
                known,
                known.len() as int,
                (#[trigger] v[i].members@[k])@,
            ),
    ensures
        logical_fault(known, v, n) is None,
    decreases n,
{
    if n > 0 {
        lemma_logical_faultless(known, v, (n - 1) as nat);
        let i = n - 1;
        if among(logical_names(v), i, v[i].name@) {
            let j = choose|j: int| 0 <= j < i && #[trigger] logical_names(v)[j] == v[i].name@;
            assert(v[j].name@ != v[i].name@);
        }
        let members = texts(v[i].members@);
        assert forall|k: int| 0 <= k < members.len() implies among(
            known,
            known.len() as int,
            #[trigger] members[k],
        ) by {
            assert(among(known, known.len() as int, v[i].members@[k]@));
        }
        lemma_members_faultless(known, members, i, v[i].members@.len());
    }
}

proof fn lemma_layout_faultless(known: Seq<Seq<char>>, layout: Seq<Seq<char>>, n: nat)
    requires
        n <= layout.len(),
        forall|i: int|
            0 <= i < layout.len() ==> among(known, known.len() as int, #[trigger] layout[i]),
        forall|i: int, j: int|
            0 <= i < j < layout.len() ==> #[trigger] layout[i] != #[trigger] layout[j],
    ensures
        layout_fault(known, layout, n) is None,
    decreases n,
{
    if n > 0 {
        lemma_layout_faultless(known, layout, (n - 1) as nat);
        let i = n - 1;
        assert(among(known, known.len() as int, layout[i]));
        if among(layout, i, layout[i]) {
            let j = choose|j: int| 0 <= j < i && #[trigger] layout[j] == layout[i];
            assert(layout[j] != layout[i]);
        }
    }
}

/// A consistent configuration is accepted.
pub proof fn consistent_configuration_is_accepted(c: Config)
    requires
        consistent(c),
    ensures
        c.fault() is None,
{
    let devices = c.devices@;
    let logical = c.configuration.logical@;
    let layout = texts(c.configuration.layout@);
    lemma_devices_faultless(devices, devices.len());
    lemma_logical_faultless(device_names(devices), logical, logical.len());
    lemma_layout_faultless(logical_names(logical), layout, layout.len());
}

} // verus!
