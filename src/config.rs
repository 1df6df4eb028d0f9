use vstd::prelude::*;

verus! {

/// Directory that holds the capability cache when the configuration names none.
pub fn default_cache() -> (r: String)
    ensures
        r@ == "/opt/persistent-evdev-rs/cache"@,
{
    "/opt/persistent-evdev-rs/cache".to_string()
}

/// Milliseconds between two hotplug sweeps when the configuration names none.
pub fn default_udev_interval() -> (r: u64)
    ensures
        r == 50,
{
    50
}

/// The process configuration: where the cache lives, which logical names map to which
/// device files, and the hotplug interval.
#[derive(Debug)]
pub struct Config {
    pub cache: String,
    /// Logical device name and physical device path, one pair per configured name.
    pub devices: Vec<(String, String)>,
    pub udev_interval: u64,
}

/// No logical name is configured twice.
pub open spec fn distinct_names(devices: Seq<(String, String)>) -> bool {
    forall|i: int, j: int|
        0 <= i < j < devices.len() ==> devices[i].0@ != devices[j].0@
}

impl Config {
    /// Logical names are unique keys.
    pub open spec fn wf(&self) -> bool {
        distinct_names(self.devices@)
    }

    /// A configuration from its parts, with the defaults for those left out.
    pub fn new(cache: Option<String>, devices: Vec<(String, String)>, udev_interval: Option<u64>) -> (r: Config)
        requires
            distinct_names(devices@),
        ensures
            r.wf(),
            cache matches Some(c) ==> r.cache@ == c@,
            cache is None ==> r.cache@ == "/opt/persistent-evdev-rs/cache"@,
            r.devices@ == devices@,
            r.udev_interval == match udev_interval {
                Some(n) => n,
                None => 50,
            },
    {
        let cache = match cache {
            Some(c) => c,
            None => default_cache(),
        };
        let udev_interval = match udev_interval {
            Some(n) => n,
            None => default_udev_interval(),
        };
        Config { cache, devices, udev_interval }
    }
}

} // verus!
