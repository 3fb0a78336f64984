//! The virtual device provisioner.
//!
//! A virtual microphone is a chain of modules loaded into the sound server: a
//! virtual sink, a remap-source that exposes the sink's monitor as a capture
//! device, and optionally a loopback from that monitor to the default output.
//! `Provisioner` decides, step by step, which control command to run next from
//! the outcome of the previous one; the caller runs the commands. The sink and
//! the remap-source are all or nothing: where the remap-source cannot be
//! created, the sink is unloaded again. A failed loopback is not fatal.
//! `VirtualDevice::release` gives the modules to unload, in the reverse order
//! of their loading, exactly once.
use vstd::prelude::*;
use vstd::string::*;

verus! {

/// A byte that `trim` removes: ASCII space, tab, line feed, vertical tab,
/// form feed or carriage return.
pub open spec fn is_space(b: u8) -> bool {
    b == 32 || (9 <= b && b <= 13)
}

pub open spec fn is_digit(b: u8) -> bool {
    48 <= b && b <= 57
}

/// `s` without its leading spaces.
pub open spec fn trim_start(s: Seq<u8>) -> Seq<u8>
    decreases s.len(),
{
    if s.len() > 0 && is_space(s[0]) {
        trim_start(s.drop_first())
    } else {
        s
    }
}

/// `s` without its trailing spaces.
pub open spec fn trim_end(s: Seq<u8>) -> Seq<u8>
    decreases s.len(),
{
    if s.len() > 0 && is_space(s.last()) {
        trim_end(s.drop_last())
    } else {
        s
    }
}

/// The value of a sequence of decimal digits.
pub open spec fn digits_value(s: Seq<u8>) -> nat
    decreases s.len(),
{
    if s.len() == 0 {
        0
    } else {
        digits_value(s.drop_last()) * 10 + (s.last() - 48) as nat
    }
}

pub open spec fn all_digits(s: Seq<u8>) -> bool {
    forall|i: int| 0 <= i < s.len() ==> is_digit(#[trigger] s[i])
}

/// The module id that the control utility printed: the output without
/// surrounding whitespace is an optional `+` and one or more decimal digits
/// whose value fits in a `u32`.
pub open spec fn module_id_of(out: Seq<u8>) -> Option<u32> {
    let t = trim_end(trim_start(out));
    let d = if t.len() > 0 && t[0] == 43 {
        t.drop_first()
    } else {
        t
    };
    if d.len() > 0 && all_digits(d) && digits_value(d) <= u32::MAX {
        Some(digits_value(d) as u32)
    } else {
        None
    }
}

proof fn lemma_digits_prefix_le(d: Seq<u8>, k: int)
    requires
        0 <= k <= d.len(),
        all_digits(d),
    ensures
        digits_value(d.subrange(0, k)) <= digits_value(d),
    decreases d.len(),
{
    if k < d.len() {
        let p = d.drop_last();
        assert(all_digits(p)) by {
            assert forall|i: int| 0 <= i < p.len() implies is_digit(#[trigger] p[i]) by {
                assert(p[i] == d[i]);
            }
        }
        lemma_digits_prefix_le(p, k);
        assert(p.subrange(0, k) =~= d.subrange(0, k));
    } else {
        assert(d.subrange(0, k) =~= d);
    }
}

/// Reads the module id that the control utility printed on success.
pub fn parse_module_id(s: &Vec<u8>) -> (r: Option<u32>)
    ensures
        r == module_id_of(s@),
{
    let len = s.len();
    let mut lo: usize = 0;
    proof {
        assert(s@.subrange(0, len as int) =~= s@);
    }
    while lo < len && (s[lo] == 32 || (9 <= s[lo] && s[lo] <= 13))
        invariant
            lo <= len,
            len == s.len(),
            trim_start(s@) == trim_start(s@.subrange(lo as int, len as int)),
        decreases len - lo,
    {
        proof {
            assert(s@.subrange(lo as int, len as int).drop_first() =~= s@.subrange(
                lo + 1,
                len as int,
            ));
        }
        lo = lo + 1;
    }
    let mut hi: usize = len;
    while hi > lo && (s[hi - 1] == 32 || (9 <= s[hi - 1] && s[hi - 1] <= 13))
        invariant
            lo <= hi <= len,
            len == s.len(),
            trim_end(s@.subrange(lo as int, len as int)) == trim_end(
                s@.subrange(lo as int, hi as int),
            ),
        decreases hi,
    {
        proof {
            assert(s@.subrange(lo as int, hi as int).drop_last() =~= s@.subrange(
                lo as int,
                hi - 1,
            ));
        }
        hi = hi - 1;
    }
    let ghost t = s@.subrange(lo as int, hi as int);
    proof {
        if lo < len {
            assert(!is_space(s@.subrange(lo as int, len as int)[0]));
        }
        assert(trim_start(s@) == s@.subrange(lo as int, len as int));
        if hi > lo {
            assert(!is_space(t.last()));
        }
        assert(trim_end(trim_start(s@)) == t);
    }
    let mut i: usize = lo;
    if i < hi && s[i] == 43 {
        i = i + 1;
    }
    let ghost d = s@.subrange(i as int, hi as int);
    proof {
        if lo < hi && s@[lo as int] == 43 {
            assert(d =~= t.drop_first());
        } else {
            assert(d =~= t);
        }
        assert(module_id_of(s@) == if d.len() > 0 && all_digits(d) && digits_value(d) <= u32::MAX {
            Some(digits_value(d) as u32)
        } else {
            None::<u32>
        });
    }
    if i == hi {
        return None;
    }
    let start = i;
    let mut acc: u64 = 0;
    while i < hi
        invariant
            start <= i <= hi,
            hi <= len,
            len == s.len(),
            d == s@.subrange(start as int, hi as int),
            d.len() > 0,
            module_id_of(s@) == if all_digits(d) && digits_value(d) <= u32::MAX {
                Some(digits_value(d) as u32)
            } else {
                None::<u32>
            },
            acc == digits_value(s@.subrange(start as int, i as int)),
            acc <= u32::MAX,
            all_digits(s@.subrange(start as int, i as int)),
        decreases hi - i,
    {
        let b = s[i];
        if b < 48 || b > 57 {
            proof {
                assert(d[i - start] == b);
                assert(!is_digit(d[i - start]));
                assert(!all_digits(d));
            }
            return None;
        }
        proof {
            let p = s@.subrange(start as int, i + 1);
            assert(p.drop_last() =~= s@.subrange(start as int, i as int));
            assert(p.last() == b);
            assert(digits_value(p) == acc * 10 + (b - 48));
            assert(all_digits(p)) by {
                assert forall|j: int| 0 <= j < p.len() implies is_digit(#[trigger] p[j]) by {
                    if j < p.len() - 1 {
                        assert(p[j] == p.drop_last()[j]);
                    }
                }
            }
        }
        acc = acc * 10 + (b - 48) as u64;
        i = i + 1;
        if acc > u32::MAX as u64 {
            proof {
                let k = i - start;
                if all_digits(d) {
                    lemma_digits_prefix_le(d, k);
                    assert(d.subrange(0, k) =~= s@.subrange(start as int, i as int));
                    assert(digits_value(d) > u32::MAX);
                }
            }
            return None;
        }
    }
    proof {
        assert(s@.subrange(start as int, i as int) =~= d);
    }
    Some(acc as u32)
}

/// Errors that abort provisioning.
#[derive(Debug, Clone, Copy, PartialEq, Eq, Structural)]
pub enum ProvisionError {
    /// The virtual sink could not be created; nothing was left loaded.
    SinkCreateFailed,
    /// The remap-source could not be created; the sink was unloaded again.
    SourceCreateFailed,
}

/// A command for the sound server's control utility. The loads name the
/// device by the provisioner's `name`, `sink_name` and `monitor_name`.
#[derive(Debug, Clone, Copy, PartialEq, Eq, Structural)]
pub enum Command {
    /// Load a virtual sink `sink_name` at the device rate and channel count.
    LoadSink,
    /// Load a remap-source `name` whose master is `monitor_name`.
    LoadRemapSource,
    /// Load a loopback from `monitor_name` to the default output.
    LoadLoopback,
    /// Unload the module with this id.
    Unload { id: u32 },
}

/// Where provisioning stands: the command in flight and the modules loaded
/// before it.
#[derive(Debug, Clone, Copy, PartialEq, Eq, Structural)]
pub enum Stage {
    /// The sink is being loaded.
    Sink,
    /// The remap-source is being loaded over the sink.
    Remap { sink: u32 },
    /// The sink is being unloaded after the remap-source failed.
    Rollback { sink: u32 },
    /// The loopback is being loaded over the sink and the remap-source.
    Loopback { sink: u32, remap: u32 },
}

/// The modules loaded so far at a stage, in the order of loading.
pub open spec fn stage_loaded(st: Stage) -> Seq<u32> {
    match st {
        Stage::Sink => seq![],
        Stage::Remap { sink } => seq![sink],
        Stage::Rollback { sink } => seq![sink],
        Stage::Loopback { sink, remap } => seq![sink, remap],
    }
}

/// The modules of a provisioned device, in the order of loading.
pub open spec fn modules_loaded(sink: Option<u32>, remap: Option<u32>, loopback: Option<u32>) -> Seq<u32> {
    let a = match sink {
        Some(id) => seq![id],
        None => seq![],
    };
    let b = match remap {
        Some(id) => seq![id],
        None => seq![],
    };
    let c = match loopback {
        Some(id) => seq![id],
        None => seq![],
    };
    a + b + c
}

/// A provisioned virtual microphone: the ids of its modules and its names.
/// The sink and the remap-source are both present or both released.
pub struct VirtualDevice {
    module_id: Option<u32>,
    remap_module_id: Option<u32>,
    loopback_module_id: Option<u32>,
    sink_name: String,
    source_name: String,
}

impl VirtualDevice {
    pub closed spec fn sink_id(&self) -> Option<u32> {
        self.module_id
    }

    pub closed spec fn remap_id(&self) -> Option<u32> {
        self.remap_module_id
    }

    pub closed spec fn loopback_id(&self) -> Option<u32> {
        self.loopback_module_id
    }

    pub closed spec fn sink_name_spec(&self) -> Seq<char> {
        self.sink_name@
    }

    pub closed spec fn source_name_spec(&self) -> Seq<char> {
        self.source_name@
    }

    pub open spec fn wf(&self) -> bool {
        self.sink_id() is Some <==> self.remap_id() is Some
    }

    /// The modules still loaded, in the order of loading.
    pub open spec fn loaded(&self) -> Seq<u32> {
        modules_loaded(self.sink_id(), self.remap_id(), self.loopback_id())
    }

    /// The name of the virtual sink that the player stream targets.
    pub fn sink_name(&self) -> (r: &str)
        ensures
            r@ == self.sink_name_spec(),
    {
        self.sink_name.as_str()
    }

    /// The name of the capture device that applications see.
    pub fn source_name(&self) -> (r: &str)
        ensures
            r@ == self.source_name_spec(),
    {
        self.source_name.as_str()
    }

    pub fn module_id(&self) -> (r: Option<u32>)
        ensures
            r == self.sink_id(),
    {
        self.module_id
    }

    pub fn remap_module_id(&self) -> (r: Option<u32>)
        ensures
            r == self.remap_id(),
    {
        self.remap_module_id
    }

    pub fn loopback_module_id(&self) -> (r: Option<u32>)
        ensures
            r == self.loopback_id(),
    {
        self.loopback_module_id
    }

    /// Takes the device's modules for unloading: loopback, remap-source, sink,
    /// the reverse of their loading. Afterwards the device holds none, so a
    /// second call gives nothing.
    pub fn release(&mut self) -> (r: Vec<u32>)
        requires
            old(self).wf(),
        ensures
            r@ == old(self).loaded().reverse(),
            final(self).wf(),
            final(self).loaded() == Seq::<u32>::empty(),
            final(self).sink_name_spec() == old(self).sink_name_spec(),
            final(self).source_name_spec() == old(self).source_name_spec(),
    {
        let mut r: Vec<u32> = Vec::new();
        if let Some(id) = self.loopback_module_id {
            r.push(id);
        }
        if let Some(id) = self.remap_module_id {
            r.push(id);
        }
        if let Some(id) = self.module_id {
            r.push(id);
        }
        proof {
            assert(r@ =~= old(self).loaded().reverse());
        }
        self.loopback_module_id = None;
        self.remap_module_id = None;
        self.module_id = None;
        proof {
            assert(self.loaded() =~= Seq::<u32>::empty());
        }
        r
    }
}

/// What a step of provisioning leads to.
pub enum Provision {
    /// Run the command, then hand its outcome to the provisioner's `advance`.
    Next(Provisioner, Command),
    /// The device is provisioned.
    Ready(VirtualDevice),
    /// Provisioning failed; every module it loaded has been unloaded.
    Failed(ProvisionError),
}

/// The provisioning of one virtual microphone, between two commands.
pub struct Provisioner {
    name: String,
    sink_name: String,
    monitor_name: String,
    monitor: bool,
    stage: Stage,
}

impl Provisioner {
    pub closed spec fn name_spec(&self) -> Seq<char> {
        self.name@
    }

    pub closed spec fn sink_name_spec(&self) -> Seq<char> {
        self.sink_name@
    }

    pub closed spec fn monitor_name_spec(&self) -> Seq<char> {
        self.monitor_name@
    }

    pub closed spec fn monitors(&self) -> bool {
        self.monitor
    }

    pub closed spec fn stage_spec(&self) -> Stage {
        self.stage
    }

    /// Starts provisioning the device `name`, with a loopback to the speakers
    /// where `monitor` is set. The first command loads the sink.
    pub fn start(name: &str, monitor: bool) -> (r: (Provisioner, Command))
        ensures
            r.0.name_spec() == name@,
            r.0.sink_name_spec() == name@ + "_sink"@,
            r.0.monitor_name_spec() == name@ + "_sink"@ + ".monitor"@,
            r.0.monitors() == monitor,
            r.0.stage_spec() == Stage::Sink,
            r.1 == Command::LoadSink,
    {
        let sink_name = <String as StringExecFns>::from_str(name).concat("_sink");
        let monitor_name = <String as StringExecFns>::from_str(name).concat("_sink").concat(
            ".monitor",
        );
        let p = Provisioner {
            name: <String as StringExecFns>::from_str(name),
            sink_name,
            monitor_name,
            monitor,
            stage: Stage::Sink,
        };
        (p, Command::LoadSink)
    }

    /// The device name: the name of the remap-source.
    pub fn name(&self) -> (r: &str)
        ensures
            r@ == self.name_spec(),
    {
        self.name.as_str()
    }

    /// The name of the virtual sink.
    pub fn sink_name(&self) -> (r: &str)
        ensures
            r@ == self.sink_name_spec(),
    {
        self.sink_name.as_str()
    }

    /// The name of the sink's monitor.
    pub fn monitor_name(&self) -> (r: &str)
        ensures
            r@ == self.monitor_name_spec(),
    {
        self.monitor_name.as_str()
    }

    pub fn stage(&self) -> (r: Stage)
        ensures
            r == self.stage_spec(),
    {
        self.stage
    }

    /// Takes the outcome of the command in flight: whether the control
    /// utility succeeded, and what it printed. A load counts as done only
    /// where the utility succeeded and printed a module id.
    pub fn advance(self, success: bool, stdout: &Vec<u8>) -> (r: Provision)
        ensures
            ({
                let id = module_id_of(stdout@);
                let ok = success && id is Some;
                match self.stage_spec() {
                    Stage::Sink => if ok {
                        r matches Provision::Next(p, c) && c == Command::LoadRemapSource
                            && p.stage_spec() == (Stage::Remap { sink: id->0 })
                            && p.same_device(self)
                    } else {
                        r == Provision::Failed(ProvisionError::SinkCreateFailed)
                    },
                    Stage::Remap { sink } => if !ok {
                        r matches Provision::Next(p, c) && c == (Command::Unload { id: sink })
                            && p.stage_spec() == (Stage::Rollback { sink }) && p.same_device(
                            self,
                        )
                    } else if self.monitors() {
                        r matches Provision::Next(p, c) && c == Command::LoadLoopback
                            && p.stage_spec() == (Stage::Loopback { sink, remap: id->0 })
                            && p.same_device(self)
                    } else {
                        r matches Provision::Ready(d) && d.sink_id() == Some(sink)
                            && d.remap_id() == Some(id->0) && d.loopback_id() is None
                            && d.named_by(self)
                    },
                    Stage::Rollback { .. } => r == Provision::Failed(
                        ProvisionError::SourceCreateFailed,
                    ),
                    Stage::Loopback { sink, remap } => r matches Provision::Ready(d) && d.sink_id()
                        == Some(sink) && d.remap_id() == Some(remap) && d.loopback_id() == (if ok {
                        id
                    } else {
                        None
                    }) && d.named_by(self),
                }
            }),
    {
        let id = parse_module_id(stdout);
        let ok = success && id.is_some();
        match self.stage {
            Stage::Sink => {
                if ok {
                    let sink = id.unwrap();
                    let p = Provisioner { stage: Stage::Remap { sink }, ..self };
                    Provision::Next(p, Command::LoadRemapSource)
                } else {
                    Provision::Failed(ProvisionError::SinkCreateFailed)
                }
            },
            Stage::Remap { sink } => {
                if !ok {
                    let p = Provisioner { stage: Stage::Rollback { sink }, ..self };
                    Provision::Next(p, Command::Unload { id: sink })
                } else if self.monitor {
                    let remap = id.unwrap();
                    let p = Provisioner { stage: Stage::Loopback { sink, remap }, ..self };
                    Provision::Next(p, Command::LoadLoopback)
                } else {
                    Provision::Ready(
                        VirtualDevice {
                            module_id: Some(sink),
                            remap_module_id: Some(id.unwrap()),
                            loopback_module_id: None,
                            sink_name: self.sink_name,
                            source_name: self.name,
                        },
                    )
                }
            },
            Stage::Rollback { .. } => Provision::Failed(ProvisionError::SourceCreateFailed),
            Stage::Loopback { sink, remap } => {
                let loopback = if ok {
                    id
                } else {
                    None
                };
                Provision::Ready(
                    VirtualDevice {
                        module_id: Some(sink),
                        remap_module_id: Some(remap),
                        loopback_module_id: loopback,
                        sink_name: self.sink_name,
                        source_name: self.name,
                    },
                )
            },
        }
    }

    /// `self` provisions the same device as `other`.
    pub open spec fn same_device(&self, other: Provisioner) -> bool {
        &&& self.name_spec() == other.name_spec()
        &&& self.sink_name_spec() == other.sink_name_spec()
        &&& self.monitor_name_spec() == other.monitor_name_spec()
        &&& self.monitors() == other.monitors()
    }
}

impl VirtualDevice {
    /// The device carries the names of the provisioner that created it.
    pub open spec fn named_by(&self, p: Provisioner) -> bool {
        &&& self.sink_name_spec() == p.sink_name_spec()
        &&& self.source_name_spec() == p.name_spec()
    }
}

} // verus!
