use virtual_mic::device::{
    parse_module_id, Command, Provision, ProvisionError, Provisioner, Stage, VirtualDevice,
};

/// A control utility that records the commands it is given and answers each
/// load with the next id, failing the loads it is told to fail.
struct FakeControl {
    next_id: u32,
    fail: Vec<Command>,
    loaded: Vec<u32>,
    unloaded: Vec<u32>,
}

impl FakeControl {
    fn new(fail: Vec<Command>) -> Self {
        FakeControl { next_id: 20, fail, loaded: Vec::new(), unloaded: Vec::new() }
    }

    fn run(&mut self, c: Command) -> (bool, Vec<u8>) {
        match c {
            Command::Unload { id } => {
                self.unloaded.push(id);
                (true, Vec::new())
            }
            load => {
                if self.fail.contains(&load) {
                    (false, b"Failure: Module initialization failed\n".to_vec())
                } else {
                    self.next_id += 1;
                    self.loaded.push(self.next_id);
                    (true, format!("{}\n", self.next_id).into_bytes())
                }
            }
        }
    }
}

fn provision(name: &str, monitor: bool, ctl: &mut FakeControl) -> Result<VirtualDevice, ProvisionError> {
    let (mut p, mut c) = Provisioner::start(name, monitor);
    loop {
        let (ok, out) = ctl.run(c);
        match p.advance(ok, &out) {
            Provision::Next(np, nc) => {
                p = np;
                c = nc;
            }
            Provision::Ready(d) => return Ok(d),
            Provision::Failed(e) => return Err(e),
        }
    }
}

#[test]
fn module_ids_are_parsed() {
    assert_eq!(parse_module_id(&b"42\n".to_vec()), Some(42));
    assert_eq!(parse_module_id(&b"  +7 \r\n".to_vec()), Some(7));
    assert_eq!(parse_module_id(&b"4294967295".to_vec()), Some(u32::MAX));
    assert_eq!(parse_module_id(&b"4294967296".to_vec()), None);
    assert_eq!(parse_module_id(&b"".to_vec()), None);
    assert_eq!(parse_module_id(&b" + ".to_vec()), None);
    assert_eq!(parse_module_id(&b"12a".to_vec()), None);
    assert_eq!(parse_module_id(&b"-3".to_vec()), None);
}

#[test]
fn names_are_derived() {
    let (p, c) = Provisioner::start("VirtualMic", false);
    assert_eq!(c, Command::LoadSink);
    assert_eq!(p.name(), "VirtualMic");
    assert_eq!(p.sink_name(), "VirtualMic_sink");
    assert_eq!(p.monitor_name(), "VirtualMic_sink.monitor");
    assert_eq!(p.stage(), Stage::Sink);
}

#[test]
fn full_provisioning_and_teardown() {
    let mut ctl = FakeControl::new(vec![]);
    let mut d = provision("Mic", true, &mut ctl).unwrap();
    assert_eq!(d.module_id(), Some(21));
    assert_eq!(d.remap_module_id(), Some(22));
    assert_eq!(d.loopback_module_id(), Some(23));
    assert_eq!(d.sink_name(), "Mic_sink");
    assert_eq!(d.source_name(), "Mic");
    let ids = d.release();
    let mut reversed = ctl.loaded.clone();
    reversed.reverse();
    assert_eq!(ids, reversed);
    assert_eq!(d.release(), Vec::<u32>::new());
}

#[test]
fn without_monitor_no_loopback() {
    let mut ctl = FakeControl::new(vec![]);
    let mut d = provision("Mic", false, &mut ctl).unwrap();
    assert_eq!(d.loopback_module_id(), None);
    assert_eq!(d.release(), vec![22, 21]);
}

#[test]
fn sink_failure_leaves_nothing() {
    let mut ctl = FakeControl::new(vec![Command::LoadSink]);
    assert_eq!(provision("Mic", true, &mut ctl).err(), Some(ProvisionError::SinkCreateFailed));
    assert!(ctl.loaded.is_empty());
    assert!(ctl.unloaded.is_empty());
}

#[test]
fn remap_failure_unloads_sink() {
    let mut ctl = FakeControl::new(vec![Command::LoadRemapSource]);
    assert_eq!(provision("Mic", true, &mut ctl).err(), Some(ProvisionError::SourceCreateFailed));
    assert_eq!(ctl.loaded, vec![21]);
    assert_eq!(ctl.unloaded, vec![21]);
}

#[test]
fn loopback_failure_is_not_fatal() {
    let mut ctl = FakeControl::new(vec![Command::LoadLoopback]);
    let mut d = provision("Mic", true, &mut ctl).unwrap();
    assert_eq!(d.module_id(), Some(21));
    assert_eq!(d.remap_module_id(), Some(22));
    assert_eq!(d.loopback_module_id(), None);
    assert_eq!(d.release(), vec![22, 21]);
}

#[test]
fn unparsable_sink_id_fails() {
    let (p, _) = Provisioner::start("Mic", false);
    match p.advance(true, &b"not a number".to_vec()) {
        Provision::Failed(e) => assert_eq!(e, ProvisionError::SinkCreateFailed),
        _ => panic!("expected a failure"),
    }
}
