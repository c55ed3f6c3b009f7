//! The command line of a node.

pub mod laws;

use vstd::prelude::*;

use crate::cache_key;
use crate::cache_key::{CacheKey, FingerprintView, KeyView, ModelFingerprint};
use crate::control::state;
use crate::text;
use crate::text::{read_number, same_text, split_pieces, trim, trim_slashes};

verus! {

/// What is shown to a caller who does not know how to call.
pub const USAGE: &'static str = "usage:\n  kalpakdb serve <data-dir> [--addr 127.0.0.1:7411] [--warm-mb 256] [--node-id 1] [--join] [--compact-secs 3600]\n  kalpakdb witness <data-dir> [--addr ...] [--node-id N]   (consensus-only voter)\n  kalpakdb bench <data-dir> [--blocks 2000] [--size-kb 64]\n  kalpakdb stress <base-url> [--agents 8] [--secs 10] [--chunk-kb 64]\n  kalpakdb put <data-dir>            (payload on stdin)\n  kalpakdb get <data-dir> <block-id>\n  kalpakdb stat <data-dir>";

/// The mutually authenticated listener for traffic between nodes.
#[derive(Debug)]
pub struct MeshOpts {
    pub addr: String,
    pub ca: String,
    pub cert: String,
    pub key: String,
}

pub struct MeshView {
    pub addr: Seq<char>,
    pub ca: Seq<char>,
    pub cert: Seq<char>,
    pub key: Seq<char>,
}

impl View for MeshOpts {
    type V = MeshView;

    open spec fn view(&self) -> MeshView {
        MeshView { addr: self.addr@, ca: self.ca@, cert: self.cert@, key: self.key@ }
    }
}

/// How a node is to serve.
#[derive(Debug)]
pub struct ServeOpts {
    pub data_dir: String,
    pub addr: String,
    pub warm_bytes: u64,
    pub node_id: u64,
    /// Form a single-voter cluster on boot. Disable when this node will be
    /// joined to an existing cluster.
    pub bootstrap: bool,
    /// Bind address for the streaming data plane (None disables it).
    pub grpc_addr: Option<String>,
    /// Run GC automatically every N seconds (0 disables).
    pub compact_secs: u64,
    /// Reject metadata mutations that are not signed by the owning agent.
    pub require_signatures: bool,
    /// Max bytes for a single block (None for the default).
    pub max_block_bytes: Option<usize>,
    /// Serve the client-facing API over TLS (PEM paths).
    pub tls_cert: Option<String>,
    pub tls_key: Option<String>,
    /// When set, observability reads require this token.
    pub read_token: Option<String>,
    /// Mutually-authenticated mesh listener for node-to-node traffic.
    pub mesh: Option<MeshOpts>,
}

pub struct ServeView {
    pub data_dir: Seq<char>,
    pub addr: Seq<char>,
    pub warm_bytes: u64,
    pub node_id: u64,
    pub bootstrap: bool,
    pub grpc_addr: Option<Seq<char>>,
    pub compact_secs: u64,
    pub require_signatures: bool,
    pub max_block_bytes: Option<usize>,
    pub tls_cert: Option<Seq<char>>,
    pub tls_key: Option<Seq<char>>,
    pub read_token: Option<Seq<char>>,
    pub mesh: Option<MeshView>,
}

/// A text that may be missing.
pub open spec fn maybe(t: Option<String>) -> Option<Seq<char>> {
    match t {
        Some(s) => Some(s@),
        None => None,
    }
}

pub open spec fn maybe_mesh(m: Option<MeshOpts>) -> Option<MeshView> {
    match m {
        Some(m) => Some(m@),
        None => None,
    }
}

impl View for ServeOpts {
    type V = ServeView;

    open spec fn view(&self) -> ServeView {
        ServeView {
            data_dir: self.data_dir@,
            addr: self.addr@,
            warm_bytes: self.warm_bytes,
            node_id: self.node_id,
            bootstrap: self.bootstrap,
            grpc_addr: maybe(self.grpc_addr),
            compact_secs: self.compact_secs,
            require_signatures: self.require_signatures,
            max_block_bytes: self.max_block_bytes,
            tls_cert: maybe(self.tls_cert),
            tls_key: maybe(self.tls_key),
            read_token: maybe(self.read_token),
            mesh: maybe_mesh(self.mesh),
        }
    }
}

/// How a node is to be stressed.
#[derive(Debug)]
pub struct StressOpts {
    pub base: String,
    pub agents: usize,
    pub secs: u64,
    pub chunk_kb: usize,
    /// Trust this root certificate (a PEM path).
    pub ca: Option<String>,
}

pub struct StressView {
    pub base: Seq<char>,
    pub agents: usize,
    pub secs: u64,
    pub chunk_kb: usize,
    pub ca: Option<Seq<char>>,
}

impl View for StressOpts {
    type V = StressView;

    open spec fn view(&self) -> StressView {
        StressView {
            base: self.base@,
            agents: self.agents,
            secs: self.secs,
            chunk_kb: self.chunk_kb,
            ca: maybe(self.ca),
        }
    }
}

/// A command line that was not understood.
#[derive(Debug)]
pub struct CliError {
    pub message: String,
    /// Whether the caller should be told how to call.
    pub show_usage: bool,
}

/// What is said of a command line, and whether the usage is shown.
pub struct Complaint {
    pub message: Seq<char>,
    pub show_usage: bool,
}

impl View for CliError {
    type V = Complaint;

    open spec fn view(&self) -> Complaint {
        Complaint { message: self.message@, show_usage: self.show_usage }
    }
}

pub open spec fn complaint(message: Seq<char>) -> Complaint {
    Complaint { message, show_usage: false }
}

pub open spec fn needs_value(flag: Seq<char>) -> Complaint {
    complaint(flag + " needs a value"@)
}

pub open spec fn unknown_flag(flag: Seq<char>) -> Complaint {
    complaint("unknown flag: "@ + flag)
}

pub open spec fn invalid_arguments() -> Complaint {
    Complaint { message: "invalid arguments"@, show_usage: true }
}

fn say(message: String) -> (e: CliError)
    ensures
        e@ == complaint(message@),
{
    CliError { message, show_usage: false }
}

fn lacks_value(flag: &str) -> (e: CliError)
    ensures
        e@ == needs_value(flag@),
{
    say(flag.to_owned().concat(" needs a value"))
}

fn not_known(flag: &str) -> (e: CliError)
    ensures
        e@ == unknown_flag(flag@),
{
    say("unknown flag: ".to_owned().concat(flag))
}

/// A number of at most `max`, or what is said of the text.
pub open spec fn number_or(t: Seq<char>, max: nat) -> Result<nat, Complaint> {
    match text::number_of_text(t, max) {
        Some(n) => Ok(n),
        None => match text::number_fault(t, max) {
            Some(e) => Err(complaint(text::number_error_text(e))),
            None => arbitrary(),
        },
    }
}

fn number(t: &str, max: u64) -> (r: Result<u64, CliError>)
    ensures
        match r {
            Ok(n) => n <= max && number_or(t@, max as nat) == Ok::<nat, Complaint>(n as nat),
            Err(e) => number_or(t@, max as nat) == Err::<nat, Complaint>(e@),
        },
{
    proof {
        text::a_text_without_fault_is_a_number(t@, max as nat);
    }
    match read_number(t, max) {
        Ok(n) => Ok(n),
        Err(e) => Err(say(e.to_string())),
    }
}

/// The greatest number of mebibytes that has a number of bytes.
pub const MAX_MB: u64 = 17_592_186_044_415;

/// The four parts of a mesh listener.
pub open spec fn mesh_of(value: Seq<char>) -> Result<MeshView, Complaint> {
    let parts = text::pieces(value);
    if parts.len() == 4 {
        Ok(MeshView { addr: parts[0], ca: parts[1], cert: parts[2], key: parts[3] })
    } else {
        Err(complaint("--mesh needs <addr>,<ca>,<cert>,<key>"@))
    }
}

/// The options with the value of one flag set.
pub open spec fn with_serve_value(
    o: ServeView,
    flag: Seq<char>,
    value: Seq<char>,
) -> Result<ServeView, Complaint> {
    if flag == "--addr"@ {
        Ok(ServeView { addr: value, ..o })
    } else if flag == "--warm-mb"@ {
        match number_or(value, MAX_MB as nat) {
            Ok(n) => Ok(ServeView { warm_bytes: (n * 1_048_576) as u64, ..o }),
            Err(e) => Err(e),
        }
    } else if flag == "--node-id"@ {
        match number_or(value, u64::MAX as nat) {
            Ok(n) => Ok(ServeView { node_id: n as u64, ..o }),
            Err(e) => Err(e),
        }
    } else if flag == "--tls-cert"@ {
        Ok(ServeView { tls_cert: Some(value), ..o })
    } else if flag == "--tls-key"@ {
        Ok(ServeView { tls_key: Some(value), ..o })
    } else if flag == "--grpc-addr"@ {
        Ok(ServeView { grpc_addr: Some(value), ..o })
    } else if flag == "--compact-secs"@ {
        match number_or(value, u64::MAX as nat) {
            Ok(n) => Ok(ServeView { compact_secs: n as u64, ..o }),
            Err(e) => Err(e),
        }
    } else if flag == "--max-block-mb"@ {
        match number_or(value, (usize::MAX / 1_048_576) as nat) {
            Ok(n) => Ok(ServeView { max_block_bytes: Some((n * 1_048_576) as usize), ..o }),
            Err(e) => Err(e),
        }
    } else if flag == "--read-token"@ {
        Ok(ServeView { read_token: Some(value), ..o })
    } else {
        match mesh_of(value) {
            Ok(m) => Ok(ServeView { mesh: Some(m), ..o }),
            Err(e) => Err(e),
        }
    }
}

/// The flags of `serve` that a value follows.
pub open spec fn takes_value(flag: Seq<char>) -> bool {
    flag == "--addr"@ || flag == "--warm-mb"@ || flag == "--node-id"@ || flag == "--tls-cert"@
        || flag == "--tls-key"@ || flag == "--grpc-addr"@ || flag == "--compact-secs"@ || flag
        == "--max-block-mb"@ || flag == "--read-token"@ || flag == "--mesh"@
}

/// The options with a list of flags applied, one after the other.
pub open spec fn with_serve_flags(o: ServeView, rest: Seq<Seq<char>>) -> Result<
    ServeView,
    Complaint,
>
    decreases rest.len(),
{
    if rest.len() == 0 {
        Ok(o)
    } else if rest[0] == "--join"@ {
        with_serve_flags(ServeView { bootstrap: false, ..o }, rest.skip(1))
    } else if rest[0] == "--require-signatures"@ {
        with_serve_flags(ServeView { require_signatures: true, ..o }, rest.skip(1))
    } else if !takes_value(rest[0]) {
        Err(unknown_flag(rest[0]))
    } else if rest.len() == 1 {
        Err(needs_value(rest[0]))
    } else {
        match with_serve_value(o, rest[0], rest[1]) {
            Ok(next) => with_serve_flags(next, rest.skip(2)),
            Err(e) => Err(e),
        }
    }
}

/// The options before any flag.
pub open spec fn serve_defaults(dir: Seq<char>, bootstrap: bool) -> ServeView {
    ServeView {
        data_dir: dir,
        addr: "127.0.0.1:7411"@,
        warm_bytes: 268_435_456,
        node_id: 1,
        bootstrap,
        grpc_addr: None,
        compact_secs: 3600,
        require_signatures: false,
        max_block_bytes: None,
        tls_cert: None,
        tls_key: None,
        read_token: None,
        mesh: None,
    }
}

fn read_mesh(value: &str) -> (r: Result<MeshOpts, CliError>)
    ensures
        match r {
            Ok(m) => mesh_of(value@) == Ok::<MeshView, Complaint>(m@),
            Err(e) => mesh_of(value@) == Err::<MeshView, Complaint>(e@),
        },
{
    let parts = split_pieces(value);
    assert(text::texts_of(parts@).len() == parts@.len());
    if parts.len() == 4 {
        Ok(
            MeshOpts {
                addr: parts[0].clone(),
                ca: parts[1].clone(),
                cert: parts[2].clone(),
                key: parts[3].clone(),
            },
        )
    } else {
        Err(say("--mesh needs <addr>,<ca>,<cert>,<key>".to_owned()))
    }
}

fn has_value(flag: &str) -> (r: bool)
    ensures
        r == takes_value(flag@),
{
    same_text(flag, "--addr") || same_text(flag, "--warm-mb") || same_text(flag, "--node-id")
        || same_text(flag, "--tls-cert") || same_text(flag, "--tls-key") || same_text(
        flag,
        "--grpc-addr",
    ) || same_text(flag, "--compact-secs") || same_text(flag, "--max-block-mb") || same_text(
        flag,
        "--read-token",
    ) || same_text(flag, "--mesh")
}

fn set_serve_value(o: &mut ServeOpts, flag: &str, value: &str) -> (r: Result<(), CliError>)
    ensures
        match r {
            Ok(()) => with_serve_value(old(o)@, flag@, value@) == Ok::<ServeView, Complaint>(
                final(o)@,
            ),
            Err(e) => with_serve_value(old(o)@, flag@, value@) == Err::<ServeView, Complaint>(e@),
        },
{
    if same_text(flag, "--addr") {
        o.addr = value.to_owned();
    } else if same_text(flag, "--warm-mb") {
        match number(value, MAX_MB) {
            Ok(n) => {
                o.warm_bytes = n * 1_048_576;
            },
            Err(e) => return Err(e),
        }
    } else if same_text(flag, "--node-id") {
        match number(value, u64::MAX) {
            Ok(n) => {
                o.node_id = n;
            },
            Err(e) => return Err(e),
        }
    } else if same_text(flag, "--tls-cert") {
        o.tls_cert = Some(value.to_owned());
    } else if same_text(flag, "--tls-key") {
        o.tls_key = Some(value.to_owned());
    } else if same_text(flag, "--grpc-addr") {
        o.grpc_addr = Some(value.to_owned());
    } else if same_text(flag, "--compact-secs") {
        match number(value, u64::MAX) {
            Ok(n) => {
                o.compact_secs = n;
            },
            Err(e) => return Err(e),
        }
    } else if same_text(flag, "--max-block-mb") {
        match number(value, (usize::MAX / 1_048_576) as u64) {
            Ok(n) => {
                o.max_block_bytes = Some(n as usize * 1_048_576);
            },
            Err(e) => return Err(e),
        }
    } else if same_text(flag, "--read-token") {
        o.read_token = Some(value.to_owned());
    } else {
        match read_mesh(value) {
            Ok(m) => {
                o.mesh = Some(m);
            },
            Err(e) => return Err(e),
        }
    }
    Ok(())
}

/// Reads the flags of `serve` and `witness`, from `from` on.
fn read_serve_flags(o: ServeOpts, args: &Vec<String>, from: usize) -> (r: Result<
    ServeOpts,
    CliError,
>)
    requires
        from <= args@.len(),
    ensures
        match r {
            Ok(opts) => with_serve_flags(o@, text::texts_of(args@).skip(from as int)) == Ok::<
                ServeView,
                Complaint,
            >(opts@),
            Err(e) => with_serve_flags(o@, text::texts_of(args@).skip(from as int)) == Err::<
                ServeView,
                Complaint,
            >(e@),
        },
{
    let ghost all = text::texts_of(args@);
    let ghost whole = with_serve_flags(o@, all.skip(from as int));
    let mut opts = o;
    let mut i: usize = from;
    while i < args.len()
        invariant
            i <= args@.len(),
            all == text::texts_of(args@),
            whole == with_serve_flags(o@, all.skip(from as int)),
            whole == with_serve_flags(opts@, all.skip(i as int)),
        decreases args@.len() - i,
    {
        let flag = args[i].as_str();
        let ghost rest = all.skip(i as int);
        proof {
            assert(rest[0] == flag@);
            assert(rest.skip(1) =~= all.skip(i + 1));
        }
        if same_text(flag, "--join") {
            opts.bootstrap = false;
            i += 1;
        } else if same_text(flag, "--require-signatures") {
            opts.require_signatures = true;
            i += 1;
        } else if !has_value(flag) {
            return Err(not_known(flag));
        } else if i + 1 == args.len() {
            return Err(lacks_value(flag));
        } else {
            proof {
                assert(rest[1] == all[i + 1]);
                assert(rest.skip(2) =~= all.skip(i + 2));
            }
            match set_serve_value(&mut opts, flag, args[i + 1].as_str()) {
                Ok(()) => {},
                Err(e) => return Err(e),
            }
            i += 2;
        }
    }
    assert(all.skip(i as int) =~= Seq::empty());
    Ok(opts)
}

/// The options of `stress` with a list of flags applied.
pub open spec fn with_stress_flags(o: StressView, rest: Seq<Seq<char>>) -> Result<
    StressView,
    Complaint,
>
    decreases rest.len(),
{
    if rest.len() == 0 {
        Ok(o)
    } else if rest[0] != "--agents"@ && rest[0] != "--secs"@ && rest[0] != "--chunk-kb"@ && rest[0]
        != "--ca"@ {
        Err(unknown_flag(rest[0]))
    } else if rest.len() == 1 {
        Err(needs_value(rest[0]))
    } else if rest[0] == "--agents"@ {
        match number_or(rest[1], usize::MAX as nat) {
            Ok(n) => with_stress_flags(StressView { agents: n as usize, ..o }, rest.skip(2)),
            Err(e) => Err(e),
        }
    } else if rest[0] == "--secs"@ {
        match number_or(rest[1], u64::MAX as nat) {
            Ok(n) => with_stress_flags(StressView { secs: n as u64, ..o }, rest.skip(2)),
            Err(e) => Err(e),
        }
    } else if rest[0] == "--chunk-kb"@ {
        match number_or(rest[1], usize::MAX as nat) {
            Ok(n) => with_stress_flags(StressView { chunk_kb: n as usize, ..o }, rest.skip(2)),
            Err(e) => Err(e),
        }
    } else {
        with_stress_flags(StressView { ca: Some(rest[1]), ..o }, rest.skip(2))
    }
}

/// The options of `stress` before any flag.
pub open spec fn stress_defaults(url: Seq<char>) -> StressView {
    StressView {
        base: text::without_slashes(url),
        agents: 8,
        secs: 10,
        chunk_kb: 64,
        ca: None,
    }
}

fn read_stress_flags(o: StressOpts, args: &Vec<String>, from: usize) -> (r: Result<
    StressOpts,
    CliError,
>)
    requires
        from <= args@.len(),
    ensures
        match r {
            Ok(opts) => with_stress_flags(o@, text::texts_of(args@).skip(from as int)) == Ok::<
                StressView,
                Complaint,
            >(opts@),
            Err(e) => with_stress_flags(o@, text::texts_of(args@).skip(from as int)) == Err::<
                StressView,
                Complaint,
            >(e@),
        },
{
    let ghost all = text::texts_of(args@);
    let ghost whole = with_stress_flags(o@, all.skip(from as int));
    let mut opts = o;
    let mut i: usize = from;
    while i < args.len()
        invariant
            i <= args@.len(),
            all == text::texts_of(args@),
            whole == with_stress_flags(o@, all.skip(from as int)),
            whole == with_stress_flags(opts@, all.skip(i as int)),
        decreases args@.len() - i,
    {
        let flag = args[i].as_str();
        let ghost rest = all.skip(i as int);
        proof {
            assert(rest[0] == flag@);
        }
        if !same_text(flag, "--agents") && !same_text(flag, "--secs") && !same_text(
            flag,
            "--chunk-kb",
        ) && !same_text(flag, "--ca") {
            return Err(not_known(flag));
        }
        if i + 1 == args.len() {
            return Err(lacks_value(flag));
        }
        proof {
            assert(rest[1] == all[i + 1]);
            assert(rest.skip(2) =~= all.skip(i + 2));
        }
        let value = args[i + 1].as_str();
        if same_text(flag, "--agents") {
            match number(value, usize::MAX as u64) {
                Ok(n) => {
                    opts.agents = n as usize;
                },
                Err(e) => return Err(e),
            }
        } else if same_text(flag, "--secs") {
            match number(value, u64::MAX) {
                Ok(n) => {
                    opts.secs = n;
                },
                Err(e) => return Err(e),
            }
        } else if same_text(flag, "--chunk-kb") {
            match number(value, usize::MAX as u64) {
                Ok(n) => {
                    opts.chunk_kb = n as usize;
                },
                Err(e) => return Err(e),
            }
        } else {
            opts.ca = Some(value.to_owned());
        }
        i += 2;
    }
    assert(all.skip(i as int) =~= Seq::empty());
    Ok(opts)
}

/// The hosts that a list names.
pub open spec fn hosts_of(value: Seq<char>) -> Seq<Seq<char>> {
    text::pieces(value).map_values(|h: Seq<char>| text::trimmed(h))
}

/// The hosts after a list of flags was applied.
pub open spec fn with_host_flags(hosts: Seq<Seq<char>>, rest: Seq<Seq<char>>) -> Result<
    Seq<Seq<char>>,
    Complaint,
>
    decreases rest.len(),
{
    if rest.len() == 0 {
        Ok(hosts)
    } else if rest[0] != "--hosts"@ {
        Err(unknown_flag(rest[0]))
    } else if rest.len() == 1 {
        Err(needs_value(rest[0]))
    } else {
        with_host_flags(hosts_of(rest[1]), rest.skip(2))
    }
}

fn read_hosts(value: &str) -> (hosts: Vec<String>)
    ensures
        text::texts_of(hosts@) == hosts_of(value@),
{
    let parts = split_pieces(value);
    let ghost views = text::texts_of(parts@);
    let mut hosts: Vec<String> = Vec::new();
    let mut i: usize = 0;
    while i < parts.len()
        invariant
            i <= parts@.len(),
            hosts@.len() == i,
            forall|k: int| 0 <= k < i ==> (#[trigger] hosts@[k])@ == text::trimmed(parts@[k]@),
        decreases parts@.len() - i,
    {
        hosts.push(trim(parts[i].as_str()).to_owned());
        i += 1;
    }
    assert(text::texts_of(hosts@) =~= views.map_values(|h: Seq<char>| text::trimmed(h)));
    hosts
}

/// The hosts of a certificate unless told otherwise.
pub open spec fn default_hosts() -> Seq<Seq<char>> {
    seq!["localhost"@, "127.0.0.1"@]
}

fn read_host_flags(args: &Vec<String>, from: usize) -> (r: Result<Vec<String>, CliError>)
    requires
        from <= args@.len(),
    ensures
        match r {
            Ok(hosts) => with_host_flags(default_hosts(), text::texts_of(args@).skip(from as int))
                == Ok::<Seq<Seq<char>>, Complaint>(text::texts_of(hosts@)),
            Err(e) => with_host_flags(default_hosts(), text::texts_of(args@).skip(from as int))
                == Err::<Seq<Seq<char>>, Complaint>(e@),
        },
{
    let ghost all = text::texts_of(args@);
    let ghost whole = with_host_flags(default_hosts(), all.skip(from as int));
    let mut hosts: Vec<String> = Vec::new();
    hosts.push("localhost".to_owned());
    hosts.push("127.0.0.1".to_owned());
    assert(text::texts_of(hosts@) =~= default_hosts());
    let mut i: usize = from;
    while i < args.len()
        invariant
            i <= args@.len(),
            all == text::texts_of(args@),
            whole == with_host_flags(default_hosts(), all.skip(from as int)),
            whole == with_host_flags(text::texts_of(hosts@), all.skip(i as int)),
        decreases args@.len() - i,
    {
        let flag = args[i].as_str();
        let ghost rest = all.skip(i as int);
        assert(rest[0] == flag@);
        if !same_text(flag, "--hosts") {
            return Err(not_known(flag));
        }
        if i + 1 == args.len() {
            return Err(lacks_value(flag));
        }
        proof {
            assert(rest[1] == all[i + 1]);
            assert(rest.skip(2) =~= all.skip(i + 2));
        }
        hosts = read_hosts(args[i + 1].as_str());
        i += 2;
    }
    assert(all.skip(i as int) =~= Seq::empty());
    Ok(hosts)
}

/// How many blocks are benchmarked, and of what size, after a list of flags.
pub open spec fn with_bench_flags(blocks: u64, size: usize, rest: Seq<Seq<char>>) -> Result<
    (u64, usize),
    Complaint,
>
    decreases rest.len(),
{
    if rest.len() == 0 {
        Ok((blocks, size))
    } else if rest[0] != "--blocks"@ && rest[0] != "--size-kb"@ {
        Err(unknown_flag(rest[0]))
    } else if rest.len() == 1 {
        Err(needs_value(rest[0]))
    } else if rest[0] == "--blocks"@ {
        match number_or(rest[1], u64::MAX as nat) {
            Ok(n) => with_bench_flags(n as u64, size, rest.skip(2)),
            Err(e) => Err(e),
        }
    } else {
        match number_or(rest[1], (usize::MAX / 1024) as nat) {
            Ok(n) => with_bench_flags(blocks, (n * 1024) as usize, rest.skip(2)),
            Err(e) => Err(e),
        }
    }
}

fn read_bench_flags(args: &Vec<String>, from: usize) -> (r: Result<(u64, usize), CliError>)
    requires
        from <= args@.len(),
    ensures
        match r {
            Ok(o) => with_bench_flags(2000, 65536, text::texts_of(args@).skip(from as int)) == Ok::<
                (u64, usize),
                Complaint,
            >(o),
            Err(e) => with_bench_flags(2000, 65536, text::texts_of(args@).skip(from as int))
                == Err::<(u64, usize), Complaint>(e@),
        },
{
    let ghost all = text::texts_of(args@);
    let ghost whole = with_bench_flags(2000, 65536, all.skip(from as int));
    let mut blocks: u64 = 2000;
    let mut size: usize = 65536;
    let mut i: usize = from;
    while i < args.len()
        invariant
            i <= args@.len(),
            all == text::texts_of(args@),
            whole == with_bench_flags(2000, 65536, all.skip(from as int)),
            whole == with_bench_flags(blocks, size, all.skip(i as int)),
        decreases args@.len() - i,
    {
        let flag = args[i].as_str();
        let ghost rest = all.skip(i as int);
        assert(rest[0] == flag@);
        if !same_text(flag, "--blocks") && !same_text(flag, "--size-kb") {
            return Err(not_known(flag));
        }
        if i + 1 == args.len() {
            return Err(lacks_value(flag));
        }
        proof {
            assert(rest[1] == all[i + 1]);
            assert(rest.skip(2) =~= all.skip(i + 2));
        }
        let value = args[i + 1].as_str();
        if same_text(flag, "--blocks") {
            match number(value, u64::MAX) {
                Ok(n) => {
                    blocks = n;
                },
                Err(e) => return Err(e),
            }
        } else {
            match number(value, (usize::MAX / 1024) as u64) {
                Ok(n) => {
                    size = n as usize * 1024;
                },
                Err(e) => return Err(e),
            }
        }
        i += 2;
    }
    assert(all.skip(i as int) =~= Seq::empty());
    Ok((blocks, size))
}

/// The tokens that a list of texts names.
pub open spec fn tokens_of(list: Seq<Seq<char>>) -> Result<Seq<u32>, Complaint>
    decreases list.len(),
{
    if list.len() == 0 {
        Ok(Seq::empty())
    } else {
        match tokens_of(list.drop_last()) {
            Err(e) => Err(e),
            Ok(front) => match number_or(text::trimmed(list.last()), u32::MAX as nat) {
                Ok(n) => Ok(front.push(n as u32)),
                Err(e) => Err(e),
            },
        }
    }
}

proof fn a_bad_token_stays(list: Seq<Seq<char>>, n: int)
    requires
        0 <= n <= list.len(),
        tokens_of(list.take(n)) is Err,
    ensures
        tokens_of(list) == tokens_of(list.take(n)),
    decreases list.len(),
{
    if n == list.len() {
        assert(list.take(n) =~= list);
    } else {
        assert(list.drop_last().take(n) =~= list.take(n));
        a_bad_token_stays(list.drop_last(), n);
    }
}

/// Reads the tokens of a chunk: numbers with commas in between.
pub fn read_tokens(chunk: &str) -> (r: Result<Vec<u32>, CliError>)
    ensures
        match r {
            Ok(tokens) => tokens_of(text::pieces(chunk@)) == Ok::<Seq<u32>, Complaint>(tokens@),
            Err(e) => tokens_of(text::pieces(chunk@)) == Err::<Seq<u32>, Complaint>(e@),
        },
{
    let parts = split_pieces(chunk);
    let ghost all = text::texts_of(parts@);
    let mut tokens: Vec<u32> = Vec::new();
    let mut i: usize = 0;
    assert(all.take(0) =~= Seq::empty());
    while i < parts.len()
        invariant
            i <= parts@.len(),
            all == text::texts_of(parts@),
            all == text::pieces(chunk@),
            tokens_of(all.take(i as int)) == Ok::<Seq<u32>, Complaint>(tokens@),
        decreases parts@.len() - i,
    {
        proof {
            assert(all.take(i + 1).drop_last() =~= all.take(i as int));
            assert(all.take(i + 1).last() == parts@[i as int]@);
        }
        match number(trim(parts[i].as_str()), u32::MAX as u64) {
            Ok(n) => {
                tokens.push(n as u32);
            },
            Err(e) => {
                proof {
                    a_bad_token_stays(all, i + 1);
                }
                return Err(e);
            },
        }
        i += 1;
    }
    assert(all.take(i as int) =~= all);
    Ok(tokens)
}

/// What a node is told to do.
#[derive(Debug)]
pub enum Command {
    Serve(ServeOpts),
    Witness(ServeOpts),
    Stress(StressOpts),
    Cert { dir: String, hosts: Vec<String> },
    MeshCa { dir: String, hosts: Vec<String> },
    Bench { dir: String, blocks: u64, size: usize },
    Put { dir: String },
    Get { dir: String, id: String },
    Key { model: String, tokenizer: String, layout: String, chunks: Vec<String> },
    Stat { dir: String },
    Fsck { dir: String },
    Backup { url: String, path: String },
    Restore { path: String, dir: String },
}

/// A command, with its texts.
pub enum CommandView {
    Serve(ServeView),
    Witness(ServeView),
    Stress(StressView),
    Cert { dir: Seq<char>, hosts: Seq<Seq<char>> },
    MeshCa { dir: Seq<char>, hosts: Seq<Seq<char>> },
    Bench { dir: Seq<char>, blocks: u64, size: usize },
    Put { dir: Seq<char> },
    Get { dir: Seq<char>, id: Seq<char> },
    Key {
        model: Seq<char>,
        tokenizer: Seq<char>,
        layout: Seq<char>,
        chunks: Seq<Seq<char>>,
    },
    Stat { dir: Seq<char> },
    Fsck { dir: Seq<char> },
    Backup { url: Seq<char>, path: Seq<char> },
    Restore { path: Seq<char>, dir: Seq<char> },
}

impl View for Command {
    type V = CommandView;

    open spec fn view(&self) -> CommandView {
        match self {
            Command::Serve(o) => CommandView::Serve(o@),
            Command::Witness(o) => CommandView::Witness(o@),
            Command::Stress(o) => CommandView::Stress(o@),
            Command::Cert { dir, hosts } => CommandView::Cert {
                dir: dir@,
                hosts: text::texts_of(hosts@),
            },
            Command::MeshCa { dir, hosts } => CommandView::MeshCa {
                dir: dir@,
                hosts: text::texts_of(hosts@),
            },
            Command::Bench { dir, blocks, size } => CommandView::Bench {
                dir: dir@,
                blocks: *blocks,
                size: *size,
            },
            Command::Put { dir } => CommandView::Put { dir: dir@ },
            Command::Get { dir, id } => CommandView::Get { dir: dir@, id: id@ },
            Command::Key { model, tokenizer, layout, chunks } => CommandView::Key {
                model: model@,
                tokenizer: tokenizer@,
                layout: layout@,
                chunks: text::texts_of(chunks@),
            },
            Command::Stat { dir } => CommandView::Stat { dir: dir@ },
            Command::Fsck { dir } => CommandView::Fsck { dir: dir@ },
            Command::Backup { url, path } => CommandView::Backup { url: url@, path: path@ },
            Command::Restore { path, dir } => CommandView::Restore { path: path@, dir: dir@ },
        }
    }
}

/// The command that a command line names. What follows the command's name is
/// told apart by the name and by how much of it there is.
pub open spec fn command_of(args: Seq<Seq<char>>) -> Result<CommandView, Complaint> {
    if args.len() < 2 {
        Err(invalid_arguments())
    } else if args[0] == "serve"@ {
        match with_serve_flags(serve_defaults(args[1], true), args.skip(2)) {
            Ok(o) => Ok(CommandView::Serve(o)),
            Err(e) => Err(e),
        }
    } else if args[0] == "witness"@ {
        match with_serve_flags(serve_defaults(args[1], false), args.skip(2)) {
            Ok(o) => Ok(CommandView::Witness(o)),
            Err(e) => Err(e),
        }
    } else if args[0] == "stress"@ {
        match with_stress_flags(stress_defaults(args[1]), args.skip(2)) {
            Ok(o) => Ok(CommandView::Stress(o)),
            Err(e) => Err(e),
        }
    } else if args[0] == "cert"@ {
        match with_host_flags(default_hosts(), args.skip(2)) {
            Ok(hosts) => Ok(CommandView::Cert { dir: args[1], hosts }),
            Err(e) => Err(e),
        }
    } else if args[0] == "mesh-ca"@ {
        match with_host_flags(default_hosts(), args.skip(2)) {
            Ok(hosts) => Ok(CommandView::MeshCa { dir: args[1], hosts }),
            Err(e) => Err(e),
        }
    } else if args[0] == "bench"@ {
        match with_bench_flags(2000, 65536, args.skip(2)) {
            Ok((blocks, size)) => Ok(CommandView::Bench { dir: args[1], blocks, size }),
            Err(e) => Err(e),
        }
    } else if args[0] == "put"@ && args.len() == 2 {
        Ok(CommandView::Put { dir: args[1] })
    } else if args[0] == "get"@ && args.len() == 3 {
        Ok(CommandView::Get { dir: args[1], id: args[2] })
    } else if args[0] == "key"@ && args.len() > 4 {
        Ok(
            CommandView::Key {
                model: args[1],
                tokenizer: args[2],
                layout: args[3],
                chunks: args.skip(4),
            },
        )
    } else if args[0] == "stat"@ && args.len() == 2 {
        Ok(CommandView::Stat { dir: args[1] })
    } else if args[0] == "fsck"@ && args.len() == 2 {
        Ok(CommandView::Fsck { dir: args[1] })
    } else if args[0] == "backup"@ && args.len() == 3 {
        Ok(CommandView::Backup { url: args[1], path: args[2] })
    } else if args[0] == "restore"@ && args.len() == 3 {
        Ok(CommandView::Restore { path: args[1], dir: args[2] })
    } else {
        Err(invalid_arguments())
    }
}

fn default_serve_opts(dir: &str, bootstrap: bool) -> (o: ServeOpts)
    ensures
        o@ == serve_defaults(dir@, bootstrap),
{
    ServeOpts {
        data_dir: dir.to_owned(),
        addr: "127.0.0.1:7411".to_owned(),
        warm_bytes: 268_435_456,
        node_id: 1,
        bootstrap,
        grpc_addr: None,
        compact_secs: 3600,
        require_signatures: false,
        max_block_bytes: None,
        tls_cert: None,
        tls_key: None,
        read_token: None,
        mesh: None,
    }
}

/// Reads a command line, without the program's name in front.
pub fn parse_args(args: &Vec<String>) -> (r: Result<Command, CliError>)
    ensures
        match r {
            Ok(c) => command_of(text::texts_of(args@)) == Ok::<CommandView, Complaint>(c@),
            Err(e) => command_of(text::texts_of(args@)) == Err::<CommandView, Complaint>(e@),
        },
{
    let ghost all = text::texts_of(args@);
    if args.len() < 2 {
        return Err(CliError { message: "invalid arguments".to_owned(), show_usage: true });
    }
    let cmd = args[0].as_str();
    let n: usize = args.len();
    assert(all[0] == cmd@ && all[1] == args@[1]@);
    if same_text(cmd, "serve") {
        return match read_serve_flags(default_serve_opts(args[1].as_str(), true), args, 2) {
            Ok(o) => Ok(Command::Serve(o)),
            Err(e) => Err(e),
        };
    }
    if same_text(cmd, "witness") {
        return match read_serve_flags(default_serve_opts(args[1].as_str(), false), args, 2) {
            Ok(o) => Ok(Command::Witness(o)),
            Err(e) => Err(e),
        };
    }
    if same_text(cmd, "stress") {
        let opts = StressOpts {
            base: trim_slashes(args[1].as_str()).to_owned(),
            agents: 8,
            secs: 10,
            chunk_kb: 64,
            ca: None,
        };
        return match read_stress_flags(opts, args, 2) {
            Ok(o) => Ok(Command::Stress(o)),
            Err(e) => Err(e),
        };
    }
    if same_text(cmd, "cert") {
        return match read_host_flags(args, 2) {
            Ok(hosts) => Ok(Command::Cert { dir: args[1].clone(), hosts }),
            Err(e) => Err(e),
        };
    }
    if same_text(cmd, "mesh-ca") {
        return match read_host_flags(args, 2) {
            Ok(hosts) => Ok(Command::MeshCa { dir: args[1].clone(), hosts }),
            Err(e) => Err(e),
        };
    }
    if same_text(cmd, "bench") {
        return match read_bench_flags(args, 2) {
            Ok((blocks, size)) => Ok(Command::Bench { dir: args[1].clone(), blocks, size }),
            Err(e) => Err(e),
        };
    }
    if same_text(cmd, "put") && n == 2 {
        return Ok(Command::Put { dir: args[1].clone() });
    }
    if same_text(cmd, "get") && n == 3 {
        return Ok(Command::Get { dir: args[1].clone(), id: args[2].clone() });
    }
    if same_text(cmd, "key") && n > 4 {
        let mut chunks: Vec<String> = Vec::new();
        let mut i: usize = 4;
        while i < n
            invariant
                4 <= i <= n,
                n == args@.len(),
                chunks@.len() == i - 4,
                forall|k: int| 0 <= k < i - 4 ==> (#[trigger] chunks@[k])@ == args@[k + 4]@,
            decreases n - i,
        {
            chunks.push(args[i].clone());
            i += 1;
        }
        assert(text::texts_of(chunks@) =~= all.skip(4));
        return Ok(
            Command::Key {
                model: args[1].clone(),
                tokenizer: args[2].clone(),
                layout: args[3].clone(),
                chunks,
            },
        );
    }
    if same_text(cmd, "stat") && n == 2 {
        return Ok(Command::Stat { dir: args[1].clone() });
    }
    if same_text(cmd, "fsck") && n == 2 {
        return Ok(Command::Fsck { dir: args[1].clone() });
    }
    if same_text(cmd, "backup") && n == 3 {
        return Ok(Command::Backup { url: args[1].clone(), path: args[2].clone() });
    }
    if same_text(cmd, "restore") && n == 3 {
        return Ok(Command::Restore { path: args[1].clone(), dir: args[2].clone() });
    }
    Err(CliError { message: "invalid arguments".to_owned(), show_usage: true })
}

/// The keys of a chain of chunks, root first.
pub open spec fn chain_of(fingerprint: FingerprintView, chunks: Seq<Seq<u32>>) -> Seq<KeyView>
    decreases chunks.len(),
{
    if chunks.len() == 0 {
        Seq::empty()
    } else {
        let front = chain_of(fingerprint, chunks.drop_last());
        front.push(
            if chunks.len() == 1 {
                cache_key::root_key(fingerprint, chunks.last())
            } else {
                cache_key::child_key(front.last(), chunks.last())
            },
        )
    }
}

/// The tokens of the chunks up to the first that names none.
pub open spec fn good_chunks(list: Seq<Seq<char>>) -> Seq<Seq<u32>>
    decreases list.len(),
{
    if list.len() == 0 {
        Seq::empty()
    } else {
        match tokens_of(text::pieces(list[0])) {
            Ok(tokens) => seq![tokens] + good_chunks(list.drop_first()),
            Err(_) => Seq::empty(),
        }
    }
}

/// What is said of the first chunk that names no tokens.
pub open spec fn chunk_fault(list: Seq<Seq<char>>) -> Option<Complaint>
    decreases list.len(),
{
    if list.len() == 0 {
        None
    } else {
        match tokens_of(text::pieces(list[0])) {
            Ok(_) => chunk_fault(list.drop_first()),
            Err(e) => Some(e),
        }
    }
}

/// Chains cache keys over a token stream, chunk by chunk, up to the first
/// chunk that names no tokens; and says what is wrong with that one.
pub fn chain_keys(fingerprint: &ModelFingerprint, chunks: &Vec<String>) -> (r: (
    Vec<CacheKey>,
    Option<CliError>,
))
    ensures
        state::key_views(r.0@) == chain_of(
            fingerprint@,
            good_chunks(text::texts_of(chunks@)),
        ),
        match r.1 {
            Some(e) => chunk_fault(text::texts_of(chunks@)) == Some(e@),
            None => chunk_fault(text::texts_of(chunks@)) is None,
        },
        r.0@.len() == good_chunks(text::texts_of(chunks@)).len(),
        r.0@.len() > 0 ==> r.0@[0]@ == cache_key::root_key(
            fingerprint@,
            good_chunks(text::texts_of(chunks@))[0],
        ),
        forall|i: int|
            0 < i < r.0@.len() ==> (#[trigger] r.0@[i])@ == cache_key::child_key(
                r.0@[i - 1]@,
                good_chunks(text::texts_of(chunks@))[i],
            ),
{
    let ghost all = text::texts_of(chunks@);
    let ghost mut done: Seq<Seq<u32>> = Seq::empty();
    let mut keys: Vec<CacheKey> = Vec::new();
    let mut i: usize = 0;
    proof {
        assert(all.skip(0) =~= all);
        assert(state::key_views(keys@) =~= Seq::empty());
        assert(good_chunks(all) =~= done + good_chunks(all));
    }
    while i < chunks.len()
        invariant
            i <= chunks@.len(),
            keys@.len() == i,
            done.len() == i,
            all == text::texts_of(chunks@),
            good_chunks(all) == done + good_chunks(all.skip(i as int)),
            chunk_fault(all) == chunk_fault(all.skip(i as int)),
            state::key_views(keys@) == chain_of(fingerprint@, done),
        decreases chunks@.len() - i,
    {
        let ghost rest = all.skip(i as int);
        assert(rest[0] == chunks@[i as int]@);
        let tokens = match read_tokens(chunks[i].as_str()) {
            Ok(tokens) => tokens,
            Err(e) => {
                proof {
                    assert(done + Seq::<Seq<u32>>::empty() =~= done);
                    laws::the_keys_of_a_chain(fingerprint@, done, keys@);
                }
                return (keys, Some(e));
            },
        };
        let ghost before = state::key_views(keys@);
        let next = if i == 0 {
            CacheKey::root(fingerprint.clone(), tokens.as_slice())
        } else {
            assert(before.last() == keys@[i - 1]@);
            keys[i - 1].extend(tokens.as_slice())
        };
        let ghost added = next@;
        keys.push(next);
        proof {
            let more = done.push(tokens@);
            assert(rest.drop_first() =~= all.skip(i + 1));
            assert(done + (seq![tokens@] + good_chunks(all.skip(i + 1))) =~= more + good_chunks(
                all.skip(i + 1),
            ));
            assert(more.drop_last() =~= done);
            assert(state::key_views(keys@) =~= before.push(added));
            done = more;
        }
        i += 1;
    }
    proof {
        assert(all.skip(i as int) =~= Seq::empty());
        assert(done + Seq::<Seq<u32>>::empty() =~= done);
        laws::the_keys_of_a_chain(fingerprint@, done, keys@);
    }
    (keys, None)
}

} // verus!
