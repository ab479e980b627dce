//! Node records: decoding one tokenized report line into a typed node
//! record, and the name-keyed node collection.
//!
//! Decoding starts from an all-defaults record and applies each
//! `Key=Value` pair in order: later occurrences of a key overwrite
//! earlier ones, unknown keys are ignored, and a numeric value that
//! does not parse leaves its field absent. Decoding a node line never
//! fails.
use vstd::prelude::*;

use crate::errors::DuplicateError;
use crate::num::is_float_literal;
use crate::num::is_float_literal_spec;
use crate::num::parse_u32_field;
use crate::num::parse_u32_spec;
use crate::partition::all_distinct;
use crate::partition::dup_at;
use crate::partition::opt_view;
use crate::text::seq_views;
use crate::text::split_commas;
use crate::text::split_on;
use crate::text::lemma_lex_lt_irreflexive;
use crate::text::lemma_lex_lt_total;
use crate::text::lemma_lex_lt_trans;
use crate::text::lex_lt;
use crate::text::str_eq;
use crate::text::str_lt;
use crate::tokenize::field_views;
use crate::tokenize::lines_of;
use crate::tokenize::lines_spec;
use crate::tokenize::token_views;
use crate::tokenize::tokenize;
use crate::tokenize::tokenize_spec;
use vstd::slice::slice_index_get;


verus! {

/// One node record: every attribute the decoder recognises, defaulted
/// when absent. The CPU load is kept as its raw text exactly when that
/// text reads as a floating-point number (callers parse it when they
/// need the value), and is absent otherwise — the same
/// parse-or-absent rule the numeric fields follow.
#[derive(Debug)]
pub struct Node {
    pub name: String,
    pub arch: Option<String>,
    pub cores_per_socket: Option<u32>,
    pub cpu_alloc: Option<u32>,
    pub cpu_effective: Option<u32>,
    pub cpu_total: Option<u32>,
    pub cpu_load: Option<String>,
    pub available_features: Vec<String>,
    pub active_features: Vec<String>,
    pub gres: Option<String>,
    pub addr: Option<String>,
    pub hostname: Option<String>,
    pub version: Option<String>,
    pub os: Option<String>,
    pub real_memory: Option<u32>,
    pub allocated_memory: Option<u32>,
    pub sockets: Option<u32>,
    pub boards: Option<u32>,
    pub mem_spec_limit: Option<u32>,
    pub state: Option<String>,
    pub threads_per_core: Option<u32>,
    pub tmp_disk: Option<u32>,
    pub weight: Option<u32>,
    pub owner: Option<String>,
    pub mcs_label: Option<String>,
    pub partitions: Vec<String>,
    pub boot_time: Option<String>,
    pub slurmd_start_time: Option<String>,
    pub last_busy_time: Option<String>,
    pub resume_after_time: Option<String>,
    pub cfg_tres: Option<String>,
    pub alloc_tres: Option<String>,
    pub cap_watts: Option<String>,
    pub current_watts: Option<u32>,
    pub ave_watts: Option<u32>,
    pub ext_sensors_joules: Option<String>,
    pub ext_sensors_watts: Option<u32>,
    pub ext_sensors_temp: Option<String>,
    pub reservation_name: Option<String>,
    pub reason: Option<String>,
}

/// The mathematical content of a node record.
#[verifier::ext_equal]
pub ghost struct NodeModel {
    pub name: Seq<char>,
    pub arch: Option<Seq<char>>,
    pub cores_per_socket: Option<u32>,
    pub cpu_alloc: Option<u32>,
    pub cpu_effective: Option<u32>,
    pub cpu_total: Option<u32>,
    pub cpu_load: Option<Seq<char>>,
    pub available_features: Seq<Seq<char>>,
    pub active_features: Seq<Seq<char>>,
    pub gres: Option<Seq<char>>,
    pub addr: Option<Seq<char>>,
    pub hostname: Option<Seq<char>>,
    pub version: Option<Seq<char>>,
    pub os: Option<Seq<char>>,
    pub real_memory: Option<u32>,
    pub allocated_memory: Option<u32>,
    pub sockets: Option<u32>,
    pub boards: Option<u32>,
    pub mem_spec_limit: Option<u32>,
    pub state: Option<Seq<char>>,
    pub threads_per_core: Option<u32>,
    pub tmp_disk: Option<u32>,
    pub weight: Option<u32>,
    pub owner: Option<Seq<char>>,
    pub mcs_label: Option<Seq<char>>,
    pub partitions: Seq<Seq<char>>,
    pub boot_time: Option<Seq<char>>,
    pub slurmd_start_time: Option<Seq<char>>,
    pub last_busy_time: Option<Seq<char>>,
    pub resume_after_time: Option<Seq<char>>,
    pub cfg_tres: Option<Seq<char>>,
    pub alloc_tres: Option<Seq<char>>,
    pub cap_watts: Option<Seq<char>>,
    pub current_watts: Option<u32>,
    pub ave_watts: Option<u32>,
    pub ext_sensors_joules: Option<Seq<char>>,
    pub ext_sensors_watts: Option<u32>,
    pub ext_sensors_temp: Option<Seq<char>>,
    pub reservation_name: Option<Seq<char>>,
    pub reason: Option<Seq<char>>,
}

impl View for Node {
    type V = NodeModel;

    open spec fn view(&self) -> NodeModel {
        NodeModel {
            name: self.name@,
            arch: opt_view(self.arch),
            cores_per_socket: self.cores_per_socket,
            cpu_alloc: self.cpu_alloc,
            cpu_effective: self.cpu_effective,
            cpu_total: self.cpu_total,
            cpu_load: opt_view(self.cpu_load),
            available_features: seq_views(self.available_features@),
            active_features: seq_views(self.active_features@),
            gres: opt_view(self.gres),
            addr: opt_view(self.addr),
            hostname: opt_view(self.hostname),
            version: opt_view(self.version),
            os: opt_view(self.os),
            real_memory: self.real_memory,
            allocated_memory: self.allocated_memory,
            sockets: self.sockets,
            boards: self.boards,
            mem_spec_limit: self.mem_spec_limit,
            state: opt_view(self.state),
            threads_per_core: self.threads_per_core,
            tmp_disk: self.tmp_disk,
            weight: self.weight,
            owner: opt_view(self.owner),
            mcs_label: opt_view(self.mcs_label),
            partitions: seq_views(self.partitions@),
            boot_time: opt_view(self.boot_time),
            slurmd_start_time: opt_view(self.slurmd_start_time),
            last_busy_time: opt_view(self.last_busy_time),
            resume_after_time: opt_view(self.resume_after_time),
            cfg_tres: opt_view(self.cfg_tres),
            alloc_tres: opt_view(self.alloc_tres),
            cap_watts: opt_view(self.cap_watts),
            current_watts: self.current_watts,
            ave_watts: self.ave_watts,
            ext_sensors_joules: opt_view(self.ext_sensors_joules),
            ext_sensors_watts: self.ext_sensors_watts,
            ext_sensors_temp: opt_view(self.ext_sensors_temp),
            reservation_name: opt_view(self.reservation_name),
            reason: opt_view(self.reason),
        }
    }
}

/// The all-defaults record: empty name, absent scalars, empty sequences.
pub open spec fn node_init() -> NodeModel {
    NodeModel {
        name: Seq::empty(),
        arch: None,
        cores_per_socket: None,
        cpu_alloc: None,
        cpu_effective: None,
        cpu_total: None,
        cpu_load: None,
        available_features: Seq::empty(),
        active_features: Seq::empty(),
        gres: None,
        addr: None,
        hostname: None,
        version: None,
        os: None,
        real_memory: None,
        allocated_memory: None,
        sockets: None,
        boards: None,
        mem_spec_limit: None,
        state: None,
        threads_per_core: None,
        tmp_disk: None,
        weight: None,
        owner: None,
        mcs_label: None,
        partitions: Seq::empty(),
        boot_time: None,
        slurmd_start_time: None,
        last_busy_time: None,
        resume_after_time: None,
        cfg_tres: None,
        alloc_tres: None,
        cap_watts: None,
        current_watts: None,
        ave_watts: None,
        ext_sensors_joules: None,
        ext_sensors_watts: None,
        ext_sensors_temp: None,
        reservation_name: None,
        reason: None,
    }
}

/// One `Key=Value` pair applied to a record: keys are matched exactly
/// and case-sensitively; an unknown key changes nothing; a numeric
/// value that does not parse leaves the field absent; feature and
/// partition lists are comma-split verbatim.
pub open spec fn node_step(m: NodeModel, k: Seq<char>, v: Seq<char>) -> NodeModel {
    if k == "NodeName"@ {
        NodeModel { name: v, ..m }
    } else if k == "Arch"@ {
        NodeModel { arch: Some(v), ..m }
    } else if k == "CoresPerSocket"@ {
        NodeModel { cores_per_socket: parse_u32_spec(v), ..m }
    } else if k == "CPUAlloc"@ {
        NodeModel { cpu_alloc: parse_u32_spec(v), ..m }
    } else if k == "CPUEfctv"@ {
        NodeModel { cpu_effective: parse_u32_spec(v), ..m }
    } else if k == "CPUTot"@ {
        NodeModel { cpu_total: parse_u32_spec(v), ..m }
    } else if k == "CPULoad"@ {
        NodeModel {
            cpu_load: if is_float_literal_spec(v) {
                Some(v)
            } else {
                None
            },
            ..m
        }
    } else if k == "AvailableFeatures"@ {
        NodeModel { available_features: split_on(v, ','), ..m }
    } else if k == "ActiveFeatures"@ {
        NodeModel { active_features: split_on(v, ','), ..m }
    } else if k == "Gres"@ {
        NodeModel { gres: Some(v), ..m }
    } else if k == "NodeAddr"@ {
        NodeModel { addr: Some(v), ..m }
    } else if k == "NodeHostName"@ {
        NodeModel { hostname: Some(v), ..m }
    } else if k == "Version"@ {
        NodeModel { version: Some(v), ..m }
    } else if k == "OS"@ {
        NodeModel { os: Some(v), ..m }
    } else if k == "RealMemory"@ {
        NodeModel { real_memory: parse_u32_spec(v), ..m }
    } else if k == "AllocMem"@ {
        NodeModel { allocated_memory: parse_u32_spec(v), ..m }
    } else if k == "Sockets"@ {
        NodeModel { sockets: parse_u32_spec(v), ..m }
    } else if k == "Boards"@ {
        NodeModel { boards: parse_u32_spec(v), ..m }
    } else if k == "MemSpecLimit"@ {
        NodeModel { mem_spec_limit: parse_u32_spec(v), ..m }
    } else if k == "State"@ {
        NodeModel { state: Some(v), ..m }
    } else if k == "ThreadsPerCore"@ {
        NodeModel { threads_per_core: parse_u32_spec(v), ..m }
    } else if k == "TmpDisk"@ {
        NodeModel { tmp_disk: parse_u32_spec(v), ..m }
    } else if k == "Weight"@ {
        NodeModel { weight: parse_u32_spec(v), ..m }
    } else if k == "Owner"@ {
        NodeModel { owner: Some(v), ..m }
    } else if k == "MCS_label"@ {
        NodeModel { mcs_label: Some(v), ..m }
    } else if k == "Partitions"@ {
        NodeModel { partitions: split_on(v, ','), ..m }
    } else if k == "BootTime"@ {
        NodeModel { boot_time: Some(v), ..m }
    } else if k == "SlurmdStartTime"@ {
        NodeModel { slurmd_start_time: Some(v), ..m }
    } else if k == "LastBusyTime"@ {
        NodeModel { last_busy_time: Some(v), ..m }
    } else if k == "ResumeAfterTime"@ {
        NodeModel { resume_after_time: Some(v), ..m }
    } else if k == "CfgTRES"@ {
        NodeModel { cfg_tres: Some(v), ..m }
    } else if k == "AllocTRES"@ {
        NodeModel { alloc_tres: Some(v), ..m }
    } else if k == "CapWatts"@ {
        NodeModel { cap_watts: Some(v), ..m }
    } else if k == "CurrentWatts"@ {
        NodeModel { current_watts: parse_u32_spec(v), ..m }
    } else if k == "AveWatts"@ {
        NodeModel { ave_watts: parse_u32_spec(v), ..m }
    } else if k == "ExtSensorsJoules"@ {
        NodeModel { ext_sensors_joules: Some(v), ..m }
    } else if k == "ExtSensorsWatts"@ {
        NodeModel { ext_sensors_watts: parse_u32_spec(v), ..m }
    } else if k == "ExtSensorsTemp"@ {
        NodeModel { ext_sensors_temp: Some(v), ..m }
    } else if k == "ReservationName"@ {
        NodeModel { reservation_name: Some(v), ..m }
    } else if k == "Reason"@ {
        NodeModel { reason: Some(v), ..m }
    } else {
        m
    }
}

/// The record the given pairs denote, applied in order over the defaults.
pub open spec fn node_fold(toks: Seq<(Seq<char>, Seq<char>)>) -> NodeModel
    decreases toks.len(),
{
    if toks.len() == 0 {
        node_init()
    } else {
        node_step(node_fold(toks.drop_last()), toks.last().0, toks.last().1)
    }
}

impl Default for Node {
    /// The all-defaults record.
    fn default() -> (r: Node)
        ensures
            r@ == node_init(),
    {
        let r = Node {
            name: String::new(),
            arch: None,
            cores_per_socket: None,
            cpu_alloc: None,
            cpu_effective: None,
            cpu_total: None,
            cpu_load: None,
            available_features: Vec::new(),
            active_features: Vec::new(),
            gres: None,
            addr: None,
            hostname: None,
            version: None,
            os: None,
            real_memory: None,
            allocated_memory: None,
            sockets: None,
            boards: None,
            mem_spec_limit: None,
            state: None,
            threads_per_core: None,
            tmp_disk: None,
            weight: None,
            owner: None,
            mcs_label: None,
            partitions: Vec::new(),
            boot_time: None,
            slurmd_start_time: None,
            last_busy_time: None,
            resume_after_time: None,
            cfg_tres: None,
            alloc_tres: None,
            cap_watts: None,
            current_watts: None,
            ave_watts: None,
            ext_sensors_joules: None,
            ext_sensors_watts: None,
            ext_sensors_temp: None,
            reservation_name: None,
            reason: None,
        };
        proof {
            assert(r@ =~= node_init());
        }
        r
    }
}

/// Applies one `Key=Value` pair to the record, as `node_step` says.
#[verifier::rlimit(100)]
fn apply_node_field(p: &mut Node, key: &str, value: &str)
    ensures
        final(p)@ == node_step(old(p)@, key@, value@),
{
    if str_eq(key, "NodeName") {
        p.name = value.to_owned();
    } else if str_eq(key, "Arch") {
        p.arch = Some(value.to_owned());
    } else if str_eq(key, "CoresPerSocket") {
        p.cores_per_socket = parse_u32_field(value);
    } else if str_eq(key, "CPUAlloc") {
        p.cpu_alloc = parse_u32_field(value);
    } else if str_eq(key, "CPUEfctv") {
        p.cpu_effective = parse_u32_field(value);
    } else if str_eq(key, "CPUTot") {
        p.cpu_total = parse_u32_field(value);
    } else if str_eq(key, "CPULoad") {
        p.cpu_load = if is_float_literal(value) {
            Some(value.to_owned())
        } else {
            None
        };
    } else if str_eq(key, "AvailableFeatures") {
        p.available_features = split_commas(value);
    } else if str_eq(key, "ActiveFeatures") {
        p.active_features = split_commas(value);
    } else if str_eq(key, "Gres") {
        p.gres = Some(value.to_owned());
    } else if str_eq(key, "NodeAddr") {
        p.addr = Some(value.to_owned());
    } else if str_eq(key, "NodeHostName") {
        p.hostname = Some(value.to_owned());
    } else if str_eq(key, "Version") {
        p.version = Some(value.to_owned());
    } else if str_eq(key, "OS") {
        p.os = Some(value.to_owned());
    } else if str_eq(key, "RealMemory") {
        p.real_memory = parse_u32_field(value);
    } else if str_eq(key, "AllocMem") {
        p.allocated_memory = parse_u32_field(value);
    } else if str_eq(key, "Sockets") {
        p.sockets = parse_u32_field(value);
    } else if str_eq(key, "Boards") {
        p.boards = parse_u32_field(value);
    } else if str_eq(key, "MemSpecLimit") {
        p.mem_spec_limit = parse_u32_field(value);
    } else if str_eq(key, "State") {
        p.state = Some(value.to_owned());
    } else if str_eq(key, "ThreadsPerCore") {
        p.threads_per_core = parse_u32_field(value);
    } else if str_eq(key, "TmpDisk") {
        p.tmp_disk = parse_u32_field(value);
    } else if str_eq(key, "Weight") {
        p.weight = parse_u32_field(value);
    } else if str_eq(key, "Owner") {
        p.owner = Some(value.to_owned());
    } else if str_eq(key, "MCS_label") {
        p.mcs_label = Some(value.to_owned());
    } else if str_eq(key, "Partitions") {
        p.partitions = split_commas(value);
    } else if str_eq(key, "BootTime") {
        p.boot_time = Some(value.to_owned());
    } else if str_eq(key, "SlurmdStartTime") {
        p.slurmd_start_time = Some(value.to_owned());
    } else if str_eq(key, "LastBusyTime") {
        p.last_busy_time = Some(value.to_owned());
    } else if str_eq(key, "ResumeAfterTime") {
        p.resume_after_time = Some(value.to_owned());
    } else if str_eq(key, "CfgTRES") {
        p.cfg_tres = Some(value.to_owned());
    } else if str_eq(key, "AllocTRES") {
        p.alloc_tres = Some(value.to_owned());
    } else if str_eq(key, "CapWatts") {
        p.cap_watts = Some(value.to_owned());
    } else if str_eq(key, "CurrentWatts") {
        p.current_watts = parse_u32_field(value);
    } else if str_eq(key, "AveWatts") {
        p.ave_watts = parse_u32_field(value);
    } else if str_eq(key, "ExtSensorsJoules") {
        p.ext_sensors_joules = Some(value.to_owned());
    } else if str_eq(key, "ExtSensorsWatts") {
        p.ext_sensors_watts = parse_u32_field(value);
    } else if str_eq(key, "ExtSensorsTemp") {
        p.ext_sensors_temp = Some(value.to_owned());
    } else if str_eq(key, "ReservationName") {
        p.reservation_name = Some(value.to_owned());
    } else if str_eq(key, "Reason") {
        p.reason = Some(value.to_owned());
    } else {
    }
    proof {
        assert(p@ =~= node_step(old(p)@, key@, value@));
    }
}

impl Node {
    /// Decodes one tokenized line into a node record: defaults first,
    /// then each `Key=Value` pair applied in order. Unknown keys are
    /// ignored and later pairs overwrite earlier ones; decoding never
    /// fails.
    pub fn from_fields(fields: &[(&str, &str)]) -> (r: Node)
        ensures
            r@ == node_fold(field_views(fields@)),
    {
        let ghost toks = field_views(fields@);
        let mut node = Node::default();
        let n = fields.len();
        let mut idx: usize = 0;
        proof {
            assert(toks.take(0) =~= Seq::<(Seq<char>, Seq<char>)>::empty());
        }
        while idx < n
            invariant
                idx <= n,
                n == fields@.len(),
                toks == field_views(fields@),
                node@ == node_fold(toks.take(idx as int)),
            decreases n - idx,
        {
            let pair = slice_index_get(fields, idx);
            let key = pair.0;
            let value = pair.1;
            proof {
                assert(toks[idx as int] == (key@, value@));
            }
            let ghost m_prev = node@;
            apply_node_field(&mut node, key, value);
            proof {
                assert(toks.take(idx as int + 1).drop_last() =~= toks.take(idx as int));
                assert(toks.take(idx as int + 1).last() == toks[idx as int]);
            }
            idx = idx + 1;
        }
        proof {
            assert(toks.take(n as int) =~= toks);
        }
        node
    }
}

/// Decodes a whole multi-line report into node records, one per line,
/// in order.
pub fn parse_nodes(text: &str) -> (r: Vec<Node>)
    ensures
        r@.len() == lines_spec(text@).len(),
        forall|i: int|
            0 <= i < r@.len() ==> (#[trigger] r@[i])@ == node_fold(
                tokenize_spec(lines_spec(text@)[i]),
            ),
{
    let ls = lines_of(text);
    let ghost lsv = lines_spec(text@);
    let mut out: Vec<Node> = Vec::new();
    let mut i: usize = 0;
    while i < ls.len()
        invariant
            i <= ls@.len(),
            seq_views(ls@) == lsv,
            lsv == lines_spec(text@),
            out@.len() == i,
            forall|j: int|
                0 <= j < i ==> (#[trigger] out@[j])@ == node_fold(tokenize_spec(lsv[j])),
        decreases ls@.len() - i,
    {
        let line = &ls[i];
        let toks = tokenize(line.as_str());
        let mut refs: Vec<(&str, &str)> = Vec::new();
        let mut t: usize = 0;
        while t < toks.len()
            invariant
                t <= toks@.len(),
                refs@.len() == t,
                forall|q: int|
                    0 <= q < t ==> (#[trigger] refs@[q]).0@ == toks@[q].0@ && refs@[q].1@
                        == toks@[q].1@,
            decreases toks@.len() - t,
        {
            let pair = &toks[t];
            refs.push((pair.0.as_str(), pair.1.as_str()));
            t = t + 1;
        }
        proof {
            assert(field_views(refs@) =~= token_views(toks@));
            assert(field_views(refs@) == tokenize_spec(lsv[i as int]));
        }
        let node = Node::from_fields(refs.as_slice());
        out.push(node);
        i = i + 1;
    }
    out
}

/// The names of the records, in order.
pub open spec fn node_names(s: Seq<Node>) -> Seq<Seq<char>> {
    Seq::new(s.len(), |i: int| s[i]@.name)
}

/// Index of the first record with the given name, if any.
pub open spec fn node_name_index(s: Seq<Node>, name: Seq<char>) -> Option<int>
    decreases s.len(),
{
    if s.len() == 0 {
        None
    } else if s[0]@.name == name {
        Some(0int)
    } else {
        match node_name_index(s.drop_first(), name) {
            None => None,
            Some(i) => Some(i + 1),
        }
    }
}

/// `node_name_index` returns the position of the first record with the
/// name, or `None` exactly when no record has it.
proof fn lemma_node_name_index(s: Seq<Node>, name: Seq<char>)
    ensures
        match node_name_index(s, name) {
            Some(i) => 0 <= i < s.len() && s[i]@.name == name && forall|j: int|
                0 <= j < i ==> s[j]@.name != name,
            None => forall|j: int| 0 <= j < s.len() ==> s[j]@.name != name,
        },
    decreases s.len(),
{
    if s.len() > 0 && s[0]@.name != name {
        lemma_node_name_index(s.drop_first(), name);
        match node_name_index(s.drop_first(), name) {
            None => {
                assert forall|j: int| 0 <= j < s.len() implies s[j]@.name != name by {
                    if j >= 1 {
                        assert(s.drop_first()[j - 1] == s[j]);
                    }
                }
            },
            Some(i) => {
                assert(s.drop_first()[i] == s[i + 1]);
                assert forall|j: int| 0 <= j < i + 1 implies s[j]@.name != name by {
                    if j >= 1 {
                        assert(s.drop_first()[j - 1] == s[j]);
                    }
                }
            },
        }
    }
}

/// Whether the records stand in strictly ascending name order — the
/// order in which a name-keyed collection iterates.
pub open spec fn node_sorted_by_name(s: Seq<Node>) -> bool {
    forall|i: int, j: int| 0 <= i < j < s.len() ==> lex_lt(s[i]@.name, s[j]@.name)
}

/// Whether the record `r` occurs in `s`.
pub open spec fn node_appears(s: Seq<Node>, r: Node) -> bool {
    exists|k: int| 0 <= k < s.len() && s[k] == r
}

/// Whether the record `r` is one of `inputs[lo..]`.
pub open spec fn node_from_inputs(inputs: Seq<Node>, lo: int, r: Node) -> bool {
    exists|i: int| lo <= i < inputs.len() && inputs[i] == r
}

/// A name-keyed collection of node records, held in ascending name
/// order so that iteration visits records by key, never by insertion
/// order. Its view is the map from each present name to the record
/// holding it; `build` enforces that names are unique.
#[derive(Debug)]
pub struct NodeMap {
    pub nodes: Vec<Node>,
}

impl View for NodeMap {
    type V = Map<Seq<char>, NodeModel>;

    open spec fn view(&self) -> Map<Seq<char>, NodeModel> {
        Map::new(
            |k: Seq<char>| node_name_index(self.nodes@, k) is Some,
            |k: Seq<char>| self.nodes@[node_name_index(self.nodes@, k)->0]@,
        )
    }
}

impl NodeMap {
    /// Builds the collection from decoded records: records are taken in
    /// order, and the first record whose name was already seen aborts
    /// the whole build with that name — nothing partial is returned.
    /// Succeeds exactly when all names are distinct; the records are
    /// then stored in strictly ascending name order, so insertion
    /// order never shows through iteration, and the map holds exactly
    /// the input records, each under its own name.
    pub fn build(nodes: Vec<Node>) -> (r: Result<NodeMap, DuplicateError>)
        ensures
            match r {
                Ok(m) => {
                    &&& all_distinct(node_names(nodes@))
                    &&& m.nodes@.len() == nodes@.len()
                    &&& node_sorted_by_name(m.nodes@)
                    &&& forall|i: int|
                        0 <= i < nodes@.len() ==> m@.contains_key((#[trigger] nodes@[i])@.name)
                            && m@[nodes@[i]@.name] == nodes@[i]@
                    &&& forall|k: Seq<char>|
                        m@.contains_key(k) ==> exists|i: int|
                            0 <= i < nodes@.len() && (#[trigger] nodes@[i])@.name == k
                },
                Err(e) => exists|j: int|
                    {
                        &&& 0 <= j < nodes@.len()
                        &&& #[trigger] dup_at(node_names(nodes@), j)
                        &&& (forall|t: int| 0 <= t < j ==> !dup_at(node_names(nodes@), t))
                        &&& e.name@ == nodes@[j]@.name
                    },
            },
    {
        let ghost nodes0 = nodes@;
        let ghost names = node_names(nodes@);
        let n = nodes.len();
        let mut j: usize = 0;
        while j < n
            invariant
                j <= n,
                n == nodes@.len(),
                names == node_names(nodes@),
                forall|t: int| 0 <= t < j ==> !dup_at(names, t),
            decreases n - j,
        {
            let mut i: usize = 0;
            while i < j
                invariant
                    i <= j < n,
                    n == nodes@.len(),
                    names == node_names(nodes@),
                    forall|t: int| 0 <= t < j ==> !dup_at(names, t),
                    forall|t: int| 0 <= t < i ==> names[t] != names[j as int],
                decreases j - i,
            {
                if str_eq(nodes[i].name.as_str(), nodes[j].name.as_str()) {
                    proof {
                        assert(names[i as int] == names[j as int]);
                        assert(dup_at(names, j as int));
                    }
                    return Err(DuplicateError { name: nodes[j].name.clone() });
                }
                i = i + 1;
            }
            proof {
                assert(!dup_at(names, j as int));
            }
            j = j + 1;
        }
        // all names are pairwise distinct; order the records by name
        let mut rest = nodes;
        let mut ordered: Vec<Node> = Vec::new();
        proof {
            assert(rest@ =~= nodes0.take(rest@.len() as int));
        }
        while rest.len() > 0
            invariant
                rest@ == nodes0.take(rest@.len() as int),
                ordered@.len() + rest@.len() == nodes0.len(),
                names == node_names(nodes0),
                forall|t: int| 0 <= t < nodes0.len() ==> !dup_at(names, t),
                node_sorted_by_name(ordered@),
                forall|i: int|
                    rest@.len() <= i < nodes0.len() ==> node_appears(
                        ordered@,
                        #[trigger] nodes0[i],
                    ),
                forall|k: int|
                    0 <= k < ordered@.len() ==> node_from_inputs(
                        nodes0,
                        rest@.len() as int,
                        #[trigger] ordered@[k],
                    ),
            decreases rest@.len(),
        {
            let ghost before = ordered@;
            let ghost lo_before = rest@.len() as int;
            let rec = rest.pop().unwrap();
            let ghost ri = rest@.len() as int;
            proof {
                assert(rec == nodes0[ri]);
                assert(rest@ =~= nodes0.take(ri));
            }
            let olen = ordered.len();
            let mut p: usize = 0;
            while p < olen && str_lt(ordered[p].name.as_str(), rec.name.as_str())
                invariant
                    p <= olen,
                    olen == ordered@.len(),
                    ordered@ == before,
                    rec@ == nodes0[ri]@,
                    forall|k: int|
                        0 <= k < p ==> lex_lt((#[trigger] ordered@[k])@.name, rec@.name),
                decreases olen - p,
            {
                p = p + 1;
            }
            proof {
                // every stored record carries a later input's name, which
                // differs from this record's, so the records at and after
                // the insertion point order strictly after it
                if (p as int) < before.len() {
                    assert(node_from_inputs(nodes0, lo_before, before[p as int]));
                    let i0 = choose|i: int|
                        lo_before <= i < nodes0.len() && nodes0[i] == before[p as int];
                    if before[p as int]@.name == rec@.name {
                        assert(names[ri] == names[i0]);
                        assert(dup_at(names, i0));
                        assert(false);
                    }
                    lemma_lex_lt_total(rec@.name, before[p as int]@.name);
                    assert(lex_lt(rec@.name, before[p as int]@.name));
                }
                assert forall|k: int| p < k < before.len() implies lex_lt(
                    rec@.name,
                    (#[trigger] before[k])@.name,
                ) by {
                    assert(lex_lt(before[p as int]@.name, before[k]@.name));
                    lemma_lex_lt_trans(rec@.name, before[p as int]@.name, before[k]@.name);
                }
                before.insert_ensures(p as int, rec);
            }
            ordered.insert(p, rec);
            proof {
                assert(ordered@ == before.insert(p as int, rec));
                assert forall|x: int, y: int| 0 <= x < y < ordered@.len() implies lex_lt(
                    ordered@[x]@.name,
                    ordered@[y]@.name,
                ) by {
                    if y < p {
                        assert(ordered@[x] == before[x] && ordered@[y] == before[y]);
                    } else if y == p {
                        assert(ordered@[x] == before[x] && ordered@[y] == rec);
                    } else if x < p {
                        assert(ordered@[x] == before[x] && ordered@[y] == before[y - 1]);
                    } else if x == p {
                        assert(ordered@[x] == rec && ordered@[y] == before[y - 1]);
                    } else {
                        assert(ordered@[x] == before[x - 1] && ordered@[y] == before[y - 1]);
                    }
                }
                assert forall|i: int| ri <= i < nodes0.len() implies node_appears(
                    ordered@,
                    #[trigger] nodes0[i],
                ) by {
                    if i == ri {
                        assert(ordered@[p as int] == rec);
                    } else {
                        assert(node_appears(before, nodes0[i]));
                        let k = choose|k: int| 0 <= k < before.len() && before[k] == nodes0[i];
                        if k < p {
                            assert(ordered@[k] == before[k]);
                        } else {
                            assert(ordered@[k + 1] == before[k]);
                        }
                    }
                }
                assert forall|k: int| 0 <= k < ordered@.len() implies node_from_inputs(
                    nodes0,
                    ri,
                    #[trigger] ordered@[k],
                ) by {
                    if k == p {
                        assert(ordered@[k] == rec && nodes0[ri] == rec);
                    } else {
                        let kk: int = if k < p {
                            k
                        } else {
                            k - 1
                        };
                        assert(ordered@[k] == before[kk]);
                        assert(node_from_inputs(nodes0, lo_before, before[kk]));
                        let i0 = choose|i: int|
                            lo_before <= i < nodes0.len() && nodes0[i] == before[kk];
                        assert(nodes0[i0] == ordered@[k]);
                    }
                }
            }
        }
        let m = NodeMap { nodes: ordered };
        proof {
            let s = m.nodes@;
            assert(rest@.len() == 0);
            // strictly ordered names are pairwise distinct
            assert forall|t: int| 0 <= t < node_names(s).len() implies !dup_at(
                node_names(s),
                t,
            ) by {
                if dup_at(node_names(s), t) {
                    let u = choose|u: int| 0 <= u < t && node_names(s)[u] == node_names(s)[t];
                    assert(lex_lt(s[u]@.name, s[t]@.name));
                    lemma_lex_lt_irreflexive(s[t]@.name);
                    assert(false);
                }
            }
            lemma_node_lookup_exact(s);
            assert forall|i: int| 0 <= i < nodes0.len() implies m@.contains_key(
                (#[trigger] nodes0[i])@.name,
            ) && m@[nodes0[i]@.name] == nodes0[i]@ by {
                assert(node_appears(s, nodes0[i]));
                let k = choose|k: int| 0 <= k < s.len() && s[k] == nodes0[i];
                assert(node_name_index(s, s[k]@.name) == Some(k));
            }
            assert forall|key: Seq<char>| m@.contains_key(key) implies exists|i: int|
                0 <= i < nodes0.len() && (#[trigger] nodes0[i])@.name == key by {
                lemma_node_name_index(s, key);
                let idx = node_name_index(s, key)->0;
                assert(s[idx]@.name == key);
                assert(node_from_inputs(nodes0, 0, s[idx]));
                let i0 = choose|i: int| 0 <= i < nodes0.len() && nodes0[i] == s[idx];
                assert(nodes0[i0]@.name == key);
            }
        }
        Ok(m)
    }

    /// Looks the given name up: exactly the record stored under it, or
    /// nothing when no record has that name.
    pub fn get(&self, name: &str) -> (r: Option<&Node>)
        ensures
            match r {
                Some(p) => self@.contains_key(name@) && p@ == self@[name@],
                None => !self@.contains_key(name@),
            },
    {
        proof {
            lemma_node_name_index(self.nodes@, name@);
        }
        let n = self.nodes.len();
        let mut i: usize = 0;
        while i < n
            invariant
                i <= n,
                n == self.nodes@.len(),
                forall|j: int| 0 <= j < i ==> self.nodes@[j]@.name != name@,
                match node_name_index(self.nodes@, name@) {
                    Some(k) => 0 <= k < self.nodes@.len() && self.nodes@[k]@.name == name@
                        && forall|j: int| 0 <= j < k ==> self.nodes@[j]@.name != name@,
                    None => forall|j: int|
                        0 <= j < self.nodes@.len() ==> self.nodes@[j]@.name != name@,
                },
            decreases n - i,
        {
            let p = &self.nodes[i];
            if str_eq(p.name.as_str(), name) {
                return Some(p);
            }
            i = i + 1;
        }
        None
    }
}

/// Decoding a single `Key=Value` pair is one step over the defaults.
pub proof fn lemma_node_fold_single(k: Seq<char>, v: Seq<char>)
    ensures
        node_fold(seq![(k, v)]) == node_step(node_init(), k, v),
{
    assert(seq![(k, v)].drop_last() =~= Seq::<(Seq<char>, Seq<char>)>::empty());
    assert(seq![(k, v)].last() == (k, v));
    assert(node_fold(Seq::<(Seq<char>, Seq<char>)>::empty()) == node_init());
}

/// A numeric value that does not parse leaves its field absent:
/// malformed numeric data never fails the decode. The CPU load follows
/// the same rule with the floating-point grammar in place of the
/// unsigned-integer one.
pub proof fn lemma_node_numeric_fields(m: NodeModel, v: Seq<char>)
    requires
        parse_u32_spec(v) is None,
        !is_float_literal_spec(v),
    ensures
        node_step(m, "CoresPerSocket"@, v).cores_per_socket is None,
        node_step(m, "CPUAlloc"@, v).cpu_alloc is None,
        node_step(m, "CPUEfctv"@, v).cpu_effective is None,
        node_step(m, "CPUTot"@, v).cpu_total is None,
        node_step(m, "CPULoad"@, v).cpu_load is None,
        node_step(m, "RealMemory"@, v).real_memory is None,
        node_step(m, "AllocMem"@, v).allocated_memory is None,
        node_step(m, "Sockets"@, v).sockets is None,
        node_step(m, "Boards"@, v).boards is None,
        node_step(m, "MemSpecLimit"@, v).mem_spec_limit is None,
        node_step(m, "ThreadsPerCore"@, v).threads_per_core is None,
        node_step(m, "TmpDisk"@, v).tmp_disk is None,
        node_step(m, "Weight"@, v).weight is None,
        node_step(m, "CurrentWatts"@, v).current_watts is None,
        node_step(m, "AveWatts"@, v).ave_watts is None,
        node_step(m, "ExtSensorsWatts"@, v).ext_sensors_watts is None,
{
    broadcast use vstd::string::group_string_axioms;

    reveal_strlit("NodeName");
    reveal_strlit("Arch");
    reveal_strlit("CoresPerSocket");
    reveal_strlit("CPUAlloc");
    reveal_strlit("CPUEfctv");
    reveal_strlit("CPUTot");
    reveal_strlit("CPULoad");
    reveal_strlit("AvailableFeatures");
    reveal_strlit("ActiveFeatures");
    reveal_strlit("Gres");
    reveal_strlit("NodeAddr");
    reveal_strlit("NodeHostName");
    reveal_strlit("Version");
    reveal_strlit("OS");
    reveal_strlit("RealMemory");
    reveal_strlit("AllocMem");
    reveal_strlit("Sockets");
    reveal_strlit("Boards");
    reveal_strlit("MemSpecLimit");
    reveal_strlit("State");
    reveal_strlit("ThreadsPerCore");
    reveal_strlit("TmpDisk");
    reveal_strlit("Weight");
    reveal_strlit("Owner");
    reveal_strlit("MCS_label");
    reveal_strlit("Partitions");
    reveal_strlit("BootTime");
    reveal_strlit("SlurmdStartTime");
    reveal_strlit("LastBusyTime");
    reveal_strlit("ResumeAfterTime");
    reveal_strlit("CfgTRES");
    reveal_strlit("AllocTRES");
    reveal_strlit("CapWatts");
    reveal_strlit("CurrentWatts");
    reveal_strlit("AveWatts");
    reveal_strlit("ExtSensorsJoules");
    reveal_strlit("ExtSensorsWatts");
    reveal_strlit("ExtSensorsTemp");
    reveal_strlit("ReservationName");
    reveal_strlit("Reason");
    assert("NodeName"@.len() == 8);
    assert("NodeName"@[0] == 'N');
    assert("Arch"@.len() == 4);
    assert("Arch"@[0] == 'A');
    assert("CoresPerSocket"@.len() == 14);
    assert("CoresPerSocket"@[0] == 'C');
    assert("CPUAlloc"@.len() == 8);
    assert("CPUAlloc"@[0] == 'C');
    assert("CPUEfctv"@.len() == 8);
    assert("CPUEfctv"@[0] == 'C');
    assert("CPUTot"@.len() == 6);
    assert("CPUTot"@[0] == 'C');
    assert("CPULoad"@.len() == 7);
    assert("CPULoad"@[0] == 'C');
    assert("AvailableFeatures"@.len() == 17);
    assert("AvailableFeatures"@[0] == 'A');
    assert("ActiveFeatures"@.len() == 14);
    assert("ActiveFeatures"@[0] == 'A');
    assert("Gres"@.len() == 4);
    assert("Gres"@[0] == 'G');
    assert("NodeAddr"@.len() == 8);
    assert("NodeAddr"@[0] == 'N');
    assert("NodeHostName"@.len() == 12);
    assert("NodeHostName"@[0] == 'N');
    assert("Version"@.len() == 7);
    assert("Version"@[0] == 'V');
    assert("OS"@.len() == 2);
    assert("OS"@[0] == 'O');
    assert("RealMemory"@.len() == 10);
    assert("RealMemory"@[0] == 'R');
    assert("AllocMem"@.len() == 8);
    assert("AllocMem"@[0] == 'A');
    assert("Sockets"@.len() == 7);
    assert("Sockets"@[0] == 'S');
    assert("Boards"@.len() == 6);
    assert("Boards"@[0] == 'B');
    assert("MemSpecLimit"@.len() == 12);
    assert("MemSpecLimit"@[0] == 'M');
    assert("State"@.len() == 5);
    assert("State"@[0] == 'S');
    assert("ThreadsPerCore"@.len() == 14);
    assert("ThreadsPerCore"@[0] == 'T');
    assert("TmpDisk"@.len() == 7);
    assert("TmpDisk"@[0] == 'T');
    assert("Weight"@.len() == 6);
    assert("Weight"@[0] == 'W');
    assert("Owner"@.len() == 5);
    assert("Owner"@[0] == 'O');
    assert("MCS_label"@.len() == 9);
    assert("MCS_label"@[0] == 'M');
    assert("Partitions"@.len() == 10);
    assert("Partitions"@[0] == 'P');
    assert("BootTime"@.len() == 8);
    assert("BootTime"@[0] == 'B');
    assert("SlurmdStartTime"@.len() == 15);
    assert("SlurmdStartTime"@[0] == 'S');
    assert("LastBusyTime"@.len() == 12);
    assert("LastBusyTime"@[0] == 'L');
    assert("ResumeAfterTime"@.len() == 15);
    assert("ResumeAfterTime"@[0] == 'R');
    assert("CfgTRES"@.len() == 7);
    assert("CfgTRES"@[0] == 'C');
    assert("AllocTRES"@.len() == 9);
    assert("AllocTRES"@[0] == 'A');
    assert("CapWatts"@.len() == 8);
    assert("CapWatts"@[0] == 'C');
    assert("CurrentWatts"@.len() == 12);
    assert("CurrentWatts"@[0] == 'C');
    assert("AveWatts"@.len() == 8);
    assert("AveWatts"@[0] == 'A');
    assert("ExtSensorsJoules"@.len() == 16);
    assert("ExtSensorsJoules"@[0] == 'E');
    assert("ExtSensorsWatts"@.len() == 15);
    assert("ExtSensorsWatts"@[0] == 'E');
    assert("ExtSensorsTemp"@.len() == 14);
    assert("ExtSensorsTemp"@[0] == 'E');
    assert("ReservationName"@.len() == 15);
    assert("ReservationName"@[0] == 'R');
    assert("Reason"@.len() == 6);
    assert("Reason"@[0] == 'R');
    assert("CPUAlloc"@[3] == 'A');
    assert("CPUEfctv"@[3] == 'E');
    assert("AllocMem"@[1] == 'l');
    assert("AveWatts"@[1] == 'v');
}

/// With all names distinct, each record is found under its own name,
/// and nothing is found under a name no record has.
pub proof fn lemma_node_lookup_exact(s: Seq<Node>)
    requires
        all_distinct(node_names(s)),
    ensures
        forall|i: int|
            0 <= i < s.len() ==> node_name_index(s, #[trigger] s[i]@.name) == Some(i) && s[
                node_name_index(s, s[i]@.name)->0
            ] == s[i],
        forall|k: Seq<char>|
            (forall|i: int| 0 <= i < s.len() ==> (#[trigger] s[i]@.name) != k)
                ==> node_name_index(s, k) is None,
{
    assert forall|i: int| 0 <= i < s.len() implies node_name_index(s, #[trigger] s[i]@.name)
        == Some(i) && s[node_name_index(s, s[i]@.name)->0] == s[i] by {
        lemma_node_name_index(s, s[i]@.name);
        match node_name_index(s, s[i]@.name) {
            None => {
                assert(false);
            },
            Some(k) => {
                if k < i {
                    assert(node_names(s)[k] == node_names(s)[i as int]);
                    assert(dup_at(node_names(s), i));
                    assert(false);
                }
                if k > i {
                    assert(false);
                }
            },
        }
    }
    assert forall|k: Seq<char>|
        (forall|i: int| 0 <= i < s.len() ==> (#[trigger] s[i]@.name) != k) implies node_name_index(
        s,
        k,
    ) is None by {
        lemma_node_name_index(s, k);
        match node_name_index(s, k) {
            Some(i) => {
                assert(s[i]@.name == k);
                assert(false);
            },
            None => {},
        }
    }
}

} // verus!
