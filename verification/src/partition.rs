//! Partition records: decoding one tokenized report line into a typed
//! partition record, and the name-keyed partition collection.
//!
//! Decoding starts from an all-defaults record and applies each
//! `Key=Value` pair in order: later occurrences of a key overwrite
//! earlier ones, unknown keys are ignored, and a numeric value that
//! does not parse leaves its field absent. The one exception is the
//! `Nodes` field, whose value runs through the hostlist expander: a
//! malformed bracket range there aborts the whole record.
use vstd::prelude::*;

use crate::errors::DuplicateError;
use crate::hostlist::ExpandError;
use crate::hostlist::bracket_ok;
use crate::hostlist::expand_node_range;
use crate::hostlist::expand_spec;
use crate::hostlist::hostlist_wf;
use crate::num::parse_u32_field;
use crate::num::parse_u32_spec;
use crate::text::seq_views;
use crate::text::split_commas;
use crate::text::split_on;
use crate::text::lemma_lex_lt_irreflexive;
use crate::text::lemma_lex_lt_total;
use crate::text::lemma_lex_lt_trans;
use crate::text::lex_lt;
use crate::text::str_eq;
use crate::text::str_lt;
use crate::tokenize::field_views;
use crate::tokenize::lines_of;
use crate::tokenize::lines_spec;
use crate::tokenize::token_views;
use crate::tokenize::tokenize;
use crate::tokenize::tokenize_spec;
use vstd::slice::slice_index_get;


verus! {

/// One partition record: every attribute the decoder recognises,
/// defaulted when absent.
#[derive(Debug)]
pub struct Partition {
    pub name: String,
    pub allow_groups: Option<String>,
    pub allow_accounts: Vec<String>,
    pub allow_qos: Option<String>,
    pub alloc_nodes: Option<String>,
    pub default: bool,
    pub qos: Option<String>,
    pub default_time: Option<String>,
    pub disable_root_jobs: bool,
    pub exclusive_user: bool,
    pub grace_time: Option<u32>,
    pub hidden: bool,
    pub max_nodes: Option<u32>,
    pub max_time: Option<String>,
    pub min_nodes: Option<u32>,
    pub lln: bool,
    pub max_cpus_per_node: Option<String>,
    pub max_cpus_per_socket: Option<String>,
    pub nodes: Vec<String>,
    pub priority_job_factor: Option<u32>,
    pub priority_tier: Option<u32>,
    pub root_only: bool,
    pub req_resv: bool,
    pub oversubscribe: bool,
    pub over_time_limit: Option<String>,
    pub preempt_mode: Option<String>,
    pub state: Option<String>,
    pub total_cpus: Option<u32>,
    pub total_nodes: Option<u32>,
    pub select_type_parameters: Option<String>,
    pub job_defaults: Option<String>,
    pub def_mem_per_cpu: Option<u32>,
    pub max_mem_per_node: Option<u32>,
    pub tres: Option<String>,
    pub tres_billing_weights: Option<String>,
}

/// The view of an optional string.
pub open spec fn opt_view(o: Option<String>) -> Option<Seq<char>> {
    match o {
        Some(s) => Some(s@),
        None => None,
    }
}

/// The mathematical content of a partition record.
#[verifier::ext_equal]
pub ghost struct PartitionModel {
    pub name: Seq<char>,
    pub allow_groups: Option<Seq<char>>,
    pub allow_accounts: Seq<Seq<char>>,
    pub allow_qos: Option<Seq<char>>,
    pub alloc_nodes: Option<Seq<char>>,
    pub default: bool,
    pub qos: Option<Seq<char>>,
    pub default_time: Option<Seq<char>>,
    pub disable_root_jobs: bool,
    pub exclusive_user: bool,
    pub grace_time: Option<u32>,
    pub hidden: bool,
    pub max_nodes: Option<u32>,
    pub max_time: Option<Seq<char>>,
    pub min_nodes: Option<u32>,
    pub lln: bool,
    pub max_cpus_per_node: Option<Seq<char>>,
    pub max_cpus_per_socket: Option<Seq<char>>,
    pub nodes: Seq<Seq<char>>,
    pub priority_job_factor: Option<u32>,
    pub priority_tier: Option<u32>,
    pub root_only: bool,
    pub req_resv: bool,
    pub oversubscribe: bool,
    pub over_time_limit: Option<Seq<char>>,
    pub preempt_mode: Option<Seq<char>>,
    pub state: Option<Seq<char>>,
    pub total_cpus: Option<u32>,
    pub total_nodes: Option<u32>,
    pub select_type_parameters: Option<Seq<char>>,
    pub job_defaults: Option<Seq<char>>,
    pub def_mem_per_cpu: Option<u32>,
    pub max_mem_per_node: Option<u32>,
    pub tres: Option<Seq<char>>,
    pub tres_billing_weights: Option<Seq<char>>,
}

impl View for Partition {
    type V = PartitionModel;

    open spec fn view(&self) -> PartitionModel {
        PartitionModel {
            name: self.name@,
            allow_groups: opt_view(self.allow_groups),
            allow_accounts: seq_views(self.allow_accounts@),
            allow_qos: opt_view(self.allow_qos),
            alloc_nodes: opt_view(self.alloc_nodes),
            default: self.default,
            qos: opt_view(self.qos),
            default_time: opt_view(self.default_time),
            disable_root_jobs: self.disable_root_jobs,
            exclusive_user: self.exclusive_user,
            grace_time: self.grace_time,
            hidden: self.hidden,
            max_nodes: self.max_nodes,
            max_time: opt_view(self.max_time),
            min_nodes: self.min_nodes,
            lln: self.lln,
            max_cpus_per_node: opt_view(self.max_cpus_per_node),
            max_cpus_per_socket: opt_view(self.max_cpus_per_socket),
            nodes: seq_views(self.nodes@),
            priority_job_factor: self.priority_job_factor,
            priority_tier: self.priority_tier,
            root_only: self.root_only,
            req_resv: self.req_resv,
            oversubscribe: self.oversubscribe,
            over_time_limit: opt_view(self.over_time_limit),
            preempt_mode: opt_view(self.preempt_mode),
            state: opt_view(self.state),
            total_cpus: self.total_cpus,
            total_nodes: self.total_nodes,
            select_type_parameters: opt_view(self.select_type_parameters),
            job_defaults: opt_view(self.job_defaults),
            def_mem_per_cpu: self.def_mem_per_cpu,
            max_mem_per_node: self.max_mem_per_node,
            tres: opt_view(self.tres),
            tres_billing_weights: opt_view(self.tres_billing_weights),
        }
    }
}

/// The all-defaults record: empty name, absent scalars, empty
/// sequences, false booleans.
pub open spec fn partition_init() -> PartitionModel {
    PartitionModel {
        name: Seq::empty(),
        allow_groups: None,
        allow_accounts: Seq::empty(),
        allow_qos: None,
        alloc_nodes: None,
        default: false,
        qos: None,
        default_time: None,
        disable_root_jobs: false,
        exclusive_user: false,
        grace_time: None,
        hidden: false,
        max_nodes: None,
        max_time: None,
        min_nodes: None,
        lln: false,
        max_cpus_per_node: None,
        max_cpus_per_socket: None,
        nodes: Seq::empty(),
        priority_job_factor: None,
        priority_tier: None,
        root_only: false,
        req_resv: false,
        oversubscribe: false,
        over_time_limit: None,
        preempt_mode: None,
        state: None,
        total_cpus: None,
        total_nodes: None,
        select_type_parameters: None,
        job_defaults: None,
        def_mem_per_cpu: None,
        max_mem_per_node: None,
        tres: None,
        tres_billing_weights: None,
    }
}

/// One `Key=Value` pair applied to a record: keys are matched exactly
/// and case-sensitively; an unknown key changes nothing; a boolean
/// field is true exactly when the value is the literal `YES`; a numeric
/// value that does not parse leaves the field absent; the `Nodes` value
/// runs through the hostlist expander, whose failure aborts with the
/// offending segment.
pub open spec fn partition_step(m: PartitionModel, k: Seq<char>, v: Seq<char>) -> Result<
    PartitionModel,
    Seq<char>,
> {
    if k == "PartitionName"@ {
        Ok(PartitionModel { name: v, ..m })
    } else if k == "AllowGroups"@ {
        Ok(PartitionModel { allow_groups: Some(v), ..m })
    } else if k == "AllowAccounts"@ {
        Ok(PartitionModel { allow_accounts: split_on(v, ','), ..m })
    } else if k == "AllowQos"@ {
        Ok(PartitionModel { allow_qos: Some(v), ..m })
    } else if k == "AllocNodes"@ {
        Ok(PartitionModel { alloc_nodes: Some(v), ..m })
    } else if k == "Default"@ {
        Ok(PartitionModel { default: v == "YES"@, ..m })
    } else if k == "QoS"@ {
        Ok(PartitionModel { qos: Some(v), ..m })
    } else if k == "DefaultTime"@ {
        Ok(PartitionModel { default_time: Some(v), ..m })
    } else if k == "DisableRootJobs"@ {
        Ok(PartitionModel { disable_root_jobs: v == "YES"@, ..m })
    } else if k == "ExclusiveUser"@ {
        Ok(PartitionModel { exclusive_user: v == "YES"@, ..m })
    } else if k == "GraceTime"@ {
        Ok(PartitionModel { grace_time: parse_u32_spec(v), ..m })
    } else if k == "Hidden"@ {
        Ok(PartitionModel { hidden: v == "YES"@, ..m })
    } else if k == "MaxNodes"@ {
        Ok(PartitionModel { max_nodes: parse_u32_spec(v), ..m })
    } else if k == "MaxTime"@ {
        Ok(PartitionModel { max_time: Some(v), ..m })
    } else if k == "MinNodes"@ {
        Ok(PartitionModel { min_nodes: parse_u32_spec(v), ..m })
    } else if k == "LLN"@ {
        Ok(PartitionModel { lln: v == "YES"@, ..m })
    } else if k == "MaxCPUsPerNode"@ {
        Ok(PartitionModel { max_cpus_per_node: Some(v), ..m })
    } else if k == "MaxCPUsPerSocket"@ {
        Ok(PartitionModel { max_cpus_per_socket: Some(v), ..m })
    } else if k == "Nodes"@ {
        match expand_spec(v) {
            Err(seg) => Err(seg),
            Ok(names) => Ok(PartitionModel { nodes: names, ..m }),
        }
    } else if k == "PriorityJobFactor"@ {
        Ok(PartitionModel { priority_job_factor: parse_u32_spec(v), ..m })
    } else if k == "PriorityTier"@ {
        Ok(PartitionModel { priority_tier: parse_u32_spec(v), ..m })
    } else if k == "RootOnly"@ {
        Ok(PartitionModel { root_only: v == "YES"@, ..m })
    } else if k == "ReqResv"@ {
        Ok(PartitionModel { req_resv: v == "YES"@, ..m })
    } else if k == "OverSubscribe"@ {
        Ok(PartitionModel { oversubscribe: v == "YES"@, ..m })
    } else if k == "OverTimeLimit"@ {
        Ok(PartitionModel { over_time_limit: Some(v), ..m })
    } else if k == "PreemptMode"@ {
        Ok(PartitionModel { preempt_mode: Some(v), ..m })
    } else if k == "State"@ {
        Ok(PartitionModel { state: Some(v), ..m })
    } else if k == "TotalCPUs"@ {
        Ok(PartitionModel { total_cpus: parse_u32_spec(v), ..m })
    } else if k == "TotalNodes"@ {
        Ok(PartitionModel { total_nodes: parse_u32_spec(v), ..m })
    } else if k == "SelectTypeParameters"@ {
        Ok(PartitionModel { select_type_parameters: Some(v), ..m })
    } else if k == "JobDefaults"@ {
        Ok(PartitionModel { job_defaults: Some(v), ..m })
    } else if k == "DefMemPerCPU"@ {
        Ok(PartitionModel { def_mem_per_cpu: parse_u32_spec(v), ..m })
    } else if k == "MaxMemPerNode"@ {
        Ok(PartitionModel { max_mem_per_node: parse_u32_spec(v), ..m })
    } else if k == "TRES"@ {
        Ok(PartitionModel { tres: Some(v), ..m })
    } else if k == "TRESBillingWeights"@ {
        Ok(PartitionModel { tres_billing_weights: Some(v), ..m })
    } else {
        Ok(m)
    }
}

/// The record the given pairs denote, applied in order over the
/// defaults; the first failing `Nodes` expansion aborts with its
/// offending segment.
pub open spec fn partition_fold(toks: Seq<(Seq<char>, Seq<char>)>) -> Result<
    PartitionModel,
    Seq<char>,
>
    decreases toks.len(),
{
    if toks.len() == 0 {
        Ok(partition_init())
    } else {
        match partition_fold(toks.drop_last()) {
            Err(seg) => Err(seg),
            Ok(m) => partition_step(m, toks.last().0, toks.last().1),
        }
    }
}

/// Whether every `Nodes` value among the pairs is a readable hostlist
/// expression (see `bracket_ok`).
pub open spec fn tokens_bracket_ok(toks: Seq<(Seq<char>, Seq<char>)>) -> bool {
    forall|i: int|
        0 <= i < toks.len() ==> ((#[trigger] toks[i]).0 == "Nodes"@ ==> bracket_ok(toks[i].1))
}

/// Once the fold has failed on a prefix, the whole fold fails the same way.
proof fn lemma_partition_fold_err(toks: Seq<(Seq<char>, Seq<char>)>, i: int)
    requires
        0 <= i <= toks.len(),
        partition_fold(toks.take(i)) is Err,
    ensures
        partition_fold(toks) == partition_fold(toks.take(i)),
    decreases toks.len() - i,
{
    if i == toks.len() {
        assert(toks.take(i) =~= toks);
    } else {
        assert(toks.take(i + 1).drop_last() =~= toks.take(i));
        lemma_partition_fold_err(toks, i + 1);
    }
}

impl Default for Partition {
    /// The all-defaults record.
    fn default() -> (r: Partition)
        ensures
            r@ == partition_init(),
    {
        let r = Partition {
            name: String::new(),
            allow_groups: None,
            allow_accounts: Vec::new(),
            allow_qos: None,
            alloc_nodes: None,
            default: false,
            qos: None,
            default_time: None,
            disable_root_jobs: false,
            exclusive_user: false,
            grace_time: None,
            hidden: false,
            max_nodes: None,
            max_time: None,
            min_nodes: None,
            lln: false,
            max_cpus_per_node: None,
            max_cpus_per_socket: None,
            nodes: Vec::new(),
            priority_job_factor: None,
            priority_tier: None,
            root_only: false,
            req_resv: false,
            oversubscribe: false,
            over_time_limit: None,
            preempt_mode: None,
            state: None,
            total_cpus: None,
            total_nodes: None,
            select_type_parameters: None,
            job_defaults: None,
            def_mem_per_cpu: None,
            max_mem_per_node: None,
            tres: None,
            tres_billing_weights: None,
        };
        proof {
            assert(r@ =~= partition_init());
        }
        r
    }
}

/// Applies one `Key=Value` pair to the record, as `partition_step` says.
#[verifier::rlimit(100)]
fn apply_partition_field(p: &mut Partition, key: &str, value: &str) -> (r: Result<(), ExpandError>)
    requires
        key@ == "Nodes"@ ==> bracket_ok(value@),
    ensures
        match (r, partition_step(old(p)@, key@, value@)) {
            (Ok(()), Ok(m)) => final(p)@ == m,
            (Err(e), Err(seg)) => e.segment@ == seg,
            _ => false,
        },
{
    if str_eq(key, "PartitionName") {
        p.name = value.to_owned();
    } else if str_eq(key, "AllowGroups") {
        p.allow_groups = Some(value.to_owned());
    } else if str_eq(key, "AllowAccounts") {
        p.allow_accounts = split_commas(value);
    } else if str_eq(key, "AllowQos") {
        p.allow_qos = Some(value.to_owned());
    } else if str_eq(key, "AllocNodes") {
        p.alloc_nodes = Some(value.to_owned());
    } else if str_eq(key, "Default") {
        p.default = str_eq(value, "YES");
    } else if str_eq(key, "QoS") {
        p.qos = Some(value.to_owned());
    } else if str_eq(key, "DefaultTime") {
        p.default_time = Some(value.to_owned());
    } else if str_eq(key, "DisableRootJobs") {
        p.disable_root_jobs = str_eq(value, "YES");
    } else if str_eq(key, "ExclusiveUser") {
        p.exclusive_user = str_eq(value, "YES");
    } else if str_eq(key, "GraceTime") {
        p.grace_time = parse_u32_field(value);
    } else if str_eq(key, "Hidden") {
        p.hidden = str_eq(value, "YES");
    } else if str_eq(key, "MaxNodes") {
        p.max_nodes = parse_u32_field(value);
    } else if str_eq(key, "MaxTime") {
        p.max_time = Some(value.to_owned());
    } else if str_eq(key, "MinNodes") {
        p.min_nodes = parse_u32_field(value);
    } else if str_eq(key, "LLN") {
        p.lln = str_eq(value, "YES");
    } else if str_eq(key, "MaxCPUsPerNode") {
        p.max_cpus_per_node = Some(value.to_owned());
    } else if str_eq(key, "MaxCPUsPerSocket") {
        p.max_cpus_per_socket = Some(value.to_owned());
    } else if str_eq(key, "Nodes") {
        match expand_node_range(value) {
            Ok(names) => {
                p.nodes = names;
            },
            Err(e) => {
                return Err(e);
            },
        }
    } else if str_eq(key, "PriorityJobFactor") {
        p.priority_job_factor = parse_u32_field(value);
    } else if str_eq(key, "PriorityTier") {
        p.priority_tier = parse_u32_field(value);
    } else if str_eq(key, "RootOnly") {
        p.root_only = str_eq(value, "YES");
    } else if str_eq(key, "ReqResv") {
        p.req_resv = str_eq(value, "YES");
    } else if str_eq(key, "OverSubscribe") {
        p.oversubscribe = str_eq(value, "YES");
    } else if str_eq(key, "OverTimeLimit") {
        p.over_time_limit = Some(value.to_owned());
    } else if str_eq(key, "PreemptMode") {
        p.preempt_mode = Some(value.to_owned());
    } else if str_eq(key, "State") {
        p.state = Some(value.to_owned());
    } else if str_eq(key, "TotalCPUs") {
        p.total_cpus = parse_u32_field(value);
    } else if str_eq(key, "TotalNodes") {
        p.total_nodes = parse_u32_field(value);
    } else if str_eq(key, "SelectTypeParameters") {
        p.select_type_parameters = Some(value.to_owned());
    } else if str_eq(key, "JobDefaults") {
        p.job_defaults = Some(value.to_owned());
    } else if str_eq(key, "DefMemPerCPU") {
        p.def_mem_per_cpu = parse_u32_field(value);
    } else if str_eq(key, "MaxMemPerNode") {
        p.max_mem_per_node = parse_u32_field(value);
    } else if str_eq(key, "TRES") {
        p.tres = Some(value.to_owned());
    } else if str_eq(key, "TRESBillingWeights") {
        p.tres_billing_weights = Some(value.to_owned());
    } else {
    }
    proof {
        assert(partition_step(old(p)@, key@, value@) == Ok::<PartitionModel, Seq<char>>(p@));
    }
    Ok(())
}

impl Partition {
    /// Decodes one tokenized line into a partition record: defaults
    /// first, then each `Key=Value` pair applied in order. Unknown keys
    /// are ignored and later pairs overwrite earlier ones; a `Nodes`
    /// value whose bracketed range cannot be parsed aborts with that
    /// segment.
    pub fn from_fields(fields: &[(&str, &str)]) -> (r: Result<Partition, ExpandError>)
        requires
            tokens_bracket_ok(field_views(fields@)),
        ensures
            match (r, partition_fold(field_views(fields@))) {
                (Ok(p), Ok(m)) => p@ == m,
                (Err(e), Err(seg)) => e.segment@ == seg,
                _ => false,
            },
    {
        let ghost toks = field_views(fields@);
        let mut partition = Partition::default();
        let n = fields.len();
        let mut idx: usize = 0;
        proof {
            assert(toks.take(0) =~= Seq::<(Seq<char>, Seq<char>)>::empty());
        }
        while idx < n
            invariant
                idx <= n,
                n == fields@.len(),
                toks == field_views(fields@),
                tokens_bracket_ok(toks),
                partition_fold(toks.take(idx as int)) == Ok::<PartitionModel, Seq<char>>(
                    partition@,
                ),
            decreases n - idx,
        {
            let pair = slice_index_get(fields, idx);
            let key = pair.0;
            let value = pair.1;
            proof {
                assert(toks[idx as int] == (key@, value@));
            }
            let ghost m_prev = partition@;
            match apply_partition_field(&mut partition, key, value) {
                Ok(()) => {
                    proof {
                        assert(toks.take(idx as int + 1).drop_last() =~= toks.take(idx as int));
                        assert(toks.take(idx as int + 1).last() == toks[idx as int]);
                        assert(partition_step(m_prev, key@, value@)
                            == Ok::<PartitionModel, Seq<char>>(partition@));
                    }
                },
                Err(e) => {
                    proof {
                        assert(toks.take(idx as int + 1).drop_last() =~= toks.take(idx as int));
                        assert(toks.take(idx as int + 1).last() == toks[idx as int]);
                        assert(partition_fold(toks.take(idx as int + 1)) is Err);
                        lemma_partition_fold_err(toks, idx as int + 1);
                    }
                    return Err(e);
                },
            }
            idx = idx + 1;
        }
        proof {
            assert(toks.take(n as int) =~= toks);
        }
        Ok(partition)
    }
}

/// The names of the records, in order.
pub open spec fn partition_names(s: Seq<Partition>) -> Seq<Seq<char>> {
    Seq::new(s.len(), |i: int| s[i]@.name)
}

/// Whether the record at `j` repeats an earlier record's name.
pub open spec fn dup_at(names: Seq<Seq<char>>, j: int) -> bool {
    exists|i: int| 0 <= i < j && names[i] == names[j]
}

/// Whether no record repeats an earlier record's name.
pub open spec fn all_distinct(names: Seq<Seq<char>>) -> bool {
    forall|j: int| 0 <= j < names.len() ==> !(#[trigger] dup_at(names, j))
}

/// Index of the first record with the given name, if any.
pub open spec fn name_index(s: Seq<Partition>, name: Seq<char>) -> Option<int>
    decreases s.len(),
{
    if s.len() == 0 {
        None
    } else if s[0]@.name == name {
        Some(0int)
    } else {
        match name_index(s.drop_first(), name) {
            None => None,
            Some(i) => Some(i + 1),
        }
    }
}

/// `name_index` returns the position of the first record with the
/// name, or `None` exactly when no record has it.
proof fn lemma_name_index(s: Seq<Partition>, name: Seq<char>)
    ensures
        match name_index(s, name) {
            Some(i) => 0 <= i < s.len() && s[i]@.name == name && forall|j: int|
                0 <= j < i ==> s[j]@.name != name,
            None => forall|j: int| 0 <= j < s.len() ==> s[j]@.name != name,
        },
    decreases s.len(),
{
    if s.len() > 0 && s[0]@.name != name {
        lemma_name_index(s.drop_first(), name);
        match name_index(s.drop_first(), name) {
            None => {
                assert forall|j: int| 0 <= j < s.len() implies s[j]@.name != name by {
                    if j >= 1 {
                        assert(s.drop_first()[j - 1] == s[j]);
                    }
                }
            },
            Some(i) => {
                assert(s.drop_first()[i] == s[i + 1]);
                assert forall|j: int| 0 <= j < i + 1 implies s[j]@.name != name by {
                    if j >= 1 {
                        assert(s.drop_first()[j - 1] == s[j]);
                    }
                }
            },
        }
    }
}

/// Whether the records stand in strictly ascending name order — the
/// order in which a name-keyed collection iterates.
pub open spec fn sorted_by_name(s: Seq<Partition>) -> bool {
    forall|i: int, j: int| 0 <= i < j < s.len() ==> lex_lt(s[i]@.name, s[j]@.name)
}

/// Whether the record `r` occurs in `s`.
pub open spec fn appears(s: Seq<Partition>, r: Partition) -> bool {
    exists|k: int| 0 <= k < s.len() && s[k] == r
}

/// Whether the record `r` is one of `inputs[lo..]`.
pub open spec fn from_inputs(inputs: Seq<Partition>, lo: int, r: Partition) -> bool {
    exists|i: int| lo <= i < inputs.len() && inputs[i] == r
}

/// A name-keyed collection of partition records, held in ascending
/// name order so that iteration visits records by key, never by
/// insertion order. Its view is the map from each present name to the
/// record holding it; `build` enforces that names are unique.
#[derive(Debug)]
pub struct PartitionMap {
    pub partitions: Vec<Partition>,
}

impl View for PartitionMap {
    type V = Map<Seq<char>, PartitionModel>;

    open spec fn view(&self) -> Map<Seq<char>, PartitionModel> {
        Map::new(
            |k: Seq<char>| name_index(self.partitions@, k) is Some,
            |k: Seq<char>| self.partitions@[name_index(self.partitions@, k)->0]@,
        )
    }
}

impl PartitionMap {
    /// Builds the collection from decoded records: records are taken in
    /// order, and the first record whose name was already seen aborts
    /// the whole build with that name — nothing partial is returned.
    /// Succeeds exactly when all names are distinct; the records are
    /// then stored in strictly ascending name order, so insertion
    /// order never shows through iteration, and the map holds exactly
    /// the input records, each under its own name.
    pub fn build(parts: Vec<Partition>) -> (r: Result<PartitionMap, DuplicateError>)
        ensures
            match r {
                Ok(m) => {
                    &&& all_distinct(partition_names(parts@))
                    &&& m.partitions@.len() == parts@.len()
                    &&& sorted_by_name(m.partitions@)
                    &&& forall|i: int|
                        0 <= i < parts@.len() ==> m@.contains_key((#[trigger] parts@[i])@.name)
                            && m@[parts@[i]@.name] == parts@[i]@
                    &&& forall|k: Seq<char>|
                        m@.contains_key(k) ==> exists|i: int|
                            0 <= i < parts@.len() && (#[trigger] parts@[i])@.name == k
                },
                Err(e) => exists|j: int|
                    {
                        &&& 0 <= j < parts@.len()
                        &&& #[trigger] dup_at(partition_names(parts@), j)
                        &&& (forall|t: int| 0 <= t < j ==> !dup_at(partition_names(parts@), t))
                        &&& e.name@ == parts@[j]@.name
                    },
            },
    {
        let ghost parts0 = parts@;
        let ghost names = partition_names(parts@);
        let n = parts.len();
        let mut j: usize = 0;
        while j < n
            invariant
                j <= n,
                n == parts@.len(),
                names == partition_names(parts@),
                forall|t: int| 0 <= t < j ==> !dup_at(names, t),
            decreases n - j,
        {
            let mut i: usize = 0;
            while i < j
                invariant
                    i <= j < n,
                    n == parts@.len(),
                    names == partition_names(parts@),
                    forall|t: int| 0 <= t < j ==> !dup_at(names, t),
                    forall|t: int| 0 <= t < i ==> names[t] != names[j as int],
                decreases j - i,
            {
                if str_eq(parts[i].name.as_str(), parts[j].name.as_str()) {
                    proof {
                        assert(names[i as int] == names[j as int]);
                        assert(dup_at(names, j as int));
                    }
                    return Err(DuplicateError { name: parts[j].name.clone() });
                }
                i = i + 1;
            }
            proof {
                assert(!dup_at(names, j as int));
            }
            j = j + 1;
        }
        // all names are pairwise distinct; order the records by name
        let mut rest = parts;
        let mut ordered: Vec<Partition> = Vec::new();
        proof {
            assert(rest@ =~= parts0.take(rest@.len() as int));
        }
        while rest.len() > 0
            invariant
                rest@ == parts0.take(rest@.len() as int),
                ordered@.len() + rest@.len() == parts0.len(),
                names == partition_names(parts0),
                forall|t: int| 0 <= t < parts0.len() ==> !dup_at(names, t),
                sorted_by_name(ordered@),
                forall|i: int|
                    rest@.len() <= i < parts0.len() ==> appears(ordered@, #[trigger] parts0[i]),
                forall|k: int|
                    0 <= k < ordered@.len() ==> from_inputs(
                        parts0,
                        rest@.len() as int,
                        #[trigger] ordered@[k],
                    ),
            decreases rest@.len(),
        {
            let ghost before = ordered@;
            let ghost lo_before = rest@.len() as int;
            let rec = rest.pop().unwrap();
            let ghost ri = rest@.len() as int;
            proof {
                assert(rec == parts0[ri]);
                assert(rest@ =~= parts0.take(ri));
            }
            let olen = ordered.len();
            let mut p: usize = 0;
            while p < olen && str_lt(ordered[p].name.as_str(), rec.name.as_str())
                invariant
                    p <= olen,
                    olen == ordered@.len(),
                    ordered@ == before,
                    rec@ == parts0[ri]@,
                    forall|k: int|
                        0 <= k < p ==> lex_lt((#[trigger] ordered@[k])@.name, rec@.name),
                decreases olen - p,
            {
                p = p + 1;
            }
            proof {
                // every stored record carries a later input's name, which
                // differs from this record's, so the records at and after
                // the insertion point order strictly after it
                if (p as int) < before.len() {
                    assert(from_inputs(parts0, lo_before, before[p as int]));
                    let i0 = choose|i: int|
                        lo_before <= i < parts0.len() && parts0[i] == before[p as int];
                    if before[p as int]@.name == rec@.name {
                        assert(names[ri] == names[i0]);
                        assert(dup_at(names, i0));
                        assert(false);
                    }
                    lemma_lex_lt_total(rec@.name, before[p as int]@.name);
                    assert(lex_lt(rec@.name, before[p as int]@.name));
                }
                assert forall|k: int| p < k < before.len() implies lex_lt(
                    rec@.name,
                    (#[trigger] before[k])@.name,
                ) by {
                    assert(lex_lt(before[p as int]@.name, before[k]@.name));
                    lemma_lex_lt_trans(rec@.name, before[p as int]@.name, before[k]@.name);
                }
                before.insert_ensures(p as int, rec);
            }
            ordered.insert(p, rec);
            proof {
                assert(ordered@ == before.insert(p as int, rec));
                assert forall|x: int, y: int| 0 <= x < y < ordered@.len() implies lex_lt(
                    ordered@[x]@.name,
                    ordered@[y]@.name,
                ) by {
                    if y < p {
                        assert(ordered@[x] == before[x] && ordered@[y] == before[y]);
                    } else if y == p {
                        assert(ordered@[x] == before[x] && ordered@[y] == rec);
                    } else if x < p {
                        assert(ordered@[x] == before[x] && ordered@[y] == before[y - 1]);
                    } else if x == p {
                        assert(ordered@[x] == rec && ordered@[y] == before[y - 1]);
                    } else {
                        assert(ordered@[x] == before[x - 1] && ordered@[y] == before[y - 1]);
                    }
                }
                assert forall|i: int| ri <= i < parts0.len() implies appears(
                    ordered@,
                    #[trigger] parts0[i],
                ) by {
                    if i == ri {
                        assert(ordered@[p as int] == rec);
                    } else {
                        assert(appears(before, parts0[i]));
                        let k = choose|k: int| 0 <= k < before.len() && before[k] == parts0[i];
                        if k < p {
                            assert(ordered@[k] == before[k]);
                        } else {
                            assert(ordered@[k + 1] == before[k]);
                        }
                    }
                }
                assert forall|k: int| 0 <= k < ordered@.len() implies from_inputs(
                    parts0,
                    ri,
                    #[trigger] ordered@[k],
                ) by {
                    if k == p {
                        assert(ordered@[k] == rec && parts0[ri] == rec);
                    } else {
                        let kk: int = if k < p {
                            k
                        } else {
                            k - 1
                        };
                        assert(ordered@[k] == before[kk]);
                        assert(from_inputs(parts0, lo_before, before[kk]));
                        let i0 = choose|i: int|
                            lo_before <= i < parts0.len() && parts0[i] == before[kk];
                        assert(parts0[i0] == ordered@[k]);
                    }
                }
            }
        }
        let m = PartitionMap { partitions: ordered };
        proof {
            let s = m.partitions@;
            assert(rest@.len() == 0);
            // strictly ordered names are pairwise distinct
            assert forall|t: int| 0 <= t < partition_names(s).len() implies !dup_at(
                partition_names(s),
                t,
            ) by {
                if dup_at(partition_names(s), t) {
                    let u = choose|u: int|
                        0 <= u < t && partition_names(s)[u] == partition_names(s)[t];
                    assert(lex_lt(s[u]@.name, s[t]@.name));
                    lemma_lex_lt_irreflexive(s[t]@.name);
                    assert(false);
                }
            }
            lemma_partition_lookup_exact(s);
            assert forall|i: int| 0 <= i < parts0.len() implies m@.contains_key(
                (#[trigger] parts0[i])@.name,
            ) && m@[parts0[i]@.name] == parts0[i]@ by {
                assert(appears(s, parts0[i]));
                let k = choose|k: int| 0 <= k < s.len() && s[k] == parts0[i];
                assert(name_index(s, s[k]@.name) == Some(k));
            }
            assert forall|key: Seq<char>| m@.contains_key(key) implies exists|i: int|
                0 <= i < parts0.len() && (#[trigger] parts0[i])@.name == key by {
                lemma_name_index(s, key);
                let idx = name_index(s, key)->0;
                assert(s[idx]@.name == key);
                assert(from_inputs(parts0, 0, s[idx]));
                let i0 = choose|i: int| 0 <= i < parts0.len() && parts0[i] == s[idx];
                assert(parts0[i0]@.name == key);
            }
        }
        Ok(m)
    }

    /// Looks the given name up: exactly the record stored under it, or
    /// nothing when no record has that name.
    pub fn get(&self, name: &str) -> (r: Option<&Partition>)
        ensures
            match r {
                Some(p) => self@.contains_key(name@) && p@ == self@[name@],
                None => !self@.contains_key(name@),
            },
    {
        proof {
            lemma_name_index(self.partitions@, name@);
        }
        let n = self.partitions.len();
        let mut i: usize = 0;
        while i < n
            invariant
                i <= n,
                n == self.partitions@.len(),
                forall|j: int| 0 <= j < i ==> self.partitions@[j]@.name != name@,
                match name_index(self.partitions@, name@) {
                    Some(k) => 0 <= k < self.partitions@.len() && self.partitions@[k]@.name
                        == name@ && forall|j: int|
                        0 <= j < k ==> self.partitions@[j]@.name != name@,
                    None => forall|j: int|
                        0 <= j < self.partitions@.len() ==> self.partitions@[j]@.name != name@,
                },
            decreases n - i,
        {
            let p = &self.partitions[i];
            if str_eq(p.name.as_str(), name) {
                return Some(p);
            }
            i = i + 1;
        }
        None
    }
}

/// The records of all lines, in order; the first line whose `Nodes`
/// expansion fails aborts the whole batch with its offending segment.
pub open spec fn partitions_of_lines(ls: Seq<Seq<char>>) -> Result<Seq<PartitionModel>, Seq<char>>
    decreases ls.len(),
{
    if ls.len() == 0 {
        Ok(Seq::empty())
    } else {
        match partition_fold(tokenize_spec(ls[0])) {
            Err(seg) => Err(seg),
            Ok(m) => match partitions_of_lines(ls.drop_first()) {
                Err(seg) => Err(seg),
                Ok(rest) => Ok(seq![m] + rest),
            },
        }
    }
}

/// Whether every `Nodes` value on every line of the report is a
/// readable hostlist expression (see `bracket_ok`).
pub open spec fn partitions_text_ok(s: Seq<char>) -> bool {
    forall|i: int|
        0 <= i < lines_spec(s).len() ==> tokens_bracket_ok(
            tokenize_spec(#[trigger] lines_spec(s)[i]),
        )
}

/// The views of the records, elementwise.
pub open spec fn partition_models(s: Seq<Partition>) -> Seq<PartitionModel> {
    Seq::new(s.len(), |i: int| s[i]@)
}

/// Decodes a whole multi-line report into partition records, one per
/// line, in order; the first line whose `Nodes` expansion fails aborts
/// the whole batch with that segment.
pub fn parse_partitions(text: &str) -> (r: Result<Vec<Partition>, ExpandError>)
    requires
        partitions_text_ok(text@),
    ensures
        match (r, partitions_of_lines(lines_spec(text@))) {
            (Ok(ps), Ok(ms)) => partition_models(ps@) == ms,
            (Err(e), Err(seg)) => e.segment@ == seg,
            _ => false,
        },
{
    let ls = lines_of(text);
    let ghost lsv = lines_spec(text@);
    let mut out: Vec<Partition> = Vec::new();
    let mut i: usize = 0;
    proof {
        assert(lsv.skip(0) =~= lsv);
        assert(partition_models(out@) + partitions_of_lines(lsv)->Ok_0 =~= partitions_of_lines(
            lsv,
        )->Ok_0);
    }
    while i < ls.len()
        invariant
            i <= ls@.len(),
            seq_views(ls@) == lsv,
            lsv == lines_spec(text@),
            partitions_text_ok(text@),
            out@.len() == i,
            partitions_of_lines(lsv) == (match partitions_of_lines(lsv.skip(i as int)) {
                Err(seg) => Err::<Seq<PartitionModel>, Seq<char>>(seg),
                Ok(rest) => Ok(partition_models(out@) + rest),
            }),
        decreases ls@.len() - i,
    {
        proof {
            assert(lsv.skip(i as int)[0] == ls@[i as int]@);
            assert(lsv.skip(i as int).drop_first() =~= lsv.skip(i as int + 1));
            assert(tokens_bracket_ok(tokenize_spec(lines_spec(text@)[i as int])));
        }
        let line = &ls[i];
        let toks = tokenize(line.as_str());
        let mut refs: Vec<(&str, &str)> = Vec::new();
        let mut t: usize = 0;
        while t < toks.len()
            invariant
                t <= toks@.len(),
                refs@.len() == t,
                forall|q: int|
                    0 <= q < t ==> (#[trigger] refs@[q]).0@ == toks@[q].0@ && refs@[q].1@
                        == toks@[q].1@,
            decreases toks@.len() - t,
        {
            let pair = &toks[t];
            refs.push((pair.0.as_str(), pair.1.as_str()));
            t = t + 1;
        }
        proof {
            assert(field_views(refs@) =~= token_views(toks@));
            assert(field_views(refs@) == tokenize_spec(ls@[i as int]@));
        }
        let ghost out_before = out@;
        match Partition::from_fields(refs.as_slice()) {
            Ok(p) => {
                out.push(p);
                proof {
                    let ghost m = partition_fold(tokenize_spec(lsv.skip(i as int)[0]))->Ok_0;
                    assert(partition_models(out@) =~= partition_models(out_before) + seq![m]);
                    assert forall|rest: Seq<PartitionModel>|
                        (partition_models(out_before) + seq![m]) + rest =~= partition_models(
                        out_before,
                    ) + (seq![m] + rest) by {}
                }
            },
            Err(e) => {
                proof {
                    assert(partitions_of_lines(lsv) is Err);
                }
                return Err(e);
            },
        }
        i = i + 1;
    }
    proof {
        assert(lsv.skip(ls@.len() as int) =~= Seq::<Seq<char>>::empty());
        assert(partition_models(out@) + Seq::<PartitionModel>::empty() =~= partition_models(out@));
    }
    Ok(out)
}

/// Whether every `Nodes` value on every line is a readable hostlist
/// expression, so that `parse_partitions` accepts the report.
pub fn partitions_input_wf(text: &str) -> (r: bool)
    ensures
        r == partitions_text_ok(text@),
{
    let ls = lines_of(text);
    let ghost lsv = lines_spec(text@);
    let mut i: usize = 0;
    while i < ls.len()
        invariant
            i <= ls@.len(),
            seq_views(ls@) == lsv,
            lsv == lines_spec(text@),
            forall|j: int|
                0 <= j < i ==> tokens_bracket_ok(tokenize_spec(#[trigger] lsv[j])),
        decreases ls@.len() - i,
    {
        let line = &ls[i];
        let toks = tokenize(line.as_str());
        let ghost tv = tokenize_spec(ls@[i as int]@);
        let mut t: usize = 0;
        while t < toks.len()
            invariant
                t <= toks@.len(),
                i < ls@.len(),
                seq_views(ls@) == lsv,
                lsv == lines_spec(text@),
                tv == tokenize_spec(lsv[i as int]),
                tv == token_views(toks@),
                forall|q: int| 0 <= q < t ==> ((#[trigger] tv[q]).0 == "Nodes"@ ==> bracket_ok(tv[q].1)),
            decreases toks@.len() - t,
        {
            let pair = &toks[t];
            if str_eq(pair.0.as_str(), "Nodes") {
                if !hostlist_wf(pair.1.as_str()) {
                    proof {
                        assert(tv[t as int].0 == "Nodes"@ && !bracket_ok(tv[t as int].1));
                        assert(!tokens_bracket_ok(tv));
                        assert(!partitions_text_ok(text@)) by {
                            assert(tokenize_spec(lines_spec(text@)[i as int]) == tv);
                        }
                    }
                    return false;
                }
            }
            t = t + 1;
        }
        proof {
            assert(tokens_bracket_ok(tokenize_spec(lsv[i as int])));
        }
        i = i + 1;
    }
    proof {
        assert(partitions_text_ok(text@));
    }
    true
}

/// Decoding a single `Key=Value` pair is one step over the defaults.
pub proof fn lemma_partition_fold_single(k: Seq<char>, v: Seq<char>)
    ensures
        partition_fold(seq![(k, v)]) == partition_step(partition_init(), k, v),
{
    assert(seq![(k, v)].drop_last() =~= Seq::<(Seq<char>, Seq<char>)>::empty());
    assert(seq![(k, v)].last() == (k, v));
    assert(partition_fold(Seq::<(Seq<char>, Seq<char>)>::empty()) == Ok::<
        PartitionModel,
        Seq<char>,
    >(partition_init()));
}

/// A boolean field becomes true exactly when its value is the literal
/// `YES`; any other value, `yes`, `no` or the empty string included,
/// leaves it false, just as an absent key does.
pub proof fn lemma_partition_bool_fields(m: PartitionModel, v: Seq<char>)
    ensures
        partition_step(m, "Default"@, v)->Ok_0.default == (v == "YES"@),
        partition_step(m, "DisableRootJobs"@, v)->Ok_0.disable_root_jobs == (v == "YES"@),
        partition_step(m, "ExclusiveUser"@, v)->Ok_0.exclusive_user == (v == "YES"@),
        partition_step(m, "Hidden"@, v)->Ok_0.hidden == (v == "YES"@),
        partition_step(m, "LLN"@, v)->Ok_0.lln == (v == "YES"@),
        partition_step(m, "RootOnly"@, v)->Ok_0.root_only == (v == "YES"@),
        partition_step(m, "ReqResv"@, v)->Ok_0.req_resv == (v == "YES"@),
        partition_step(m, "OverSubscribe"@, v)->Ok_0.oversubscribe == (v == "YES"@),
{
    broadcast use vstd::string::group_string_axioms;

    reveal_strlit("PartitionName");
    reveal_strlit("AllowGroups");
    reveal_strlit("AllowAccounts");
    reveal_strlit("AllowQos");
    reveal_strlit("AllocNodes");
    reveal_strlit("Default");
    reveal_strlit("QoS");
    reveal_strlit("DefaultTime");
    reveal_strlit("DisableRootJobs");
    reveal_strlit("ExclusiveUser");
    reveal_strlit("GraceTime");
    reveal_strlit("Hidden");
    reveal_strlit("MaxNodes");
    reveal_strlit("MaxTime");
    reveal_strlit("MinNodes");
    reveal_strlit("LLN");
    reveal_strlit("MaxCPUsPerNode");
    reveal_strlit("MaxCPUsPerSocket");
    reveal_strlit("Nodes");
    reveal_strlit("PriorityJobFactor");
    reveal_strlit("PriorityTier");
    reveal_strlit("RootOnly");
    reveal_strlit("ReqResv");
    reveal_strlit("OverSubscribe");
    reveal_strlit("OverTimeLimit");
    reveal_strlit("PreemptMode");
    reveal_strlit("State");
    reveal_strlit("TotalCPUs");
    reveal_strlit("TotalNodes");
    reveal_strlit("SelectTypeParameters");
    reveal_strlit("JobDefaults");
    reveal_strlit("DefMemPerCPU");
    reveal_strlit("MaxMemPerNode");
    reveal_strlit("TRES");
    reveal_strlit("TRESBillingWeights");
    assert("PartitionName"@.len() == 13);
    assert("PartitionName"@[0] == 'P');
    assert("AllowGroups"@.len() == 11);
    assert("AllowGroups"@[0] == 'A');
    assert("AllowAccounts"@.len() == 13);
    assert("AllowAccounts"@[0] == 'A');
    assert("AllowQos"@.len() == 8);
    assert("AllowQos"@[0] == 'A');
    assert("AllocNodes"@.len() == 10);
    assert("AllocNodes"@[0] == 'A');
    assert("Default"@.len() == 7);
    assert("Default"@[0] == 'D');
    assert("QoS"@.len() == 3);
    assert("QoS"@[0] == 'Q');
    assert("DefaultTime"@.len() == 11);
    assert("DefaultTime"@[0] == 'D');
    assert("DisableRootJobs"@.len() == 15);
    assert("DisableRootJobs"@[0] == 'D');
    assert("ExclusiveUser"@.len() == 13);
    assert("ExclusiveUser"@[0] == 'E');
    assert("GraceTime"@.len() == 9);
    assert("GraceTime"@[0] == 'G');
    assert("Hidden"@.len() == 6);
    assert("Hidden"@[0] == 'H');
    assert("MaxNodes"@.len() == 8);
    assert("MaxNodes"@[0] == 'M');
    assert("MaxTime"@.len() == 7);
    assert("MaxTime"@[0] == 'M');
    assert("MinNodes"@.len() == 8);
    assert("MinNodes"@[0] == 'M');
    assert("LLN"@.len() == 3);
    assert("LLN"@[0] == 'L');
    assert("MaxCPUsPerNode"@.len() == 14);
    assert("MaxCPUsPerNode"@[0] == 'M');
    assert("MaxCPUsPerSocket"@.len() == 16);
    assert("MaxCPUsPerSocket"@[0] == 'M');
    assert("Nodes"@.len() == 5);
    assert("Nodes"@[0] == 'N');
    assert("PriorityJobFactor"@.len() == 17);
    assert("PriorityJobFactor"@[0] == 'P');
    assert("PriorityTier"@.len() == 12);
    assert("PriorityTier"@[0] == 'P');
    assert("RootOnly"@.len() == 8);
    assert("RootOnly"@[0] == 'R');
    assert("ReqResv"@.len() == 7);
    assert("ReqResv"@[0] == 'R');
    assert("OverSubscribe"@.len() == 13);
    assert("OverSubscribe"@[0] == 'O');
    assert("OverTimeLimit"@.len() == 13);
    assert("OverTimeLimit"@[0] == 'O');
    assert("PreemptMode"@.len() == 11);
    assert("PreemptMode"@[0] == 'P');
    assert("State"@.len() == 5);
    assert("State"@[0] == 'S');
    assert("TotalCPUs"@.len() == 9);
    assert("TotalCPUs"@[0] == 'T');
    assert("TotalNodes"@.len() == 10);
    assert("TotalNodes"@[0] == 'T');
    assert("SelectTypeParameters"@.len() == 20);
    assert("SelectTypeParameters"@[0] == 'S');
    assert("JobDefaults"@.len() == 11);
    assert("JobDefaults"@[0] == 'J');
    assert("DefMemPerCPU"@.len() == 12);
    assert("DefMemPerCPU"@[0] == 'D');
    assert("MaxMemPerNode"@.len() == 13);
    assert("MaxMemPerNode"@[0] == 'M');
    assert("TRES"@.len() == 4);
    assert("TRES"@[0] == 'T');
    assert("TRESBillingWeights"@.len() == 18);
    assert("TRESBillingWeights"@[0] == 'T');
    assert("MaxNodes"@[1] == 'a');
    assert("MinNodes"@[1] == 'i');
}

/// A numeric value that does not parse as an unsigned integer leaves
/// its field absent: malformed numeric data never fails the decode.
pub proof fn lemma_partition_numeric_fields(m: PartitionModel, v: Seq<char>)
    requires
        parse_u32_spec(v) is None,
    ensures
        partition_step(m, "GraceTime"@, v)->Ok_0.grace_time is None,
        partition_step(m, "MaxNodes"@, v)->Ok_0.max_nodes is None,
        partition_step(m, "MinNodes"@, v)->Ok_0.min_nodes is None,
        partition_step(m, "PriorityJobFactor"@, v)->Ok_0.priority_job_factor is None,
        partition_step(m, "PriorityTier"@, v)->Ok_0.priority_tier is None,
        partition_step(m, "TotalCPUs"@, v)->Ok_0.total_cpus is None,
        partition_step(m, "TotalNodes"@, v)->Ok_0.total_nodes is None,
        partition_step(m, "DefMemPerCPU"@, v)->Ok_0.def_mem_per_cpu is None,
        partition_step(m, "MaxMemPerNode"@, v)->Ok_0.max_mem_per_node is None,
{
    broadcast use vstd::string::group_string_axioms;

    reveal_strlit("PartitionName");
    reveal_strlit("AllowGroups");
    reveal_strlit("AllowAccounts");
    reveal_strlit("AllowQos");
    reveal_strlit("AllocNodes");
    reveal_strlit("Default");
    reveal_strlit("QoS");
    reveal_strlit("DefaultTime");
    reveal_strlit("DisableRootJobs");
    reveal_strlit("ExclusiveUser");
    reveal_strlit("GraceTime");
    reveal_strlit("Hidden");
    reveal_strlit("MaxNodes");
    reveal_strlit("MaxTime");
    reveal_strlit("MinNodes");
    reveal_strlit("LLN");
    reveal_strlit("MaxCPUsPerNode");
    reveal_strlit("MaxCPUsPerSocket");
    reveal_strlit("Nodes");
    reveal_strlit("PriorityJobFactor");
    reveal_strlit("PriorityTier");
    reveal_strlit("RootOnly");
    reveal_strlit("ReqResv");
    reveal_strlit("OverSubscribe");
    reveal_strlit("OverTimeLimit");
    reveal_strlit("PreemptMode");
    reveal_strlit("State");
    reveal_strlit("TotalCPUs");
    reveal_strlit("TotalNodes");
    reveal_strlit("SelectTypeParameters");
    reveal_strlit("JobDefaults");
    reveal_strlit("DefMemPerCPU");
    reveal_strlit("MaxMemPerNode");
    reveal_strlit("TRES");
    reveal_strlit("TRESBillingWeights");
    assert("PartitionName"@.len() == 13);
    assert("PartitionName"@[0] == 'P');
    assert("AllowGroups"@.len() == 11);
    assert("AllowGroups"@[0] == 'A');
    assert("AllowAccounts"@.len() == 13);
    assert("AllowAccounts"@[0] == 'A');
    assert("AllowQos"@.len() == 8);
    assert("AllowQos"@[0] == 'A');
    assert("AllocNodes"@.len() == 10);
    assert("AllocNodes"@[0] == 'A');
    assert("Default"@.len() == 7);
    assert("Default"@[0] == 'D');
    assert("QoS"@.len() == 3);
    assert("QoS"@[0] == 'Q');
    assert("DefaultTime"@.len() == 11);
    assert("DefaultTime"@[0] == 'D');
    assert("DisableRootJobs"@.len() == 15);
    assert("DisableRootJobs"@[0] == 'D');
    assert("ExclusiveUser"@.len() == 13);
    assert("ExclusiveUser"@[0] == 'E');
    assert("GraceTime"@.len() == 9);
    assert("GraceTime"@[0] == 'G');
    assert("Hidden"@.len() == 6);
    assert("Hidden"@[0] == 'H');
    assert("MaxNodes"@.len() == 8);
    assert("MaxNodes"@[0] == 'M');
    assert("MaxTime"@.len() == 7);
    assert("MaxTime"@[0] == 'M');
    assert("MinNodes"@.len() == 8);
    assert("MinNodes"@[0] == 'M');
    assert("LLN"@.len() == 3);
    assert("LLN"@[0] == 'L');
    assert("MaxCPUsPerNode"@.len() == 14);
    assert("MaxCPUsPerNode"@[0] == 'M');
    assert("MaxCPUsPerSocket"@.len() == 16);
    assert("MaxCPUsPerSocket"@[0] == 'M');
    assert("Nodes"@.len() == 5);
    assert("Nodes"@[0] == 'N');
    assert("PriorityJobFactor"@.len() == 17);
    assert("PriorityJobFactor"@[0] == 'P');
    assert("PriorityTier"@.len() == 12);
    assert("PriorityTier"@[0] == 'P');
    assert("RootOnly"@.len() == 8);
    assert("RootOnly"@[0] == 'R');
    assert("ReqResv"@.len() == 7);
    assert("ReqResv"@[0] == 'R');
    assert("OverSubscribe"@.len() == 13);
    assert("OverSubscribe"@[0] == 'O');
    assert("OverTimeLimit"@.len() == 13);
    assert("OverTimeLimit"@[0] == 'O');
    assert("PreemptMode"@.len() == 11);
    assert("PreemptMode"@[0] == 'P');
    assert("State"@.len() == 5);
    assert("State"@[0] == 'S');
    assert("TotalCPUs"@.len() == 9);
    assert("TotalCPUs"@[0] == 'T');
    assert("TotalNodes"@.len() == 10);
    assert("TotalNodes"@[0] == 'T');
    assert("SelectTypeParameters"@.len() == 20);
    assert("SelectTypeParameters"@[0] == 'S');
    assert("JobDefaults"@.len() == 11);
    assert("JobDefaults"@[0] == 'J');
    assert("DefMemPerCPU"@.len() == 12);
    assert("DefMemPerCPU"@[0] == 'D');
    assert("MaxMemPerNode"@.len() == 13);
    assert("MaxMemPerNode"@[0] == 'M');
    assert("TRES"@.len() == 4);
    assert("TRES"@[0] == 'T');
    assert("TRESBillingWeights"@.len() == 18);
    assert("TRESBillingWeights"@[0] == 'T');
    assert("MaxNodes"@[1] == 'a');
    assert("MinNodes"@[1] == 'i');
}

/// With all names distinct, each record is found under its own name,
/// and nothing is found under a name no record has.
pub proof fn lemma_partition_lookup_exact(s: Seq<Partition>)
    requires
        all_distinct(partition_names(s)),
    ensures
        forall|i: int|
            0 <= i < s.len() ==> name_index(s, #[trigger] s[i]@.name) == Some(i) && s[
                name_index(s, s[i]@.name)->0
            ] == s[i],
        forall|k: Seq<char>|
            (forall|i: int| 0 <= i < s.len() ==> (#[trigger] s[i]@.name) != k) ==> name_index(
                s,
                k,
            ) is None,
{
    assert forall|i: int| 0 <= i < s.len() implies name_index(s, #[trigger] s[i]@.name) == Some(i)
        && s[name_index(s, s[i]@.name)->0] == s[i] by {
        lemma_name_index(s, s[i]@.name);
        match name_index(s, s[i]@.name) {
            None => {
                assert(false);
            },
            Some(k) => {
                if k < i {
                    assert(partition_names(s)[k] == partition_names(s)[i as int]);
                    assert(dup_at(partition_names(s), i));
                    assert(false);
                }
                if k > i {
                    assert(s[i]@.name != s[i]@.name);
                    assert(false);
                }
            },
        }
    }
    assert forall|k: Seq<char>|
        (forall|i: int| 0 <= i < s.len() ==> (#[trigger] s[i]@.name) != k) implies name_index(
        s,
        k,
    ) is None by {
        lemma_name_index(s, k);
        match name_index(s, k) {
            Some(i) => {
                assert(s[i]@.name == k);
                assert(false);
            },
            None => {},
        }
    }
}

} // verus!
