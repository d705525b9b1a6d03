//! The configuration and its defaults.

use vstd::prelude::*;

use crate::backup::BackupConfig;
use crate::rollup::RollupKind;
use crate::strmap::StrMap;
use crate::text;

verus! {

/// Where embeddings come from.
#[derive(Debug, Clone, Copy, PartialEq, Eq, Structural)]
pub enum EmbeddingBackend {
    Disabled,
    Remote,
}

impl Default for EmbeddingBackend {
    fn default() -> (r: Self)
        ensures
            r is Disabled,
    {
        EmbeddingBackend::Disabled
    }
}

/// The embedding pipeline.
#[derive(Debug, PartialEq)]
pub struct EmbeddingConfig {
    pub backend: EmbeddingBackend,
    pub remote_url: String,
    pub remote_model: String,
    /// The dimensions that the model gives.
    pub dims: u16,
    /// How many requests may wait; more are dropped.
    pub queue_depth: usize,
    /// How many texts are embedded at a time.
    pub batch_size: usize,
}

impl Default for EmbeddingConfig {
    fn default() -> (r: Self)
        ensures
            r.backend is Disabled,
            r.remote_url@ == "http://localhost:11434/v1/embeddings"@,
            r.remote_model@ == "nomic-embed-text"@,
            r.dims == 384,
            r.queue_depth == 2048,
            r.batch_size == 32,
    {
        EmbeddingConfig {
            backend: EmbeddingBackend::Disabled,
            remote_url: "http://localhost:11434/v1/embeddings".to_string(),
            remote_model: "nomic-embed-text".to_string(),
            dims: 384,
            queue_depth: 2048,
            batch_size: 32,
        }
    }
}

impl EmbeddingConfig {
    /// Whether embeddings are made at all.
    pub fn is_enabled(&self) -> (r: bool)
        ensures
            r == (self.backend is Remote),
    {
        match self.backend {
            EmbeddingBackend::Disabled => false,
            EmbeddingBackend::Remote => true,
        }
    }
}

/// A field that is rolled up, and how.
#[derive(Debug, PartialEq)]
pub struct RollupDef {
    pub field: String,
    pub kind: RollupKind,
}

/// The configuration.
#[derive(Debug, PartialEq)]
pub struct PierreConfig {
    pub data_dir: String,
    pub native_listen_addr: String,
    pub loki_listen_addr: String,
    pub query_listen_addr: String,
    pub es_bulk_listen_addr: String,
    /// Syslog over UDP and TCP. Not the well-known port, which needs privileges.
    pub syslog_listen_addr: String,
    pub otlp_grpc_listen_addr: String,
    pub otlp_http_listen_addr: String,
    pub mcp_listen_addr: String,
    /// The fields that records keep.
    pub fields: Vec<String>,
    /// The fields that are rolled up.
    pub rollup: Vec<RollupDef>,
    pub rollup_minute_ttl_secs: u32,
    pub backup: BackupConfig,
    pub hot_to_warm_flush_interval_secs: u64,
    pub archive_interval_secs: u64,
    pub cohort_window_secs: u64,
    pub textindex_bucket_duration_secs: u64,
    pub textindex_flush_interval_secs: u64,
    /// The bearer tokens; none turns the check off.
    pub auth_tokens: Vec<String>,
    /// How long an archived segment stays on local disk; for ever if nothing is said.
    pub local_retention_secs: Option<u64>,
    pub local_prune_interval_secs: u64,
    pub strip_text_index_after_archive: bool,
    pub embedding: EmbeddingConfig,
}

pub open spec fn name_views(names: Seq<String>) -> Seq<Seq<char>> {
    names.map_values(|n: String| n@)
}

pub open spec fn def_views(defs: Seq<RollupDef>) -> Seq<(Seq<char>, RollupKind)> {
    defs.map_values(|d: RollupDef| (d.field@, d.kind))
}

impl Default for PierreConfig {
    fn default() -> (r: Self)
        ensures
            r.data_dir@ == "./pierre-data"@,
            r.native_listen_addr@ == "127.0.0.1:4317"@,
            r.loki_listen_addr@ == "127.0.0.1:3100"@,
            r.query_listen_addr@ == "127.0.0.1:3101"@,
            r.es_bulk_listen_addr@ == "127.0.0.1:9200"@,
            r.syslog_listen_addr@ == "127.0.0.1:5514"@,
            r.otlp_grpc_listen_addr@ == "127.0.0.1:4327"@,
            r.otlp_http_listen_addr@ == "127.0.0.1:4318"@,
            r.mcp_listen_addr@ == "127.0.0.1:8000"@,
            name_views(r.fields@) == seq!["level"@, "status"@, "trace_id"@, "latency_ms"@],
            def_views(r.rollup@) == seq![
                ("level"@, RollupKind::Exact),
                ("status"@, RollupKind::Exact),
            ],
            r.rollup_minute_ttl_secs == 3600,
            r.backup is Local,
            r.hot_to_warm_flush_interval_secs == 300,
            r.archive_interval_secs == 300,
            r.cohort_window_secs == 3600,
            r.textindex_bucket_duration_secs == 300,
            r.textindex_flush_interval_secs == 5,
            r.auth_tokens@.len() == 0,
            r.local_retention_secs is None,
            r.local_prune_interval_secs == 300,
            !r.strip_text_index_after_archive,
            r.embedding.backend is Disabled,
            r.embedding.remote_url@ == "http://localhost:11434/v1/embeddings"@,
            r.embedding.remote_model@ == "nomic-embed-text"@,
            r.embedding.dims == 384,
            r.embedding.queue_depth == 2048,
            r.embedding.batch_size == 32,
    {
        let mut fields: Vec<String> = Vec::new();
        fields.push("level".to_string());
        fields.push("status".to_string());
        fields.push("trace_id".to_string());
        fields.push("latency_ms".to_string());
        assert(name_views(fields@) =~= seq!["level"@, "status"@, "trace_id"@, "latency_ms"@]);
        let mut rollup: Vec<RollupDef> = Vec::new();
        rollup.push(RollupDef { field: "level".to_string(), kind: RollupKind::Exact });
        rollup.push(RollupDef { field: "status".to_string(), kind: RollupKind::Exact });
        assert(def_views(rollup@) =~= seq![
            ("level"@, RollupKind::Exact),
            ("status"@, RollupKind::Exact),
        ]);
        PierreConfig {
            data_dir: "./pierre-data".to_string(),
            native_listen_addr: "127.0.0.1:4317".to_string(),
            loki_listen_addr: "127.0.0.1:3100".to_string(),
            query_listen_addr: "127.0.0.1:3101".to_string(),
            es_bulk_listen_addr: "127.0.0.1:9200".to_string(),
            syslog_listen_addr: "127.0.0.1:5514".to_string(),
            otlp_grpc_listen_addr: "127.0.0.1:4327".to_string(),
            otlp_http_listen_addr: "127.0.0.1:4318".to_string(),
            mcp_listen_addr: "127.0.0.1:8000".to_string(),
            fields,
            rollup,
            rollup_minute_ttl_secs: 3600,
            backup: BackupConfig::Local,
            hot_to_warm_flush_interval_secs: 300,
            archive_interval_secs: 300,
            cohort_window_secs: 3600,
            textindex_bucket_duration_secs: 300,
            textindex_flush_interval_secs: 5,
            auth_tokens: Vec::new(),
            local_retention_secs: None,
            local_prune_interval_secs: 300,
            strip_text_index_after_archive: false,
            embedding: EmbeddingConfig::default(),
        }
    }
}

/// How each field is rolled up; the last definition of a field wins.
pub open spec fn kinds_of(defs: Seq<(Seq<char>, RollupKind)>) -> Map<Seq<char>, RollupKind>
    decreases defs.len(),
{
    if defs.len() == 0 {
        Map::empty()
    } else {
        kinds_of(defs.drop_last()).insert(defs.last().0, defs.last().1)
    }
}

/// How each field is rolled up; `None` where nothing is, so that no worker is needed.
pub fn rollup_kinds(defs: &Vec<RollupDef>) -> (r: Option<StrMap<RollupKind>>)
    ensures
        match r {
            Some(kinds) => defs@.len() > 0 && kinds@ == kinds_of(def_views(defs@)),
            None => defs@.len() == 0,
        },
{
    if defs.len() == 0 {
        return None;
    }
    let ghost all = def_views(defs@);
    let mut kinds: StrMap<RollupKind> = StrMap::new();
    let mut i: usize = 0;
    while i < defs.len()
        invariant
            i <= defs@.len(),
            all == def_views(defs@),
            kinds@ == kinds_of(all.take(i as int)),
        decreases defs.len() - i,
    {
        assert(all.take(i + 1).drop_last() =~= all.take(i as int));
        assert(all.take(i + 1).last() == (defs@[i as int].field@, defs@[i as int].kind));
        kinds.insert(defs[i].field.as_str().to_string(), defs[i].kind);
        i = i + 1;
    }
    assert(all.take(i as int) =~= all);
    Some(kinds)
}

/// What the program is asked to do.
#[derive(Debug)]
pub enum Command {
    /// Serve, with the configuration at that path.
    Serve(String),
    /// Migrate, with the configuration at that path and these options.
    Migrate(String, Vec<String>),
}

pub open spec fn arg_or(args: Seq<String>, i: int, default: Seq<char>) -> Seq<char> {
    if 0 <= i < args.len() {
        args[i]@
    } else {
        default
    }
}

/// What a command line asks for: whether to migrate, the path of the configuration, and the
/// options behind it.
pub open spec fn command_of(args: Seq<String>) -> (bool, Seq<char>, Seq<Seq<char>>) {
    if args.len() > 0 && args[0]@ == "migrate"@ {
        (
            true,
            arg_or(args, 1, "pierre.toml"@),
            name_views(
                if args.len() > 2 {
                    args.skip(2)
                } else {
                    seq![]
                },
            ),
        )
    } else {
        (false, arg_or(args, 0, "pierre.toml"@), seq![])
    }
}

/// Reads the command line, without the program's name. The configuration is `pierre.toml`
/// where nothing else is said.
pub fn parse_command(args: &Vec<String>) -> (r: Command)
    ensures
        match r {
            Command::Serve(path) => arg_or(args@, 0, "pierre.toml"@) != "migrate"@ && path@
                == arg_or(args@, 0, "pierre.toml"@),
            Command::Migrate(path, rest) => arg_or(args@, 0, "pierre.toml"@) == "migrate"@ && path@
                == arg_or(args@, 1, "pierre.toml"@) && name_views(rest@) == name_views(
                if args@.len() > 2 {
                    args@.skip(2)
                } else {
                    seq![]
                },
            ),
        },
        match r {
            Command::Serve(path) => command_of(args@) == (
                false,
                path@,
                Seq::<Seq<char>>::empty(),
            ),
            Command::Migrate(path, rest) => command_of(args@) == (
                true,
                path@,
                name_views(rest@),
            ),
        },
{
    if args.len() == 0 {
        proof {
            reveal_strlit("pierre.toml");
            reveal_strlit("migrate");
            assert("pierre.toml"@.len() == 11);
            assert("migrate"@.len() == 7);
        }
        return Command::Serve("pierre.toml".to_string());
    }
    if !text::same_text(args[0].as_str(), "migrate") {
        return Command::Serve(args[0].as_str().to_string());
    }
    let path: String = if args.len() > 1 {
        args[1].as_str().to_string()
    } else {
        "pierre.toml".to_string()
    };
    let mut rest: Vec<String> = Vec::new();
    let mut i: usize = 2;
    while i < args.len()
        invariant
            2 <= i,
            args@.len() >= 1,
            i <= args@.len() || i == 2,
            rest@.len() == i - 2,
            forall|j: int| 0 <= j < rest@.len() ==> (#[trigger] rest@[j])@ == args@[j + 2]@,
        decreases args.len() - i,
    {
        rest.push(args[i].as_str().to_string());
        i = i + 1;
    }
    assert(name_views(rest@) =~= name_views(
        if args@.len() > 2 {
            args@.skip(2)
        } else {
            seq![]
        },
    ));
    Command::Migrate(path, rest)
}

/// The last definition of a field says how it is rolled up; a field that is not defined is
/// not rolled up.
pub proof fn law_last_definition_wins(
    defs: Seq<(Seq<char>, RollupKind)>,
    field: Seq<char>,
    i: int,
)
    ensures
        0 <= i < defs.len() && defs[i].0 == field && (forall|j: int|
            i < j < defs.len() ==> (#[trigger] defs[j]).0 != field) ==> kinds_of(
            defs,
        ).dom().contains(field) && kinds_of(defs)[field] == defs[i].1,
        (forall|j: int| 0 <= j < defs.len() ==> (#[trigger] defs[j]).0 != field) ==> !kinds_of(
            defs,
        ).dom().contains(field),
    decreases defs.len(),
{
    if defs.len() > 0 {
        let rest = defs.drop_last();
        assert(forall|j: int| 0 <= j < rest.len() ==> rest[j] == defs[j]);
        assert(defs.last() == defs[defs.len() - 1]);
        law_last_definition_wins(rest, field, i);
    }
}

/// An argument that is given counts, and one that is not is the default.
pub proof fn law_given_arguments_count(args: Seq<String>, i: int, default: Seq<char>)
    ensures
        0 <= i < args.len() ==> arg_or(args, i, default) == args[i]@,
        i >= args.len() ==> arg_or(args, i, default) == default,
{
}

/// Only the word `migrate` in the first place asks for a migration; behind it comes the path
/// of the configuration, and behind that every option as it was given, in order. In any
/// other case the first argument is the path, and `pierre.toml` where nothing is given.
pub proof fn law_command_line(args: Seq<String>, i: int)
    ensures
        args.len() == 0 ==> command_of(args) == (
            false,
            "pierre.toml"@,
            Seq::<Seq<char>>::empty(),
        ),
        args.len() > 0 && args[0]@ != "migrate"@ ==> command_of(args) == (
            false,
            args[0]@,
            Seq::<Seq<char>>::empty(),
        ),
        args.len() > 0 && args[0]@ == "migrate"@ ==> command_of(args).0,
        args.len() == 1 && args[0]@ == "migrate"@ ==> command_of(args).1 == "pierre.toml"@,
        args.len() > 1 && args[0]@ == "migrate"@ ==> command_of(args).1 == args[1]@,
        args.len() > 2 && args[0]@ == "migrate"@ ==> command_of(args).2.len() == args.len() - 2,
        2 <= i < args.len() && args[0]@ == "migrate"@ ==> command_of(args).2[i - 2] == args[i]@,
        args.len() <= 2 ==> command_of(args).2.len() == 0,
{
}

} // verus!
