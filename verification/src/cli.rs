//! The command line: its arguments, subcommands, and the mode of operation
//! they select. Paths are kept as strings.
use vstd::prelude::*;

verus! {

/// The parsed command line.
#[derive(Debug, Clone)]
pub struct Args {
    pub command: Option<Command>,
    pub file1: Option<String>,
    pub file2: Option<String>,
    pub map1: Option<String>,
    pub map2: Option<String>,
    pub format: String,
    pub export_mappings: Option<String>,
    pub summary: bool,
    pub interleaved: bool,
    pub verbose: bool,
    pub fingerprints: bool,
    pub report: bool,
    pub report_path: Option<String>,
    pub compact: bool,
    pub lite: bool,
    pub no_parallel: bool,
    pub dump: Option<String>,
}

#[derive(Debug, Clone)]
pub enum Command {
    /// Canonicalize a file; `map` absent: print it, `Some(None)`: write a
    /// mapping template, `Some(Some(file))`: apply a mapping file.
    Canon { input_file: String, map: Option<Option<String>>, preserve_comments: bool, pretty: bool },
    Inspect { input_file: String, compare_file: Option<String>, identifier: String },
    Query { dump_file: String, query_type: QueryType },
    Load { dump_file: String, format: String },
}

#[derive(Debug, Clone)]
pub enum QueryType {
    Find { name: String },
    UnmatchedFrom1,
    UnmatchedFrom2,
    Match { name: String },
    Validate { file1: String, file2: String },
}

/// What the program is asked to do.
#[derive(Debug, Clone)]
pub enum Mode {
    Canonicalize { input_file: String, preserve_comments: bool, pretty: bool },
    GenerateMapping { input_file: String, preserve_comments: bool, pretty: bool },
    ApplyMapping { input_file: String, map_file: String, preserve_comments: bool, pretty: bool },
    Diff {
        file1: String,
        file2: String,
        map1: Option<String>,
        map2: Option<String>,
        format: String,
        export_mappings: Option<String>,
        summary: bool,
        interleaved: bool,
        verbose: bool,
        fingerprints: bool,
        report: bool,
        report_path: Option<String>,
        compact: bool,
        lite: bool,
        parallel: bool,
        dump: Option<String>,
    },
    Inspect { input_file: String, compare_file: Option<String>, identifier: String },
    Query { dump_file: String, query_type: QueryType },
    Load { dump_file: String, format: String },
}

pub open spec fn opt_str(o: Option<String>) -> Option<Seq<char>> {
    match o {
        Some(s) => Some(s@),
        None => None,
    }
}

fn copy_opt(o: &Option<String>) -> (r: Option<String>)
    ensures
        opt_str(r) == opt_str(*o),
{
    match o {
        Some(s) => Some(s.clone()),
        None => None,
    }
}

/// Whether `q2` is `q1` with the same strings.
pub open spec fn same_query(q1: QueryType, q2: QueryType) -> bool {
    match (q1, q2) {
        (QueryType::Find { name: a }, QueryType::Find { name: b }) => a@ == b@,
        (QueryType::UnmatchedFrom1, QueryType::UnmatchedFrom1) => true,
        (QueryType::UnmatchedFrom2, QueryType::UnmatchedFrom2) => true,
        (QueryType::Match { name: a }, QueryType::Match { name: b }) => a@ == b@,
        (QueryType::Validate { file1: a1, file2: a2 }, QueryType::Validate { file1: b1, file2: b2 }) => a1@ == b1@
            && a2@ == b2@,
        _ => false,
    }
}

fn copy_query(q: &QueryType) -> (r: QueryType)
    ensures
        same_query(*q, r),
{
    match q {
        QueryType::Find { name } => QueryType::Find { name: name.clone() },
        QueryType::UnmatchedFrom1 => QueryType::UnmatchedFrom1,
        QueryType::UnmatchedFrom2 => QueryType::UnmatchedFrom2,
        QueryType::Match { name } => QueryType::Match { name: name.clone() },
        QueryType::Validate { file1, file2 } => QueryType::Validate { file1: file1.clone(), file2: file2.clone() },
    }
}

/// The mode that the arguments select: a subcommand's mode, else a diff of
/// the two files (reporting when asked to or given a report path, parallel
/// unless disabled); `None` when there is no subcommand and not two files.
pub open spec fn mode_of(a: Args, m: Option<Mode>) -> bool {
    match a.command {
        Some(Command::Canon { input_file, map, preserve_comments, pretty }) => match map {
            None => m matches Some(Mode::Canonicalize { input_file: f, preserve_comments: pc, pretty: p }) && f@
                == input_file@ && pc == preserve_comments && p == pretty,
            Some(None) => m matches Some(Mode::GenerateMapping { input_file: f, preserve_comments: pc, pretty: p })
                && f@ == input_file@ && pc == preserve_comments && p == pretty,
            Some(Some(path)) => m matches Some(
                Mode::ApplyMapping { input_file: f, map_file: mf, preserve_comments: pc, pretty: p },
            ) && f@ == input_file@ && mf@ == path@ && pc == preserve_comments && p == pretty,
        },
        Some(Command::Inspect { input_file, compare_file, identifier }) => m matches Some(
            Mode::Inspect { input_file: f, compare_file: c, identifier: i },
        ) && f@ == input_file@ && opt_str(c) == opt_str(compare_file) && i@ == identifier@,
        Some(Command::Query { dump_file, query_type }) => m matches Some(Mode::Query { dump_file: d, query_type: q })
            && d@ == dump_file@ && same_query(query_type, q),
        Some(Command::Load { dump_file, format }) => m matches Some(Mode::Load { dump_file: d, format: f }) && d@
            == dump_file@ && f@ == format@,
        None => match (a.file1, a.file2) {
            (Some(f1), Some(f2)) => m matches Some(
                Mode::Diff {
                    file1,
                    file2,
                    map1,
                    map2,
                    format,
                    export_mappings,
                    summary,
                    interleaved,
                    verbose,
                    fingerprints,
                    report,
                    report_path,
                    compact,
                    lite,
                    parallel,
                    dump,
                },
            ) && file1@ == f1@ && file2@ == f2@ && opt_str(map1) == opt_str(a.map1) && opt_str(map2) == opt_str(a.map2)
                && format@ == a.format@ && opt_str(export_mappings) == opt_str(a.export_mappings) && summary
                == a.summary && interleaved == a.interleaved && verbose == a.verbose && fingerprints == a.fingerprints
                && report == (a.report || a.report_path is Some) && opt_str(report_path) == opt_str(a.report_path)
                && compact == a.compact && lite == a.lite && parallel == !a.no_parallel && opt_str(dump) == opt_str(
                a.dump,
            ),
            _ => m is None,
        },
    }
}

impl Args {
    /// The mode these arguments select; `None` when a diff lacks its two files.
    pub fn mode(&self) -> (r: Option<Mode>)
        ensures
            mode_of(*self, r),
    {
        match &self.command {
            Some(Command::Canon { input_file, map, preserve_comments, pretty }) => match map {
                None => Some(
                    Mode::Canonicalize {
                        input_file: input_file.clone(),
                        preserve_comments: *preserve_comments,
                        pretty: *pretty,
                    },
                ),
                Some(None) => Some(
                    Mode::GenerateMapping {
                        input_file: input_file.clone(),
                        preserve_comments: *preserve_comments,
                        pretty: *pretty,
                    },
                ),
                Some(Some(path)) => Some(
                    Mode::ApplyMapping {
                        input_file: input_file.clone(),
                        map_file: path.clone(),
                        preserve_comments: *preserve_comments,
                        pretty: *pretty,
                    },
                ),
            },
            Some(Command::Inspect { input_file, compare_file, identifier }) => Some(
                Mode::Inspect {
                    input_file: input_file.clone(),
                    compare_file: copy_opt(compare_file),
                    identifier: identifier.clone(),
                },
            ),
            Some(Command::Query { dump_file, query_type }) => Some(
                Mode::Query { dump_file: dump_file.clone(), query_type: copy_query(query_type) },
            ),
            Some(Command::Load { dump_file, format }) => Some(
                Mode::Load { dump_file: dump_file.clone(), format: format.clone() },
            ),
            None => match (&self.file1, &self.file2) {
                (Some(file1), Some(file2)) => Some(
                    Mode::Diff {
                        file1: file1.clone(),
                        file2: file2.clone(),
                        map1: copy_opt(&self.map1),
                        map2: copy_opt(&self.map2),
                        format: self.format.clone(),
                        export_mappings: copy_opt(&self.export_mappings),
                        summary: self.summary,
                        interleaved: self.interleaved,
                        verbose: self.verbose,
                        fingerprints: self.fingerprints,
                        report: self.report || self.report_path.is_some(),
                        report_path: copy_opt(&self.report_path),
                        compact: self.compact,
                        lite: self.lite,
                        parallel: !self.no_parallel,
                        dump: copy_opt(&self.dump),
                    },
                ),
                _ => None,
            },
        }
    }

    /// Whether comments are to be kept: only a `canon` command can ask.
    pub fn preserve_comments(&self) -> (r: bool)
        ensures
            r == (self.command matches Some(Command::Canon { preserve_comments, .. }) && preserve_comments),
    {
        match &self.command {
            Some(Command::Canon { preserve_comments, .. }) => *preserve_comments,
            Some(Command::Inspect { .. }) => false,
            Some(Command::Query { .. }) => false,
            Some(Command::Load { .. }) => false,
            None => false,
        }
    }

    /// Whether output is to be pretty printed: only a `canon` command can ask.
    pub fn pretty(&self) -> (r: bool)
        ensures
            r == (self.command matches Some(Command::Canon { pretty, .. }) && pretty),
    {
        match &self.command {
            Some(Command::Canon { pretty, .. }) => *pretty,
            Some(Command::Inspect { .. }) => false,
            Some(Command::Query { .. }) => false,
            Some(Command::Load { .. }) => false,
            None => false,
        }
    }
}

} // verus!
