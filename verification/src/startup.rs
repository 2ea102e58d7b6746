use vstd::prelude::*;
use crate::config::RoutingConfig;
use crate::model_refresh::{filter_ids, ids, in_catalog, listed, not_in_catalog, prune_and_log};
use crate::model_router::{strategy_named, ModelRouter, Strategy};
use crate::model_stats::ModelStatsStore;
use crate::text::{
    all_digits, digits_value, lead_ws, trail_ws, lemma_decimal_digits, law_decimal_parse_roundtrip, unsigned_digits,
    decimal, decimal_string, lemma_bytes_lt_asymmetric, lemma_bytes_lt_irreflexive, lemma_bytes_lt_transitive,
    lemma_text_lt_total, parse_u64, text_eq, text_less, text_lt, trim_spec, trim_text, u64_text,
};

verus! {

/// The pieces of `s` between occurrences of `sep`, as `str::split` yields them (one empty
/// piece for an empty text).
pub open spec fn split_parts(s: Seq<char>, sep: char) -> Seq<Seq<char>>
    decreases s.len(),
{
    if s.len() == 0 {
        seq![Seq::empty()]
    } else {
        let r = split_parts(s.drop_last(), sep);
        if s.last() == sep {
            r.push(Seq::empty())
        } else {
            r.update(r.len() - 1, r.last().push(s.last()))
        }
    }
}

/// `split_parts` never yields an empty list.
proof fn lemma_split_parts_nonempty(s: Seq<char>, sep: char)
    ensures
        split_parts(s, sep).len() >= 1,
    decreases s.len(),
{
    if s.len() > 0 {
        lemma_split_parts_nonempty(s.drop_last(), sep);
    }
}

/// The pieces of `s` between occurrences of `sep` (see [`split_parts`]).
pub fn split_on(s: &str, sep: char) -> (r: Vec<String>)
    ensures
        r@.len() == split_parts(s@, sep).len(),
        forall|k: int| 0 <= k < r@.len() ==> #[trigger] r@[k]@ == split_parts(s@, sep)[k],
{
    let n = s.unicode_len();
    let mut out: Vec<String> = Vec::new();
    let mut start: usize = 0;
    let mut i: usize = 0;
    proof { assert(s@.take(0) =~= Seq::<char>::empty()); }
    while i < n
        invariant
            n == s@.len(),
            start <= i <= n,
            out@.len() + 1 == split_parts(s@.take(i as int), sep).len(),
            forall|k: int| 0 <= k < out@.len() ==> #[trigger] out@[k]@ == split_parts(s@.take(i as int), sep)[k],
            split_parts(s@.take(i as int), sep).last() == s@.subrange(start as int, i as int),
        decreases n - i,
    {
        let c = s.get_char(i);
        proof {
            assert(s@.take(i + 1).drop_last() =~= s@.take(i as int));
            assert(s@.take(i + 1).last() == c);
            lemma_split_parts_nonempty(s@.take(i as int), sep);
        }
        if c == sep {
            let piece = s.substring_char(start, i).to_owned();
            let ghost before = out@;
            out.push(piece);
            start = i + 1;
            proof {
                assert forall|k: int| 0 <= k < out@.len() implies #[trigger] out@[k]@ == split_parts(s@.take(i + 1), sep)[k] by {
                    if k < before.len() {
                        assert(out@[k] == before[k]);
                    }
                }
                assert(s@.subrange(start as int, i + 1) =~= Seq::<char>::empty());
            }
        } else {
            proof {
                assert(s@.subrange(start as int, i + 1) =~= s@.subrange(start as int, i as int).push(c));
            }
        }
        i = i + 1;
    }
    assert(s@.take(i as int) =~= s@);
    let piece = s.substring_char(start, n).to_owned();
    let ghost before = out@;
    out.push(piece);
    proof {
        lemma_split_parts_nonempty(s@, sep);
        assert forall|k: int| 0 <= k < out@.len() implies #[trigger] out@[k]@ == split_parts(s@, sep)[k] by {
            if k < before.len() {
                assert(out@[k] == before[k]);
            }
        }
    }
    out
}

/// What `u16::from_str` gives (see [`u64_text`]): a value that fits in 16 bits.
pub open spec fn u16_text(s: Seq<char>) -> Option<u16> {
    match u64_text(s) {
        Some(v) => if v <= u16::MAX { Some(v as u16) } else { None },
        None => None,
    }
}

/// Parses an unsigned 16-bit number (see [`u16_text`]).
pub fn parse_u16(s: &str) -> (r: Option<u16>)
    ensures
        r == u16_text(s@),
{
    match parse_u64(s) {
        Some(v) => if v <= 65535 { Some(v as u16) } else { None },
        None => None,
    }
}

/// What `i32::from_str` gives: an optional sign, then a number (see [`u64_text`]) whose
/// signed value fits in 32 bits.
pub open spec fn i32_text(s: Seq<char>) -> Option<i32> {
    if s.len() > 0 && s[0] == '-' {
        let rest = s.subrange(1, s.len() as int);
        if rest.len() > 0 && rest[0] != '+' {
            match u64_text(rest) {
                Some(v) => if v <= 0x8000_0000 { Some((-(v as int)) as i32) } else { None },
                None => None,
            }
        } else {
            None
        }
    } else {
        match u64_text(s) {
            Some(v) => if v <= i32::MAX { Some(v as i32) } else { None },
            None => None,
        }
    }
}

/// Parses a signed 32-bit number (see [`i32_text`]).
pub fn parse_i32(s: &str) -> (r: Option<i32>)
    ensures
        r == i32_text(s@),
{
    let n = s.unicode_len();
    if n > 0 && s.get_char(0) == '-' {
        let rest = s.substring_char(1, n);
        if rest.unicode_len() > 0 && rest.get_char(0) != '+' {
            match parse_u64(rest) {
                Some(v) => if v <= 0x8000_0000 {
                    let r: i64 = 0i64 - (v as i64);
                    Some(r as i32)
                } else {
                    None
                },
                None => None,
            }
        } else {
            None
        }
    } else {
        match parse_u64(s) {
            Some(v) => if v <= 0x7fff_ffff { Some(v as i32) } else { None },
            None => None,
        }
    }
}

/// What a PID file holds: nothing while empty or `starting`; else the process id before
/// the first `:` and the port after it (8080 when it is missing or not a port), or nothing
/// when the process id is not a number.
pub open spec fn pid_file_spec(content: Seq<char>) -> Option<(i32, u16)> {
    let t = trim_spec(content);
    if t.len() == 0 || t == "starting"@ {
        None
    } else {
        let parts = split_parts(t, ':');
        match i32_text(parts[0]) {
            Some(pid) => Some((pid, if parts.len() > 1 {
                match u16_text(parts[1]) {
                    Some(p) => p,
                    None => 8080,
                }
            } else {
                8080
            })),
            None => None,
        }
    }
}

/// Reads the process id and port from the contents of a PID file (see
/// [`pid_file_spec`]).
pub fn parse_pid_file(content: &str) -> (r: Option<(i32, u16)>)
    ensures
        r == pid_file_spec(content@),
{
    let trimmed = trim_text(content);
    if trimmed.unicode_len() == 0 || text_eq(trimmed, "starting") {
        return None;
    }
    let parts = split_on(trimmed, ':');
    proof { lemma_split_parts_nonempty(trimmed@, ':'); }
    let pid = match parse_i32(parts[0].as_str()) {
        Some(p) => p,
        None => return None,
    };
    let port = if parts.len() > 1 {
        match parse_u16(parts[1].as_str()) {
            Some(p) => p,
            None => 8080,
        }
    } else {
        8080
    };
    Some((pid, port))
}

/// The address to listen on: `127.0.0.1` at the port given on the command line (when it
/// is given and not zero), else the configured address.
pub fn listen_address(port_override: Option<u16>, configured: String) -> (r: String)
    ensures
        r@ == match port_override {
            Some(p) => if p != 0 { "127.0.0.1:"@ + decimal(p as nat) } else { configured@ },
            None => configured@,
        },
{
    match port_override {
        Some(p) => {
            if p != 0 {
                let mut s = "127.0.0.1:".to_owned();
                s.append(decimal_string(p as u64).as_str());
                s
            } else {
                configured
            }
        },
        None => configured,
    }
}

/// The port of a listen address: the number after its first `:`, else 8080.
pub open spec fn listen_port_spec(listen: Seq<char>) -> u16 {
    let parts = split_parts(listen, ':');
    if parts.len() > 1 {
        match u16_text(parts[1]) {
            Some(p) => p,
            None => 8080,
        }
    } else {
        8080
    }
}

/// The port of a listen address (see [`listen_port_spec`]).
pub fn listen_port(listen: &str) -> (r: u16)
    ensures
        r == listen_port_spec(listen@),
{
    let parts = split_on(listen, ':');
    if parts.len() > 1 {
        match parse_u16(parts[1].as_str()) {
            Some(p) => p,
            None => 8080,
        }
    } else {
        8080
    }
}

/// The contents written to the PID file: `pid:port`.
pub fn pid_file_contents(pid: u32, port: u16) -> (r: String)
    ensures
        r@ == decimal(pid as nat) + ":"@ + decimal(port as nat),
{
    let mut s = decimal_string(pid as u64);
    s.append(":");
    s.append(decimal_string(port as u64).as_str());
    s
}

/// The PID file to use: the explicit path, else the one set for this thread, else the
/// `NIMAPROXY_PID_FILE` environment value, else `/tmp/nimaproxy.pid`.
pub fn choose_pid_file(explicit: Option<&str>, thread_path: Option<String>, env_path: Option<String>) -> (r: String)
    ensures
        r@ == match explicit {
            Some(p) => p@,
            None => match thread_path {
                Some(t) => t@,
                None => match env_path {
                    Some(e) => e@,
                    None => "/tmp/nimaproxy.pid"@,
                },
            },
        },
{
    match explicit {
        Some(p) => p.to_owned(),
        None => match thread_path {
            Some(t) => t,
            None => match env_path {
                Some(e) => e,
                None => "/tmp/nimaproxy.pid".to_owned(),
            },
        },
    }
}

/// Process id and port read loosely from a PID file, as stopping and stats queries read
/// it: the number before the first `:` (0 when absent or not a number) and the one after it
/// (8080 likewise).
pub open spec fn loose_pid_port(content: Option<Seq<char>>) -> (i32, u16) {
    match content {
        Some(c) => {
            let parts = split_parts(trim_spec(c), ':');
            (match i32_text(parts[0]) {
                Some(p) => p,
                None => 0,
            }, if parts.len() > 1 {
                match u16_text(parts[1]) {
                    Some(p) => p,
                    None => 8080,
                }
            } else {
                8080
            })
        },
        None => (0, 8080),
    }
}

/// Reads a PID file loosely (see [`loose_pid_port`]); `content` is none when the file
/// cannot be read.
pub fn read_pid_port_loose(content: Option<&str>) -> (r: (i32, u16))
    ensures
        r == loose_pid_port(match content { Some(c) => Some(c@), None => None }),
{
    match content {
        Some(c) => {
            let parts = split_on(trim_text(c), ':');
            proof { lemma_split_parts_nonempty(trim_spec(c@), ':'); }
            let pid = match parse_i32(parts[0].as_str()) {
                Some(p) => p,
                None => 0,
            };
            let port = if parts.len() > 1 {
                match parse_u16(parts[1].as_str()) {
                    Some(p) => p,
                    None => 8080,
                }
            } else {
                8080
            };
            (pid, port)
        },
        None => (0, 8080),
    }
}

/// The arguments a proxy process is started with.
pub fn spawn_arguments(bin: &str, config_path: &str, port: u32, pid_file: &str) -> (r: Vec<String>)
    ensures
        r@.len() == 7,
        r@[0]@ == bin@,
        r@[1]@ == "--config"@,
        r@[2]@ == config_path@,
        r@[3]@ == "--port"@,
        r@[4]@ == decimal(port as nat),
        r@[5]@ == "--pid-file"@,
        r@[6]@ == pid_file@,
{
    let mut v: Vec<String> = Vec::new();
    v.push(bin.to_owned());
    v.push("--config".to_owned());
    v.push(config_path.to_owned());
    v.push("--port".to_owned());
    v.push(decimal_string(port as u64));
    v.push("--pid-file".to_owned());
    v.push(pid_file.to_owned());
    v
}

/// While waiting for a started proxy: the port to probe once the PID file names the child.
pub fn readiness_port(written: Option<(i32, u16)>, child_pid: i32) -> (r: Option<u16>)
    ensures
        r == match written {
            Some((pid, port)) => if pid == child_pid { Some(port) } else { None },
            None => None,
        },
{
    match written {
        Some((pid, port)) => if pid == child_pid { Some(port) } else { None },
        None => None,
    }
}

/// The proxy binary to start: the `NIMAPROXY_BIN` value unless it is blank, else the
/// first candidate that is a file, else `nimaproxy` from the search path.
pub fn pick_proxy_binary(env_bin: Option<&str>, candidates: &[String], is_file: &[bool]) -> (r: String)
    requires
        candidates@.len() == is_file@.len(),
    ensures
        ({
            let env_ok = env_bin matches Some(e) && trim_spec(e@).len() > 0;
            if env_ok {
                r@ == env_bin->0@
            } else if exists|k: int| 0 <= k < is_file@.len() && is_file@[k] {
                exists|k: int| 0 <= k < is_file@.len() && is_file@[k] && r@ == candidates@[k]@
                    && forall|j: int| 0 <= j < k ==> !is_file@[j]
            } else {
                r@ == "nimaproxy"@
            }
        }),
{
    match env_bin {
        Some(e) => {
            if trim_text(e).unicode_len() > 0 {
                return e.to_owned();
            }
        },
        None => {},
    }
    let mut k: usize = 0;
    while k < candidates.len()
        invariant
            candidates@.len() == is_file@.len(),
            !(env_bin matches Some(e) && trim_spec(e@).len() > 0),
            k <= candidates@.len(),
            forall|j: int| 0 <= j < k ==> !is_file@[j],
        decreases candidates@.len() - k,
    {
        if is_file[k] {
            let c = candidates[k].clone();
            assert(is_file@[k as int]);
            assert(exists|j: int| 0 <= j < is_file@.len() && is_file@[j] && c@ == candidates@[j]@
                && forall|i: int| 0 <= i < j ==> !is_file@[i]) by {
                assert(0 <= k < is_file@.len() && is_file@[k as int] && c@ == candidates@[k as int]@);
            }
            return c;
        }
        k = k + 1;
    }
    "nimaproxy".to_owned()
}

/// Command-line settings of the proxy.
pub struct CliArgs {
    pub config_path: Option<String>,
    pub port_override: Option<u16>,
    pub pid_file: Option<String>,
    /// Help was asked for; the arguments after it are not read.
    pub help: bool,
}

/// Settings read so far: config path, port, PID file, help.
pub type CliState = (Option<Seq<char>>, Option<u16>, Option<Seq<char>>, bool);

/// The argument after position `i`, if any.
pub open spec fn arg_after(args: Seq<Seq<char>>, i: int) -> Option<Seq<char>> {
    if i + 1 < args.len() { Some(args[i + 1]) } else { None }
}

/// The settings read from `args` starting at position `i`: `--config`/`-c` and
/// `--pid-file` take the next argument (none when it is missing), `--port`/`-p` takes it
/// when it is a port, `--help`/`-h` stops; other arguments are skipped.
pub open spec fn cli_from(args: Seq<Seq<char>>, i: int, acc: CliState) -> CliState
    decreases args.len() + 2 - i,
{
    if i < 0 || i >= args.len() {
        acc
    } else {
        let a = args[i];
        if a == "--config"@ || a == "-c"@ {
            cli_from(args, i + 2, (arg_after(args, i), acc.1, acc.2, acc.3))
        } else if a == "--port"@ || a == "-p"@ {
            let p = match arg_after(args, i) {
                Some(t) => u16_text(t),
                None => None,
            };
            cli_from(args, i + 2, (acc.0, if p is Some { p } else { acc.1 }, acc.2, acc.3))
        } else if a == "--pid-file"@ {
            cli_from(args, i + 2, (acc.0, acc.1, arg_after(args, i), acc.3))
        } else if a == "--help"@ || a == "-h"@ {
            (acc.0, acc.1, acc.2, true)
        } else {
            cli_from(args, i + 1, acc)
        }
    }
}

impl CliArgs {
    /// The settings as plain values.
    pub open spec fn state(&self) -> CliState {
        (crate::config::opt_str_view(self.config_path), self.port_override, crate::config::opt_str_view(self.pid_file), self.help)
    }
}

/// Reads the command line (`args[0]` is the program; see [`cli_from`]).
pub fn parse_cli(args: &[String]) -> (r: CliArgs)
    ensures
        r.state() == cli_from(args@.map_values(|a: String| a@), 1, (None, None, None, false)),
{
    let ghost av = args@.map_values(|a: String| a@);
    let mut cli = CliArgs { config_path: None, port_override: None, pid_file: None, help: false };
    let mut i: usize = 1;
    while i < args.len()
        invariant
            av == args@.map_values(|a: String| a@),
            !cli.help,
            cli_from(av, 1, (None, None, None, false)) == cli_from(av, i as int, cli.state()),
        decreases args@.len() - i,
    {
        let a = args[i].as_str();
        let next: Option<String> = if i + 1 < args.len() { Some(args[i + 1].clone()) } else { None };
        assert(crate::config::opt_str_view(next) == arg_after(av, i as int));
        if text_eq(a, "--config") || text_eq(a, "-c") {
            cli.config_path = next;
            if i + 1 >= args.len() {
                assert(cli_from(av, i + 2, cli.state()) == cli.state());
                return cli;
            }
            i = i + 2;
        } else if text_eq(a, "--port") || text_eq(a, "-p") {
            match &next {
                Some(t) => match parse_u16(t.as_str()) {
                    Some(p) => {
                        cli.port_override = Some(p);
                    },
                    None => {},
                },
                None => {},
            }
            if i + 1 >= args.len() {
                assert(cli_from(av, i + 2, cli.state()) == cli.state());
                return cli;
            }
            i = i + 2;
        } else if text_eq(a, "--pid-file") {
            cli.pid_file = next;
            if i + 1 >= args.len() {
                assert(cli_from(av, i + 2, cli.state()) == cli.state());
                return cli;
            }
            i = i + 2;
        } else if text_eq(a, "--help") || text_eq(a, "-h") {
            cli.help = true;
            return cli;
        } else {
            i = i + 1;
        }
    }
    cli
}

/// Whether a routing section configures models to route to.
pub open spec fn routing_configured(routing: Option<RoutingConfig>) -> bool {
    routing matches Some(r) && (r.models matches Some(m) && m@.len() > 0)
}

/// The models a list keeps after checking against the upstream catalog, when it was
/// fetched.
pub open spec fn kept_ids(models: Seq<Seq<char>>, upstream: Option<Seq<String>>) -> Seq<Seq<char>> {
    match upstream {
        Some(u) => filter_ids(models, in_catalog(u)),
        None => models,
    }
}

/// The models a list loses after checking against the upstream catalog, when it was
/// fetched.
pub open spec fn dropped_ids(models: Seq<Seq<char>>, upstream: Option<Seq<String>>) -> Seq<Seq<char>> {
    match upstream {
        Some(u) => filter_ids(models, not_in_catalog(u)),
        None => Seq::empty(),
    }
}

/// The view of an optional slice of strings.
pub open spec fn opt_list(o: Option<&[String]>) -> Option<Seq<String>> {
    match o {
        Some(u) => Some(u@),
        None => None,
    }
}

/// Checks `models` against the upstream catalog when it was fetched, appending the ids
/// dropped to `pruned_out`.
pub fn prune_if_fetched(models: Vec<String>, upstream: Option<&[String]>, list_name: &str, pruned_out: &mut Vec<String>) -> (r: Vec<String>)
    ensures
        ids(r@) == kept_ids(ids(models@), opt_list(upstream)),
        ids(final(pruned_out)@) == ids(old(pruned_out)@) + dropped_ids(ids(models@), opt_list(upstream)),
{
    match upstream {
        Some(u) => prune_and_log(models, u, list_name, pruned_out),
        None => {
            assert(ids(pruned_out@) =~= ids(pruned_out@) + Seq::<Seq<char>>::empty());
            models
        },
    }
}

/// The router and statistics the proxy starts with: with routing models configured, a
/// router over those still upstream (by the configured strategy, round robin by default)
/// and statistics with the configured spike threshold (3000 ms by default); else no router
/// and a 3000 ms threshold. Models dropped as missing upstream are appended to
/// `pruned_out`.
pub fn routing_setup(routing: &Option<RoutingConfig>, upstream: Option<&[String]>, pruned_out: &mut Vec<String>) -> (r: (Option<ModelRouter>, ModelStatsStore))
    ensures
        r.1.wf(),
        r.1.stats() == Map::<Seq<char>, crate::model_stats::EntryState>::empty(),
        r.1.failure_map() == Map::<Seq<char>, Map<Seq<char>, u32>>::empty(),
        routing_configured(*routing) ==> {
            let rc = routing->0;
            &&& r.1.threshold() == match rc.spike_threshold_ms { Some(t) => t, None => 3000 }
            &&& r.0 matches Some(router)
                && router.model_ids() == kept_ids(ids(rc.models->0@), opt_list(upstream))
                && router.cursor() == 0
                && router.strategy_spec() == match rc.strategy { Some(s) => strategy_named(s@), None => Strategy::RoundRobin }
            &&& ids(final(pruned_out)@) == ids(old(pruned_out)@) + dropped_ids(ids(rc.models->0@), opt_list(upstream))
        },
        !routing_configured(*routing) ==> r.0 is None && r.1.threshold() == 3000 && final(pruned_out)@ == old(pruned_out)@,
{
    match routing {
        Some(rc) => {
            match &rc.models {
                Some(m) => {
                    if m.len() > 0 {
                        let threshold = match rc.spike_threshold_ms { Some(t) => t, None => 3000 };
                        let strategy = match &rc.strategy {
                            Some(s) => Strategy::from_str(s.as_str()),
                            None => Strategy::RoundRobin,
                        };
                        let models = m.clone();
                        assert(ids(models@) =~= ids(m@));
                        let models = prune_if_fetched(models, upstream, "routing.models", pruned_out);
                        let stats = ModelStatsStore::new(threshold);
                        let router = ModelRouter::new(models, strategy);
                        assert(router.model_ids() =~= ids(models@));
                        return (Some(router), stats);
                    }
                },
                None => {},
            }
        },
        None => {},
    }
    (None, ModelStatsStore::new(3000))
}

/// The ids in strictly increasing order (by `str` order), each once.
pub open spec fn strictly_sorted(v: Seq<Seq<char>>) -> bool {
    forall|a: int, b: int| 0 <= a < b < v.len() ==> text_lt(#[trigger] v[a], #[trigger] v[b])
}

/// `v` sorted in `str` order without repeats (`sort` then `dedup`).
pub fn sort_dedup(v: Vec<String>) -> (r: Vec<String>)
    ensures
        strictly_sorted(ids(r@)),
        forall|m: Seq<char>| listed(r@, m) <==> listed(v@, m),
{
    let mut out: Vec<String> = Vec::new();
    let mut i: usize = 0;
    while i < v.len()
        invariant
            i <= v@.len(),
            strictly_sorted(ids(out@)),
            forall|m: Seq<char>| listed(out@, m) <==> listed(v@.take(i as int), m),
        decreases v@.len() - i,
    {
        let x = v[i].as_str();
        let mut pos: usize = 0;
        while pos < out.len() && text_less(out[pos].as_str(), x)
            invariant
                pos <= out@.len(),
                strictly_sorted(ids(out@)),
                forall|k: int| 0 <= k < pos ==> text_lt(#[trigger] out@[k]@, x@),
            decreases out@.len() - pos,
        {
            pos = pos + 1;
        }
        let ghost before = out@;
        let ghost prefix = v@.take(i as int);
        assert(v@.take(i + 1) =~= prefix.push(v@[i as int]));
        let dup = pos < out.len() && text_eq(out[pos].as_str(), x);
        if !dup {
            proof {
                if pos < before.len() {
                    lemma_text_lt_total(before[pos as int]@, x@);
                }
            }
            out.insert(pos, v[i].clone());
            proof {
                assert forall|a: int, b: int| 0 <= a < b < out@.len() implies text_lt(#[trigger] ids(out@)[a], #[trigger] ids(out@)[b]) by {
                    if b < pos {
                        assert(text_lt(ids(before)[a], ids(before)[b]));
                    } else if b == pos {
                        assert(text_lt(before[a]@, x@));
                    } else if a == pos {
                        if b - 1 > pos {
                            assert(text_lt(ids(before)[pos as int], ids(before)[b - 1]));
                            lemma_bytes_lt_transitive(vstd::utf8::encode_utf8(x@), vstd::utf8::encode_utf8(before[pos as int]@), vstd::utf8::encode_utf8(before[b - 1]@));
                        }
                    } else if a < pos {
                        assert(text_lt(ids(before)[a], ids(before)[b - 1]));
                    } else {
                        assert(text_lt(ids(before)[a - 1], ids(before)[b - 1]));
                    }
                }
                assert forall|m: Seq<char>| listed(out@, m) <==> listed(v@.take(i + 1), m) by {
                    if listed(out@, m) {
                        let k = choose|k: int| 0 <= k < out@.len() && (#[trigger] out@[k])@ == m;
                        if k < pos {
                            assert(before[k]@ == m);
                            assert(listed(before, m));
                        } else if k > pos {
                            assert(before[k - 1]@ == m);
                            assert(listed(before, m));
                        }
                        if m != x@ {
                            let j = choose|j: int| 0 <= j < prefix.len() && (#[trigger] prefix[j])@ == m;
                            assert(v@.take(i + 1)[j] == prefix[j]);
                        } else {
                            assert(v@.take(i + 1)[i as int] == v@[i as int]);
                        }
                    }
                    if listed(v@.take(i + 1), m) {
                        let j = choose|j: int| 0 <= j < v@.take(i + 1).len() && (#[trigger] v@.take(i + 1)[j])@ == m;
                        if j < i {
                            assert(prefix[j] == v@.take(i + 1)[j]);
                            assert(listed(prefix, m));
                            assert(listed(before, m));
                            let k = choose|k: int| 0 <= k < before.len() && (#[trigger] before[k])@ == m;
                            if k < pos {
                                assert(out@[k] == before[k]);
                            } else {
                                assert(out@[k + 1] == before[k]);
                            }
                        } else {
                            assert(out@[pos as int]@ == x@);
                        }
                    }
                }
            }
        } else {
            proof {
                assert forall|m: Seq<char>| listed(out@, m) <==> listed(v@.take(i + 1), m) by {
                    if listed(v@.take(i + 1), m) {
                        let j = choose|j: int| 0 <= j < v@.take(i + 1).len() && (#[trigger] v@.take(i + 1)[j])@ == m;
                        if j < i {
                            assert(prefix[j] == v@.take(i + 1)[j]);
                            assert(listed(prefix, m));
                        } else {
                            assert(out@[pos as int]@ == m);
                        }
                    }
                    if listed(out@, m) {
                        let k = choose|k: int| 0 <= k < out@.len() && (#[trigger] out@[k])@ == m;
                        assert(listed(prefix, m));
                        let j = choose|j: int| 0 <= j < prefix.len() && (#[trigger] prefix[j])@ == m;
                        assert(v@.take(i + 1)[j] == prefix[j]);
                    }
                }
            }
        }
        i = i + 1;
    }
    assert(v@.take(i as int) =~= v@);
    out
}

/// A text without the separator is one piece.
proof fn lemma_split_no_sep(s: Seq<char>, sep: char)
    requires
        forall|k: int| 0 <= k < s.len() ==> #[trigger] s[k] != sep,
    ensures
        split_parts(s, sep) == seq![s],
    decreases s.len(),
{
    if s.len() > 0 {
        let t = s.drop_last();
        assert forall|k: int| 0 <= k < t.len() implies #[trigger] t[k] != sep by {
            assert(t[k] == s[k]);
        }
        lemma_split_no_sep(t, sep);
        assert(t.push(s.last()) =~= s);
        assert(seq![t].update(0, s) =~= seq![s]);
    } else {
        assert(s =~= Seq::<char>::empty());
    }
}

/// Text after the last separator extends the last piece.
proof fn lemma_split_append(x: Seq<char>, y: Seq<char>, sep: char)
    requires
        forall|k: int| 0 <= k < y.len() ==> #[trigger] y[k] != sep,
    ensures
        split_parts(x + y, sep) == split_parts(x, sep).update(split_parts(x, sep).len() - 1, split_parts(x, sep).last() + y),
    decreases y.len(),
{
    lemma_split_parts_nonempty(x, sep);
    if y.len() == 0 {
        assert(x + y =~= x);
        assert(split_parts(x, sep).last() + y =~= split_parts(x, sep).last());
        assert(split_parts(x, sep).update(split_parts(x, sep).len() - 1, split_parts(x, sep).last()) =~= split_parts(x, sep));
    } else {
        let y0 = y.drop_last();
        assert forall|k: int| 0 <= k < y0.len() implies #[trigger] y0[k] != sep by {
            assert(y0[k] == y[k]);
        }
        lemma_split_append(x, y0, sep);
        assert((x + y).drop_last() =~= x + y0);
        assert((x + y).last() == y.last());
        let r = split_parts(x, sep);
        assert((r.last() + y0).push(y.last()) =~= r.last() + y);
        assert(r.update(r.len() - 1, r.last() + y0).update(r.len() - 1, r.last() + y) =~= r.update(r.len() - 1, r.last() + y));
    }
}

/// Digits are neither separators nor white space.
proof fn lemma_digits_plain(d: Seq<char>)
    requires
        all_digits(d),
    ensures
        forall|k: int| 0 <= k < d.len() ==> #[trigger] d[k] != ':' && !crate::text::white_space(d[k]),
{
    assert forall|k: int| 0 <= k < d.len() implies #[trigger] d[k] != ':' && !crate::text::white_space(d[k]) by {
        assert('0' <= d[k] <= '9');
    }
}

/// A PID file reads back the process id and port written to it.
pub proof fn law_pid_file_roundtrip(pid: u32, port: u16)
    requires
        pid <= i32::MAX,
    ensures
        pid_file_spec(decimal(pid as nat) + ":"@ + decimal(port as nat)) == Some((pid as i32, port)),
{
    reveal_strlit(":");
    reveal_strlit("starting");
    let a = decimal(pid as nat);
    let b = decimal(port as nat);
    lemma_decimal_digits(pid as nat);
    lemma_decimal_digits(port as nat);
    law_decimal_parse_roundtrip(pid as u64);
    law_decimal_parse_roundtrip(port as u64);
    lemma_digits_plain(a);
    lemma_digits_plain(b);
    let t = a + ":"@ + b;
    assert(t[0] == a[0]);
    assert(t.last() == b.last());
    assert(t.last() == b[b.len() - 1]);
    assert(lead_ws(t) == 0);
    assert(trail_ws(t) == 0);
    assert(crate::text::trim_spec(t) =~= t);
    assert(t != "starting"@) by {
        assert("starting"@[0] == 's');
    }
    lemma_split_no_sep(a, ':');
    assert(split_parts(a + ":"@, ':') == seq![a, Seq::<char>::empty()]) by {
        assert((a + ":"@).drop_last() =~= a);
        assert((a + ":"@).last() == ':');
    }
    lemma_split_append(a + ":"@, b, ':');
    assert(split_parts(t, ':') =~= seq![a, b]) by {
        assert(seq![a, Seq::<char>::empty()].update(1, Seq::<char>::empty() + b) =~= seq![a, b]);
        assert(Seq::<char>::empty() + b =~= b);
    }
    assert(i32_text(a) == Some(pid as i32)) by {
        assert(a[0] != '-');
    }
    assert(u16_text(b) == Some(port));
}

/// The phases of starting a proxy process.
#[derive(Clone, Copy, Debug, PartialEq, Eq, Structural)]
pub enum StartPhase {
    /// Is a proxy already running on the PID file's port?
    CheckExisting,
    /// Is the configuration given and readable?
    CheckConfig,
    /// Mark the PID file as starting.
    WritePidFile,
    /// Start the process.
    Spawn,
    /// Wait until the process serves its health endpoint.
    WaitReady,
}

/// What one phase found out.
#[derive(Clone, Copy, Debug, PartialEq, Eq, Structural)]
pub enum StartEvent {
    /// Whether a live proxy answered on the recorded port.
    Existing { running: bool },
    /// Whether a configuration path was given, and whether it loaded.
    Config { present: bool, valid: bool },
    /// Whether the PID file could be written.
    PidFileWritten { ok: bool },
    /// Whether the process was started.
    Spawned { ok: bool },
    /// Whether the child now serves, and whether the wait is over.
    Readiness { ready: bool, timed_out: bool },
}

/// What the starter does next.
#[derive(Clone, Copy, Debug, PartialEq, Eq, Structural)]
pub enum StartAction {
    /// Go on with this phase.
    Continue { next: StartPhase },
    /// The proxy serves: report success.
    Started,
    /// Report failure, after removing the PID file and stopping the child where asked.
    Fail { remove_pid_file: bool, stop_child: bool },
}

/// The step of starting a proxy: a running proxy, a missing or unreadable configuration
/// and an unwritable PID file fail at once; a failed start removes the PID file; a child that
/// is not ready in time is stopped and its PID file removed; a ready child is a success.
/// An event that does not belong to the phase fails.
pub open spec fn start_step_spec(phase: StartPhase, event: StartEvent) -> StartAction {
    let stop = StartAction::Fail { remove_pid_file: false, stop_child: false };
    match (phase, event) {
        (StartPhase::CheckExisting, StartEvent::Existing { running }) =>
            if running { stop } else { StartAction::Continue { next: StartPhase::CheckConfig } },
        (StartPhase::CheckConfig, StartEvent::Config { present, valid }) =>
            if present && valid { StartAction::Continue { next: StartPhase::WritePidFile } } else { stop },
        (StartPhase::WritePidFile, StartEvent::PidFileWritten { ok }) =>
            if ok { StartAction::Continue { next: StartPhase::Spawn } } else { stop },
        (StartPhase::Spawn, StartEvent::Spawned { ok }) =>
            if ok { StartAction::Continue { next: StartPhase::WaitReady } } else { StartAction::Fail { remove_pid_file: true, stop_child: false } },
        (StartPhase::WaitReady, StartEvent::Readiness { ready, timed_out }) =>
            if ready {
                StartAction::Started
            } else if timed_out {
                StartAction::Fail { remove_pid_file: true, stop_child: true }
            } else {
                StartAction::Continue { next: StartPhase::WaitReady }
            },
        _ => stop,
    }
}

/// The next step of starting a proxy (see [`start_step_spec`]).
pub fn start_step(phase: StartPhase, event: StartEvent) -> (r: StartAction)
    ensures
        r == start_step_spec(phase, event),
{
    let stop = StartAction::Fail { remove_pid_file: false, stop_child: false };
    match (phase, event) {
        (StartPhase::CheckExisting, StartEvent::Existing { running }) =>
            if running { stop } else { StartAction::Continue { next: StartPhase::CheckConfig } },
        (StartPhase::CheckConfig, StartEvent::Config { present, valid }) =>
            if present && valid { StartAction::Continue { next: StartPhase::WritePidFile } } else { stop },
        (StartPhase::WritePidFile, StartEvent::PidFileWritten { ok }) =>
            if ok { StartAction::Continue { next: StartPhase::Spawn } } else { stop },
        (StartPhase::Spawn, StartEvent::Spawned { ok }) =>
            if ok { StartAction::Continue { next: StartPhase::WaitReady } } else { StartAction::Fail { remove_pid_file: true, stop_child: false } },
        (StartPhase::WaitReady, StartEvent::Readiness { ready, timed_out }) =>
            if ready {
                StartAction::Started
            } else if timed_out {
                StartAction::Fail { remove_pid_file: true, stop_child: true }
            } else {
                StartAction::Continue { next: StartPhase::WaitReady }
            },
        _ => stop,
    }
}

/// Whether stopping a proxy has a process to signal: the PID file names a process id other
/// than 0 (see [`loose_pid_port`]).
pub fn stop_target(content: Option<&str>) -> (r: Option<i32>)
    ensures
        r == if loose_pid_port(match content { Some(c) => Some(c@), None => None }).0 == 0 {
            None
        } else {
            Some(loose_pid_port(match content { Some(c) => Some(c@), None => None }).0)
        },
{
    let (pid, _port) = read_pid_port_loose(content);
    if pid == 0 { None } else { Some(pid) }
}

/// Once the PID file is gone, stopping finds no process to signal: a second stop, after the
/// first removed the file, does nothing.
pub proof fn law_stop_after_removal()
    ensures
        loose_pid_port(None).0 == 0,
{
}

} // verus!