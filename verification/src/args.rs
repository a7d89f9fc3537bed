//! The argument resolver: turns the command-line tokens (everything
//! after the program name) into an `Outcome` — print usage, run with a
//! `Config`, or fail with an `ArgError` — exactly as the spec-level
//! `resolve_outcome` describes.
//!
//! The grammar: a help token (`-h`/`--help`) anywhere wins outright. The
//! remaining tokens are read left to right: `-c`/`--bytes` and
//! `-n`/`--lines` each take the following token as an unsigned 64-bit
//! decimal value, and a token of the joined form `-c=NUM`,
//! `--bytes=NUM`, `-n=NUM` or `--lines=NUM` carries its value itself (a
//! repeated option keeps its last value); `-q`/`--quiet` sets the quiet
//! flag; and every other token — `-` included — names a source, in
//! order. A byte bound together with a
//! line bound is a conflict; an empty source list is an error; a single
//! source forces quiet.

use crate::config::{ArgError, Config, ConfigV, Filter, Outcome, OutcomeV};
use crate::numerals::{is_u64_numeral, numeral_val, parse_u64};
use vstd::prelude::*;

verus! {

/// True of the help tokens.
pub open spec fn is_help_tok(t: Seq<char>) -> bool {
    t == "-h"@ || t == "--help"@
}

/// True of the byte-count option tokens.
pub open spec fn is_bytes_tok(t: Seq<char>) -> bool {
    t == "-c"@ || t == "--bytes"@
}

/// True of the line-count option tokens.
pub open spec fn is_lines_tok(t: Seq<char>) -> bool {
    t == "-n"@ || t == "--lines"@
}

/// True of the quiet option tokens.
pub open spec fn is_quiet_tok(t: Seq<char>) -> bool {
    t == "-q"@ || t == "--quiet"@
}

/// True of the joined byte-count tokens: `-c=` or `--bytes=` followed
/// by the value.
pub open spec fn is_bytes_eq_tok(t: Seq<char>) -> bool {
    (t.len() >= 3 && t.take(3) == "-c="@) || (t.len() >= 8 && t.take(8) == "--bytes="@)
}

/// The value part of a joined byte-count token.
pub open spec fn bytes_eq_val(t: Seq<char>) -> Seq<char>
    recommends
        is_bytes_eq_tok(t),
{
    if t.len() >= 3 && t.take(3) == "-c="@ {
        t.skip(3)
    } else {
        t.skip(8)
    }
}

/// True of the joined line-count tokens: `-n=` or `--lines=` followed
/// by the value.
pub open spec fn is_lines_eq_tok(t: Seq<char>) -> bool {
    (t.len() >= 3 && t.take(3) == "-n="@) || (t.len() >= 8 && t.take(8) == "--lines="@)
}

/// The value part of a joined line-count token.
pub open spec fn lines_eq_val(t: Seq<char>) -> Seq<char>
    recommends
        is_lines_eq_tok(t),
{
    if t.len() >= 3 && t.take(3) == "-n="@ {
        t.skip(3)
    } else {
        t.skip(8)
    }
}

/// True when a help token stands anywhere among the arguments.
pub open spec fn wants_help(args: Seq<Seq<char>>) -> bool {
    exists|k: int| 0 <= k < args.len() && is_help_tok(#[trigger] args[k])
}

/// The state of the left-to-right scan: the byte and line bounds seen so
/// far, the quiet flag, and the sources in order.
pub struct ScanState {
    pub bytes: Option<u64>,
    pub lines: Option<u64>,
    pub quiet: bool,
    pub sources: Seq<Seq<char>>,
}

/// What the scan ends in: a final state, or a configuration error.
pub enum ScanOut {
    Good(ScanState),
    Bad(ArgError),
}

/// The scan's starting state: no bounds, not quiet, no sources.
pub open spec fn init_state() -> ScanState {
    ScanState { bytes: None, lines: None, quiet: false, sources: Seq::empty() }
}

/// One left-to-right scan of the tokens from position `i` on, starting
/// from state `st`.
pub open spec fn scan_from(args: Seq<Seq<char>>, i: int, st: ScanState) -> ScanOut
    decreases args.len() - i,
{
    if i < 0 || i >= args.len() {
        ScanOut::Good(st)
    } else if is_bytes_tok(args[i]) {
        if i + 1 >= args.len() || !is_u64_numeral(args[i + 1]) {
            ScanOut::Bad(ArgError::BadBytes)
        } else {
            scan_from(
                args,
                i + 2,
                (ScanState { bytes: Some(numeral_val(args[i + 1]) as u64), ..st }),
            )
        }
    } else if is_lines_tok(args[i]) {
        if i + 1 >= args.len() || !is_u64_numeral(args[i + 1]) {
            ScanOut::Bad(ArgError::BadLines)
        } else {
            scan_from(
                args,
                i + 2,
                (ScanState { lines: Some(numeral_val(args[i + 1]) as u64), ..st }),
            )
        }
    } else if is_quiet_tok(args[i]) {
        scan_from(args, i + 1, (ScanState { quiet: true, ..st }))
    } else if is_bytes_eq_tok(args[i]) {
        if !is_u64_numeral(bytes_eq_val(args[i])) {
            ScanOut::Bad(ArgError::BadBytes)
        } else {
            scan_from(
                args,
                i + 1,
                (ScanState { bytes: Some(numeral_val(bytes_eq_val(args[i])) as u64), ..st }),
            )
        }
    } else if is_lines_eq_tok(args[i]) {
        if !is_u64_numeral(lines_eq_val(args[i])) {
            ScanOut::Bad(ArgError::BadLines)
        } else {
            scan_from(
                args,
                i + 1,
                (ScanState { lines: Some(numeral_val(lines_eq_val(args[i])) as u64), ..st }),
            )
        }
    } else {
        scan_from(args, i + 1, (ScanState { sources: st.sources.push(args[i]), ..st }))
    }
}

/// The filter a finished scan selects: the byte bound if one was given,
/// else the line bound, else the default of ten lines.
pub open spec fn chosen_filter(st: ScanState) -> Filter {
    match st.bytes {
        Some(b) => Filter::Bytes(b),
        None => match st.lines {
            Some(l) => Filter::Lines(l),
            None => Filter::Lines(10),
        },
    }
}

/// What an argument list resolves to: help wins outright; then a scan
/// error is fatal; then a byte bound beside a line bound is a conflict;
/// then an empty source list is an error; otherwise the run's
/// configuration, with quiet forced when a single source is named.
pub open spec fn resolve_outcome(args: Seq<Seq<char>>) -> OutcomeV {
    if wants_help(args) {
        OutcomeV::Help
    } else {
        match scan_from(args, 0, init_state()) {
            ScanOut::Bad(e) => OutcomeV::Fail(e),
            ScanOut::Good(st) => if st.bytes is Some && st.lines is Some {
                OutcomeV::Fail(ArgError::Conflict)
            } else if st.sources.len() == 0 {
                OutcomeV::Fail(ArgError::NoSources)
            } else {
                OutcomeV::Run(
                    ConfigV {
                        filter: chosen_filter(st),
                        quiet: st.quiet || st.sources.len() == 1,
                        sources: st.sources,
                    },
                )
            },
        }
    }
}

/// Splits a joined byte-count token into its value, when `t` is one.
fn bytes_eq_value(t: &String) -> (r: Option<String>)
    ensures
        r is Some <==> is_bytes_eq_tok(t@),
        r matches Some(v) ==> v@ == bytes_eq_val(t@),
{
    let len = t.as_str().unicode_len();
    if len >= 3 {
        let pre = t.as_str().substring_char(0, 3);
        if String::from_str(pre) == String::from_str("-c=") {
            proof {
                assert(t@.take(3) =~= t@.subrange(0, 3));
            }
            let rest = t.as_str().substring_char(3, len);
            proof {
                assert(rest@ =~= t@.skip(3));
            }
            return Some(String::from_str(rest));
        }
    }
    if len >= 8 {
        let pre = t.as_str().substring_char(0, 8);
        if String::from_str(pre) == String::from_str("--bytes=") {
            proof {
                assert(t@.take(8) =~= t@.subrange(0, 8));
            }
            let rest = t.as_str().substring_char(8, len);
            proof {
                assert(rest@ =~= t@.skip(8));
            }
            return Some(String::from_str(rest));
        }
    }
    proof {
        if t@.len() >= 3 {
            assert(t@.take(3) =~= t@.subrange(0, 3));
        }
        if t@.len() >= 8 {
            assert(t@.take(8) =~= t@.subrange(0, 8));
        }
    }
    None
}

/// Splits a joined line-count token into its value, when `t` is one.
fn lines_eq_value(t: &String) -> (r: Option<String>)
    ensures
        r is Some <==> is_lines_eq_tok(t@),
        r matches Some(v) ==> v@ == lines_eq_val(t@),
{
    let len = t.as_str().unicode_len();
    if len >= 3 {
        let pre = t.as_str().substring_char(0, 3);
        if String::from_str(pre) == String::from_str("-n=") {
            proof {
                assert(t@.take(3) =~= t@.subrange(0, 3));
            }
            let rest = t.as_str().substring_char(3, len);
            proof {
                assert(rest@ =~= t@.skip(3));
            }
            return Some(String::from_str(rest));
        }
    }
    if len >= 8 {
        let pre = t.as_str().substring_char(0, 8);
        if String::from_str(pre) == String::from_str("--lines=") {
            proof {
                assert(t@.take(8) =~= t@.subrange(0, 8));
            }
            let rest = t.as_str().substring_char(8, len);
            proof {
                assert(rest@ =~= t@.skip(8));
            }
            return Some(String::from_str(rest));
        }
    }
    proof {
        if t@.len() >= 3 {
            assert(t@.take(3) =~= t@.subrange(0, 3));
        }
        if t@.len() >= 8 {
            assert(t@.take(8) =~= t@.subrange(0, 8));
        }
    }
    None
}

/// Resolves the command-line tokens into an `Outcome`.
pub fn resolve(args: &Vec<String>) -> (r: Outcome)
    ensures
        r@ == resolve_outcome(args.deep_view()),
{
    let ghost dv = args.deep_view();
    proof {
        assert(forall|k: int| 0 <= k < dv.len() ==> dv[k] == args@[k]@);
    }
    let k_help_s = String::from_str("-h");
    let k_help_l = String::from_str("--help");
    let k_bytes_s = String::from_str("-c");
    let k_bytes_l = String::from_str("--bytes");
    let k_lines_s = String::from_str("-n");
    let k_lines_l = String::from_str("--lines");
    let k_quiet_s = String::from_str("-q");
    let k_quiet_l = String::from_str("--quiet");
    let mut idx: usize = 0;
    while idx < args.len()
        invariant
            0 <= idx <= args.len(),
            dv == args.deep_view(),
            dv.len() == args@.len(),
            k_help_s@ == "-h"@,
            k_help_l@ == "--help"@,
            forall|k: int| 0 <= k < idx ==> !is_help_tok(#[trigger] dv[k]),
        decreases args.len() - idx,
    {
        let t: &String = &args[idx];
        if *t == k_help_s || *t == k_help_l {
            proof {
                assert(is_help_tok(dv[idx as int]));
            }
            return Outcome::Help;
        }
        idx = idx + 1;
    }
    proof {
        assert(!wants_help(dv));
    }
    let mut bytes_o: Option<u64> = None;
    let mut lines_o: Option<u64> = None;
    let mut quiet = false;
    let mut sources: Vec<String> = Vec::new();
    let mut i: usize = 0;
    proof {
        assert(sources.deep_view() =~~= Seq::<Seq<char>>::empty());
        assert((ScanState {
            bytes: bytes_o,
            lines: lines_o,
            quiet: quiet,
            sources: sources.deep_view(),
        }) == init_state());
    }
    while i < args.len()
        invariant
            0 <= i <= args.len(),
            dv == args.deep_view(),
            dv.len() == args@.len(),
            !wants_help(dv),
            k_bytes_s@ == "-c"@,
            k_bytes_l@ == "--bytes"@,
            k_lines_s@ == "-n"@,
            k_lines_l@ == "--lines"@,
            k_quiet_s@ == "-q"@,
            k_quiet_l@ == "--quiet"@,
            scan_from(dv, 0, init_state()) == scan_from(
                dv,
                i as int,
                (ScanState {
                    bytes: bytes_o,
                    lines: lines_o,
                    quiet: quiet,
                    sources: sources.deep_view(),
                }),
            ),
        decreases args.len() - i,
    {
        let t: &String = &args[i];
        proof {
            assert(dv[i as int] == t@);
        }
        if *t == k_bytes_s || *t == k_bytes_l {
            if i + 1 >= args.len() {
                return Outcome::Fail(ArgError::BadBytes);
            }
            let v: &String = &args[i + 1];
            proof {
                assert(dv[i + 1] == v@);
            }
            match parse_u64(v.as_str()) {
                None => {
                    return Outcome::Fail(ArgError::BadBytes);
                },
                Some(b) => {
                    bytes_o = Some(b);
                    i = i + 2;
                },
            }
        } else if *t == k_lines_s || *t == k_lines_l {
            if i + 1 >= args.len() {
                return Outcome::Fail(ArgError::BadLines);
            }
            let v: &String = &args[i + 1];
            proof {
                assert(dv[i + 1] == v@);
            }
            match parse_u64(v.as_str()) {
                None => {
                    return Outcome::Fail(ArgError::BadLines);
                },
                Some(l) => {
                    lines_o = Some(l);
                    i = i + 2;
                },
            }
        } else if *t == k_quiet_s || *t == k_quiet_l {
            quiet = true;
            i = i + 1;
        } else {
            match bytes_eq_value(t) {
                Some(v) => {
                    match parse_u64(v.as_str()) {
                        None => {
                            return Outcome::Fail(ArgError::BadBytes);
                        },
                        Some(b) => {
                            bytes_o = Some(b);
                            i = i + 1;
                        },
                    }
                },
                None => {
                    match lines_eq_value(t) {
                        Some(v) => {
                            match parse_u64(v.as_str()) {
                                None => {
                                    return Outcome::Fail(ArgError::BadLines);
                                },
                                Some(l) => {
                                    lines_o = Some(l);
                                    i = i + 1;
                                },
                            }
                        },
                        None => {
                            let ghost srcs0 = sources.deep_view();
                            sources.push(t.clone());
                            proof {
                                assert(sources.deep_view() =~~= srcs0.push(dv[i as int]));
                            }
                            i = i + 1;
                        },
                    }
                },
            }
        }
    }
    let ghost st_end = ScanState {
        bytes: bytes_o,
        lines: lines_o,
        quiet: quiet,
        sources: sources.deep_view(),
    };
    proof {
        assert(scan_from(dv, 0, init_state()) == ScanOut::Good(st_end));
    }
    if bytes_o.is_some() && lines_o.is_some() {
        return Outcome::Fail(ArgError::Conflict);
    }
    let filter = match bytes_o {
        Some(b) => Filter::Bytes(b),
        None => match lines_o {
            Some(l) => Filter::Lines(l),
            None => Filter::Lines(10),
        },
    };
    if sources.len() == 0 {
        return Outcome::Fail(ArgError::NoSources);
    }
    let quiet_final = quiet || sources.len() == 1;
    Outcome::Run(Config { filter, quiet: quiet_final, sources })
}

/// A help token anywhere decides the outcome by itself, whatever else
/// the argument list holds.
pub proof fn lemma_help_wins(args: Seq<Seq<char>>)
    requires
        wants_help(args),
    ensures
        resolve_outcome(args) == OutcomeV::Help,
{
}

/// Supplying both a byte bound and a line bound is always a conflict,
/// never a run.
pub proof fn lemma_conflict(args: Seq<Seq<char>>, st: ScanState)
    requires
        !wants_help(args),
        scan_from(args, 0, init_state()) == ScanOut::Good(st),
        st.bytes is Some,
        st.lines is Some,
    ensures
        resolve_outcome(args) == OutcomeV::Fail(ArgError::Conflict),
{
}

/// A scan that names no source is always an error, never a run.
pub proof fn lemma_no_sources(args: Seq<Seq<char>>, st: ScanState)
    requires
        !wants_help(args),
        scan_from(args, 0, init_state()) == ScanOut::Good(st),
        !(st.bytes is Some && st.lines is Some),
        st.sources.len() == 0,
    ensures
        resolve_outcome(args) == OutcomeV::Fail(ArgError::NoSources),
{
}

/// Every configuration that resolution lets run names at least one
/// source, and a single source forces quiet, whatever the explicit flag
/// said.
pub proof fn lemma_run_invariants(args: Seq<Seq<char>>, cfg: ConfigV)
    requires
        resolve_outcome(args) == OutcomeV::Run(cfg),
    ensures
        cfg.sources.len() >= 1,
        cfg.sources.len() == 1 ==> cfg.quiet,
{
}

} // verus!
