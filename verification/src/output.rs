//! Everything the program writes, as values: the per-source header and
//! trailing blank line, the bounded body, the usage text, and the
//! warning and diagnostic lines.

use crate::bytes::{bytes_prefix, head_bytes};
use crate::config::{ArgError, Filter};
use crate::lines::{join_lines, lines_prefix, render_lines};
use vstd::prelude::*;
use vstd::utf8::encode_utf8;

verus! {

/// The header written above a source's output when headers are on.
pub open spec fn header_chars(path: Seq<char>) -> Seq<char> {
    "==> "@ + path + " <=="@
}

/// Builds the header line for one source, without its newline.
pub fn header_line(path: &String) -> (h: String)
    ensures
        h@ == header_chars(path@),
{
    let mut h = String::from_str("==> ");
    h.append(path.as_str());
    h.append(" <==");
    h
}

/// The warning written to the error stream when a source cannot be
/// opened, without its newline.
pub open spec fn warn_chars(path: Seq<char>, err: Seq<char>) -> Seq<char> {
    "==> WARN: cannot open '"@ + path + "': "@ + err
}

/// Builds the cannot-open warning for one source.
pub fn warn_line(path: &String, err: &String) -> (w: String)
    ensures
        w@ == warn_chars(path@, err@),
{
    let mut w = String::from_str("==> WARN: cannot open '");
    w.append(path.as_str());
    w.append("': ");
    w.append(err.as_str());
    w
}

/// The diagnostic written when reading an opened source fails, without
/// its newline.
pub open spec fn read_error_chars(path: Seq<char>, err: Seq<char>) -> Seq<char> {
    "cannot read '"@ + path + "': "@ + err
}

/// Builds the unrecoverable-read diagnostic for one source.
pub fn read_error_line(path: &String, err: &String) -> (d: String)
    ensures
        d@ == read_error_chars(path@, err@),
{
    let mut d = String::from_str("cannot read '");
    d.append(path.as_str());
    d.append("': ");
    d.append(err.as_str());
    d
}

/// The single-line diagnostic for each configuration error.
pub open spec fn arg_error_chars(e: ArgError) -> Seq<char> {
    match e {
        ArgError::BadBytes => "argument for [\"-c\", \"--bytes\"] must be parsable as an u64"@,
        ArgError::BadLines => "argument for [\"-n\", \"--lines\"] must be parsable as an u64"@,
        ArgError::Conflict => "[-c,--bytes] is exclusive with [-n,--lines]"@,
        ArgError::NoSources => "provide atleast one [FILE].. or '-' for stdin"@,
    }
}

/// Builds the diagnostic for a configuration error.
pub fn arg_error_message(e: &ArgError) -> (m: String)
    ensures
        m@ == arg_error_chars(*e),
{
    match e {
        ArgError::BadBytes => String::from_str(
            "argument for [\"-c\", \"--bytes\"] must be parsable as an u64",
        ),
        ArgError::BadLines => String::from_str(
            "argument for [\"-n\", \"--lines\"] must be parsable as an u64",
        ),
        ArgError::Conflict => String::from_str("[-c,--bytes] is exclusive with [-n,--lines]"),
        ArgError::NoSources => String::from_str("provide atleast one [FILE].. or '-' for stdin"),
    }
}

/// The usage text, printed whole on a help request.
pub open spec fn usage_chars() -> Seq<char> {
    "usage: head [flags] [FILE]..\n\nflags:\n  -c, --bytes NUM   number of bytes to read\n  -n, --lines NUM   number of lines to read\n  -q, --quiet       disable per-source header when multiple files given\n  -h, --help        print usage and exit\n\nDefaults: 10 lines if neither -c nor -n given.\nFILE value '-' reads standard input.\n"@
}

/// Builds the usage text.
pub fn usage() -> (u: String)
    ensures
        u@ == usage_chars(),
{
    String::from_str(
        "usage: head [flags] [FILE]..\n\nflags:\n  -c, --bytes NUM   number of bytes to read\n  -n, --lines NUM   number of lines to read\n  -q, --quiet       disable per-source header when multiple files given\n  -h, --help        print usage and exit\n\nDefaults: 10 lines if neither -c nor -n given.\nFILE value '-' reads standard input.\n",
    )
}

/// True when `sub` occurs contiguously somewhere in `s`.
pub open spec fn contains_seq(s: Seq<char>, sub: Seq<char>) -> bool {
    exists|k: int| 0 <= k && k + sub.len() <= s.len() && #[trigger] s.subrange(k, k + sub.len())
        == sub
}

/// The usage text names each of the four flags.
pub proof fn lemma_usage_mentions_flags()
    ensures
        contains_seq(usage_chars(), "-c"@),
        contains_seq(usage_chars(), "-n"@),
        contains_seq(usage_chars(), "-q"@),
        contains_seq(usage_chars(), "-h"@),
{
    reveal_strlit(
        "usage: head [flags] [FILE]..\n\nflags:\n  -c, --bytes NUM   number of bytes to read\n  -n, --lines NUM   number of lines to read\n  -q, --quiet       disable per-source header when multiple files given\n  -h, --help        print usage and exit\n\nDefaults: 10 lines if neither -c nor -n given.\nFILE value '-' reads standard input.\n",
    );
    reveal_strlit("-c");
    reveal_strlit("-n");
    reveal_strlit("-q");
    reveal_strlit("-h");
    assert(usage_chars().subrange(39, 41) =~= "-c"@);
    assert(usage_chars().subrange(83, 85) =~= "-n"@);
    assert(usage_chars().subrange(127, 129) =~= "-q"@);
    assert(usage_chars().subrange(199, 201) =~= "-h"@);
    assert(usage_chars().subrange(39, 39 + "-c"@.len() as int) == "-c"@);
    assert(usage_chars().subrange(83, 83 + "-n"@.len() as int) == "-n"@);
    assert(usage_chars().subrange(127, 127 + "-q"@.len() as int) == "-q"@);
    assert(usage_chars().subrange(199, 199 + "-h"@.len() as int) == "-h"@);
}

/// The bounded body of one source's output: its byte-bounded prefix, or
/// its line-bounded prefix with every line newline-terminated.
pub open spec fn body_bytes_spec(data: Seq<u8>, f: Filter) -> Seq<u8> {
    match f {
        Filter::Bytes(n) => bytes_prefix(data, n),
        Filter::Lines(n) => join_lines(lines_prefix(data, n)),
    }
}

/// Renders the bounded body of one source.
pub fn render_body(data: &Vec<u8>, f: Filter) -> (out: Vec<u8>)
    ensures
        out@ == body_bytes_spec(data@, f),
{
    match f {
        Filter::Bytes(n) => head_bytes(data, n),
        Filter::Lines(n) => render_lines(data, n),
    }
}

/// One source's whole contribution to standard output: when headers are
/// on, the header line, the bounded body, and a trailing blank line;
/// when quiet, the bounded body alone.
pub open spec fn source_output_spec(path: Seq<char>, data: Seq<u8>, f: Filter, quiet: bool) -> Seq<
    u8,
> {
    if quiet {
        body_bytes_spec(data, f)
    } else {
        encode_utf8(header_chars(path)) + seq![10u8] + body_bytes_spec(data, f) + seq![10u8]
    }
}

/// Renders one source's whole contribution to standard output.
pub fn source_output(path: &String, data: &Vec<u8>, f: Filter, quiet: bool) -> (out: Vec<u8>)
    ensures
        out@ == source_output_spec(path@, data@, f, quiet),
{
    let body = render_body(data, f);
    if quiet {
        body
    } else {
        let h = header_line(path);
        let mut out = h.as_str().as_bytes_vec();
        proof {
            assert(out@ == encode_utf8(header_chars(path@)));
        }
        out.push(10);
        let ghost mid = out@;
        let mut k: usize = 0;
        while k < body.len()
            invariant
                0 <= k <= body.len(),
                out@ == mid + body@.take(k as int),
            decreases body.len() - k,
        {
            out.push(body[k]);
            proof {
                assert(mid + body@.take(k + 1) =~= (mid + body@.take(k as int)).push(
                    body@[k as int],
                ));
            }
            k = k + 1;
        }
        proof {
            assert(body@.take(body@.len() as int) =~= body@);
        }
        out.push(10);
        proof {
            assert(out@ =~= encode_utf8(header_chars(path@)) + seq![10u8] + body@ + seq![10u8]);
        }
        out
    }
}

/// In quiet mode no header and no trailing blank line appear: a source's
/// output is its bounded body, nothing more.
pub proof fn lemma_quiet_no_header(path: Seq<char>, data: Seq<u8>, f: Filter)
    ensures
        source_output_spec(path, data, f, true) == body_bytes_spec(data, f),
{
}

/// With headers on, a source's output is exactly its header line, its
/// bounded body, and a trailing blank line.
pub proof fn lemma_header_shown(path: Seq<char>, data: Seq<u8>, f: Filter)
    ensures
        source_output_spec(path, data, f, false) == encode_utf8(header_chars(path)) + seq![10u8]
            + body_bytes_spec(data, f) + seq![10u8],
{
}

/// A line-bounded body is always newline-terminated: whatever ended the
/// last input line, a nonempty body ends with a newline byte.
pub proof fn lemma_lines_body_newline_terminated(ls: Seq<Seq<u8>>)
    requires
        ls.len() > 0,
    ensures
        join_lines(ls).len() > 0,
        join_lines(ls).last() == 10u8,
{
}

/// A byte bound of zero yields an empty body for every source.
pub proof fn lemma_zero_bytes(data: Seq<u8>)
    ensures
        body_bytes_spec(data, Filter::Bytes(0)) == Seq::<u8>::empty(),
{
    assert(data.take(0) =~= Seq::<u8>::empty());
}

} // verus!
