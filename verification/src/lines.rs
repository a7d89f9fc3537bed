//! The line-bounded prefix: a source's content split at newline bytes
//! into lines, carriage returns stripped before a newline, lines that are
//! not valid UTF-8 silently dropped (and not counted), and at most `n` of
//! the remaining lines kept, in order.

use vstd::prelude::*;
use vstd::utf8::*;

verus! {

/// Drops one trailing carriage return, as a line read up to a newline
/// sheds a final `\r`.
pub open spec fn strip_cr(s: Seq<u8>) -> Seq<u8> {
    if s.len() > 0 && s.last() == 13 {
        s.drop_last()
    } else {
        s
    }
}

/// The decodable lines of `data`, given that the bytes of `cur` have
/// already been read from the current, still unterminated line. A
/// newline byte ends the current line, which keeps its place only when
/// it is valid UTF-8 once a trailing carriage return is stripped; a final
/// unterminated line keeps its bytes as they stand, a final empty one is
/// no line at all.
pub open spec fn lines_from(data: Seq<u8>, cur: Seq<u8>) -> Seq<Seq<u8>>
    decreases data.len(),
{
    if data.len() == 0 {
        if cur.len() == 0 {
            Seq::empty()
        } else if valid_utf8(cur) {
            seq![cur]
        } else {
            Seq::empty()
        }
    } else if data[0] == 10 {
        let line = strip_cr(cur);
        if valid_utf8(line) {
            seq![line] + lines_from(data.skip(1), Seq::empty())
        } else {
            lines_from(data.skip(1), Seq::empty())
        }
    } else {
        lines_from(data.skip(1), cur.push(data[0]))
    }
}

/// The decodable lines of `data`, from its start.
pub open spec fn decoded_lines(data: Seq<u8>) -> Seq<Seq<u8>> {
    lines_from(data, Seq::empty())
}

/// The line-bounded prefix: the first `n` decodable lines of `data`, or
/// all of them when there are fewer.
pub open spec fn lines_prefix(data: Seq<u8>, n: u64) -> Seq<Seq<u8>> {
    let ls = decoded_lines(data);
    if n as int <= ls.len() {
        ls.take(n as int)
    } else {
        ls
    }
}

/// Decides whether `bytes` is a valid UTF-8 encoding, in the sense of
/// `vstd::utf8::valid_utf8`.
pub fn utf8_check(bytes: &Vec<u8>) -> (ok: bool)
    ensures
        ok == valid_utf8(bytes@),
{
    let n = bytes.len();
    let mut i: usize = 0;
    proof {
        assert(bytes@.skip(0) =~= bytes@);
    }
    while i < n
        invariant
            0 <= i <= n,
            n == bytes@.len(),
            valid_utf8(bytes@) == valid_utf8(bytes@.skip(i as int)),
        decreases n - i,
    {
        let ghost suf = bytes@.skip(i as int);
        proof {
            assert(suf.len() == n - i);
            assert(forall|k: int| 0 <= k < suf.len() ==> suf[k] == bytes@[i + k]);
        }
        let b0 = bytes[i];
        let w: usize = if b0 <= 0x7f {
            1
        } else if 0xc0 <= b0 && b0 <= 0xdf {
            2
        } else if 0xe0 <= b0 && b0 <= 0xef {
            3
        } else if 0xf0 <= b0 && b0 <= 0xf7 {
            4
        } else {
            proof {
                assert(!valid_leading_and_continuation_bytes_first_codepoint(suf));
            }
            return false;
        };
        if n - i < w {
            proof {
                assert(!valid_leading_and_continuation_bytes_first_codepoint(suf));
            }
            return false;
        }
        if w >= 2 && !(0x80 <= bytes[i + 1] && bytes[i + 1] <= 0xbf) {
            proof {
                assert(!valid_leading_and_continuation_bytes_first_codepoint(suf));
            }
            return false;
        }
        if w >= 3 && !(0x80 <= bytes[i + 2] && bytes[i + 2] <= 0xbf) {
            proof {
                assert(!valid_leading_and_continuation_bytes_first_codepoint(suf));
            }
            return false;
        }
        if w >= 4 && !(0x80 <= bytes[i + 3] && bytes[i + 3] <= 0xbf) {
            proof {
                assert(!valid_leading_and_continuation_bytes_first_codepoint(suf));
            }
            return false;
        }
        let cp: u32 = if w == 1 {
            (b0 & 0x7f) as u32
        } else if w == 2 {
            (((b0 & 0x1f) as u32) << 6) | ((bytes[i + 1] & 0x3f) as u32)
        } else if w == 3 {
            (((b0 & 0x0f) as u32) << 12) | (((bytes[i + 1] & 0x3f) as u32) << 6) | ((bytes[i + 2]
                & 0x3f) as u32)
        } else {
            (((b0 & 0x07) as u32) << 18) | (((bytes[i + 1] & 0x3f) as u32) << 12) | (((bytes[i + 2]
                & 0x3f) as u32) << 6) | ((bytes[i + 3] & 0x3f) as u32)
        };
        proof {
            assert(valid_leading_and_continuation_bytes_first_codepoint(suf));
            assert(cp == decode_first_codepoint(suf));
            assert(length_of_first_codepoint(suf) == w);
        }
        if w == 2 && cp < 0x80 {
            proof {
                assert(!not_overlong_encoding(decode_first_codepoint(suf), 2));
            }
            return false;
        }
        if w == 3 && cp < 0x800 {
            proof {
                assert(!not_overlong_encoding(decode_first_codepoint(suf), 3));
            }
            return false;
        }
        if w == 4 && (cp < 0x10000 || cp > 0x10ffff) {
            proof {
                assert(!not_overlong_encoding(decode_first_codepoint(suf), 4));
            }
            return false;
        }
        if 0xd800 <= cp && cp <= 0xdfff {
            proof {
                assert(!not_surrogate(decode_first_codepoint(suf)));
            }
            return false;
        }
        proof {
            assert(valid_first_scalar(suf));
            assert(length_of_first_scalar(suf) == w);
            assert(pop_first_scalar(suf) =~= bytes@.skip(i + w));
        }
        i = i + w;
    }
    proof {
        assert(bytes@.skip(i as int) =~= Seq::<u8>::empty());
    }
    true
}

/// Collects at most `n` leading decodable lines of `data`.
pub fn head_lines(data: &Vec<u8>, n: u64) -> (out: Vec<Vec<u8>>)
    ensures
        out.deep_view() == lines_prefix(data@, n),
{
    let mut out: Vec<Vec<u8>> = Vec::new();
    let mut count: u64 = 0;
    let mut cur: Vec<u8> = Vec::new();
    let mut i: usize = 0;
    proof {
        assert(data@.skip(0) =~= data@);
        assert(out.deep_view() =~~= Seq::<Seq<u8>>::empty());
        assert(Seq::<Seq<u8>>::empty() + lines_from(data@, Seq::<u8>::empty()) =~= lines_from(
            data@,
            Seq::<u8>::empty(),
        ));
    }
    while i < data.len() && count < n
        invariant
            0 <= i <= data.len(),
            out@.len() == count as int,
            count <= n,
            decoded_lines(data@) == out.deep_view() + lines_from(data@.skip(i as int), cur@),
        decreases data.len() - i,
    {
        let ghost pre = data@.skip(i as int);
        let ghost rest = data@.skip(i + 1);
        proof {
            assert(pre[0] == data@[i as int]);
            assert(pre.skip(1) =~= rest);
        }
        let b = data[i];
        if b == 10 {
            let ghost cur0 = cur@;
            let ghost dv0 = out.deep_view();
            let mut line = cur;
            cur = Vec::new();
            if line.len() > 0 && line[line.len() - 1] == 13 {
                line.pop();
            }
            proof {
                assert(line@ == strip_cr(cur0));
            }
            if utf8_check(&line) {
                let ghost lv = line@;
                out.push(line);
                count = count + 1;
                proof {
                    assert(out.deep_view() =~~= dv0.push(lv));
                    assert(lines_from(pre, cur0) == seq![lv] + lines_from(rest, Seq::<u8>::empty()));
                    assert(dv0 + (seq![lv] + lines_from(rest, Seq::<u8>::empty())) =~= dv0.push(lv)
                        + lines_from(rest, Seq::<u8>::empty()));
                }
            } else {
                proof {
                    assert(lines_from(pre, cur0) == lines_from(rest, Seq::<u8>::empty()));
                }
            }
        } else {
            let ghost cur0 = cur@;
            cur.push(b);
            proof {
                assert(lines_from(pre, cur0) == lines_from(rest, cur0.push(b)));
            }
        }
        i = i + 1;
    }
    if count < n {
        proof {
            assert(i == data.len());
            assert(data@.skip(i as int) =~= Seq::<u8>::empty());
        }
        if cur.len() > 0 {
            let ghost cur0 = cur@;
            let ghost dv0 = out.deep_view();
            if utf8_check(&cur) {
                out.push(cur);
                count = count + 1;
                proof {
                    assert(lines_from(Seq::<u8>::empty(), cur0) == seq![cur0]);
                    assert(out.deep_view() =~~= dv0.push(cur0));
                    assert(dv0 + seq![cur0] =~= dv0.push(cur0));
                }
            } else {
                proof {
                    assert(lines_from(Seq::<u8>::empty(), cur0) == Seq::<Seq<u8>>::empty());
                    assert(dv0 + Seq::<Seq<u8>>::empty() =~= dv0);
                }
            }
        } else {
            proof {
                assert(lines_from(Seq::<u8>::empty(), cur@) == Seq::<Seq<u8>>::empty());
                assert(out.deep_view() + Seq::<Seq<u8>>::empty() =~= out.deep_view());
            }
        }
        proof {
            let ls = decoded_lines(data@);
            assert(ls == out.deep_view());
            assert(ls.len() == count as int);
            if n as int <= ls.len() {
                assert(ls.take(n as int) =~= ls);
            }
        }
    } else {
        proof {
            let ls = decoded_lines(data@);
            let tail = lines_from(data@.skip(i as int), cur@);
            assert(ls == out.deep_view() + tail);
            assert(n as int <= ls.len());
            assert(ls.take(n as int) =~= out.deep_view());
        }
    }
    out
}

/// The line-bounded prefix holds at most `n` lines — exactly `n` when
/// the source has that many — and each of them is the corresponding
/// decodable input line, unchanged.
pub proof fn lemma_lines_bound(data: Seq<u8>, n: u64)
    ensures
        lines_prefix(data, n).len() <= n,
        n as int <= decoded_lines(data).len() ==> lines_prefix(data, n).len() == n,
        forall|i: int|
            0 <= i < lines_prefix(data, n).len() ==> lines_prefix(data, n)[i] == decoded_lines(
                data,
            )[i],
{
}


/// The bytes of a sequence of output lines: each line followed by one
/// newline, whatever ended it in the input.
pub open spec fn join_lines(ls: Seq<Seq<u8>>) -> Seq<u8>
    decreases ls.len(),
{
    if ls.len() == 0 {
        Seq::empty()
    } else {
        join_lines(ls.drop_last()) + ls.last() + seq![10u8]
    }
}

/// Copies the bytes of `data` between `from` and `to`.
fn copy_range(data: &Vec<u8>, from: usize, to: usize) -> (out: Vec<u8>)
    requires
        from <= to <= data.len(),
    ensures
        out@ == data@.subrange(from as int, to as int),
{
    let mut out: Vec<u8> = Vec::new();
    let mut k: usize = from;
    proof {
        assert(data@.subrange(from as int, from as int) =~= Seq::<u8>::empty());
    }
    while k < to
        invariant
            from <= k <= to <= data@.len(),
            out@ == data@.subrange(from as int, k as int),
        decreases to - k,
    {
        out.push(data[k]);
        proof {
            assert(data@.subrange(from as int, k + 1) =~= data@.subrange(from as int, k as int).push(
                data@[k as int],
            ));
        }
        k = k + 1;
    }
    out
}

/// The line a raw chunk stands for: a chunk read up to a newline sheds a
/// trailing carriage return; a final unterminated chunk keeps its bytes.
pub open spec fn chunk_line(chunk: Seq<u8>, last: bool) -> Seq<u8> {
    if last {
        chunk
    } else {
        strip_cr(chunk)
    }
}

/// True when a raw chunk yields an output line: a final chunk must be
/// nonempty, and the line must be valid UTF-8.
pub open spec fn chunk_counts(chunk: Seq<u8>, last: bool) -> bool {
    &&& (last ==> chunk.len() > 0)
    &&& valid_utf8(chunk_line(chunk, last))
}

/// One step of the bounded line loop. `chunk` holds the next line's raw
/// bytes, read up to and without its newline; `last` marks a final
/// unterminated chunk. When the chunk yields a line, the line and a
/// newline are appended to `out` and the line is counted; an
/// undecodable or empty-final chunk leaves both untouched. The result
/// says whether the bound is now reached, so that a caller reading
/// chunk by chunk stops consuming its source.
pub fn lines_step(chunk: &Vec<u8>, last: bool, n: u64, count: &mut u64, out: &mut Vec<u8>) -> (stop:
    bool)
    requires
        *old(count) < n,
    ensures
        chunk_counts(chunk@, last) ==> *final(count) == *old(count) + 1 && final(out)@ == old(out)@
            + chunk_line(chunk@, last) + seq![10u8],
        !chunk_counts(chunk@, last) ==> *final(count) == *old(count) && final(out)@ == old(out)@,
        *final(count) <= n,
        stop == (*final(count) == n),
{
    let ghost out0 = out@;
    let mut emit = true;
    let mut line_end: usize = chunk.len();
    if last {
        emit = chunk.len() > 0;
    } else {
        if chunk.len() > 0 && chunk[chunk.len() - 1] == 13 {
            line_end = chunk.len() - 1;
        }
    }
    if emit {
        proof {
            assert(chunk@.subrange(0, line_end as int) =~= chunk_line(chunk@, last));
        }
        let line = copy_range(chunk, 0, line_end);
        if utf8_check(&line) {
            let mut k: usize = 0;
            while k < line.len()
                invariant
                    0 <= k <= line.len(),
                    out@ == out0 + line@.take(k as int),
                decreases line.len() - k,
            {
                out.push(line[k]);
                proof {
                    assert(out0 + line@.take(k + 1) =~= (out0 + line@.take(k as int)).push(
                        line@[k as int],
                    ));
                }
                k = k + 1;
            }
            out.push(10);
            proof {
                assert(line@.take(line@.len() as int) =~= line@);
                assert(out@ =~= out0 + line@ + seq![10u8]);
            }
            *count = *count + 1;
        }
    }
    *count == n
}

proof fn lemma_lines_from_terminated(c: Seq<u8>, rest: Seq<u8>, cur: Seq<u8>)
    requires
        forall|i: int| 0 <= i < c.len() ==> c[i] != 10,
    ensures
        lines_from(c + seq![10u8] + rest, cur) == (if valid_utf8(strip_cr(cur + c)) {
            seq![strip_cr(cur + c)]
        } else {
            Seq::<Seq<u8>>::empty()
        }) + lines_from(rest, Seq::empty()),
    decreases c.len(),
{
    let data = c + seq![10u8] + rest;
    if c.len() == 0 {
        assert(data[0] == 10);
        assert(cur + c =~= cur);
        assert(data.skip(1) =~= rest);
        if !valid_utf8(strip_cr(cur)) {
            assert(Seq::<Seq<u8>>::empty() + lines_from(rest, Seq::empty()) =~= lines_from(
                rest,
                Seq::empty(),
            ));
        }
    } else {
        assert(data[0] == c[0]);
        assert(data.skip(1) =~= c.skip(1) + seq![10u8] + rest);
        assert(forall|i: int| 0 <= i < c.skip(1).len() ==> #[trigger] c.skip(1)[i] == c[i + 1]);
        lemma_lines_from_terminated(c.skip(1), rest, cur.push(c[0]));
        assert(cur.push(c[0]) + c.skip(1) =~= cur + c);
    }
}

proof fn lemma_lines_from_final(c: Seq<u8>, cur: Seq<u8>)
    requires
        forall|i: int| 0 <= i < c.len() ==> c[i] != 10,
    ensures
        lines_from(c, cur) == lines_from(Seq::empty(), cur + c),
    decreases c.len(),
{
    if c.len() == 0 {
        assert(cur + c =~= cur);
    } else {
        assert(c[0] != 10);
        assert(forall|i: int| 0 <= i < c.skip(1).len() ==> #[trigger] c.skip(1)[i] == c[i + 1]);
        lemma_lines_from_final(c.skip(1), cur.push(c[0]));
        assert(cur.push(c[0]) + c.skip(1) =~= cur + c);
    }
}

proof fn lemma_join_cons(a: Seq<u8>, ls: Seq<Seq<u8>>)
    ensures
        join_lines(seq![a] + ls) == a + seq![10u8] + join_lines(ls),
    decreases ls.len(),
{
    if ls.len() == 0 {
        assert(seq![a] + ls =~= seq![a]);
        assert(seq![a].drop_last() =~= Seq::<Seq<u8>>::empty());
        assert(join_lines(Seq::<Seq<u8>>::empty()) == Seq::<u8>::empty());
        assert(seq![a].last() == a);
        assert(join_lines(seq![a]) == join_lines(seq![a].drop_last()) + a + seq![10u8]);
        assert(join_lines(seq![a]) =~= a + seq![10u8] + join_lines(ls));
    } else {
        assert((seq![a] + ls).drop_last() =~= seq![a] + ls.drop_last());
        assert((seq![a] + ls).last() == ls.last());
        lemma_join_cons(a, ls.drop_last());
        assert(join_lines(seq![a] + ls) =~= a + seq![10u8] + join_lines(ls));
    }
}

/// A spent bound owes nothing: with zero lines left to take, a source
/// contributes no further output, whatever it still holds.
pub proof fn lemma_zero_budget(data: Seq<u8>)
    ensures
        join_lines(lines_prefix(data, 0)) == Seq::<u8>::empty(),
{
    assert(decoded_lines(data).take(0) =~= Seq::<Seq<u8>>::empty());
}

/// Reading one newline-terminated chunk at a time agrees with the
/// whole-input model: a chunk's line (when it decodes) is exactly the
/// next piece of the line-bounded body, and the rest of the body is the
/// line-bounded body of the remaining bytes under a budget one smaller.
pub proof fn lemma_terminated_chunk(c: Seq<u8>, rest: Seq<u8>, n: u64)
    requires
        n > 0,
        forall|i: int| 0 <= i < c.len() ==> c[i] != 10,
    ensures
        chunk_counts(c, false) ==> join_lines(lines_prefix(c + seq![10u8] + rest, n)) == strip_cr(c)
            + seq![10u8] + join_lines(lines_prefix(rest, (n - 1) as u64)),
        !chunk_counts(c, false) ==> join_lines(lines_prefix(c + seq![10u8] + rest, n)) == join_lines(
            lines_prefix(rest, n),
        ),
{
    let data = c + seq![10u8] + rest;
    let rr = decoded_lines(rest);
    lemma_lines_from_terminated(c, rest, Seq::empty());
    assert(Seq::<u8>::empty() + c =~= c);
    if valid_utf8(strip_cr(c)) {
        let line = strip_cr(c);
        assert(decoded_lines(data) == seq![line] + rr);
        if n as int <= 1 + rr.len() {
            assert((seq![line] + rr).take(n as int) =~= seq![line] + rr.take(n - 1));
            lemma_join_cons(line, rr.take(n - 1));
            assert(lines_prefix(rest, (n - 1) as u64) == rr.take(n - 1));
        } else {
            assert(lines_prefix(data, n) == seq![line] + rr);
            lemma_join_cons(line, rr);
            assert(lines_prefix(rest, (n - 1) as u64) == rr);
        }
        assert(join_lines(lines_prefix(data, n)) =~= line + seq![10u8] + join_lines(
            lines_prefix(rest, (n - 1) as u64),
        ));
    } else {
        assert(decoded_lines(data) =~= Seq::<Seq<u8>>::empty() + rr);
        assert(Seq::<Seq<u8>>::empty() + rr =~= rr);
        assert(decoded_lines(data) == rr);
    }
}

/// A final unterminated chunk agrees with the whole-input model: under a
/// budget still open, it contributes its line and a newline when it
/// yields one, and nothing otherwise.
pub proof fn lemma_final_chunk(c: Seq<u8>, n: u64)
    requires
        n > 0,
        forall|i: int| 0 <= i < c.len() ==> c[i] != 10,
    ensures
        chunk_counts(c, true) ==> join_lines(lines_prefix(c, n)) == c + seq![10u8],
        !chunk_counts(c, true) ==> join_lines(lines_prefix(c, n)) == Seq::<u8>::empty(),
{
    lemma_lines_from_final(c, Seq::empty());
    assert(Seq::<u8>::empty() + c =~= c);
    if c.len() > 0 && valid_utf8(c) {
        assert(decoded_lines(c) == seq![c]);
        assert(lines_prefix(c, n) == seq![c]);
        if n as int <= 1 {
            assert(seq![c].take(1) =~= seq![c]);
        }
        assert(seq![c].drop_last() =~= Seq::<Seq<u8>>::empty());
        assert(join_lines(Seq::<Seq<u8>>::empty()) == Seq::<u8>::empty());
        assert(seq![c].last() == c);
        assert(join_lines(seq![c]) == join_lines(seq![c].drop_last()) + c + seq![10u8]);
        assert(join_lines(lines_prefix(c, n)) =~= c + seq![10u8]);
    } else {
        assert(decoded_lines(c) == Seq::<Seq<u8>>::empty());
    }
}

/// Renders the line-bounded body of `data` by reading it one
/// newline-delimited chunk at a time through `lines_step`, exactly as a
/// caller streaming a source would, and stopping as soon as the bound
/// is reached.
pub fn render_lines(data: &Vec<u8>, n: u64) -> (out: Vec<u8>)
    ensures
        out@ == join_lines(lines_prefix(data@, n)),
{
    let mut out: Vec<u8> = Vec::new();
    let mut count: u64 = 0;
    let mut pos: usize = 0;
    proof {
        assert(data@.skip(0) =~= data@);
        assert(Seq::<u8>::empty() + join_lines(lines_prefix(data@, n)) =~= join_lines(
            lines_prefix(data@, n),
        ));
    }
    while count < n && pos < data.len()
        invariant
            0 <= pos <= data.len(),
            count <= n,
            join_lines(lines_prefix(data@, n)) == out@ + join_lines(
                lines_prefix(data@.skip(pos as int), (n - count) as u64),
            ),
        decreases data.len() - pos,
    {
        let ghost m: u64 = (n - count) as u64;
        let mut j: usize = pos;
        while j < data.len() && data[j] != 10
            invariant
                pos <= j <= data@.len(),
                forall|k: int| pos <= k < j ==> data@[k] != 10,
            decreases data.len() - j,
        {
            j = j + 1;
        }
        let ghost c = data@.subrange(pos as int, j as int);
        proof {
            assert(forall|i: int| 0 <= i < c.len() ==> #[trigger] c[i] == data@[pos + i]);
            assert(forall|i: int| 0 <= i < c.len() ==> c[i] != 10);
        }
        let chunk = copy_range(data, pos, j);
        let ghost out0 = out@;
        if j == data.len() {
            proof {
                assert(c =~= data@.skip(pos as int));
            }
            let _stop = lines_step(&chunk, true, n, &mut count, &mut out);
            proof {
                lemma_final_chunk(c, m);
                assert(data@.skip(data@.len() as int) =~= Seq::<u8>::empty());
                assert(decoded_lines(Seq::<u8>::empty()) == Seq::<Seq<u8>>::empty());
                if chunk_counts(c, true) {
                    assert(out0 + join_lines(lines_prefix(c, m)) =~= out0 + c + seq![10u8]);
                }
                assert(out@ + join_lines(
                    lines_prefix(data@.skip(data@.len() as int), (n - count) as u64),
                ) =~= out@);
                assert(out@ =~= out0 + join_lines(lines_prefix(c, m)));
            }
            pos = data.len();
        } else {
            proof {
                assert(data@[j as int] == 10);
                assert(data@.skip(pos as int) =~= c + seq![10u8] + data@.skip(j + 1));
            }
            let stop = lines_step(&chunk, false, n, &mut count, &mut out);
            proof {
                lemma_terminated_chunk(c, data@.skip(j + 1), m);
                if chunk_counts(c, false) {
                    assert((n - count) as u64 == (m - 1) as u64);
                    assert(out0 + (strip_cr(c) + seq![10u8] + join_lines(
                        lines_prefix(data@.skip(j + 1), (m - 1) as u64),
                    )) =~= (out0 + strip_cr(c) + seq![10u8]) + join_lines(
                        lines_prefix(data@.skip(j + 1), (m - 1) as u64),
                    ));
                    assert(out@ =~= out0 + strip_cr(c) + seq![10u8]);
                }
            }
            pos = j + 1;
        }
    }
    proof {
        if count == n {
            lemma_zero_budget(data@.skip(pos as int));
        } else {
            assert(pos == data@.len());
            assert(data@.skip(pos as int) =~= Seq::<u8>::empty());
            assert(decoded_lines(Seq::<u8>::empty()) == Seq::<Seq<u8>>::empty());
        }
    }
    out
}

} // verus!
