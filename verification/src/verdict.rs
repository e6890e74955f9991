//! Reading the verdict text an outside SAT solver prints: the run is
//! satisfiable exactly when the first output line, with surrounding
//! blanks stripped, reads `s SATISFIABLE`.

use vstd::prelude::*;
use vstd::string::StringSliceAdditionalSpecFns;

verus! {

/// ASCII blank characters; the verdict line may carry a trailing
/// carriage return or stray spaces.
pub open spec fn is_blank(b: u8) -> bool {
    b == 32 || b == 9 || b == 13 || b == 10
}

/// Index of the first line feed, or the length when there is none.
pub open spec fn first_nl(bs: Seq<u8>) -> int
    decreases bs.len(),
{
    if bs.len() == 0 {
        0
    } else if bs[0] == 10 {
        0
    } else {
        1 + first_nl(bs.drop_first())
    }
}

/// The first line: everything before the first line feed.
pub open spec fn first_line(bs: Seq<u8>) -> Seq<u8> {
    bs.take(first_nl(bs))
}

/// The bytes with leading blanks stripped.
pub open spec fn trim_front(bs: Seq<u8>) -> Seq<u8>
    decreases bs.len(),
{
    if bs.len() > 0 && is_blank(bs[0]) {
        trim_front(bs.drop_first())
    } else {
        bs
    }
}

/// The bytes with trailing blanks stripped.
pub open spec fn trim_back(bs: Seq<u8>) -> Seq<u8>
    decreases bs.len(),
{
    if bs.len() > 0 && is_blank(bs.last()) {
        trim_back(bs.drop_last())
    } else {
        bs
    }
}

/// The bytes with blanks stripped from both ends.
pub open spec fn ascii_trim(bs: Seq<u8>) -> Seq<u8> {
    trim_back(trim_front(bs))
}

/// The bytes of the verdict line `s SATISFIABLE`.
pub open spec fn sat_line() -> Seq<u8> {
    seq![115u8, 32u8, 83u8, 65u8, 84u8, 73u8, 83u8, 70u8, 73u8, 65u8, 66u8, 76u8, 69u8]
}

/// A scan that finds the first line feed at `i` agrees with `first_nl`.
proof fn lemma_first_nl_found(bs: Seq<u8>, i: int)
    requires
        0 <= i < bs.len(),
        bs[i] == 10,
        forall|j: int| 0 <= j < i ==> bs[j] != 10,
    ensures
        first_nl(bs) == i,
    decreases i,
{
    if i > 0 {
        assert(forall|k: int|
            0 <= k < bs.drop_first().len() ==> #[trigger] bs.drop_first()[k] == bs[k + 1]);
        lemma_first_nl_found(bs.drop_first(), i - 1);
    }
}

/// A scan that finds no line feed agrees with `first_nl`.
proof fn lemma_first_nl_none(bs: Seq<u8>)
    requires
        forall|j: int| 0 <= j < bs.len() ==> bs[j] != 10,
    ensures
        first_nl(bs) == bs.len(),
    decreases bs.len(),
{
    if bs.len() > 0 {
        assert(forall|k: int|
            0 <= k < bs.drop_first().len() ==> #[trigger] bs.drop_first()[k] == bs[k + 1]);
        lemma_first_nl_none(bs.drop_first());
    }
}

/// Stripping the front stops at the first non-blank byte.
proof fn lemma_trim_front(bs: Seq<u8>, k: int)
    requires
        0 <= k <= bs.len(),
        forall|j: int| 0 <= j < k ==> is_blank(#[trigger] bs[j]),
        k < bs.len() ==> !is_blank(bs[k]),
    ensures
        trim_front(bs) == bs.subrange(k, bs.len() as int),
    decreases k,
{
    if k == 0 {
        if bs.len() > 0 {
            assert(bs.subrange(0, bs.len() as int) =~= bs);
        } else {
            assert(bs.subrange(0, 0) =~= bs);
        }
    } else {
        assert(is_blank(bs[0]));
        assert(forall|j: int|
            0 <= j < bs.drop_first().len() ==> #[trigger] bs.drop_first()[j] == bs[j + 1]);
        lemma_trim_front(bs.drop_first(), k - 1);
        assert(bs.drop_first().subrange(k - 1, bs.drop_first().len() as int) =~= bs.subrange(
            k,
            bs.len() as int,
        ));
    }
}

/// Stripping the back stops at the last non-blank byte.
proof fn lemma_trim_back(bs: Seq<u8>, h: int)
    requires
        0 <= h <= bs.len(),
        forall|j: int| h <= j < bs.len() ==> is_blank(#[trigger] bs[j]),
        h > 0 ==> !is_blank(bs[h - 1]),
    ensures
        trim_back(bs) == bs.take(h),
    decreases bs.len(),
{
    if h == bs.len() {
        if bs.len() > 0 {
            assert(!is_blank(bs.last()));
        }
        assert(bs.take(h) =~= bs);
    } else {
        assert(is_blank(bs.last()));
        lemma_trim_back(bs.drop_last(), h);
        assert(bs.drop_last().take(h) =~= bs.take(h));
    }
}

/// Whether a byte is an ASCII blank.
fn blank(b: u8) -> (r: bool)
    ensures
        r == is_blank(b),
{
    b == 32 || b == 9 || b == 13 || b == 10
}

/// The byte of the verdict line at position `j`.
fn sat_line_byte(j: usize) -> (r: u8)
    requires
        j < 13,
    ensures
        r == sat_line()[j as int],
{
    if j == 0 {
        115
    } else if j == 1 {
        32
    } else if j == 2 {
        83
    } else if j == 3 {
        65
    } else if j == 4 {
        84
    } else if j == 5 {
        73
    } else if j == 6 {
        83
    } else if j == 7 {
        70
    } else if j == 8 {
        73
    } else if j == 9 {
        65
    } else if j == 10 {
        66
    } else {
        if j == 11 {
            76
        } else {
            69
        }
    }
}

/// Whether the solver reported satisfiability: its first output line,
/// with surrounding blanks stripped, is exactly `s SATISFIABLE`.
#[verifier::loop_isolation(false)]
pub fn picosat_is_sat(output: &str) -> (r: bool)
    ensures
        r == (ascii_trim(first_line(output.spec_bytes())) == sat_line()),
{
    let bytes = output.as_bytes();
    let ghost bv = output.spec_bytes();
    let n = bytes.len();
    // locate the end of the first line
    let mut end: usize = 0;
    while end < n && bytes[end] != 10
        invariant
            end <= n,
            n == bv.len(),
            bytes@ == bv,
            forall|j: int| 0 <= j < end ==> bv[j] != 10,
        decreases n - end,
    {
        end += 1;
    }
    proof {
        if end < n {
            lemma_first_nl_found(bv, end as int);
        } else {
            lemma_first_nl_none(bv);
        }
        assert(first_line(bv) =~= bv.take(end as int));
    }
    let ghost line = first_line(bv);
    // strip blanks from both ends
    let mut lo: usize = 0;
    while lo < end && blank(bytes[lo])
        invariant
            lo <= end <= n,
            n == bv.len(),
            bytes@ == bv,
            line == bv.take(end as int),
            forall|j: int| 0 <= j < lo ==> is_blank(#[trigger] line[j]),
        decreases end - lo,
    {
        lo += 1;
    }
    proof {
        lemma_trim_front(line, lo as int);
        assert(trim_front(line) =~= line.subrange(lo as int, end as int));
    }
    let mut hi: usize = end;
    while hi > lo && blank(bytes[hi - 1])
        invariant
            lo <= hi <= end <= n,
            n == bv.len(),
            bytes@ == bv,
            line == bv.take(end as int),
            trim_front(line) == line.subrange(lo as int, end as int),
            forall|j: int| hi <= j < end ==> is_blank(#[trigger] line[j]),
        decreases hi,
    {
        hi -= 1;
    }
    proof {
        let tf = trim_front(line);
        assert(forall|j: int|
            hi - lo <= j < tf.len() ==> is_blank(#[trigger] tf[j]));
        if hi > lo {
            assert(!is_blank(tf[hi - lo - 1]));
        }
        lemma_trim_back(tf, hi - lo);
        assert(ascii_trim(line) =~= bv.subrange(lo as int, hi as int));
    }
    // compare the trimmed line with the verdict text
    if hi - lo != 13 {
        proof {
            assert(sat_line().len() == 13);
            assert(ascii_trim(first_line(bv)).len() == hi - lo);
            assert(ascii_trim(first_line(bv)).len() != sat_line().len());
        }
        return false;
    }
    let mut j: usize = 0;
    while j < 13
        invariant
            j <= 13,
            lo + 13 == hi,
            hi <= n,
            n == bv.len(),
            bytes@ == bv,
            ascii_trim(line) == bv.subrange(lo as int, hi as int),
            line == first_line(bv),
            forall|t: int| 0 <= t < j ==> ascii_trim(line)[t] == sat_line()[t],
        decreases 13 - j,
    {
        let expected = sat_line_byte(j);
        if bytes[lo + j] != expected {
            proof {
                assert(ascii_trim(line)[j as int] == bv[lo + j]);
                assert(ascii_trim(line)[j as int] != sat_line()[j as int]);
                assert(ascii_trim(first_line(bv)) != sat_line()) by {
                    assert(ascii_trim(first_line(bv))[j as int] != sat_line()[j as int]);
                }
            }
            return false;
        }
        proof {
            assert(ascii_trim(line)[j as int] == bv[lo + j]);
        }
        j += 1;
    }
    proof {
        assert(ascii_trim(first_line(bv)) =~= sat_line());
    }
    true
}

/// Parsing of the model lines could not start: the solver printed
/// nothing at all.
#[derive(Clone, Copy, PartialEq, Eq, Structural, Debug)]
pub enum ModelError {
    EmptyOutput,
}

/// The parser's state, one byte at a time, over the lines after the
/// verdict.  `mode` walks each line: 0 at a line start, 1 after a
/// leading `v`, 2 inside a `v ` line, 3 skipping any other line.  The
/// remaining fields accumulate the current signed decimal token.
#[verifier::ext_equal]
pub ghost struct ParseState {
    pub res: Seq<Option<bool>>,
    pub mode: int,
    pub neg: bool,
    pub signed: bool,
    pub has_digit: bool,
    pub mag: int,
    pub ok: bool,
}

/// The state at the start of a line, keeping the entries settled so far.
pub open spec fn line_start(res: Seq<Option<bool>>) -> ParseState {
    ParseState { res, mode: 0, neg: false, signed: false, has_digit: false, mag: 0, ok: true }
}

/// Commit the pending token: a well-formed nonzero literal within
/// bounds records its polarity under its magnitude.
pub open spec fn commit(s: ParseState, nvars: int) -> Seq<Option<bool>> {
    if s.ok && s.has_digit && 1 <= s.mag <= nvars {
        s.res.update(s.mag, Some(!s.neg))
    } else {
        s.res
    }
}

/// One byte of input.
pub open spec fn pstep(s: ParseState, b: u8, nvars: int) -> ParseState {
    if s.mode == 0 {
        if b == 10 {
            s
        } else if b == 118 {
            ParseState { mode: 1, ..s }
        } else {
            ParseState { mode: 3, ..s }
        }
    } else if s.mode == 1 {
        if b == 32 {
            ParseState { mode: 2, ..s }
        } else if b == 10 {
            ParseState { mode: 0, ..s }
        } else {
            ParseState { mode: 3, ..s }
        }
    } else if s.mode == 3 {
        if b == 10 {
            ParseState { mode: 0, ..s }
        } else {
            s
        }
    } else {
        // inside a `v ` line
        if b == 10 {
            line_start(commit(s, nvars))
        } else if b == 32 || b == 9 || b == 13 {
            ParseState { mode: s.mode, ..line_start(commit(s, nvars)) }
        } else if 48 <= b <= 57 {
            let mag = if s.mag <= i32::MAX {
                s.mag * 10 + (b - 48)
            } else {
                s.mag
            };
            ParseState { has_digit: true, mag, ok: s.ok && mag <= i32::MAX, ..s }
        } else if b == 45 && !s.signed && !s.has_digit {
            ParseState { neg: true, signed: true, ..s }
        } else if b == 43 && !s.signed && !s.has_digit {
            ParseState { signed: true, ..s }
        } else {
            ParseState { ok: false, ..s }
        }
    }
}

/// The parser folded over the first `k` bytes of the model lines.
pub open spec fn pfold(bs: Seq<u8>, k: int, nvars: int) -> ParseState
    decreases k,
{
    if k <= 0 {
        line_start(Seq::new((nvars + 1) as nat, |i: int| None::<bool>))
    } else {
        pstep(pfold(bs, k - 1, nvars), bs[k - 1], nvars)
    }
}

/// The decoded model: the fold of every model byte, with a pending
/// token at the very end committed.
pub open spec fn model_of(rest: Seq<u8>, nvars: int) -> Seq<Option<bool>> {
    let s = pfold(rest, rest.len() as int, nvars);
    if s.mode == 2 {
        commit(s, nvars)
    } else {
        s.res
    }
}

/// The bytes after the verdict line.
pub open spec fn rest_bytes(bs: Seq<u8>) -> Seq<u8> {
    if first_nl(bs) == bs.len() {
        Seq::empty()
    } else {
        bs.subrange(first_nl(bs) + 1, bs.len() as int)
    }
}

/// Decode the model lines after the verdict line: the result carries,
/// under each identifier, the value the solver assigned to it (entry 0
/// is unused; absent identifiers stay unknown).  A missing verdict
/// gives the empty vector; output with no first line at all is refused.
#[verifier::loop_isolation(false)]
pub fn parse_picosat_model(output: &str, nvars: usize) -> (r: Result<Vec<Option<bool>>, ModelError>)
    requires
        nvars < usize::MAX,
    ensures
        (match r {
            Err(e) => e == ModelError::EmptyOutput && output.spec_bytes().len() == 0,
            Ok(v) => {
                &&& output.spec_bytes().len() > 0
                &&& if ascii_trim(first_line(output.spec_bytes())) == sat_line() {
                    v@ == model_of(rest_bytes(output.spec_bytes()), nvars as int)
                } else {
                    v@ == Seq::<Option<bool>>::empty()
                }
            },
        }),
{
    let bytes = output.as_bytes();
    let ghost bv = output.spec_bytes();
    if bytes.len() == 0 {
        return Err(ModelError::EmptyOutput);
    }
    if !picosat_is_sat(output) {
        return Ok(Vec::new());
    }
    // skip past the verdict line
    let n = bytes.len();
    let mut start: usize = 0;
    while start < n && bytes[start] != 10
        invariant
            start <= n,
            forall|j: int| 0 <= j < start ==> bv[j] != 10,
        decreases n - start,
    {
        start += 1;
    }
    proof {
        if start < n {
            lemma_first_nl_found(bv, start as int);
        } else {
            lemma_first_nl_none(bv);
        }
    }
    let ghost rest = rest_bytes(bv);
    if start == n {
        let mut res: Vec<Option<bool>> = Vec::new();
        let mut i: usize = 0;
        while i <= nvars
            invariant
                i <= nvars + 1,
                res@ =~= Seq::new(i as nat, |t: int| None::<bool>),
            decreases nvars + 1 - i,
        {
            res.push(None);
            i += 1;
        }
        proof {
            assert(rest =~= Seq::<u8>::empty());
            assert(model_of(rest, nvars as int) =~= res@);
        }
        return Ok(res);
    }
    let start = start + 1;
    proof {
        assert(rest =~= bv.subrange(start as int, n as int));
    }
    // run the line parser over the model bytes
    let mut res: Vec<Option<bool>> = Vec::new();
    let mut i: usize = 0;
    while i <= nvars
        invariant
            i <= nvars + 1,
            res@ =~= Seq::new(i as nat, |t: int| None::<bool>),
        decreases nvars + 1 - i,
    {
        res.push(None);
        i += 1;
    }
    let mut mode: u8 = 0;
    let mut neg = false;
    let mut signed = false;
    let mut has_digit = false;
    let mut mag: u64 = 0;
    let mut ok = true;
    let mut k: usize = start;
    while k < n
        invariant
            start <= k <= n,
            n == bv.len(),
            bytes@ == bv,
            rest == bv.subrange(start as int, n as int),
            mag <= 0x5_0000_0005u64,
            (ParseState {
                res: res@,
                mode: mode as int,
                neg,
                signed,
                has_digit,
                mag: mag as int,
                ok,
            }) == pfold(rest, k - start, nvars as int),
            res@.len() == nvars + 1,
        decreases n - k,
    {
        let b = bytes[k];
        let ghost prev = ParseState {
            res: res@,
            mode: mode as int,
            neg,
            signed,
            has_digit,
            mag: mag as int,
            ok,
        };
        proof {
            assert(rest[k - start] == bv[k as int]);
            assert(pfold(rest, k + 1 - start, nvars as int) == pstep(
                prev,
                rest[k - start],
                nvars as int,
            ));
        }
        if mode == 0 {
            if b == 10 {
            } else if b == 118 {
                mode = 1;
            } else {
                mode = 3;
            }
        } else if mode == 1 {
            if b == 32 {
                mode = 2;
            } else if b == 10 {
                mode = 0;
            } else {
                mode = 3;
            }
        } else if mode == 3 {
            if b == 10 {
                mode = 0;
            }
        } else {
            if b == 10 || b == 32 || b == 9 || b == 13 {
                if ok && has_digit && 1 <= mag && mag <= nvars as u64 {
                    res.set(mag as usize, Some(!neg));
                }
                neg = false;
                signed = false;
                has_digit = false;
                mag = 0;
                ok = true;
                if b == 10 {
                    mode = 0;
                }
            } else if 48 <= b && b <= 57 {
                if mag <= i32::MAX as u64 {
                    mag = mag * 10 + ((b - 48) as u64);
                }
                has_digit = true;
                ok = ok && mag <= i32::MAX as u64;
            } else if b == 45 && !signed && !has_digit {
                neg = true;
                signed = true;
            } else if b == 43 && !signed && !has_digit {
                signed = true;
            } else {
                ok = false;
            }
        }
        proof {
            let next = pstep(prev, bv[k as int], nvars as int);
            assert(res@ =~= next.res);
            assert((ParseState {
                res: res@,
                mode: mode as int,
                neg,
                signed,
                has_digit,
                mag: mag as int,
                ok,
            }) =~= pfold(rest, k + 1 - start, nvars as int));
        }
        k += 1;
    }
    if mode == 2 {
        if ok && has_digit && 1 <= mag && mag <= nvars as u64 {
            res.set(mag as usize, Some(!neg));
        }
    }
    proof {
        assert(rest.len() == n - start);
        assert(res@ =~= model_of(rest, nvars as int));
    }
    Ok(res)
}

} // verus!
