//! Physical-core topology derivation.
//!
//! The platform reports one raw record per logical processor; records that
//! share a physical core (SMT siblings) carry the same (package, core) key.
//! This module reduces the records to one representative logical core id per
//! distinct physical core, and parses the two raw forms the platform
//! collaborators hand over: a structured text pseudo-file with one block per
//! logical processor, and fixed-size records carrying an affinity bitmask.

use vstd::prelude::*;
use vstd::seq_lib::*;

verus! {

/// One raw per-logical-processor record: the logical processor id and the
/// (physical package, core within package) key of the physical core it
/// belongs to.
#[derive(Clone, Copy, Debug, PartialEq, Eq, Structural)]
pub struct RawRecord {
    pub logical: usize,
    pub package: usize,
    pub core: usize,
}

/// Why topology derivation failed. Both cases are fatal: there is nothing
/// useful to measure without a trustworthy topology.
#[derive(Clone, Copy, Debug, PartialEq, Eq, Structural)]
pub enum TopologyError {
    /// The platform query yielded no records at all.
    Unavailable,
    /// A record from the platform could not be parsed.
    Malformed,
}

/// ASCII whitespace, the characters stripped from both ends of a field.
pub open spec fn is_ws(b: u8) -> bool {
    b == 32 || b == 9 || b == 10 || b == 13 || b == 11 || b == 12
}

fn is_ws_byte(b: u8) -> (r: bool)
    ensures
        r == is_ws(b),
{
    b == 32 || b == 9 || b == 10 || b == 13 || b == 11 || b == 12
}

/// The index of the first occurrence of `b` in `s`, or `s.len()` if absent.
pub open spec fn find_byte(s: Seq<u8>, b: u8) -> int
    decreases s.len(),
{
    if s.len() == 0 {
        0
    } else if s[0] == b {
        0
    } else {
        1 + find_byte(s.drop_first(), b)
    }
}

pub proof fn lemma_find_byte(s: Seq<u8>, b: u8)
    ensures
        0 <= find_byte(s, b) <= s.len(),
        find_byte(s, b) < s.len() ==> s[find_byte(s, b)] == b,
        forall|j: int| 0 <= j < find_byte(s, b) ==> s[j] != b,
    decreases s.len(),
{
    if s.len() > 0 && s[0] != b {
        lemma_find_byte(s.drop_first(), b);
        assert forall|j: int| 0 <= j < find_byte(s, b) implies s[j] != b by {
            if j > 0 {
                assert(s[j] == s.drop_first()[j - 1]);
            }
        }
    }
}

fn find_byte_exec(s: &Vec<u8>, b: u8) -> (r: usize)
    ensures
        r == find_byte(s@, b),
{
    let n = s.len();
    let mut i: usize = 0;
    while i < n
        invariant
            0 <= i <= n,
            n == s@.len(),
            forall|j: int| 0 <= j < i ==> s@[j] != b,
        decreases n - i,
    {
        if s[i] == b {
            proof {
                lemma_find_byte(s@, b);
            }
            return i;
        }
        i = i + 1;
    }
    proof {
        lemma_find_byte(s@, b);
    }
    n
}

/// `s` with leading ASCII whitespace removed.
pub open spec fn trim_front(s: Seq<u8>) -> Seq<u8>
    decreases s.len(),
{
    if s.len() > 0 && is_ws(s[0]) {
        trim_front(s.drop_first())
    } else {
        s
    }
}

/// `s` with trailing ASCII whitespace removed.
pub open spec fn trim_back(s: Seq<u8>) -> Seq<u8>
    decreases s.len(),
{
    if s.len() > 0 && is_ws(s.last()) {
        trim_back(s.drop_last())
    } else {
        s
    }
}

/// `s` with whitespace removed at both ends.
pub open spec fn spec_trim(s: Seq<u8>) -> Seq<u8> {
    trim_back(trim_front(s))
}

proof fn lemma_trim_front_skip(s: Seq<u8>, k: int)
    requires
        0 <= k <= s.len(),
        forall|j: int| 0 <= j < k ==> is_ws(s[j]),
        k < s.len() ==> !is_ws(s[k]),
    ensures
        trim_front(s) == s.skip(k),
    decreases k,
{
    if k == 0 {
        assert(s.skip(0) =~= s);
    } else {
        lemma_trim_front_skip(s.drop_first(), k - 1);
        assert(s.drop_first().skip(k - 1) =~= s.skip(k));
    }
}

proof fn lemma_trim_back_take(s: Seq<u8>, k: int)
    requires
        0 <= k <= s.len(),
        forall|j: int| k <= j < s.len() ==> is_ws(s[j]),
        k > 0 ==> !is_ws(s[k - 1]),
    ensures
        trim_back(s) == s.take(k),
    decreases s.len() - k,
{
    if k == s.len() {
        assert(s.take(k) =~= s);
    } else {
        lemma_trim_back_take(s.drop_last(), k);
        assert(s.drop_last().take(k) =~= s.take(k));
    }
}

fn trim_bytes(l: &Vec<u8>) -> (t: Vec<u8>)
    ensures
        t@ == spec_trim(l@),
{
    let n = l.len();
    let mut a: usize = 0;
    while a < n && is_ws_byte(l[a])
        invariant
            0 <= a <= n,
            n == l@.len(),
            forall|j: int| 0 <= j < a ==> is_ws(l@[j]),
        decreases n - a,
    {
        a = a + 1;
    }
    let mut b: usize = n;
    while b > a && is_ws_byte(l[b - 1])
        invariant
            a <= b <= n,
            n == l@.len(),
            forall|j: int| b <= j < n ==> is_ws(l@[j]),
        decreases b,
    {
        b = b - 1;
    }
    let mut t: Vec<u8> = Vec::new();
    let mut i: usize = a;
    while i < b
        invariant
            a <= i <= b <= n,
            n == l@.len(),
            t@ == l@.subrange(a as int, i as int),
        decreases b - i,
    {
        t.push(l[i]);
        proof {
            assert(t@ =~= l@.subrange(a as int, i + 1 as int));
        }
        i = i + 1;
    }
    proof {
        lemma_trim_front_skip(l@, a as int);
        lemma_trim_back_take(l@.skip(a as int), b - a as int);
        assert(l@.skip(a as int).take(b - a as int) =~= l@.subrange(a as int, b as int));
    }
    t
}

/// Whether `b` is an ASCII decimal digit.
pub open spec fn is_digit(b: u8) -> bool {
    48 <= b <= 57
}

/// The digits of `s`: the whole of it, past one optional leading `+`.
pub open spec fn digits_of(s: Seq<u8>) -> Seq<u8> {
    if s.len() > 0 && s[0] == 43 {
        s.drop_first()
    } else {
        s
    }
}

/// The value of a sequence of decimal digits.
pub open spec fn dec_val(s: Seq<u8>) -> int
    decreases s.len(),
{
    if s.len() == 0 {
        0
    } else {
        dec_val(s.drop_last()) * 10 + (s.last() - 48)
    }
}

proof fn lemma_dec_val_nonneg(t: Seq<u8>)
    requires
        forall|j: int| 0 <= j < t.len() ==> is_digit(t[j]),
    ensures
        dec_val(t) >= 0,
    decreases t.len(),
{
    if t.len() > 0 {
        lemma_dec_val_nonneg(t.drop_last());
    }
}

/// Whether `s` is a decimal numeral that fits in a `usize`: one optional
/// leading `+`, then at least one digit, nothing else.
pub open spec fn parses_as_usize(s: Seq<u8>) -> bool {
    let d = digits_of(s);
    d.len() > 0 && (forall|i: int| 0 <= i < d.len() ==> is_digit(d[i])) && dec_val(d)
        <= usize::MAX
}

proof fn lemma_dec_val_prefix(t: Seq<u8>, i: int)
    requires
        0 <= i <= t.len(),
        forall|j: int| 0 <= j < t.len() ==> is_digit(t[j]),
    ensures
        dec_val(t.take(i)) <= dec_val(t),
    decreases t.len() - i,
{
    if i == t.len() {
        assert(t.take(i) =~= t);
    } else {
        lemma_dec_val_prefix(t, i + 1);
        assert(forall|j: int| 0 <= j < i ==> is_digit(t.take(i)[j]));
        lemma_dec_val_nonneg(t.take(i));
        assert(t.take(i + 1).drop_last() =~= t.take(i));
        assert(t.take(i + 1).last() == t[i]);
        assert(dec_val(t.take(i + 1)) == dec_val(t.take(i)) * 10 + (t[i] - 48));
    }
}

/// Parses a trimmed decimal numeral, as `str::parse::<usize>` reads it:
/// an optional leading `+`, then only digits; `None` on anything else or on
/// a value that does not fit.
pub fn parse_usize(s: &Vec<u8>) -> (r: Option<usize>)
    ensures
        r is Some <==> parses_as_usize(s@),
        r matches Some(v) ==> v == dec_val(digits_of(s@)),
{
    let n = s.len();
    let start: usize = if n > 0 && s[0] == 43 {
        1
    } else {
        0
    };
    if start >= n {
        return None;
    }
    let ghost d = digits_of(s@);
    proof {
        assert(d =~= s@.subrange(start as int, n as int));
    }
    let mut acc: usize = 0;
    let mut i: usize = start;
    while i < n
        invariant
            start <= i <= n,
            n == s@.len(),
            start == 1 ==> (n > 0 && s@[0] == 43),
            start == 0 ==> !(n > 0 && s@[0] == 43),
            d == digits_of(s@),
            d =~= s@.subrange(start as int, n as int),
            forall|j: int| start <= j < i ==> is_digit(s@[j]),
            acc == dec_val(s@.subrange(start as int, i as int)),
        decreases n - i,
    {
        let b = s[i];
        if b < 48 || b > 57 {
            assert(!is_digit(d[i - start]));
            return None;
        }
        let dig = (b - 48) as usize;
        if acc > (usize::MAX - dig) / 10 {
            proof {
                assert(acc * 10 + dig > usize::MAX) by (nonlinear_arith)
                    requires
                        acc > (usize::MAX - dig) / 10,
                        dig <= usize::MAX,
                        acc >= 0,
                ;
                if forall|j: int| 0 <= j < d.len() ==> is_digit(#[trigger] d[j]) {
                    lemma_dec_val_prefix(d, i + 1 - start);
                    assert(d.take(i + 1 - start) =~= s@.subrange(start as int, i + 1));
                    assert(d.take(i + 1 - start).drop_last() =~= s@.subrange(
                        start as int,
                        i as int,
                    ));
                    assert(dec_val(d.take(i + 1 - start)) == acc * 10 + dig);
                    assert(dec_val(d) > usize::MAX);
                }
            }
            return None;
        }
        proof {
            assert(acc * 10 + dig <= usize::MAX) by (nonlinear_arith)
                requires
                    acc <= (usize::MAX - dig) / 10,
                    dig <= usize::MAX,
                    acc >= 0,
            ;
            assert(s@.subrange(start as int, i + 1).drop_last() =~= s@.subrange(
                start as int,
                i as int,
            ));
        }
        acc = acc * 10 + dig;
        i = i + 1;
    }
    proof {
        assert(d =~= s@.subrange(start as int, n as int));
        assert(forall|j: int| 0 <= j < d.len() ==> is_digit(#[trigger] d[j]));
    }
    Some(acc)
}

/// One line as read from a text report: a trailing carriage return, if
/// any, is not part of it.
pub open spec fn strip_cr(l: Seq<u8>) -> Seq<u8> {
    if l.len() > 0 && l.last() == 13 {
        l.drop_last()
    } else {
        l
    }
}

/// Helper for [`spec_lines`]: the lines of `t` when `cur` has already been
/// read as the beginning of the current line.
pub open spec fn lines_from(t: Seq<u8>, cur: Seq<u8>) -> Seq<Seq<u8>>
    decreases t.len(),
{
    if t.len() == 0 {
        if cur.len() == 0 {
            Seq::empty()
        } else {
            seq![strip_cr(cur)]
        }
    } else if t[0] == 10 {
        seq![strip_cr(cur)] + lines_from(t.drop_first(), Seq::empty())
    } else {
        lines_from(t.drop_first(), cur.push(t[0]))
    }
}

/// The lines of `t`: split at each newline, with one trailing carriage
/// return stripped from each line, and no empty final line when the text
/// ends in a newline.
pub open spec fn spec_lines(t: Seq<u8>) -> Seq<Seq<u8>> {
    lines_from(t, Seq::empty())
}

fn split_into_lines(text: &Vec<u8>) -> (lines: Vec<Vec<u8>>)
    ensures
        lines@.len() == spec_lines(text@).len(),
        forall|k: int| 0 <= k < lines@.len() ==> lines@[k]@ == spec_lines(text@)[k],
{
    let mut lines: Vec<Vec<u8>> = Vec::new();
    let mut cur: Vec<u8> = Vec::new();
    let ghost mut committed: Seq<Seq<u8>> = Seq::empty();
    let n = text.len();
    let mut i: usize = 0;
    proof {
        assert(text@.skip(0) =~= text@);
        assert(Seq::<Seq<u8>>::empty() + lines_from(text@, Seq::empty()) =~= lines_from(
            text@,
            Seq::empty(),
        ));
    }
    while i < n
        invariant
            0 <= i <= n,
            n == text@.len(),
            committed.len() == lines@.len(),
            forall|k: int| 0 <= k < lines@.len() ==> lines@[k]@ == committed[k],
            spec_lines(text@) == committed + lines_from(text@.skip(i as int), cur@),
        decreases n - i,
    {
        let b = text[i];
        proof {
            assert(text@.skip(i as int)[0] == text@[i as int]);
            assert(text@.skip(i as int).drop_first() =~= text@.skip(i + 1));
        }
        if b == 10 {
            let mut done = cur;
            cur = Vec::new();
            if done.len() > 0 && done[done.len() - 1] == 13 {
                done.pop();
            }
            proof {
                committed = committed.push(done@);
                assert(spec_lines(text@) == committed + lines_from(text@.skip(i + 1), cur@))
                    by {
                    assert(committed + lines_from(text@.skip(i + 1), cur@) =~= committed.drop_last()
                        + (seq![done@] + lines_from(text@.skip(i + 1), cur@)));
                };
            }
            lines.push(done);
        } else {
            cur.push(b);
        }
        i = i + 1;
    }
    proof {
        assert(text@.skip(n as int) =~= Seq::<u8>::empty());
    }
    if cur.len() > 0 {
        let mut done = cur;
        if done.len() > 0 && done[done.len() - 1] == 13 {
            done.pop();
        }
        proof {
            committed = committed.push(done@);
            assert(spec_lines(text@) =~= committed);
        }
        lines.push(done);
    } else {
        proof {
            assert(spec_lines(text@) =~= committed);
        }
    }
    lines
}

/// The running state of the text scan: the processor id, physical package
/// id and core id most recently seen.
#[derive(Clone, Copy, Debug, PartialEq, Eq, Structural)]
pub struct ScanState {
    pub procid: usize,
    pub physid: usize,
    pub coreid: usize,
}

/// The state the scan starts from.
pub open spec fn initial_scan_state() -> ScanState {
    ScanState { procid: 0, physid: 0, coreid: 0 }
}

/// The bytes of the field name `processor`.
pub open spec fn key_processor() -> Seq<u8> {
    seq![112u8, 114u8, 111u8, 99u8, 101u8, 115u8, 115u8, 111u8, 114u8]
}

/// The bytes of the field name `physical id`.
pub open spec fn key_physical_id() -> Seq<u8> {
    seq![112u8, 104u8, 121u8, 115u8, 105u8, 99u8, 97u8, 108u8, 32u8, 105u8, 100u8]
}

/// The bytes of the field name `core id`.
pub open spec fn key_core_id() -> Seq<u8> {
    seq![99u8, 111u8, 114u8, 101u8, 32u8, 105u8, 100u8]
}

/// The key of a record line: what stands before the first colon, trimmed.
pub open spec fn line_key(l: Seq<u8>) -> Seq<u8> {
    spec_trim(l.take(find_byte(l, 58)))
}

/// The value of a record line: what stands between the first colon and the
/// second one (or the end of the line), trimmed.
pub open spec fn line_value(l: Seq<u8>) -> Seq<u8> {
    let rest = l.skip(find_byte(l, 58) + 1);
    spec_trim(rest.take(find_byte(rest, 58)))
}

/// What one line does to the scan. A blank line commits one record for the
/// physical core named by the current state. A `processor` line starts a
/// new block: it sets the processor id and pushes both halves of the
/// physical key up by 10000, so that blocks which never name their ids
/// still land in distinct groups. `physical id` and `core id` set their
/// half of the key. Any other keyed line is ignored. A non-blank line
/// without a colon, a field that is not a numeral, and an id pushed past
/// `usize::MAX` are all malformed.
pub open spec fn step_line(st: ScanState, l: Seq<u8>) -> Result<
    (ScanState, Option<RawRecord>),
    TopologyError,
> {
    if l.len() == 0 {
        Ok((st, Some(RawRecord { logical: st.procid, package: st.physid, core: st.coreid })))
    } else if find_byte(l, 58) == l.len() {
        Err(TopologyError::Malformed)
    } else {
        let key = line_key(l);
        let value = line_value(l);
        if key == key_processor() {
            if !parses_as_usize(value) {
                Err(TopologyError::Malformed)
            } else if st.physid + 10000 > usize::MAX || st.coreid + 10000 > usize::MAX {
                Err(TopologyError::Malformed)
            } else {
                Ok(
                    (
                        ScanState {
                            procid: dec_val(digits_of(value)) as usize,
                            physid: (st.physid + 10000) as usize,
                            coreid: (st.coreid + 10000) as usize,
                        },
                        None,
                    ),
                )
            }
        } else if key == key_physical_id() {
            if parses_as_usize(value) {
                Ok(
                    (
                        ScanState {
                            procid: st.procid,
                            physid: dec_val(digits_of(value)) as usize,
                            coreid: st.coreid,
                        },
                        None,
                    ),
                )
            } else {
                Err(TopologyError::Malformed)
            }
        } else if key == key_core_id() {
            if parses_as_usize(value) {
                Ok(
                    (
                        ScanState {
                            procid: st.procid,
                            physid: st.physid,
                            coreid: dec_val(digits_of(value)) as usize,
                        },
                        None,
                    ),
                )
            } else {
                Err(TopologyError::Malformed)
            }
        } else {
            Ok((st, None))
        }
    }
}

fn eq_bytes(a: &Vec<u8>, b: &Vec<u8>) -> (r: bool)
    ensures
        r == (a@ == b@),
{
    if a.len() != b.len() {
        return false;
    }
    let n = a.len();
    let mut i: usize = 0;
    while i < n
        invariant
            0 <= i <= n,
            n == a@.len() == b@.len(),
            forall|j: int| 0 <= j < i ==> a@[j] == b@[j],
        decreases n - i,
    {
        if a[i] != b[i] {
            return false;
        }
        i = i + 1;
    }
    proof {
        assert(a@ =~= b@);
    }
    true
}

fn subvec(v: &Vec<u8>, a: usize, b: usize) -> (out: Vec<u8>)
    requires
        a <= b <= v@.len(),
    ensures
        out@ == v@.subrange(a as int, b as int),
{
    let mut out: Vec<u8> = Vec::new();
    let mut i: usize = a;
    while i < b
        invariant
            a <= i <= b <= v@.len(),
            out@ == v@.subrange(a as int, i as int),
        decreases b - i,
    {
        out.push(v[i]);
        proof {
            assert(out@ =~= v@.subrange(a as int, i + 1 as int));
        }
        i = i + 1;
    }
    out
}

fn step_line_exec(st: ScanState, l: &Vec<u8>) -> (r: Result<
    (ScanState, Option<RawRecord>),
    TopologyError,
>)
    ensures
        r == step_line(st, l@),
{
    if l.len() == 0 {
        return Ok((st, Some(RawRecord { logical: st.procid, package: st.physid, core: st.coreid })));
    }
    let c1 = find_byte_exec(l, 58);
    proof {
        lemma_find_byte(l@, 58);
    }
    if c1 == l.len() {
        return Err(TopologyError::Malformed);
    }
    let keyraw = subvec(l, 0, c1);
    let key = trim_bytes(&keyraw);
    let rest = subvec(l, c1 + 1, l.len());
    let c2 = find_byte_exec(&rest, 58);
    proof {
        lemma_find_byte(rest@, 58);
    }
    let valraw = subvec(&rest, 0, c2);
    let value = trim_bytes(&valraw);
    proof {
        assert(keyraw@ =~= l@.take(c1 as int));
        assert(rest@ =~= l@.skip(c1 + 1));
        assert(valraw@ =~= rest@.take(find_byte(rest@, 58)));
        assert(key@ == line_key(l@));
        assert(value@ == line_value(l@));
    }
    let k_processor: Vec<u8> = vec![112u8, 114u8, 111u8, 99u8, 101u8, 115u8, 115u8, 111u8, 114u8];
    let k_physical: Vec<u8> = vec![
        112u8,
        104u8,
        121u8,
        115u8,
        105u8,
        99u8,
        97u8,
        108u8,
        32u8,
        105u8,
        100u8,
    ];
    let k_core: Vec<u8> = vec![99u8, 111u8, 114u8, 101u8, 32u8, 105u8, 100u8];
    proof {
        assert(k_processor@ =~= key_processor());
        assert(k_physical@ =~= key_physical_id());
        assert(k_core@ =~= key_core_id());
    }
    if eq_bytes(&key, &k_processor) {
        match parse_usize(&value) {
            None => Err(TopologyError::Malformed),
            Some(v) => {
                if st.physid > usize::MAX - 10000 || st.coreid > usize::MAX - 10000 {
                    Err(TopologyError::Malformed)
                } else {
                    Ok(
                        (
                            ScanState {
                                procid: v,
                                physid: st.physid + 10000,
                                coreid: st.coreid + 10000,
                            },
                            None,
                        ),
                    )
                }
            },
        }
    } else if eq_bytes(&key, &k_physical) {
        match parse_usize(&value) {
            None => Err(TopologyError::Malformed),
            Some(v) => Ok(
                (ScanState { procid: st.procid, physid: v, coreid: st.coreid }, None),
            ),
        }
    } else if eq_bytes(&key, &k_core) {
        match parse_usize(&value) {
            None => Err(TopologyError::Malformed),
            Some(v) => Ok(
                (ScanState { procid: st.procid, physid: st.physid, coreid: v }, None),
            ),
        }
    } else {
        Ok((st, None))
    }
}

/// The records committed by scanning `ls` from state `st`, line by line.
pub open spec fn scan_lines(st: ScanState, ls: Seq<Seq<u8>>) -> Result<
    Seq<RawRecord>,
    TopologyError,
>
    decreases ls.len(),
{
    if ls.len() == 0 {
        Ok(Seq::empty())
    } else {
        match step_line(st, ls[0]) {
            Err(e) => Err(e),
            Ok((st2, rec)) => match scan_lines(st2, ls.drop_first()) {
                Err(e) => Err(e),
                Ok(rest) => Ok(
                    match rec {
                        Some(r) => seq![r] + rest,
                        None => rest,
                    },
                ),
            },
        }
    }
}

/// The per-logical-processor records a structured-text topology report
/// describes: its lines scanned in order, starting from the initial state.
pub open spec fn spec_parse_records(text: Seq<u8>) -> Result<Seq<RawRecord>, TopologyError> {
    scan_lines(initial_scan_state(), spec_lines(text))
}

/// Whether an exec parse outcome and a spec parse outcome are the same.
pub open spec fn parse_agrees(
    r: Result<Vec<RawRecord>, TopologyError>,
    s: Result<Seq<RawRecord>, TopologyError>,
) -> bool {
    match r {
        Ok(v) => s == Ok::<Seq<RawRecord>, TopologyError>(v@),
        Err(e) => s == Err::<Seq<RawRecord>, TopologyError>(e),
    }
}

/// Result of `r` with the records `pre` in front of its records.
pub open spec fn prepend_records(
    pre: Seq<RawRecord>,
    r: Result<Seq<RawRecord>, TopologyError>,
) -> Result<Seq<RawRecord>, TopologyError> {
    match r {
        Ok(rest) => Ok(pre + rest),
        Err(e) => Err(e),
    }
}

/// Parses a structured text report — one block of `key : value` lines per
/// logical processor, blocks separated by blank lines — into the raw
/// records it describes, exactly as [`spec_parse_records`] reads it.
pub fn parse_records(text: &Vec<u8>) -> (r: Result<Vec<RawRecord>, TopologyError>)
    ensures
        parse_agrees(r, spec_parse_records(text@)),
{
    let lines = split_into_lines(text);
    let ghost ls = spec_lines(text@);
    let mut recs: Vec<RawRecord> = Vec::new();
    let mut st = ScanState { procid: 0, physid: 0, coreid: 0 };
    let n = lines.len();
    let mut i: usize = 0;
    proof {
        assert(ls.skip(0) =~= ls);
        assert(forall|rest: Seq<RawRecord>| Seq::<RawRecord>::empty() + rest =~= rest);
    }
    while i < n
        invariant
            0 <= i <= n,
            n == lines@.len(),
            ls == spec_lines(text@),
            lines@.len() == ls.len(),
            forall|k: int| 0 <= k < lines@.len() ==> lines@[k]@ == ls[k],
            spec_parse_records(text@) == prepend_records(
                recs@,
                scan_lines(st, ls.skip(i as int)),
            ),
        decreases n - i,
    {
        proof {
            assert(ls.skip(i as int)[0] == ls[i as int]);
            assert(ls.skip(i as int).drop_first() =~= ls.skip(i + 1));
        }
        match step_line_exec(st, &lines[i]) {
            Err(e) => {
                return Err(e);
            },
            Ok((st2, rec)) => {
                st = st2;
                match rec {
                    Some(rr) => {
                        let ghost old_recs = recs@;
                        recs.push(rr);
                        proof {
                            assert(recs@ == old_recs.push(rr));
                            assert(forall|rest: Seq<RawRecord>|
                                old_recs.push(rr) + rest =~= old_recs + (seq![rr] + rest));
                        }
                    },
                    None => {
                    },
                }
            },
        }
        i = i + 1;
    }
    proof {
        assert(ls.skip(n as int) =~= Seq::<Seq<u8>>::empty());
        assert(recs@ + Seq::<RawRecord>::empty() =~= recs@);
    }
    Ok(recs)
}

/// The physical-core key of a record.
pub open spec fn key_of(r: RawRecord) -> (usize, usize) {
    (r.package, r.core)
}

/// Strict ordering of two records by physical-core key.
pub open spec fn key_lt(a: RawRecord, b: RawRecord) -> bool {
    a.package < b.package || (a.package == b.package && a.core < b.core)
}

/// Whether `a` and `b` name the same physical core.
pub open spec fn same_key(a: RawRecord, b: RawRecord) -> bool {
    a.package == b.package && a.core == b.core
}

/// Whether `rep` stands in `records` and no earlier record shares its key:
/// `rep` is the first record of its group.
pub open spec fn is_first_of_group(records: Seq<RawRecord>, rep: RawRecord) -> bool {
    exists|k: int|
        0 <= k < records.len() && #[trigger] records[k] == rep && (forall|j: int|
            0 <= j < k ==> !same_key(records[j], rep))
}

/// Whether some record of `s` shares `r`'s key.
pub open spec fn has_key(s: Seq<RawRecord>, r: RawRecord) -> bool {
    exists|j: int| 0 <= j < s.len() && same_key(#[trigger] s[j], r)
}

/// What makes `reps` the representative list of `records`: strictly
/// ordered by physical-core key, each entry the first record of its group,
/// and every record's group represented.
pub open spec fn reps_of(records: Seq<RawRecord>, reps: Seq<RawRecord>) -> bool {
    &&& forall|i: int, j: int| 0 <= i < j < reps.len() ==> key_lt(reps[i], reps[j])
    &&& forall|i: int| 0 <= i < reps.len() ==> is_first_of_group(records, #[trigger] reps[i])
    &&& forall|i: int| 0 <= i < records.len() ==> has_key(reps, #[trigger] records[i])
}

fn key_lt_exec(a: &RawRecord, b: &RawRecord) -> (r: bool)
    ensures
        r == key_lt(*a, *b),
{
    a.package < b.package || (a.package == b.package && a.core < b.core)
}

fn same_key_exec(a: &RawRecord, b: &RawRecord) -> (r: bool)
    ensures
        r == same_key(*a, *b),
{
    a.package == b.package && a.core == b.core
}

/// Reduces raw records to one representative per distinct physical core:
/// the first record seen with each (package, core) key, in ascending key
/// order.
#[verifier::rlimit(60)]
pub fn group_representatives(records: &Vec<RawRecord>) -> (reps: Vec<RawRecord>)
    ensures
        reps_of(records@, reps@),
{
    let mut reps: Vec<RawRecord> = Vec::new();
    let n = records.len();
    let mut i: usize = 0;
    proof {
        assert(records@.take(0) =~= Seq::<RawRecord>::empty());
    }
    while i < n
        invariant
            0 <= i <= n,
            n == records@.len(),
            forall|p: int, q: int| 0 <= p < q < reps@.len() ==> key_lt(reps@[p], reps@[q]),
            forall|p: int|
                0 <= p < reps@.len() ==> is_first_of_group(
                    records@.take(i as int),
                    #[trigger] reps@[p],
                ),
            forall|p: int| 0 <= p < i ==> has_key(reps@, #[trigger] records@[p]),
        decreases n - i,
    {
        let r = records[i];
        let m = reps.len();
        let mut pos: usize = 0;
        while pos < m && key_lt_exec(&reps[pos], &r)
            invariant
                0 <= pos <= m,
                m == reps@.len(),
                forall|q: int| 0 <= q < pos ==> key_lt(reps@[q], r),
            decreases m - pos,
        {
            pos = pos + 1;
        }
        let ghost old_reps = reps@;
        let ghost prefix = records@.take(i as int);
        proof {
            assert(records@.take(i + 1).drop_last() =~= prefix);
            assert(records@.take(i + 1).last() == records@[i as int]);
        }
        if pos < m && same_key_exec(&reps[pos], &r) {
            // the group already has a representative; this record joins it
            proof {
                assert forall|p: int| 0 <= p < reps@.len() implies is_first_of_group(
                    records@.take(i + 1),
                    #[trigger] reps@[p],
                ) by {
                    let k = choose|k: int|
                        0 <= k < prefix.len() && #[trigger] prefix[k] == reps@[p] && (forall|
                            j: int,
                        |
                            0 <= j < k ==> !same_key(prefix[j], reps@[p]));
                    assert(records@.take(i + 1)[k] == reps@[p]);
                }
                assert(has_key(reps@, records@[i as int]));
            }
        } else {
            // a new group: not equal to the key at pos, and past all keys
            // below pos, so r's key stands nowhere in reps
            proof {
                assert forall|q: int| 0 <= q < old_reps.len() implies !same_key(
                    old_reps[q],
                    r,
                ) by {
                    if q >= pos {
                        if q > pos {
                            assert(key_lt(old_reps[pos as int], old_reps[q]));
                        }
                    }
                }
                // no earlier record shares r's key either, else its group
                // would already be represented
                assert forall|j: int| 0 <= j < i implies !same_key(records@[j], r) by {
                    if same_key(records@[j], r) {
                        assert(has_key(old_reps, records@[j]));
                        let q = choose|q: int|
                            0 <= q < old_reps.len() && same_key(
                                #[trigger] old_reps[q],
                                records@[j],
                            );
                        assert(same_key(old_reps[q], r));
                    }
                }
            }
            reps.insert(pos, r);
            proof {
                old_reps.insert_ensures(pos as int, r);
                assert(reps@.len() == old_reps.len() + 1);
                // sorted again
                assert forall|p: int, q: int| 0 <= p < q < reps@.len() implies key_lt(
                    reps@[p],
                    reps@[q],
                ) by {
                    if q == pos {
                        assert(reps@[p] == old_reps[p]);
                        assert(key_lt(old_reps[p], r));
                    } else if p == pos {
                        assert(reps@[q] == old_reps[q - 1]);
                        if q - 1 > pos {
                            assert(key_lt(old_reps[pos as int], old_reps[q - 1]));
                            assert(key_lt(r, old_reps[pos as int]));
                        } else {
                            assert(key_lt(r, old_reps[pos as int]));
                        }
                    } else if p < pos && q > pos {
                        assert(reps@[p] == old_reps[p] && reps@[q] == old_reps[q - 1]);
                        if q - 1 == pos {
                            assert(key_lt(old_reps[p], r)) by {
                                assert(p < pos);
                            }
                            assert(key_lt(r, old_reps[pos as int]));
                            assert(key_lt(old_reps[p], old_reps[pos as int]));
                        } else {
                            assert(key_lt(old_reps[p], old_reps[q - 1]));
                        }
                    } else if q < pos {
                        assert(reps@[p] == old_reps[p] && reps@[q] == old_reps[q]);
                    } else {
                        assert(reps@[p] == old_reps[p - 1] && reps@[q] == old_reps[q - 1]);
                    }
                }
                // each entry still heads its group in the longer prefix
                assert forall|p: int| 0 <= p < reps@.len() implies is_first_of_group(
                    records@.take(i + 1),
                    #[trigger] reps@[p],
                ) by {
                    if p == pos {
                        assert(reps@[p] == r);
                        assert(records@.take(i + 1)[i as int] == r);
                    } else {
                        let x = if p < pos {
                            old_reps[p]
                        } else {
                            old_reps[p - 1]
                        };
                        assert(reps@[p] == x);
                        assert(is_first_of_group(prefix, x));
                        let k = choose|k: int|
                            0 <= k < prefix.len() && #[trigger] prefix[k] == x && (forall|
                                j: int,
                            |
                                0 <= j < k ==> !same_key(prefix[j], x));
                        assert(records@.take(i + 1)[k] == x);
                    }
                }
                // every seen record's group is still represented
                assert forall|p: int| 0 <= p < i + 1 implies has_key(
                    reps@,
                    #[trigger] records@[p],
                ) by {
                    if p == i {
                        assert(same_key(reps@[pos as int], records@[p]));
                    } else {
                        let q = choose|q: int|
                            0 <= q < old_reps.len() && same_key(
                                #[trigger] old_reps[q],
                                records@[p],
                            );
                        if q < pos {
                            assert(reps@[q] == old_reps[q]);
                        } else {
                            assert(reps@[q + 1] == old_reps[q]);
                        }
                    }
                }
            }
        }
        i = i + 1;
    }
    proof {
        assert(records@.take(n as int) =~= records@);
    }
    reps
}

/// Derives the core topology from raw per-logical-processor records: the
/// representatives' logical core ids, one per distinct physical core, in
/// ascending key order. Fails, with `Unavailable`, exactly when there are
/// no records at all.
pub fn derive_topology(records: &Vec<RawRecord>) -> (r: Result<Vec<usize>, TopologyError>)
    ensures
        r is Err <==> records@.len() == 0,
        r matches Err(e) ==> e == TopologyError::Unavailable,
        r matches Ok(cores) ==> exists|reps: Seq<RawRecord>|
            #[trigger] reps_of(records@, reps) && cores@ == reps.map_values(
                |x: RawRecord| x.logical,
            ),
{
    if records.len() == 0 {
        return Err(TopologyError::Unavailable);
    }
    let reps = group_representatives(records);
    let mut cores: Vec<usize> = Vec::new();
    let m = reps.len();
    let mut i: usize = 0;
    while i < m
        invariant
            0 <= i <= m,
            m == reps@.len(),
            cores@.len() == i,
            forall|k: int| 0 <= k < i ==> cores@[k] == reps@[k].logical,
        decreases m - i,
    {
        cores.push(reps[i].logical);
        i = i + 1;
    }
    proof {
        assert(cores@ =~= reps@.map_values(|x: RawRecord| x.logical));
    }
    Ok(cores)
}

/// Law: the representative list of `records` has exactly one entry per
/// distinct physical-core key; and when no two records name the same
/// logical processor, no two representatives do either.
pub proof fn lemma_representatives_exact(records: Seq<RawRecord>, reps: Seq<RawRecord>)
    requires
        reps_of(records, reps),
    ensures
        reps.len() == records.map_values(|r: RawRecord| key_of(r)).to_set().len(),
        (forall|i: int, j: int|
            0 <= i < j < records.len() ==> records[i].logical != records[j].logical) ==> (forall|
            i: int,
            j: int,
        |
            0 <= i < j < reps.len() ==> reps[i].logical != reps[j].logical),
{
    let rec_keys = records.map_values(|r: RawRecord| key_of(r));
    let rep_keys = reps.map_values(|r: RawRecord| key_of(r));
    assert(rep_keys.no_duplicates()) by {
        assert forall|i: int, j: int|
            0 <= i < rep_keys.len() && 0 <= j < rep_keys.len() && i != j implies rep_keys[i]
            != rep_keys[j] by {
            if i < j {
                assert(key_lt(reps[i], reps[j]));
            } else {
                assert(key_lt(reps[j], reps[i]));
            }
        }
    }
    rep_keys.unique_seq_to_set();
    assert(rep_keys.to_set() =~= rec_keys.to_set()) by {
        assert forall|x: (usize, usize)| rep_keys.to_set().contains(x) implies rec_keys
            .to_set()
            .contains(x) by {
            let i = choose|i: int| 0 <= i < rep_keys.len() && rep_keys[i] == x;
            let k = choose|k: int|
                0 <= k < records.len() && #[trigger] records[k] == reps[i] && (forall|j: int|
                    0 <= j < k ==> !same_key(records[j], reps[i]));
            assert(rec_keys[k] == x);
            assert(rec_keys.contains(x));
        }
        assert forall|x: (usize, usize)| rec_keys.to_set().contains(x) implies rep_keys
            .to_set()
            .contains(x) by {
            let i = choose|i: int| 0 <= i < rec_keys.len() && rec_keys[i] == x;
            assert(has_key(reps, records[i]));
            let q = choose|q: int|
                0 <= q < reps.len() && same_key(#[trigger] reps[q], records[i]);
            assert(rep_keys[q] == x);
            assert(rep_keys.contains(x));
        }
    }
    if forall|i: int, j: int|
        0 <= i < j < records.len() ==> records[i].logical != records[j].logical {
        assert forall|i: int, j: int| 0 <= i < j < reps.len() implies reps[i].logical
            != reps[j].logical by {
            assert(key_lt(reps[i], reps[j]));
            let ki = choose|k: int|
                0 <= k < records.len() && #[trigger] records[k] == reps[i] && (forall|m: int|
                    0 <= m < k ==> !same_key(records[m], reps[i]));
            let kj = choose|k: int|
                0 <= k < records.len() && #[trigger] records[k] == reps[j] && (forall|m: int|
                    0 <= m < k ==> !same_key(records[m], reps[j]));
            assert(records[ki] == reps[i] && records[kj] == reps[j]);
            assert(ki != kj);
            if ki < kj {
                assert(records[ki].logical != records[kj].logical);
            } else {
                assert(records[kj].logical != records[ki].logical);
            }
        }
    }
}

/// One fixed-size platform topology record: its relationship tag says
/// whether it describes a processor core, and its affinity bitmask has one
/// bit set per logical processor belonging to that core.
#[derive(Clone, Copy, Debug, PartialEq, Eq, Structural)]
pub struct MaskRecord {
    pub is_processor_core: bool,
    pub mask: u64,
}

/// The representative logical ids a sequence of fixed-size records
/// describes: for each record tagged as a processor core, in order, the
/// index of the lowest set bit of its mask — the lowest-numbered logical
/// processor of that core. A processor-core record whose mask has no set
/// bit is malformed.
pub open spec fn mask_scan(records: Seq<MaskRecord>) -> Result<Seq<u32>, TopologyError>
    decreases records.len(),
{
    if records.len() == 0 {
        Ok(Seq::empty())
    } else {
        let r0 = records[0];
        if r0.is_processor_core && r0.mask == 0 {
            Err(TopologyError::Malformed)
        } else {
            match mask_scan(records.drop_first()) {
                Err(e) => Err(e),
                Ok(rest) => Ok(
                    if r0.is_processor_core {
                        seq![vstd::std_specs::bits::u64_trailing_zeros(r0.mask)] + rest
                    } else {
                        rest
                    },
                ),
            }
        }
    }
}

/// Whether an exec outcome agrees with what [`mask_scan`] reads: the same
/// error, `Unavailable` for a scan with no processor-core record, and
/// otherwise the scanned ids, widened to `usize`.
pub open spec fn mask_reps_agree(
    r: Result<Vec<usize>, TopologyError>,
    s: Result<Seq<u32>, TopologyError>,
) -> bool {
    match s {
        Err(e) => r == Err::<Vec<usize>, TopologyError>(e),
        Ok(ids) => if ids.len() == 0 {
            r == Err::<Vec<usize>, TopologyError>(TopologyError::Unavailable)
        } else {
            match r {
                Ok(v) => v@.len() == ids.len() && (forall|i: int|
                    0 <= i < ids.len() ==> v@[i] == ids[i]),
                Err(_) => false,
            }
        },
    }
}

/// Derives representative logical core ids from fixed-size platform
/// records, one per record tagged as a processor core, in record order:
/// each is the index of the lowest set bit of the record's affinity mask.
/// Fails with `Malformed` on a processor-core record whose mask is zero,
/// and with `Unavailable` when no record is tagged as a processor core.
pub fn representatives_from_masks(records: &Vec<MaskRecord>) -> (r: Result<
    Vec<usize>,
    TopologyError,
>)
    ensures
        mask_reps_agree(r, mask_scan(records@)),
{
    let mut out: Vec<usize> = Vec::new();
    let ghost mut ids: Seq<u32> = Seq::empty();
    let n = records.len();
    let mut i: usize = 0;
    proof {
        assert(records@.skip(0) =~= records@);
        assert(forall|rest: Seq<u32>| Seq::<u32>::empty() + rest =~= rest);
    }
    while i < n
        invariant
            0 <= i <= n,
            n == records@.len(),
            out@.len() == ids.len(),
            forall|k: int| 0 <= k < ids.len() ==> out@[k] == ids[k],
            mask_scan(records@) == match mask_scan(records@.skip(i as int)) {
                Ok(rest) => Ok::<Seq<u32>, TopologyError>(ids + rest),
                Err(e) => Err::<Seq<u32>, TopologyError>(e),
            },
        decreases n - i,
    {
        proof {
            assert(records@.skip(i as int)[0] == records@[i as int]);
            assert(records@.skip(i as int).drop_first() =~= records@.skip(i + 1));
        }
        let rec = records[i];
        if rec.is_processor_core {
            if rec.mask == 0 {
                return Err(TopologyError::Malformed);
            }
            let bit = rec.mask.trailing_zeros();
            let ghost old_ids = ids;
            proof {
                ids = ids.push(bit);
                assert(forall|rest: Seq<u32>|
                    old_ids.push(bit) + rest =~= old_ids + (seq![bit] + rest));
            }
            out.push(bit as usize);
        }
        i = i + 1;
    }
    proof {
        assert(records@.skip(n as int) =~= Seq::<MaskRecord>::empty());
        assert(ids + Seq::<u32>::empty() =~= ids);
    }
    if out.len() == 0 {
        return Err(TopologyError::Unavailable);
    }
    Ok(out)
}

/// The whole text path: parses a structured text report and derives the
/// topology from the records it describes. A parse failure is passed on;
/// a report describing no records fails with `Unavailable`.
pub fn derive_topology_from_text(text: &Vec<u8>) -> (r: Result<Vec<usize>, TopologyError>)
    ensures
        spec_parse_records(text@) matches Err(e) ==> r == Err::<Vec<usize>, TopologyError>(e),
        spec_parse_records(text@) matches Ok(recs) ==> {
            &&& recs.len() == 0 ==> r == Err::<Vec<usize>, TopologyError>(
                TopologyError::Unavailable,
            )
            &&& recs.len() > 0 ==> (r matches Ok(cores) && (exists|reps: Seq<RawRecord>|
                #[trigger] reps_of(recs, reps) && cores@ == reps.map_values(
                    |x: RawRecord| x.logical,
                )))
        },
{
    match parse_records(text) {
        Err(e) => Err(e),
        Ok(recs) => derive_topology(&recs),
    }
}

} // verus!
