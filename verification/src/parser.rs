//! Listener table parser: turns the newline-delimited text produced by
//! the socket-listing utility into structured records.
//!
//! The first line is a header and is always skipped.  Every other line
//! is split on runs of whitespace; a line with fewer than nine columns,
//! a non-numeric process-id column, or an address column without a
//! usable port is dropped silently and the scan continues.

use vstd::prelude::*;
use vstd::string::StringExecFns;
use crate::text::{is_space, is_digit, digit_val, is_space_char, is_digit_char, str_chars,
    string_from_chars};

verus! {

/// Mathematical model of one parsed listener record.
pub struct RecordModel {
    pub hint: Seq<char>,
    pub pid: u32,
    pub protocol: Seq<char>,
    pub port: u16,
}

/// One structured record from one well-formed line of utility output:
/// the raw owner-name hint, the process id, the protocol tag and the
/// local port.
pub struct ListenerRecord {
    pub hint: String,
    pub pid: u32,
    pub protocol: String,
    pub port: u16,
}

impl View for ListenerRecord {
    type V = RecordModel;

    open spec fn view(&self) -> RecordModel {
        RecordModel { hint: self.hint@, pid: self.pid, protocol: self.protocol@, port: self.port }
    }
}

/// The sequence of views of a vector of character vectors.
pub open spec fn chunks_view(r: Seq<Vec<char>>) -> Seq<Seq<char>> {
    Seq::new(r.len(), |k: int| r[k]@)
}

/// The sequence of views of a vector of records.
pub open spec fn records_view(r: Seq<ListenerRecord>) -> Seq<RecordModel> {
    Seq::new(r.len(), |k: int| r[k]@)
}

/// The lines of `s`: split at `\n` or `\r\n`, terminators dropped, no
/// final empty line.
pub open spec fn text_lines(s: Seq<char>) -> Seq<Seq<char>>
    decreases s.len(),
{
    if s.len() == 0 {
        Seq::empty()
    } else if s[0] == '\n' {
        seq![Seq::<char>::empty()] + text_lines(s.skip(1))
    } else if s[0] == '\r' && s.len() >= 2 && s[1] == '\n' {
        seq![Seq::<char>::empty()] + text_lines(s.skip(2))
    } else {
        let rest = text_lines(s.skip(1));
        if rest.len() == 0 {
            seq![seq![s[0]]]
        } else {
            seq![seq![s[0]] + rest[0]] + rest.skip(1)
        }
    }
}

/// The columns of a line: maximal runs of non-whitespace characters.
pub open spec fn columns(s: Seq<char>) -> Seq<Seq<char>>
    decreases s.len(),
{
    if s.len() == 0 {
        Seq::empty()
    } else if is_space(s[0]) {
        columns(s.skip(1))
    } else {
        let rest = columns(s.skip(1));
        if s.len() >= 2 && !is_space(s[1]) {
            seq![seq![s[0]] + rest[0]] + rest.skip(1)
        } else {
            seq![seq![s[0]]] + rest
        }
    }
}

/// Every character is a decimal digit.
pub open spec fn all_digits(s: Seq<char>) -> bool {
    forall|j: int| 0 <= j < s.len() ==> is_digit(s[j])
}

/// The number written in decimal by `s`, most significant digit first.
pub open spec fn dec_value(s: Seq<char>) -> nat
    recommends
        all_digits(s),
    decreases s.len(),
{
    if s.len() == 0 {
        0
    } else {
        dec_value(s.drop_last()) * 10 + digit_val(s.last())
    }
}

/// The result of parsing `s` as an unsigned 32-bit decimal number.
pub open spec fn parse_u32_spec(s: Seq<char>) -> Option<u32> {
    if s.len() > 0 && all_digits(s) && dec_value(s) <= u32::MAX {
        Some(dec_value(s) as u32)
    } else {
        None
    }
}

/// The characters after the last colon of `s` (all of `s` when it has
/// no colon).
pub open spec fn after_last_colon(s: Seq<char>) -> Seq<char>
    decreases s.len(),
{
    if s.len() == 0 {
        Seq::empty()
    } else if s.last() == ':' {
        Seq::empty()
    } else {
        after_last_colon(s.drop_last()) + seq![s.last()]
    }
}

pub open spec fn has_colon(s: Seq<char>) -> bool {
    exists|j: int| 0 <= j < s.len() && s[j] == ':'
}

/// Length of the leading run of decimal digits.
pub open spec fn digit_run_len(s: Seq<char>) -> nat
    decreases s.len(),
{
    if s.len() > 0 && is_digit(s[0]) {
        1 + digit_run_len(s.skip(1))
    } else {
        0
    }
}

/// The port encoded by an address descriptor column: the leading run of
/// digits after the last colon, read as a 16-bit number.  A descriptor
/// without a colon, without a digit after its last colon, or with a
/// value beyond 65535 yields nothing.
pub open spec fn port_of_descriptor(s: Seq<char>) -> Option<u16> {
    if !has_colon(s) {
        None
    } else {
        let run = after_last_colon(s).take(digit_run_len(after_last_colon(s)) as int);
        if run.len() > 0 && dec_value(run) <= 65535 {
            Some(dec_value(run) as u16)
        } else {
            None
        }
    }
}

/// The record parsed from one line of utility output, if the line is
/// well formed; column 1 is the process id, column 8 the address
/// descriptor, column 0 the owner-name hint.
pub open spec fn parse_line_spec(line: Seq<char>) -> Option<RecordModel> {
    let cols = columns(line);
    if cols.len() < 9 {
        None
    } else {
        match parse_u32_spec(cols[1]) {
            Option::None => None,
            Option::Some(pid) => match port_of_descriptor(cols[8]) {
                Option::None => None,
                Option::Some(port) => Some(
                    RecordModel { hint: cols[0], pid, protocol: "TCP"@, port },
                ),
            },
        }
    }
}

/// The records of a sequence of lines, in order, malformed lines
/// dropped.
pub open spec fn records_of(ls: Seq<Seq<char>>) -> Seq<RecordModel>
    decreases ls.len(),
{
    if ls.len() == 0 {
        Seq::empty()
    } else {
        match parse_line_spec(ls[0]) {
            Option::Some(r) => seq![r] + records_of(ls.skip(1)),
            Option::None => records_of(ls.skip(1)),
        }
    }
}

/// All records of a whole utility output: the header line is skipped,
/// every remaining line parsed best-effort.
pub open spec fn parse_listing_spec(text: Seq<char>) -> Seq<RecordModel> {
    if text_lines(text).len() == 0 {
        Seq::empty()
    } else {
        records_of(text_lines(text).skip(1))
    }
}

/// The lines of the text from position `i` on.
fn lines_from(v: &Vec<char>, i: usize) -> (r: Vec<Vec<char>>)
    requires
        i <= v@.len(),
    ensures
        chunks_view(r@) == text_lines(v@.skip(i as int)),
    decreases v@.len() - i@,
{
    let ghost s = v@.skip(i as int);
    if i == v.len() {
        let r: Vec<Vec<char>> = Vec::new();
        proof {
            assert(chunks_view(r@) =~~= text_lines(s));
        }
        r
    } else if v[i] == '\n' {
        proof {
            assert(s.skip(1) =~= v@.skip(i + 1));
        }
        let mut rest = lines_from(v, i + 1);
        rest.insert(0, Vec::new());
        proof {
            assert(chunks_view(rest@) =~~= text_lines(s));
        }
        rest
    } else if v[i] == '\r' && i + 1 < v.len() && v[i + 1] == '\n' {
        proof {
            assert(s.skip(2) =~= v@.skip(i + 2));
        }
        let mut rest = lines_from(v, i + 2);
        rest.insert(0, Vec::new());
        proof {
            assert(chunks_view(rest@) =~~= text_lines(s));
        }
        rest
    } else {
        proof {
            assert(s.skip(1) =~= v@.skip(i + 1));
        }
        let mut rest = lines_from(v, i + 1);
        if rest.len() == 0 {
            let mut tok: Vec<char> = Vec::new();
            tok.push(v[i]);
            rest.insert(0, tok);
            proof {
                assert(chunks_view(rest@) =~~= text_lines(s));
            }
            rest
        } else {
            let mut first = rest.remove(0);
            first.insert(0, v[i]);
            rest.insert(0, first);
            proof {
                assert(chunks_view(rest@) =~~= text_lines(s));
            }
            rest
        }
    }
}

/// The whitespace-separated columns of the characters from `i` on.
fn columns_from(v: &Vec<char>, i: usize) -> (r: Vec<Vec<char>>)
    requires
        i <= v@.len(),
    ensures
        chunks_view(r@) == columns(v@.skip(i as int)),
    decreases v@.len() - i@,
{
    let ghost s = v@.skip(i as int);
    if i == v.len() {
        let r: Vec<Vec<char>> = Vec::new();
        proof {
            assert(chunks_view(r@) =~~= columns(s));
        }
        r
    } else if is_space_char(v[i]) {
        proof {
            assert(s.skip(1) =~= v@.skip(i + 1));
        }
        columns_from(v, i + 1)
    } else {
        proof {
            assert(s.skip(1) =~= v@.skip(i + 1));
        }
        let mut rest = columns_from(v, i + 1);
        if i + 1 < v.len() && !is_space_char(v[i + 1]) {
            proof {
                assert(s.len() >= 2 && !is_space(s[1]));
                assert(columns(s.skip(1)).len() >= 1);
            }
            let mut first = rest.remove(0);
            first.insert(0, v[i]);
            rest.insert(0, first);
            proof {
                assert(chunks_view(rest@) =~~= columns(s));
            }
            rest
        } else {
            let mut tok: Vec<char> = Vec::new();
            tok.push(v[i]);
            rest.insert(0, tok);
            proof {
                assert(chunks_view(rest@) =~~= columns(s));
            }
            rest
        }
    }
}

proof fn lemma_dec_value_prefix_le(s: Seq<char>, i: int)
    requires
        all_digits(s),
        0 <= i <= s.len(),
    ensures
        dec_value(s.take(i)) <= dec_value(s),
    decreases s.len(),
{
    if i < s.len() {
        let h = s.drop_last();
        assert(all_digits(h));
        assert(h.take(i) =~= s.take(i));
        lemma_dec_value_prefix_le(h, i);
    } else {
        assert(s.take(i) =~= s);
    }
}

/// Parse the characters of `v` in `[from, to)` as an unsigned 32-bit
/// decimal number.
fn parse_u32_range(v: &Vec<char>, from: usize, to: usize) -> (r: Option<u32>)
    requires
        from <= to <= v@.len(),
    ensures
        r == parse_u32_spec(v@.subrange(from as int, to as int)),
{
    let ghost s = v@.subrange(from as int, to as int);
    if from == to {
        return None;
    }
    let mut acc: u32 = 0;
    let mut i: usize = from;
    while i < to
        invariant
            from <= i <= to <= v@.len(),
            s == v@.subrange(from as int, to as int),
            all_digits(s.take(i - from)),
            acc == dec_value(s.take(i - from)),
        decreases to - i,
    {
        let c = v[i];
        if !is_digit_char(c) {
            assert(!all_digits(s)) by {
                assert(s[i - from] == c);
            }
            return None;
        }
        let d: u32 = (c as u32) - 48;
        assert(d <= 9);
        if acc > (u32::MAX - d) / 10 {
            proof {
                let p = s.take(i + 1 - from);
                assert(p.drop_last() =~= s.take(i - from));
                assert(p.last() == c);
                assert(dec_value(p) == acc * 10 + d);
                assert(acc * 10 + d > u32::MAX) by {
                    assert(acc >= (u32::MAX - d) / 10 + 1);
                    assert(((u32::MAX - d) / 10 + 1) * 10 + d > u32::MAX);
                };
                if all_digits(s) {
                    lemma_dec_value_prefix_le(s, i + 1 - from);
                }
            }
            return None;
        }
        proof {
            assert(acc * 10 + d <= u32::MAX) by {
                assert(acc <= (u32::MAX - d) / 10);
                assert(((u32::MAX - d) / 10) * 10 <= u32::MAX - d);
            };
            let p = s.take(i + 1 - from);
            assert(p.drop_last() =~= s.take(i - from));
            assert(p.last() == c);
        }
        acc = acc * 10 + d;
        i = i + 1;
    }
    proof {
        assert(s.take(to - from) =~= s);
    }
    Some(acc)
}

/// The port encoded by an address descriptor column.
fn parse_port(desc: &Vec<char>) -> (r: Option<u16>)
    ensures
        r == port_of_descriptor(desc@),
{
    let n = desc.len();
    // Find the position after the last colon.
    let mut k: usize = n;
    while k > 0 && desc[k - 1] != ':'
        invariant
            k <= n == desc@.len(),
            forall|j: int| k <= j < n ==> desc@[j] != ':',
        decreases k,
    {
        k = k - 1;
    }
    if k == 0 {
        proof {
            assert(!has_colon(desc@));
        }
        return None;
    }
    proof {
        assert(desc@[k - 1] == ':');
        assert(has_colon(desc@));
        lemma_after_last_colon_at(desc@, k - 1);
    }
    let ghost tail = desc@.skip(k as int);
    // Leading run of digits.
    let mut e: usize = k;
    while e < n && is_digit_char(desc[e])
        invariant
            k <= e <= n == desc@.len(),
            forall|j: int| k <= j < e ==> is_digit(desc@[j]),
        decreases n - e,
    {
        e = e + 1;
    }
    proof {
        lemma_digit_run_len_at(tail, e - k);
        assert(tail.take(e - k) =~= desc@.subrange(k as int, e as int));
    }
    match parse_u32_range(desc, k, e) {
        Option::None => {
            proof {
                let run = tail.take(digit_run_len(tail) as int);
                if run.len() > 0 && dec_value(run) <= 65535 {
                    assert(all_digits(run));
                    assert(parse_u32_spec(run) is Some);
                }
            }
            None
        },
        Option::Some(val) => {
            if val <= 65535 {
                Some(val as u16)
            } else {
                None
            }
        },
    }
}

proof fn lemma_after_last_colon_at(s: Seq<char>, k: int)
    requires
        0 <= k < s.len(),
        s[k] == ':',
        forall|j: int| k < j < s.len() ==> s[j] != ':',
    ensures
        after_last_colon(s) == s.skip(k + 1),
    decreases s.len(),
{
    if k == s.len() - 1 {
        assert(s.skip(k + 1) =~= Seq::<char>::empty());
    } else {
        let h = s.drop_last();
        lemma_after_last_colon_at(h, k);
        assert(h.skip(k + 1) + seq![s.last()] =~= s.skip(k + 1));
    }
}

proof fn lemma_digit_run_len_at(s: Seq<char>, t: int)
    requires
        0 <= t <= s.len(),
        forall|j: int| 0 <= j < t ==> is_digit(s[j]),
        t == s.len() || !is_digit(s[t]),
    ensures
        digit_run_len(s) == t,
    decreases t,
{
    if t > 0 {
        lemma_digit_run_len_at(s.skip(1), t - 1);
    }
}

/// Parse one line of utility output; a malformed line yields nothing.
pub fn parse_listener_line(line: &Vec<char>) -> (r: Option<ListenerRecord>)
    ensures
        match r {
            Option::Some(rec) => parse_line_spec(line@) == Some(rec@),
            Option::None => parse_line_spec(line@) is None,
        },
{
    proof {
        assert(line@.skip(0) =~= line@);
    }
    let cols = columns_from(line, 0);
    if cols.len() < 9 {
        return None;
    }
    let ghost cv = chunks_view(cols@);
    let pid_col = &cols[1];
    let pid = match parse_u32_range(pid_col, 0, pid_col.len()) {
        Option::Some(p) => p,
        Option::None => {
            proof {
                assert(pid_col@.subrange(0, pid_col@.len() as int) =~= cv[1]);
            }
            return None;
        },
    };
    proof {
        assert(pid_col@.subrange(0, pid_col@.len() as int) =~= cv[1]);
    }
    let port = match parse_port(&cols[8]) {
        Option::Some(p) => p,
        Option::None => {
            return None;
        },
    };
    let hint = string_from_chars(&cols[0]);
    let rec = ListenerRecord { hint, pid, protocol: String::from_str("TCP"), port };
    Some(rec)
}

/// Parse the whole utility output.  The first (header) line is skipped;
/// every record comes from one well-formed later line, in text order.
/// Malformed lines never produce a record and never abort the scan, and
/// every emitted record carries a 16-bit port and an unsigned process
/// id by construction.
pub fn parse_listener_output(text: &str) -> (r: Vec<ListenerRecord>)
    ensures
        records_view(r@) == parse_listing_spec(text@),
{
    let v = str_chars(text);
    let ls = lines_from(&v, 0);
    proof {
        assert(v@.skip(0) =~= v@);
    }
    let ghost lv = chunks_view(ls@);
    let mut out: Vec<ListenerRecord> = Vec::new();
    if ls.len() == 0 {
        proof {
            assert(records_view(out@) =~= parse_listing_spec(text@));
        }
        return out;
    }
    let mut i: usize = 1;
    while i < ls.len()
        invariant
            1 <= i <= ls@.len(),
            lv == chunks_view(ls@),
            records_of(lv.skip(1)) == records_view(out@) + records_of(lv.skip(i as int)),
        decreases ls@.len() - i,
    {
        let ghost pre = records_view(out@);
        let ghost rest = lv.skip(i as int);
        proof {
            assert(rest[0] == ls@[i as int]@);
            assert(rest.skip(1) =~= lv.skip(i + 1));
        }
        match parse_listener_line(&ls[i]) {
            Option::Some(rec) => {
                out.push(rec);
                proof {
                    assert(records_view(out@) =~= pre + seq![rec@]);
                    assert(pre + (seq![rec@] + records_of(lv.skip(i + 1))) =~= records_view(out@)
                        + records_of(lv.skip(i + 1)));
                }
            },
            Option::None => {},
        }
        i = i + 1;
    }
    proof {
        assert(lv.skip(ls@.len() as int) =~= Seq::<Seq<char>>::empty());
        assert(records_view(out@) + Seq::<RecordModel>::empty() =~= records_view(out@));
    }
    out
}

} // verus!
