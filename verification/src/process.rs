//! Parsing the process lister's output: each line with exactly two
//! whitespace-separated tokens names a candidate process, `pid name`.
//! Lines of any other shape are skipped; a two-token line whose first
//! token is no unsigned number fails the whole listing.

use vstd::prelude::*;
use vstd::string::StrSliceExecFns;
use vstd::string::StringExecFns;
use crate::normalize::is_digit;
use crate::normalize::is_digit_char;
use crate::normalize::is_ws;
use crate::normalize::is_ws_char;
use crate::split::spec_lines;
use crate::split::split_lines;

verus! {

broadcast use vstd::seq::group_seq_axioms, vstd::seq_lib::group_seq_lib_default, vstd::std_specs::vec::group_vec_axioms;

/// A single candidate process reported by the external process lister:
/// its numeric identifier and its display name.
#[derive(Debug)]
pub struct Process {
    pub pid: u32,
    pub name: String,
}

/// The end of the whitespace-free run that starts at `i`.
pub open spec fn run_end(s: Seq<char>, i: int) -> int
    decreases s.len() - i,
{
    if i < 0 || i >= s.len() {
        s.len() as int
    } else if is_ws(s[i]) {
        i
    } else {
        run_end(s, i + 1)
    }
}

/// `run_end` stays within the string and after `i`.
pub proof fn lemma_run_end_bounds(s: Seq<char>, i: int)
    requires
        0 <= i <= s.len(),
    ensures
        i <= run_end(s, i) <= s.len(),
    decreases s.len() - i,
{
    if i < s.len() && !is_ws(s[i]) {
        lemma_run_end_bounds(s, i + 1);
    }
}

/// The whitespace-separated tokens of the string from position `i` on.
pub open spec fn tokens_from(s: Seq<char>, i: int) -> Seq<Seq<char>>
    decreases s.len() - i,
    when i >= 0
    via tokens_from_dec
{
    if i < 0 || i >= s.len() {
        Seq::<Seq<char>>::empty()
    } else if is_ws(s[i]) {
        tokens_from(s, i + 1)
    } else {
        seq![s.subrange(i, run_end(s, i + 1))] + tokens_from(s, run_end(s, i + 1))
    }
}

#[via_fn]
proof fn tokens_from_dec(s: Seq<char>, i: int) {
    if 0 <= i < s.len() {
        lemma_run_end_bounds(s, i + 1);
    }
}

/// The whitespace-separated tokens of a line.
pub open spec fn spec_tokens(s: Seq<char>) -> Seq<Seq<char>> {
    tokens_from(s, 0)
}

/// A non-empty string of decimal digits.
pub open spec fn is_digits(s: Seq<char>) -> bool {
    s.len() > 0 && forall|j: int| 0 <= j < s.len() ==> is_digit(#[trigger] s[j])
}

/// The number a string of digits denotes.
pub open spec fn digits_val(s: Seq<char>) -> nat
    decreases s.len(),
{
    if s.len() == 0 {
        0
    } else {
        digits_val(s.drop_last()) * 10 + ((s.last() as int - '0' as int) as nat)
    }
}

/// A process identifier: digits whose value fits in `u32`.
pub open spec fn is_u32_numeral(s: Seq<char>) -> bool {
    is_digits(s) && digits_val(s) <= u32::MAX
}

/// A prefix of a digit string never denotes more than the whole.
proof fn lemma_digits_val_mono(s: Seq<char>, i: int)
    requires
        0 <= i <= s.len(),
    ensures
        digits_val(s.take(i)) <= digits_val(s),
    decreases s.len() - i,
{
    if i == s.len() {
        assert(s.take(i) =~= s);
    } else {
        lemma_digits_val_mono(s, i + 1);
        assert(s.take(i + 1).drop_last() =~= s.take(i));
        assert(digits_val(s.take(i + 1)) == digits_val(s.take(i)) * 10 + ((s.take(i + 1).last()
            as int - '0' as int) as nat));
    }
}

/// Parse an unsigned decimal number, refusing anything that is not
/// digits or does not fit in `u32`.
pub fn parse_u32(s: &str) -> (r: Option<u32>)
    ensures
        match r {
            Some(v) => is_u32_numeral(s@) && v as nat == digits_val(s@),
            None => !is_u32_numeral(s@),
        },
{
    let len = s.unicode_len();
    if len == 0 {
        return None;
    }
    let mut v: u32 = 0;
    let mut i: usize = 0;
    while i < len
        invariant
            i <= len,
            len == s@.len(),
            forall|j: int| 0 <= j < i ==> is_digit(#[trigger] s@[j]),
            v as nat == digits_val(s@.take(i as int)),
        decreases len - i,
    {
        let c = s.get_char(i);
        if !is_digit_char(c) {
            return None;
        }
        let d: u32 = c as u32 - 48;
        proof {
            assert(d as int == s@[i as int] as int - '0' as int);
        }
        let wide: u64 = v as u64 * 10 + d as u64;
        proof {
            assert(s@.take(i + 1 as int).drop_last() =~= s@.take(i as int));
            assert(s@.take(i + 1 as int).last() == s@[i as int]);
            assert(digits_val(s@.take(i + 1 as int)) == digits_val(s@.take(i as int)) * 10
                + d as nat);
        }
        if wide > u32::MAX as u64 {
            proof {
                if is_digits(s@) {
                    lemma_digits_val_mono(s@, i + 1 as int);
                }
            }
            return None;
        }
        v = wide as u32;
        i = i + 1;
    }
    proof {
        assert(s@.take(len as int) =~= s@);
    }
    Some(v)
}

/// The line has exactly two tokens whose first is no process id.
pub open spec fn line_bad(line: Seq<char>) -> bool {
    spec_tokens(line).len() == 2 && !is_u32_numeral(spec_tokens(line)[0])
}

/// The line names a process: exactly two tokens, the first a process id.
pub open spec fn line_good(line: Seq<char>) -> bool {
    spec_tokens(line).len() == 2 && is_u32_numeral(spec_tokens(line)[0])
}

/// The `(pid, name)` pairs of the good lines from position `i` on, in
/// order.
pub open spec fn entries_from(lines: Seq<Seq<char>>, i: int) -> Seq<(nat, Seq<char>)>
    decreases lines.len() - i,
{
    if i < 0 || i >= lines.len() {
        Seq::<(nat, Seq<char>)>::empty()
    } else if line_good(lines[i]) {
        seq![
            (digits_val(spec_tokens(lines[i])[0]), spec_tokens(lines[i])[1]),
        ] + entries_from(lines, i + 1)
    } else {
        entries_from(lines, i + 1)
    }
}

/// The `(pid, name)` pairs of a listing's good lines.
pub open spec fn spec_entries(text: Seq<char>) -> Seq<(nat, Seq<char>)> {
    entries_from(spec_lines(text), 0)
}

/// Some line of the listing is bad.
pub open spec fn has_bad_line(text: Seq<char>) -> bool {
    exists|i: int|
        0 <= i < spec_lines(text).len() && line_bad(#[trigger] spec_lines(text)[i])
}

/// Tokens of a line found exactly as the spec splits them.
fn tokens_of(line: &str) -> (r: Vec<String>)
    ensures
        r@.map_values(|t: String| t@) == spec_tokens(line@),
{
    let len = line.unicode_len();
    let mut r: Vec<String> = Vec::new();
    let mut i: usize = 0;
    proof {
        assert(spec_tokens(line@).skip(0) =~= spec_tokens(line@));
    }
    while i < len
        invariant
            i <= len,
            len == line@.len(),
            r@.len() <= spec_tokens(line@).len(),
            tokens_from(line@, i as int) == spec_tokens(line@).skip(r@.len() as int),
            forall|k: int| 0 <= k < r@.len() ==> #[trigger] r@[k]@ == spec_tokens(line@)[k],
        decreases len - i,
    {
        let c = line.get_char(i);
        if is_ws_char(c) {
            proof {
                assert(tokens_from(line@, i as int) == tokens_from(line@, i + 1 as int));
            }
            i = i + 1;
        } else {
            let mut e: usize = i + 1;
            while e < len && !is_ws_char(line.get_char(e))
                invariant
                    i < e <= len,
                    len == line@.len(),
                    forall|j: int| i + 1 <= j < e ==> !is_ws(#[trigger] line@[j]),
                decreases len - e,
            {
                e = e + 1;
            }
            proof {
                lemma_run_end_at(line@, i + 1 as int, e as int);
            }
            let ghost pre = r@;
            r.push(String::from_str(line.substring_char(i, e)));
            proof {
                let tf = tokens_from(line@, i as int);
                assert(tf == seq![line@.subrange(i as int, e as int)] + tokens_from(
                    line@,
                    e as int,
                ));
                assert(tf.len() > 0);
                assert(pre.len() < spec_tokens(line@).len());
                assert(spec_tokens(line@)[pre.len() as int] == tf[0]);
                assert(r@[pre.len() as int]@ == spec_tokens(line@)[pre.len() as int]);
                assert(tokens_from(line@, e as int) =~= tf.skip(1));
                assert(tf.skip(1) =~= spec_tokens(line@).skip(r@.len() as int));
            }
            i = e;
        }
    }
    proof {
        assert(tokens_from(line@, len as int) =~= Seq::<Seq<char>>::empty());
        assert(r@.len() == spec_tokens(line@).len());
        assert(r@.map_values(|t: String| t@) =~= spec_tokens(line@));
    }
    r
}

/// A forward scan finds exactly `run_end`.
proof fn lemma_run_end_at(s: Seq<char>, from: int, e: int)
    requires
        0 <= from <= e <= s.len(),
        forall|j: int| from <= j < e ==> !is_ws(#[trigger] s[j]),
        e == s.len() || is_ws(s[e]),
    ensures
        run_end(s, from) == e,
    decreases e - from,
{
    if from < e {
        lemma_run_end_at(s, from + 1, e);
    }
}

/// Parse the process lister's output into the candidate processes it
/// names. Every line with exactly two tokens contributes one process;
/// other lines are skipped; a two-token line whose first token is no
/// unsigned number fails the listing with an error message.
#[verifier::loop_isolation(false)]
pub fn parse_process_list(text: &str) -> (r: Result<Vec<Process>, String>)
    ensures
        r is Ok <==> !has_bad_line(text@),
        match r {
            Ok(v) => v@.len() == spec_entries(text@).len() && (forall|k: int|
                0 <= k < v@.len() ==> (#[trigger] v@[k]).pid as nat == spec_entries(text@)[k].0
                    && v@[k].name@ == spec_entries(text@)[k].1),
            Err(e) => e@ == "Failed to parse PID"@,
        },
{
    let ghost lv = spec_lines(text@);
    let lines = split_lines(text);
    let mut out: Vec<Process> = Vec::new();
    let mut i: usize = 0;
    while i < lines.len()
        invariant
            i <= lines.len(),
            lines@.len() == lv.len(),
            crate::split::view_lines(lines@) == lv,
            forall|j: int| 0 <= j < i ==> !line_bad(#[trigger] lv[j]),
            out@.len() + entries_from(lv, i as int).len() == entries_from(lv, 0).len(),
            entries_from(lv, i as int) == entries_from(lv, 0).skip(out@.len() as int),
            forall|k: int|
                0 <= k < out@.len() ==> (#[trigger] out@[k]).pid as nat == entries_from(lv, 0)[k].0
                    && out@[k].name@ == entries_from(lv, 0)[k].1,
        decreases lines.len() - i,
    {
        proof {
            assert(lv[i as int] == lines@[i as int]@);
        }
        let toks = tokens_of(lines[i].as_str());
        proof {
            assert(toks@.map_values(|t: String| t@) == spec_tokens(lv[i as int]));
            assert(toks@.len() == spec_tokens(lv[i as int]).len());
        }
        if toks.len() == 2 {
            proof {
                assert(toks@[0]@ == spec_tokens(lv[i as int])[0]);
                assert(toks@[1]@ == spec_tokens(lv[i as int])[1]);
            }
            match parse_u32(toks[0].as_str()) {
                None => {
                    proof {
                        assert(line_bad(spec_lines(text@)[i as int]));
                        assert(has_bad_line(text@));
                    }
                    let mut msg = String::new();
                    msg.append("Failed to parse PID");
                    proof {
                        assert(Seq::<char>::empty() + "Failed to parse PID"@ =~= "Failed to parse PID"@);
                    }
                    return Err(msg);
                },
                Some(pid) => {
                    let ghost pre = out@;
                    let name = toks[1].clone();
                    out.push(Process { pid, name });
                    proof {
                        assert(line_good(lv[i as int]));
                        let ef = entries_from(lv, i as int);
                        assert(ef == seq![
                            (digits_val(spec_tokens(lv[i as int])[0]), spec_tokens(lv[i as int])[1]),
                        ] + entries_from(lv, i + 1 as int));
                        assert(ef.len() > 0);
                        assert(entries_from(lv, 0)[pre.len() as int] == ef[0]);
                        assert(out@[pre.len() as int].pid as nat == ef[0].0);
                        assert(out@[pre.len() as int].name@ == ef[0].1);
                        assert(entries_from(lv, i + 1 as int) =~= ef.skip(1));
                        assert(ef.skip(1) =~= entries_from(lv, 0).skip(out@.len() as int));
                    }
                },
            }
        } else {
            proof {
                assert(!line_bad(lv[i as int]));
                assert(!line_good(lv[i as int]));
                assert(entries_from(lv, i + 1 as int) == entries_from(lv, i as int));
            }
        }
        i = i + 1;
    }
    proof {
        assert(entries_from(lv, lv.len() as int).len() == 0);
        if has_bad_line(text@) {
            let j = choose|j: int| 0 <= j < lv.len() && line_bad(#[trigger] lv[j]);
            assert(!line_bad(lv[j]));
        }
    }
    Ok(out)
}

} // verus!
