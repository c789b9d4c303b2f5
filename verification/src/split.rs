//! The trace block splitter: raw multi-thread dump text is cut into
//! lines, and the lines are grouped into one block per thread. A block
//! begins at a header line (no leading space or tab); indented lines
//! continue the current block; blank lines are dropped and end nothing.

use vstd::prelude::*;
use vstd::string::StrSliceExecFns;
use vstd::string::StringExecFns;
use crate::normalize::is_ws_char;
use crate::normalize::trimmed;

verus! {

broadcast use vstd::seq::group_seq_axioms, vstd::seq_lib::group_seq_lib_default;

/// The position of the first line feed at or after `from`, or the length.
pub open spec fn nl_idx(s: Seq<char>, from: int) -> int
    decreases s.len() - from,
{
    if from < 0 || from >= s.len() {
        s.len() as int
    } else if s[from] == '\n' {
        from
    } else {
        nl_idx(s, from + 1)
    }
}

/// `nl_idx` stays within the text.
pub proof fn lemma_nl_idx_bounds(s: Seq<char>, from: int)
    requires
        0 <= from <= s.len(),
    ensures
        from <= nl_idx(s, from) <= s.len(),
    decreases s.len() - from,
{
    if from < s.len() && s[from] != '\n' {
        lemma_nl_idx_bounds(s, from + 1);
    }
}

/// The text split at line feeds, from position `from` on.
pub open spec fn lines_from(s: Seq<char>, from: int) -> Seq<Seq<char>>
    decreases s.len() - from,
    when from >= 0
    via lines_from_dec
{
    if from < 0 || from > s.len() {
        Seq::<Seq<char>>::empty()
    } else {
        let nl = nl_idx(s, from);
        if nl >= s.len() {
            seq![s.subrange(from, s.len() as int)]
        } else {
            seq![s.subrange(from, nl)] + lines_from(s, nl + 1)
        }
    }
}

#[via_fn]
proof fn lines_from_dec(s: Seq<char>, from: int) {
    if 0 <= from <= s.len() {
        lemma_nl_idx_bounds(s, from);
    }
}

/// The lines of the text: the segments between line feeds.
pub open spec fn spec_lines(s: Seq<char>) -> Seq<Seq<char>> {
    lines_from(s, 0)
}

/// The line holds nothing but whitespace.
pub open spec fn is_blank(line: Seq<char>) -> bool {
    trimmed(line).len() == 0
}

/// The line is indented, so it continues the current block.
pub open spec fn is_indented(line: Seq<char>) -> bool {
    line.len() > 0 && (line[0] == ' ' || line[0] == '\t')
}

/// The blocks the lines from position `i` on add to those already in
/// `acc`: a non-blank unindented line opens a block, an indented line
/// joins the last open one (or is dropped where none is open yet), and a
/// blank line is dropped.
pub open spec fn blocks_from(
    lines: Seq<Seq<char>>,
    i: int,
    acc: Seq<Seq<Seq<char>>>,
) -> Seq<Seq<Seq<char>>>
    decreases lines.len() - i,
{
    if i < 0 || i >= lines.len() {
        acc
    } else {
        let l = lines[i];
        if is_blank(l) {
            blocks_from(lines, i + 1, acc)
        } else if is_indented(l) {
            if acc.len() > 0 {
                blocks_from(lines, i + 1, acc.update(acc.len() - 1, acc.last().push(l)))
            } else {
                blocks_from(lines, i + 1, acc)
            }
        } else {
            blocks_from(lines, i + 1, acc.push(seq![l]))
        }
    }
}

/// The per-thread line groups of a dump's lines.
pub open spec fn spec_blocks(lines: Seq<Seq<char>>) -> Seq<Seq<Seq<char>>> {
    blocks_from(lines, 0, Seq::<Seq<Seq<char>>>::empty())
}

/// The views of a vector of lines.
pub open spec fn view_lines(v: Seq<String>) -> Seq<Seq<char>> {
    v.map_values(|l: String| l@)
}

/// The views of a vector of blocks.
pub open spec fn view_blocks(v: Seq<Vec<String>>) -> Seq<Seq<Seq<char>>> {
    v.map_values(|b: Vec<String>| view_lines(b@))
}

/// A forward scan finds exactly `nl_idx`.
proof fn lemma_nl_idx(s: Seq<char>, from: int, i: int)
    requires
        0 <= from <= i <= s.len(),
        forall|j: int| from <= j < i ==> s[j] != '\n',
        i == s.len() || s[i] == '\n',
    ensures
        nl_idx(s, from) == i,
    decreases i - from,
{
    if from < i {
        lemma_nl_idx(s, from + 1, i);
    }
}

/// The first line feed at or after `from`, or the length.
fn find_nl(s: &str, from: usize) -> (i: usize)
    requires
        from <= s@.len(),
    ensures
        from <= i <= s@.len(),
        i == nl_idx(s@, from as int),
{
    let len = s.unicode_len();
    let mut i = from;
    while i < len && s.get_char(i) != '\n'
        invariant
            from <= i <= len,
            len == s@.len(),
            forall|j: int| from <= j < i ==> s@[j] != '\n',
        decreases len - i,
    {
        i = i + 1;
    }
    proof {
        lemma_nl_idx(s@, from as int, i as int);
    }
    i
}

/// The text cut into lines at line feeds.
pub fn split_lines(text: &str) -> (r: Vec<String>)
    ensures
        view_lines(r@) == spec_lines(text@),
{
    let len = text.unicode_len();
    let mut r: Vec<String> = Vec::new();
    let mut from: usize = 0;
    let mut fin: bool = false;
    proof {
        assert(spec_lines(text@).skip(0) =~= spec_lines(text@));
    }
    while !fin
        invariant
            from <= len,
            len == text@.len(),
            fin ==> view_lines(r@) == spec_lines(text@),
            !fin ==> lines_from(text@, from as int) == spec_lines(text@).skip(r@.len() as int),
            !fin ==> r@.len() <= spec_lines(text@).len(),
            forall|i: int| 0 <= i < r@.len() ==> #[trigger] r@[i]@ == spec_lines(text@)[i],
        decreases len - from, (if fin {
            0int
        } else {
            1int
        }),
    {
        let nl = find_nl(text, from);
        let ghost pre = r@;
        if nl == len {
            r.push(String::from_str(text.substring_char(from, len)));
            fin = true;
            proof {
                let lf = lines_from(text@, from as int);
                assert(lf =~= seq![text@.subrange(from as int, len as int)]);
                assert(lf.len() > 0);
                assert(pre.len() < spec_lines(text@).len());
                assert(spec_lines(text@)[pre.len() as int] == lf[0]);
                assert(r@[pre.len() as int]@ == spec_lines(text@)[pre.len() as int]);
                assert(spec_lines(text@).len() == pre.len() + 1);
                assert(view_lines(r@) =~= spec_lines(text@));
            }
        } else {
            r.push(String::from_str(text.substring_char(from, nl)));
            proof {
                let lf = lines_from(text@, from as int);
                assert(lf == seq![text@.subrange(from as int, nl as int)] + lines_from(
                    text@,
                    nl + 1 as int,
                ));
                assert(lf.len() > 0);
                assert(pre.len() < spec_lines(text@).len());
                assert(lf[0] == text@.subrange(from as int, nl as int));
                assert(spec_lines(text@)[pre.len() as int] == lf[0]);
                assert(r@[pre.len() as int]@ == spec_lines(text@)[pre.len() as int]);
                assert(lines_from(text@, nl + 1 as int) =~= lf.skip(1));
                assert(lf.skip(1) =~= spec_lines(text@).skip(r@.len() as int));
            }
            from = nl + 1;
        }
    }
    r
}

/// Whether the line holds nothing but whitespace.
fn is_blank_str(line: &str) -> (r: bool)
    ensures
        r == is_blank(line@),
{
    let len = line.unicode_len();
    let mut i: usize = 0;
    while i < len && is_ws_char(line.get_char(i))
        invariant
            i <= len,
            len == line@.len(),
            forall|j: int| 0 <= j < i ==> crate::normalize::is_ws(line@[j]),
        decreases len - i,
    {
        i = i + 1;
    }
    if i == len {
        proof {
            crate::normalize::lemma_skip_front_index(line@, len as int);
            assert(crate::normalize::skip_front(line@) =~= Seq::<char>::empty());
        }
        true
    } else {
        proof {
            crate::normalize::lemma_skip_front_index(line@, i as int);
            let t = line@.skip(i as int);
            assert(t[0] == line@[i as int]);
            crate::normalize::lemma_trim_back_props(t);
        }
        false
    }
}

/// Whether the line is indented.
fn is_indented_str(line: &str) -> (r: bool)
    ensures
        r == is_indented(line@),
{
    if line.unicode_len() == 0 {
        return false;
    }
    let c = line.get_char(0);
    c == ' ' || c == '\t'
}

/// The dump's lines grouped into per-thread blocks.
pub fn split_blocks(lines: &Vec<String>) -> (r: Vec<Vec<String>>)
    ensures
        view_blocks(r@) == spec_blocks(view_lines(lines@)),
{
    let ghost lv = view_lines(lines@);
    let mut blocks: Vec<Vec<String>> = Vec::new();
    let mut i: usize = 0;
    proof {
        assert(view_blocks(blocks@) =~= Seq::<Seq<Seq<char>>>::empty());
    }
    while i < lines.len()
        invariant
            i <= lines.len(),
            lv == view_lines(lines@),
            spec_blocks(lv) == blocks_from(lv, i as int, view_blocks(blocks@)),
        decreases lines.len() - i,
    {
        let line = &lines[i];
        proof {
            assert(lv[i as int] == line@);
        }
        if is_blank_str(line.as_str()) {
        } else if is_indented_str(line.as_str()) {
            if blocks.len() > 0 {
                let ghost pre = blocks@;
                let mut b = blocks.pop().unwrap();
                b.push(line.clone());
                blocks.push(b);
                proof {
                    assert(view_lines(b@) =~= view_lines(pre.last()@).push(lv[i as int]));
                    assert(view_blocks(blocks@) =~= view_blocks(pre).update(
                        view_blocks(pre).len() - 1,
                        view_blocks(pre).last().push(lv[i as int]),
                    ));
                }
            }
        } else {
            let ghost pre = blocks@;
            let mut nb: Vec<String> = Vec::new();
            nb.push(line.clone());
            blocks.push(nb);
            proof {
                assert(view_lines(nb@) =~= seq![lv[i as int]]);
                assert(view_blocks(blocks@) =~= view_blocks(pre).push(seq![lv[i as int]]));
            }
        }
        i = i + 1;
    }
    blocks
}

} // verus!
