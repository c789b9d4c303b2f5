//! Frame identity normalization: turning a raw stack-frame line into the
//! canonical label used as a tree key. A label is trimmed of surrounding
//! whitespace, loses its embedded tab characters, and has every maximal
//! run of decimal digits replaced by the placeholder `{num}`, so call
//! sites that differ only in line numbers or generated counters coincide.

use vstd::prelude::*;
use vstd::string::StrSliceExecFns;
use vstd::string::StringExecFns;

verus! {

broadcast use vstd::seq::group_seq_axioms;

/// Whitespace for trimming: space, tab, and the carriage return left by
/// Windows line endings.
pub open spec fn is_ws(c: char) -> bool {
    c == ' ' || c == '\t' || c == '\r'
}

/// A decimal digit.
pub open spec fn is_digit(c: char) -> bool {
    '0' <= c && c <= '9'
}

/// The string without its leading whitespace.
pub open spec fn skip_front(s: Seq<char>) -> Seq<char>
    decreases s.len(),
{
    if s.len() > 0 && is_ws(s[0]) {
        skip_front(s.skip(1))
    } else {
        s
    }
}

/// The string without its trailing whitespace.
pub open spec fn trim_back(s: Seq<char>) -> Seq<char>
    decreases s.len(),
{
    if s.len() > 0 && is_ws(s.last()) {
        trim_back(s.drop_last())
    } else {
        s
    }
}

/// The string without leading and trailing whitespace.
pub open spec fn trimmed(s: Seq<char>) -> Seq<char> {
    trim_back(skip_front(s))
}

/// The token that stands in for every maximal run of digits.
pub open spec fn placeholder() -> Seq<char> {
    seq!['{', 'n', 'u', 'm', '}']
}

/// The canonical form of `s` from position `i` on: tabs are dropped, and
/// each maximal run of digits becomes the placeholder. `prev` records
/// whether the previous kept character belonged to a digit run.
pub open spec fn canon_core(s: Seq<char>, i: int, prev: bool) -> Seq<char>
    decreases s.len() - i,
{
    if i < 0 || i >= s.len() {
        Seq::<char>::empty()
    } else if s[i] == '\t' {
        canon_core(s, i + 1, prev)
    } else if is_digit(s[i]) {
        if prev {
            canon_core(s, i + 1, true)
        } else {
            placeholder() + canon_core(s, i + 1, true)
        }
    } else {
        seq![s[i]] + canon_core(s, i + 1, false)
    }
}

/// The canonical label of a raw name or frame descriptor.
pub open spec fn canon(s: Seq<char>) -> Seq<char> {
    canon_core(trimmed(s), 0, false)
}

/// `skip_front` drops exactly the chars before the first non-whitespace.
pub proof fn lemma_skip_front_index(s: Seq<char>, a: int)
    requires
        0 <= a <= s.len(),
        forall|j: int| 0 <= j < a ==> is_ws(s[j]),
        a == s.len() || !is_ws(s[a]),
    ensures
        skip_front(s) == s.skip(a),
    decreases a,
{
    if a == 0 {
        assert(s.skip(0) =~= s);
    } else {
        assert(is_ws(s[0]));
        lemma_skip_front_index(s.skip(1), a - 1);
        assert(s.skip(1).skip(a - 1) =~= s.skip(a));
    }
}

/// `trim_back` keeps exactly the chars up to the last non-whitespace.
proof fn lemma_trim_back_index(s: Seq<char>, b: int)
    requires
        0 <= b <= s.len(),
        forall|j: int| b <= j < s.len() ==> is_ws(s[j]),
        b == 0 || !is_ws(s[b - 1]),
    ensures
        trim_back(s) == s.take(b),
    decreases s.len(),
{
    if b == s.len() {
        if s.len() > 0 && is_ws(s.last()) {
            assert(!is_ws(s[b - 1]));
            assert(false);
        }
        assert(s.take(b) =~= s);
    } else {
        assert(is_ws(s.last()));
        lemma_trim_back_index(s.drop_last(), b);
        assert(s.drop_last().take(b) =~= s.take(b));
    }
}

/// Whether this character counts as whitespace for trimming.
pub fn is_ws_char(c: char) -> (r: bool)
    ensures
        r == is_ws(c),
{
    c == ' ' || c == '\t' || c == '\r'
}

/// Whether this character is a decimal digit.
pub fn is_digit_char(c: char) -> (r: bool)
    ensures
        r == is_digit(c),
{
    '0' <= c && c <= '9'
}

/// The first index at or after `from` holding no whitespace, or the
/// length.
fn scan_non_ws(s: &str, from: usize) -> (a: usize)
    requires
        from <= s@.len(),
    ensures
        from <= a <= s@.len(),
        forall|j: int| from <= j < a ==> is_ws(s@[j]),
        a == s@.len() || !is_ws(s@[a as int]),
{
    let len = s.unicode_len();
    let mut a = from;
    while a < len && is_ws_char(s.get_char(a))
        invariant
            from <= a <= len,
            len == s@.len(),
            forall|j: int| from <= j < a ==> is_ws(s@[j]),
        decreases len - a,
    {
        a = a + 1;
    }
    a
}

/// The bounds of the trimmed middle of `s`: everything before `a` and
/// from `b` on is whitespace.
fn trim_bounds(s: &str) -> (r: (usize, usize))
    ensures
        r.0 <= r.1 <= s@.len(),
        trimmed(s@) == s@.subrange(r.0 as int, r.1 as int),
{
    let len = s.unicode_len();
    let a = scan_non_ws(s, 0);
    let mut b = len;
    while b > a && is_ws_char(s.get_char(b - 1))
        invariant
            a <= b <= len,
            len == s@.len(),
            forall|j: int| b <= j < len ==> is_ws(s@[j]),
        decreases b,
    {
        b = b - 1;
    }
    proof {
        lemma_skip_front_index(s@, a as int);
        let t = s@.skip(a as int);
        lemma_trim_back_index(t, b - a as int);
        assert(t.take(b - a as int) =~= s@.subrange(a as int, b as int));
        if b == a {
        } else {
            assert(!is_ws(t[b - a - 1 as int]));
        }
    }
    (a, b)
}

/// The canonical label of `s`: trimmed, tab-free, digit runs collapsed to
/// `{num}`.
pub fn canon_str(s: &str) -> (r: String)
    ensures
        r@ == canon(s@),
{
    let (a, b) = trim_bounds(s);
    let ghost t = s@.subrange(a as int, b as int);
    let mut r = String::new();
    let mut i: usize = a;
    let mut prev: bool = false;
    proof {
        assert(canon(s@) == r@ + canon_core(t, 0, false));
    }
    while i < b
        invariant
            a <= i <= b <= s@.len(),
            t == s@.subrange(a as int, b as int),
            canon(s@) == r@ + canon_core(t, i - a as int, prev),
        decreases b - i,
    {
        let c = s.get_char(i);
        proof {
            assert(t[i - a as int] == c);
        }
        if c == '\t' {
            proof {
                assert(canon_core(t, i - a as int, prev) == canon_core(t, i + 1 - a as int, prev));
            }
        } else if is_digit_char(c) {
            if !prev {
                r.append("{num}");
                proof {
                    reveal_strlit("{num}");
                    assert("{num}"@ =~= placeholder());
                    assert(canon_core(t, i - a as int, prev) == placeholder() + canon_core(
                        t,
                        i + 1 - a as int,
                        true,
                    ));
                    assert((r@ + canon_core(t, i + 1 - a as int, true)) =~= canon(s@));
                }
            }
            prev = true;
        } else {
            let piece = s.substring_char(i, i + 1);
            proof {
                assert(piece@ =~= seq![c]);
                assert(canon_core(t, i - a as int, prev) == seq![c] + canon_core(
                    t,
                    i + 1 - a as int,
                    false,
                ));
            }
            r.append(piece);
            proof {
                assert((r@ + canon_core(t, i + 1 - a as int, false)) =~= canon(s@));
            }
            prev = false;
        }
        i = i + 1;
    }
    proof {
        assert(canon_core(t, b - a as int, prev) =~= Seq::<char>::empty());
        assert(r@ + Seq::<char>::empty() =~= r@);
    }
    r
}

/// The string begins with the lock-frame marker `-`.
pub open spec fn starts_dash(t: Seq<char>) -> bool {
    t.len() > 0 && t[0] == '-'
}

/// The string begins with the call-frame marker `at` (either case)
/// followed by whitespace.
pub open spec fn starts_at(t: Seq<char>) -> bool {
    t.len() > 2 && (t[0] == 'a' || t[0] == 'A') && (t[1] == 't' || t[1] == 'T') && is_ws(t[2])
}

/// The frame descriptor of a trimmed line: one leading `at` marker and
/// one leading `-` marker are stripped, in either order, with the
/// whitespace after each.
pub open spec fn strip_markers(t: Seq<char>) -> Seq<char> {
    if starts_dash(t) {
        let u = trimmed(t.skip(1));
        if starts_at(u) {
            trimmed(u.skip(2))
        } else {
            u
        }
    } else if starts_at(t) {
        let u = trimmed(t.skip(2));
        if starts_dash(u) {
            trimmed(u.skip(1))
        } else {
            u
        }
    } else {
        t
    }
}

/// The line is a call frame: after trimming it begins with one of the two
/// markers.
pub open spec fn is_frame_line(line: Seq<char>) -> bool {
    starts_dash(trimmed(line)) || starts_at(trimmed(line))
}

/// The canonical tree key of a frame line.
pub open spec fn frame_label(line: Seq<char>) -> Seq<char> {
    canon(strip_markers(trimmed(line)))
}

/// The trimmed copy of a string.
fn trim_str(s: &str) -> (r: String)
    ensures
        r@ == trimmed(s@),
{
    let (a, b) = trim_bounds(s);
    String::from_str(s.substring_char(a, b))
}

/// Whether the (already trimmed) string begins with the `-` marker.
fn starts_dash_str(t: &str) -> (r: bool)
    ensures
        r == starts_dash(t@),
{
    t.unicode_len() > 0 && t.get_char(0) == '-'
}

/// Whether the (already trimmed) string begins with the `at ` marker.
fn starts_at_str(t: &str) -> (r: bool)
    ensures
        r == starts_at(t@),
{
    if t.unicode_len() <= 2 {
        return false;
    }
    let c0 = t.get_char(0);
    let c1 = t.get_char(1);
    let c2 = t.get_char(2);
    (c0 == 'a' || c0 == 'A') && (c1 == 't' || c1 == 'T') && is_ws_char(c2)
}

/// The rest of the string from position `from`, trimmed.
fn tail_trimmed(t: &str, from: usize) -> (r: String)
    requires
        from <= t@.len(),
    ensures
        r@ == trimmed(t@.skip(from as int)),
{
    let r = trim_str(t.substring_char(from, t.unicode_len()));
    proof {
        assert(t@.subrange(from as int, t@.len() as int) =~= t@.skip(from as int));
    }
    r
}

/// The canonical label of a raw frame line, or nothing where the line is
/// no call frame and must be skipped.
pub fn frame_label_of(line: &str) -> (r: Option<String>)
    ensures
        match r {
            Some(l) => is_frame_line(line@) && l@ == frame_label(line@),
            None => !is_frame_line(line@),
        },
{
    let t = trim_str(line);
    if starts_dash_str(t.as_str()) {
        let u = tail_trimmed(t.as_str(), 1);
        if starts_at_str(u.as_str()) {
            Some(canon_str(tail_trimmed(u.as_str(), 2).as_str()))
        } else {
            Some(canon_str(u.as_str()))
        }
    } else if starts_at_str(t.as_str()) {
        let u = tail_trimmed(t.as_str(), 2);
        if starts_dash_str(u.as_str()) {
            Some(canon_str(tail_trimmed(u.as_str(), 1).as_str()))
        } else {
            Some(canon_str(u.as_str()))
        }
    } else {
        None
    }
}

/// The position of the first double quote at or after `from`, or the
/// length where there is none.
pub open spec fn quote_idx(s: Seq<char>, from: int) -> int
    decreases s.len() - from,
{
    if from < 0 || from >= s.len() {
        s.len() as int
    } else if s[from] == '"' {
        from
    } else {
        quote_idx(s, from + 1)
    }
}

/// The display name a thread header line carries: the text between the
/// first pair of double quotes, in canonical form. A header without such
/// a pair names nothing.
pub open spec fn header_name(line: Seq<char>) -> Option<Seq<char>> {
    let i = quote_idx(line, 0);
    if i < line.len() {
        let j = quote_idx(line, i + 1);
        if j < line.len() {
            Some(canon(line.subrange(i + 1, j)))
        } else {
            None
        }
    } else {
        None
    }
}

/// A forward scan finds exactly `quote_idx`.
proof fn lemma_quote_idx(s: Seq<char>, from: int, i: int)
    requires
        0 <= from <= i <= s.len(),
        forall|j: int| from <= j < i ==> s[j] != '"',
        i == s.len() || s[i] == '"',
    ensures
        quote_idx(s, from) == i,
    decreases i - from,
{
    if from < i {
        lemma_quote_idx(s, from + 1, i);
    }
}

/// The first double quote at or after `from`, or the length.
fn find_quote(s: &str, from: usize) -> (i: usize)
    requires
        from <= s@.len(),
    ensures
        from <= i <= s@.len(),
        i == quote_idx(s@, from as int),
        i < s@.len() ==> s@[i as int] == '"',
{
    let len = s.unicode_len();
    let mut i = from;
    while i < len && s.get_char(i) != '"'
        invariant
            from <= i <= len,
            len == s@.len(),
            forall|j: int| from <= j < i ==> s@[j] != '"',
        decreases len - i,
    {
        i = i + 1;
    }
    proof {
        lemma_quote_idx(s@, from as int, i as int);
    }
    i
}

/// The canonical thread name of a header line, where it has one.
pub fn header_name_of(line: &str) -> (r: Option<String>)
    ensures
        match r {
            Some(n) => header_name(line@) == Some(n@),
            None => header_name(line@) is None,
        },
{
    let i = find_quote(line, 0);
    if i == line.unicode_len() {
        return None;
    }
    let j = find_quote(line, i + 1);
    if j == line.unicode_len() {
        return None;
    }
    Some(canon_str(line.substring_char(i + 1, j)))
}

/// `needle` occurs contiguously somewhere in `hay`.
pub open spec fn has_sub(hay: Seq<char>, needle: Seq<char>) -> bool {
    exists|k: int|
        0 <= k && k + needle.len() <= hay.len() && #[trigger] hay.subrange(k, k + needle.len())
            == needle
}

/// The line names an infrastructure thread of the managed runtime — a
/// compiler, garbage-collector or virtual-machine internal thread — whose
/// block carries no meaningful call stack.
pub open spec fn is_infra_line(line: Seq<char>) -> bool {
    has_sub(line, "CompilerThread"@) || has_sub(line, "GC Thread"@) || has_sub(line, "VM Thread"@)
}

/// Whether `needle` occurs contiguously in `hay`.
pub fn contains_sub(hay: &str, needle: &str) -> (r: bool)
    ensures
        r == has_sub(hay@, needle@),
{
    let hl = hay.unicode_len();
    let nl = needle.unicode_len();
    if nl > hl {
        return false;
    }
    let mut k: usize = 0;
    while k <= hl - nl
        invariant
            hl == hay@.len(),
            nl == needle@.len(),
            nl <= hl,
            k <= hl - nl + 1,
            forall|k2: int| 0 <= k2 < k ==> #[trigger] hay@.subrange(k2, k2 + nl) != needle@,
        decreases hl - nl + 1 - k,
    {
        let mut j: usize = 0;
        while j < nl && hay.get_char(k + j) == needle.get_char(j)
            invariant
                hl == hay@.len(),
                nl == needle@.len(),
                k + nl <= hl,
                j <= nl,
                forall|j2: int| 0 <= j2 < j ==> hay@[k + j2] == needle@[j2],
            decreases nl - j,
        {
            j = j + 1;
        }
        if j == nl {
            proof {
                assert(hay@.subrange(k as int, k + nl) =~= needle@);
            }
            return true;
        }
        proof {
            assert(hay@[k + j] != needle@[j as int]);
            assert(hay@.subrange(k as int, k + nl)[j as int] == hay@[k + j]);
        }
        k = k + 1;
    }
    proof {
        if has_sub(hay@, needle@) {
            let k2 = choose|k2: int|
                0 <= k2 && k2 + needle@.len() <= hay@.len() && #[trigger] hay@.subrange(
                    k2,
                    k2 + needle@.len(),
                ) == needle@;
            assert(hay@.subrange(k2, k2 + nl) != needle@);
        }
    }
    false
}

/// Whether the line names an infrastructure thread.
pub fn is_infra_line_str(line: &str) -> (r: bool)
    ensures
        r == is_infra_line(line@),
{
    contains_sub(line, "CompilerThread") || contains_sub(line, "GC Thread") || contains_sub(
        line,
        "VM Thread",
    )
}

/// Every character the canonical form keeps is neither a tab nor a
/// digit.
proof fn lemma_canon_core_clean(s: Seq<char>, i: int, prev: bool)
    ensures
        forall|j: int|
            0 <= j < canon_core(s, i, prev).len() ==> canon_core(s, i, prev)[j] != '\t'
                && !is_digit(#[trigger] canon_core(s, i, prev)[j]),
    decreases s.len() - i,
{
    let out = canon_core(s, i, prev);
    if i < 0 || i >= s.len() {
    } else if s[i] == '\t' {
        lemma_canon_core_clean(s, i + 1, prev);
        assert forall|j: int| 0 <= j < out.len() implies out[j] != '\t' && !is_digit(
            #[trigger] out[j],
        ) by {
            assert(out[j] == canon_core(s, i + 1, prev)[j]);
        }
    } else if is_digit(s[i]) {
        lemma_canon_core_clean(s, i + 1, true);
        if prev {
            assert forall|j: int| 0 <= j < out.len() implies out[j] != '\t' && !is_digit(
                #[trigger] out[j],
            ) by {
                assert(out[j] == canon_core(s, i + 1, true)[j]);
            }
        }
        if !prev {
            let rest = canon_core(s, i + 1, true);
            assert forall|j: int| 0 <= j < out.len() implies out[j] != '\t' && !is_digit(
                #[trigger] out[j],
            ) by {
                if j < 5 {
                    assert(out[j] == placeholder()[j]);
                } else {
                    assert(out[j] == rest[j - 5]);
                }
            }
        }
    } else {
        lemma_canon_core_clean(s, i + 1, false);
        let rest = canon_core(s, i + 1, false);
        assert forall|j: int| 0 <= j < out.len() implies out[j] != '\t' && !is_digit(
            #[trigger] out[j],
        ) by {
            if j == 0 {
                assert(out[j] == s[i]);
            } else {
                assert(out[j] == rest[j - 1]);
            }
        }
    }
}

/// On a string with no tab and no digit the canonical core is the
/// identity.
proof fn lemma_canon_core_id(s: Seq<char>, i: int, prev: bool)
    requires
        0 <= i <= s.len(),
        forall|j: int| i <= j < s.len() ==> s[j] != '\t' && !is_digit(s[j]),
    ensures
        canon_core(s, i, prev) == s.skip(i),
    decreases s.len() - i,
{
    if i >= s.len() {
        assert(s.skip(i) =~= Seq::<char>::empty());
    } else {
        lemma_canon_core_id(s, i + 1, false);
        assert(seq![s[i]] + s.skip(i + 1) =~= s.skip(i));
    }
}

/// Where the underlying string ends in non-whitespace, a non-empty
/// canonical core ends in non-whitespace too, and an empty one means the
/// rest was nothing but tabs, or digits inside a running run.
proof fn lemma_canon_core_last(s: Seq<char>, i: int, prev: bool)
    requires
        0 <= i,
        s.len() > 0,
        !is_ws(s.last()),
    ensures
        canon_core(s, i, prev).len() > 0 ==> !is_ws(canon_core(s, i, prev).last()),
        canon_core(s, i, prev).len() == 0 ==> (forall|j: int|
            i <= j < s.len() ==> s[j] == '\t' || (prev && is_digit(s[j]))),
    decreases s.len() - i,
{
    let out = canon_core(s, i, prev);
    if i >= s.len() {
    } else if s[i] == '\t' {
        lemma_canon_core_last(s, i + 1, prev);
        if i == s.len() - 1 {
            assert(is_ws(s.last()));
        }
    } else if is_digit(s[i]) {
        lemma_canon_core_last(s, i + 1, true);
        if prev {
        } else {
            let rest = canon_core(s, i + 1, true);
            if rest.len() > 0 {
                assert(out.last() == rest.last());
            } else {
                assert(out.last() == '}');
            }
        }
    } else {
        lemma_canon_core_last(s, i + 1, false);
        let rest = canon_core(s, i + 1, false);
        if rest.len() > 0 {
            assert(out.last() == rest.last());
        } else {
            assert(forall|j: int| i + 1 <= j < s.len() ==> s[j] == '\t');
            if i < s.len() - 1 {
                assert(s.last() == '\t');
                assert(false);
            }
            assert(i == s.len() - 1);
            assert(out.last() == s.last());
        }
    }
}

/// A non-empty `skip_front` begins with non-whitespace.
proof fn lemma_skip_front_first(s: Seq<char>)
    ensures
        skip_front(s).len() > 0 ==> !is_ws(skip_front(s)[0]),
    decreases s.len(),
{
    if s.len() > 0 && is_ws(s[0]) {
        lemma_skip_front_first(s.skip(1));
    }
}

/// `trim_back` is a prefix whose last character, if any, is
/// non-whitespace; it keeps a non-whitespace head.
pub proof fn lemma_trim_back_props(s: Seq<char>)
    ensures
        trim_back(s).len() <= s.len(),
        forall|j: int| 0 <= j < trim_back(s).len() ==> #[trigger] trim_back(s)[j] == s[j],
        trim_back(s).len() > 0 ==> !is_ws(trim_back(s).last()),
        s.len() > 0 && !is_ws(s[0]) ==> trim_back(s).len() > 0,
    decreases s.len(),
{
    if s.len() > 0 && is_ws(s.last()) {
        lemma_trim_back_props(s.drop_last());
        if !is_ws(s[0]) {
            assert(s.len() >= 2);
            assert(s.drop_last()[0] == s[0]);
        }
    }
}

/// A non-empty trimmed string begins and ends in non-whitespace.
proof fn lemma_trimmed_ends(s: Seq<char>)
    ensures
        trimmed(s).len() > 0 ==> !is_ws(trimmed(s)[0]) && !is_ws(trimmed(s).last()),
{
    lemma_skip_front_first(s);
    lemma_trim_back_props(skip_front(s));
}

/// Canonicalization is idempotent: the canonical form of a label that is
/// already canonical is that label itself.
pub proof fn lemma_canon_idempotent(s: Seq<char>)
    ensures
        canon(canon(s)) == canon(s),
{
    let t = trimmed(s);
    let out = canon_core(t, 0, false);
    lemma_trimmed_ends(s);
    if t.len() == 0 {
        assert(out =~= Seq::<char>::empty());
        assert(skip_front(out) == out);
        assert(trim_back(out) == out);
        assert(canon(out) =~= out);
    } else {
        lemma_canon_core_last(t, 0, false);
        if out.len() == 0 {
            assert(t.last() == '\t');
            assert(false);
        }
        // the first kept character is non-whitespace
        assert(!is_ws(t[0]) && t[0] != '\t');
        if is_digit(t[0]) {
            assert(out[0] == '{');
        } else {
            assert(out[0] == t[0]);
        }
        assert(!is_ws(out[0]));
        assert(skip_front(out) == out);
        assert(trim_back(out) == out);
        assert(trimmed(out) == out);
        lemma_canon_core_clean(t, 0, false);
        lemma_canon_core_id(out, 0, false);
        assert(out.skip(0) =~= out);
        assert(canon(out) == out);
    }
}

} // verus!

