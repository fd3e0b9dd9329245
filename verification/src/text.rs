//! Character-level text utilities: ASCII-whitespace classification, trimming,
//! tokenization, line splitting, fixed-width truncation and centering.

use vstd::prelude::*;

verus! {

/// The marker appended when a label is shortened.
pub const TRUNCATE_SYMBOL: char = '…';

/// ASCII whitespace: the characters that separate tokens within a line.
pub open spec fn is_ws(c: char) -> bool {
    c == ' ' || c == '\t' || c == '\n' || c == '\r' || c == '\x0C'
}

/// The deep view of a character vector is its ordinary view.
pub broadcast proof fn lemma_chars_deep_view(v: Vec<char>)
    ensures
        #[trigger] v.deep_view() == v@,
{
    assert(v.deep_view() =~= v@);
}

/// The deep view of a vector of parse outcomes is its ordinary view.
pub broadcast proof fn lemma_parsed_row_deep_view(v: Vec<Option<u32>>)
    ensures
        #[trigger] v.deep_view() == v@,
{
    assert(v.deep_view() =~= v@);
}

/// The deep view of a vector of counters is its ordinary view.
pub broadcast proof fn lemma_counts_deep_view(v: Vec<usize>)
    ensures
        #[trigger] v.deep_view() == v@,
{
    assert(v.deep_view() =~= v@);
}

/// Copy the characters of `s` between `from` (inclusive) and `to` (exclusive).
pub fn sub_chars(s: &Vec<char>, from: usize, to: usize) -> (r: Vec<char>)
    requires
        from <= to <= s@.len(),
    ensures
        r@ == s@.subrange(from as int, to as int),
{
    let mut out: Vec<char> = Vec::new();
    let mut i: usize = from;
    while i < to
        invariant
            from <= i <= to <= s@.len(),
            out@ == s@.subrange(from as int, i as int),
        decreases to - i,
    {
        out.push(s[i]);
        assert(s@.subrange(from as int, i + 1) =~= s@.subrange(from as int, i as int).push(
            s@[i as int],
        ));
        i += 1;
    }
    out
}

/// Runtime test for [`is_ws`].
pub fn is_ws_char(c: char) -> (r: bool)
    ensures
        r == is_ws(c),
{
    c == ' ' || c == '\t' || c == '\n' || c == '\r' || c == '\x0C'
}

/// Shortening of `s` to at most `maxlen` characters: a string longer than
/// `maxlen` becomes its first `maxlen - 1` characters followed by the
/// truncation marker (or the empty string when `maxlen` is zero); a string
/// that already fits is returned unchanged. Lengths count characters, so the
/// cut never splits a character.
pub open spec fn truncate_spec(s: Seq<char>, maxlen: int) -> Seq<char> {
    if s.len() > maxlen {
        if maxlen > 0 {
            s.take(maxlen - 1).push(TRUNCATE_SYMBOL)
        } else {
            Seq::empty()
        }
    } else {
        s
    }
}

/// If longer than `maxlen`, shorten a string to be exactly the length
/// `maxlen` and include into that length the truncation marker.
pub fn truncate(s: &Vec<char>, maxlen: usize) -> (r: Vec<char>)
    ensures
        r@ == truncate_spec(s@, maxlen as int),
{
    if s.len() > maxlen {
        if maxlen > 0 {
            let mut out: Vec<char> = Vec::new();
            let mut i: usize = 0;
            while i < maxlen - 1
                invariant
                    i <= maxlen - 1,
                    maxlen <= s@.len(),
                    out@ == s@.take(i as int),
                decreases maxlen - 1 - i,
            {
                out.push(s[i]);
                assert(s@.take(i + 1) =~= s@.take(i as int).push(s@[i as int]));
                i += 1;
            }
            out.push(TRUNCATE_SYMBOL);
            out
        } else {
            Vec::new()
        }
    } else {
        let mut out: Vec<char> = Vec::new();
        let mut i: usize = 0;
        while i < s.len()
            invariant
                i <= s@.len(),
                out@ == s@.take(i as int),
            decreases s@.len() - i,
        {
            out.push(s[i]);
            assert(s@.take(i + 1) =~= s@.take(i as int).push(s@[i as int]));
            i += 1;
        }
        assert(out@ =~= s@);
        out
    }
}

/// A fresh copy of a character vector.
pub fn copy_chars(s: &Vec<char>) -> (r: Vec<char>)
    ensures
        r@ == s@,
{
    let mut out: Vec<char> = Vec::new();
    let mut i: usize = 0;
    while i < s.len()
        invariant
            i <= s@.len(),
            out@ == s@.take(i as int),
        decreases s@.len() - i,
    {
        out.push(s[i]);
        assert(s@.take(i + 1) =~= s@.take(i as int).push(s@[i as int]));
        i += 1;
    }
    assert(out@ =~= s@);
    out
}

/// State of the tokenizer after reading a prefix of the input: the tokens
/// completed so far, and the characters of the still unfinished token.
pub open spec fn tok_state(s: Seq<char>) -> (Seq<Seq<char>>, Seq<char>)
    decreases s.len(),
{
    if s.len() == 0 {
        (Seq::empty(), Seq::empty())
    } else {
        let st = tok_state(s.drop_last());
        let c = s.last();
        if is_ws(c) {
            if st.1.len() > 0 {
                (st.0.push(st.1), Seq::empty())
            } else {
                (st.0, Seq::empty())
            }
        } else {
            (st.0, st.1.push(c))
        }
    }
}

/// The maximal runs of non-whitespace characters of `s`, in order.
pub open spec fn tokens_of(s: Seq<char>) -> Seq<Seq<char>> {
    let st = tok_state(s);
    if st.1.len() > 0 {
        st.0.push(st.1)
    } else {
        st.0
    }
}

/// Split `s` into its whitespace-separated tokens.
pub fn tokenize(s: &Vec<char>) -> (r: Vec<Vec<char>>)
    ensures
        r.deep_view() == tokens_of(s@),
{
    let mut ts: Vec<Vec<char>> = Vec::new();
    let mut cur: Vec<char> = Vec::new();
    let mut i: usize = 0;
    while i < s.len()
        invariant
            i <= s@.len(),
            ts.deep_view() == tok_state(s@.take(i as int)).0,
            cur@ == tok_state(s@.take(i as int)).1,
        decreases s@.len() - i,
    {
        let ghost pre = s@.take(i as int);
        let c = s[i];
        proof {
            assert(s@.take(i + 1).drop_last() =~= pre);
            assert(s@.take(i + 1).last() == s@[i as int]);
        }
        if is_ws_char(c) {
            if cur.len() > 0 {
                let ghost old_dv = ts.deep_view();
                let done = cur;
                cur = Vec::new();
                ts.push(done);
                proof {
                    assert(ts.deep_view() =~~= old_dv.push(done@));
                }
            }
        } else {
            cur.push(c);
        }
        i += 1;
    }
    proof {
        assert(s@.take(s@.len() as int) =~= s@);
    }
    if cur.len() > 0 {
        let ghost old_dv = ts.deep_view();
        let done = cur;
        ts.push(done);
        proof {
            assert(ts.deep_view() =~~= old_dv.push(done@));
        }
    }
    ts
}

/// State of the line splitter after reading a prefix of the input: the lines
/// completed so far, and the characters of the still unterminated line. A
/// line ends at a newline; a carriage return directly before the newline is
/// not part of the line.
pub open spec fn line_state(s: Seq<char>) -> (Seq<Seq<char>>, Seq<char>)
    decreases s.len(),
{
    if s.len() == 0 {
        (Seq::empty(), Seq::empty())
    } else {
        let st = line_state(s.drop_last());
        let c = s.last();
        if c == '\n' {
            let line = if st.1.len() > 0 && st.1.last() == '\r' {
                st.1.drop_last()
            } else {
                st.1
            };
            (st.0.push(line), Seq::empty())
        } else {
            (st.0, st.1.push(c))
        }
    }
}

/// The lines of `s`: split at newlines, each line stripped of one carriage
/// return before its newline; a final line without a terminator counts only
/// when it is non-empty.
pub open spec fn lines_of(s: Seq<char>) -> Seq<Seq<char>> {
    let st = line_state(s);
    if st.1.len() > 0 {
        st.0.push(st.1)
    } else {
        st.0
    }
}

/// Split `s` into its lines.
pub fn split_lines(s: &Vec<char>) -> (r: Vec<Vec<char>>)
    ensures
        r.deep_view() == lines_of(s@),
{
    let mut ls: Vec<Vec<char>> = Vec::new();
    let mut cur: Vec<char> = Vec::new();
    let mut i: usize = 0;
    while i < s.len()
        invariant
            i <= s@.len(),
            ls.deep_view() == line_state(s@.take(i as int)).0,
            cur@ == line_state(s@.take(i as int)).1,
        decreases s@.len() - i,
    {
        let ghost pre = s@.take(i as int);
        let c = s[i];
        proof {
            assert(s@.take(i + 1).drop_last() =~= pre);
            assert(s@.take(i + 1).last() == s@[i as int]);
        }
        if c == '\n' {
            let ghost old_dv = ls.deep_view();
            let mut done = cur;
            cur = Vec::new();
            if done.len() > 0 && done[done.len() - 1] == '\r' {
                done.pop();
            }
            ls.push(done);
            proof {
                assert(ls.deep_view() =~~= old_dv.push(done@));
            }
        } else {
            cur.push(c);
        }
        i += 1;
    }
    proof {
        assert(s@.take(s@.len() as int) =~= s@);
    }
    if cur.len() > 0 {
        let ghost old_dv = ls.deep_view();
        let done = cur;
        ls.push(done);
        proof {
            assert(ls.deep_view() =~~= old_dv.push(done@));
        }
    }
    ls
}

/// `s` with its leading whitespace removed.
pub open spec fn trim_front(s: Seq<char>) -> Seq<char>
    decreases s.len(),
{
    if s.len() > 0 && is_ws(s.first()) {
        trim_front(s.drop_first())
    } else {
        s
    }
}

/// `s` with its trailing whitespace removed.
pub open spec fn trim_back(s: Seq<char>) -> Seq<char>
    decreases s.len(),
{
    if s.len() > 0 && is_ws(s.last()) {
        trim_back(s.drop_last())
    } else {
        s
    }
}

/// `s` with both leading and trailing whitespace removed.
pub open spec fn trim_spec(s: Seq<char>) -> Seq<char> {
    trim_back(trim_front(s))
}

proof fn lemma_trim_front_skip(s: Seq<char>, i: int)
    requires
        0 <= i <= s.len(),
        forall|j: int| 0 <= j < i ==> is_ws(s[j]),
        i == s.len() || !is_ws(s[i]),
    ensures
        trim_front(s) == s.skip(i),
    decreases i,
{
    if i == 0 {
        assert(s.skip(0) =~= s);
    } else {
        assert(is_ws(s.first()));
        lemma_trim_front_skip(s.drop_first(), i - 1);
        assert(s.drop_first().skip(i - 1) =~= s.skip(i));
    }
}

proof fn lemma_trim_back_take(s: Seq<char>, e: int)
    requires
        0 <= e <= s.len(),
        forall|j: int| e <= j < s.len() ==> is_ws(s[j]),
        e == 0 || !is_ws(s[e - 1]),
    ensures
        trim_back(s) == s.take(e),
    decreases s.len(),
{
    if e == s.len() {
        assert(s.take(e) =~= s);
    } else {
        assert(is_ws(s.last()));
        lemma_trim_back_take(s.drop_last(), e);
        assert(s.drop_last().take(e) =~= s.take(e));
    }
}

/// Remove leading and trailing whitespace from `s`.
pub fn trim(s: &Vec<char>) -> (r: Vec<char>)
    ensures
        r@ == trim_spec(s@),
{
    let mut start: usize = 0;
    while start < s.len() && is_ws_char(s[start])
        invariant
            start <= s@.len(),
            forall|j: int| 0 <= j < start ==> is_ws(s@[j]),
        decreases s@.len() - start,
    {
        start += 1;
    }
    proof {
        lemma_trim_front_skip(s@, start as int);
    }
    if start == s.len() {
        let r: Vec<char> = Vec::new();
        proof {
            assert(s@.skip(start as int) =~= Seq::<char>::empty());
        }
        return r;
    }
    let mut end: usize = s.len();
    while end > start && is_ws_char(s[end - 1])
        invariant
            start <= end <= s@.len(),
            forall|j: int| end <= j < s@.len() ==> is_ws(s@[j]),
        decreases end,
    {
        end -= 1;
    }
    assert(end > start);
    let mut out: Vec<char> = Vec::new();
    let mut i: usize = start;
    while i < end
        invariant
            start <= i <= end <= s@.len(),
            out@ == s@.subrange(start as int, i as int),
        decreases end - i,
    {
        out.push(s[i]);
        assert(s@.subrange(start as int, i + 1) =~= s@.subrange(start as int, i as int).push(
            s@[i as int],
        ));
        i += 1;
    }
    proof {
        let t = s@.skip(start as int);
        lemma_trim_back_take(t, end - start);
        assert(t.take(end - start) =~= s@.subrange(start as int, end as int));
    }
    out
}

/// A run of `n` spaces.
pub open spec fn spaces(n: int) -> Seq<char> {
    Seq::new(if n >= 0 {
        n as nat
    } else {
        0
    }, |i: int| ' ')
}

/// `s` padded with spaces on both sides to width `width`; when the padding is
/// odd, the right side receives one space more. A string at least as long as
/// `width` is returned unchanged.
pub open spec fn center_spec(s: Seq<char>, width: int) -> Seq<char> {
    if s.len() >= width {
        s
    } else {
        let pad = width - s.len();
        spaces(pad / 2) + s + spaces(pad - pad / 2)
    }
}

/// Center `s` in a field of `width` characters.
pub fn center(s: &Vec<char>, width: usize) -> (r: Vec<char>)
    ensures
        r@ == center_spec(s@, width as int),
{
    if s.len() >= width {
        return copy_chars(s);
    }
    let pad = width - s.len();
    let left = pad / 2;
    let mut out: Vec<char> = Vec::new();
    let mut i: usize = 0;
    while i < left
        invariant
            i <= left,
            out@ == spaces(i as int),
        decreases left - i,
    {
        out.push(' ');
        assert(out@ =~= spaces(i + 1));
        i += 1;
    }
    let mut j: usize = 0;
    while j < s.len()
        invariant
            j <= s@.len(),
            out@ == spaces(left as int) + s@.take(j as int),
        decreases s@.len() - j,
    {
        out.push(s[j]);
        assert(out@ =~= spaces(left as int) + s@.take(j + 1));
        j += 1;
    }
    assert(out@ == spaces(left as int) + s@) by {
        assert(s@.take(s@.len() as int) =~= s@);
    }
    let right = pad - left;
    let mut k: usize = 0;
    while k < right
        invariant
            k <= right,
            out@ == spaces(left as int) + s@ + spaces(k as int),
        decreases right - k,
    {
        out.push(' ');
        assert(out@ =~= spaces(left as int) + s@ + spaces(k + 1));
        k += 1;
    }
    out
}

/// Truncation is idempotent: shortening an already shortened string changes
/// nothing.
pub proof fn lemma_truncate_idempotent(s: Seq<char>, n: int)
    ensures
        truncate_spec(truncate_spec(s, n), n) == truncate_spec(s, n),
{
}

/// A string longer than a positive bound is shortened to exactly that bound.
pub proof fn lemma_truncate_len(s: Seq<char>, n: int)
    requires
        s.len() > n,
        n > 0,
    ensures
        truncate_spec(s, n).len() == n,
{
}

/// Truncating to width zero yields the empty string.
pub proof fn lemma_truncate_zero(s: Seq<char>)
    ensures
        truncate_spec(s, 0) == Seq::<char>::empty(),
{
    if s.len() == 0 {
        assert(s =~= Seq::<char>::empty());
    }
}

} // verus!
