//! Character-level helpers: reading a `str` as characters, trimming,
//! splitting into lines, and writing decimal numbers.

use vstd::prelude::*;

verus! {

/// Unicode `White_Space` code points, the set that `char::is_whitespace`
/// and `str::trim` use.
pub open spec fn is_white_space(c: char) -> bool {
    let u = c as u32;
    ||| 0x9 <= u <= 0xD
    ||| u == 0x20
    ||| u == 0x85
    ||| u == 0xA0
    ||| u == 0x1680
    ||| 0x2000 <= u <= 0x200A
    ||| u == 0x2028
    ||| u == 0x2029
    ||| u == 0x202F
    ||| u == 0x205F
    ||| u == 0x3000
}

/// Whether `c` has the Unicode `White_Space` property, the test that
/// `char::is_whitespace` makes.
pub fn char_is_whitespace(c: char) -> (r: bool)
    ensures
        r == is_white_space(c),
{
    let u = c as u32;
    (0x9 <= u && u <= 0xD) || u == 0x20 || u == 0x85 || u == 0xA0 || u == 0x1680 || (0x2000 <= u
        && u <= 0x200A) || u == 0x2028 || u == 0x2029 || u == 0x202F || u == 0x205F || u == 0x3000
}

/// Calls `String::push`, which appends one character.
#[verifier::external_body]
pub(crate) fn push_char(s: &mut String, c: char)
    ensures
        final(s)@ == old(s)@.push(c),
{
    s.push(c);
}

/// `s` with leading white space removed.
pub open spec fn trim_start(s: Seq<char>) -> Seq<char>
    decreases s.len(),
{
    if s.len() > 0 && is_white_space(s[0]) {
        trim_start(s.drop_first())
    } else {
        s
    }
}

/// `s` with trailing white space removed.
pub open spec fn trim_end(s: Seq<char>) -> Seq<char>
    decreases s.len(),
{
    if s.len() > 0 && is_white_space(s.last()) {
        trim_end(s.drop_last())
    } else {
        s
    }
}

/// `s` with white space removed at both ends, as `str::trim` does.
pub open spec fn trim(s: Seq<char>) -> Seq<char> {
    trim_end(trim_start(s))
}

/// Every character of `s` is white space.
pub open spec fn all_white(s: Seq<char>) -> bool {
    forall|i: int| 0 <= i < s.len() ==> is_white_space(#[trigger] s[i])
}

/// Leading white space is dropped whole, whatever follows it.
pub proof fn lemma_trim_start_white(w: Seq<char>, s: Seq<char>)
    requires
        all_white(w),
    ensures
        trim_start(w + s) == trim_start(s),
    decreases w.len(),
{
    if w.len() > 0 {
        assert((w + s)[0] == w[0]);
        assert((w + s).drop_first() =~= w.drop_first() + s);
        lemma_trim_start_white(w.drop_first(), s);
    } else {
        assert(w + s =~= s);
    }
}

/// Trimming the end keeps a first character that is not white space.
pub proof fn lemma_trim_end_first(s: Seq<char>)
    requires
        s.len() > 0,
        !is_white_space(s[0]),
    ensures
        trim_end(s).len() > 0,
        trim_end(s)[0] == s[0],
    decreases s.len(),
{
    if is_white_space(s.last()) {
        assert(s.len() > 1);
        assert(s.drop_last()[0] == s[0]);
        lemma_trim_end_first(s.drop_last());
    }
}

/// Trimming a text that is all white space leaves nothing.
pub proof fn lemma_trim_all_white(w: Seq<char>)
    requires
        all_white(w),
    ensures
        trim(w).len() == 0,
{
    lemma_trim_start_white(w, Seq::empty());
    assert(w + Seq::<char>::empty() =~= w);
    assert(trim_start(Seq::<char>::empty()) =~= Seq::<char>::empty());
}

/// Trimming `w + s`, with `w` white space and `s` opening with a character
/// that is not, gives a text that opens with that character.
pub proof fn lemma_trim_opens_with(w: Seq<char>, s: Seq<char>)
    requires
        all_white(w),
        s.len() > 0,
        !is_white_space(s[0]),
    ensures
        trim(w + s).len() > 0,
        trim(w + s)[0] == s[0],
{
    lemma_trim_start_white(w, s);
    lemma_trim_end_first(s);
}

/// The characters of a string slice, in order.
pub fn chars_of(s: &str) -> (v: Vec<char>)
    ensures
        v@ == s@,
{
    broadcast use vstd::string::group_string_axioms;

    let mut v: Vec<char> = Vec::new();
    for c in it: s.chars()
        invariant
            v@ == it.seq().take(it.index() as int),
    {
        v.push(c);
    }
    v
}

/// Copies `s[from..to]` into a new vector.
pub fn copy_range(s: &Vec<char>, from: usize, to: usize) -> (v: Vec<char>)
    requires
        from <= to <= s.len(),
    ensures
        v@ == s@.subrange(from as int, to as int),
{
    let mut v: Vec<char> = Vec::new();
    let mut i = from;
    while i < to
        invariant
            from <= i <= to <= s.len(),
            v@ == s@.subrange(from as int, i as int),
        decreases to - i,
    {
        v.push(s[i]);
        i += 1;
    }
    v
}

/// Removes white space at both ends of `s`.
pub fn trim_chars(s: &Vec<char>) -> (t: Vec<char>)
    ensures
        t@ == trim(s@),
{
    let len = s.len();
    let mut start: usize = 0;
    assert(s@.subrange(0, len as int) =~= s@);
    while start < len && char_is_whitespace(s[start])
        invariant
            start <= len == s.len(),
            trim_start(s@) == trim_start(s@.subrange(start as int, len as int)),
        decreases len - start,
    {
        assert(s@.subrange(start as int, len as int).drop_first() =~= s@.subrange(
            start + 1,
            len as int,
        ));
        start += 1;
    }
    assert(trim_start(s@) == s@.subrange(start as int, len as int));
    let mut end: usize = len;
    while end > start && char_is_whitespace(s[end - 1])
        invariant
            start <= end <= len == s.len(),
            trim(s@) == trim_end(s@.subrange(start as int, end as int)),
        decreases end,
    {
        assert(s@.subrange(start as int, end as int).drop_last() =~= s@.subrange(
            start as int,
            end - 1,
        ));
        end -= 1;
    }
    copy_range(s, start, end)
}

/// The pieces of `s` between `'\n'` characters, as `str::split('\n')` gives them.
pub open spec fn split_newlines(s: Seq<char>) -> Seq<Seq<char>>
    decreases s.len(),
{
    if s.len() == 0 {
        seq![Seq::<char>::empty()]
    } else {
        let pieces = split_newlines(s.drop_last());
        if s.last() == '\n' {
            pieces.push(Seq::<char>::empty())
        } else {
            pieces.update(pieces.len() - 1, pieces.last().push(s.last()))
        }
    }
}

/// A line that ended in `"\r\n"` loses its `'\r'` as well as its `'\n'`.
pub open spec fn strip_cr(line: Seq<char>) -> Seq<char> {
    if line.len() > 0 && line.last() == '\r' {
        line.drop_last()
    } else {
        line
    }
}

/// The lines of `s` as `str::lines` yields them: split at `'\n'`, a `'\r'`
/// just before a `'\n'` dropped, and no empty last line after a final `'\n'`.
pub open spec fn lines(s: Seq<char>) -> Seq<Seq<char>> {
    let pieces = split_newlines(s);
    let ended = pieces.take(pieces.len() - 1).map_values(|p: Seq<char>| strip_cr(p));
    if pieces.last().len() == 0 {
        ended
    } else {
        ended.push(pieces.last())
    }
}

proof fn lemma_split_len(s: Seq<char>)
    ensures
        split_newlines(s).len() >= 1,
        split_newlines(s).len() + split_newlines(s).last().len() <= s.len() + 1,
    decreases s.len(),
{
    if s.len() > 0 {
        lemma_split_len(s.drop_last());
    }
}

/// A text has no more lines than characters.
pub proof fn lemma_lines_len(s: Seq<char>)
    ensures
        lines(s).len() <= s.len(),
{
    lemma_split_len(s);
}

/// Removes a trailing `'\r'`.
fn strip_cr_exec(line: Vec<char>) -> (r: Vec<char>)
    ensures
        r@ == strip_cr(line@),
{
    let mut line = line;
    if line.len() > 0 && line[line.len() - 1] == '\r' {
        line.pop();
    }
    line
}

/// Splits `s` into lines, as `str::lines` does.
pub fn split_lines(s: &Vec<char>) -> (ls: Vec<Vec<char>>)
    ensures
        ls@.map_values(|l: Vec<char>| l@) == lines(s@),
{
    let mut done: Vec<Vec<char>> = Vec::new();
    let mut current: Vec<char> = Vec::new();
    let mut i: usize = 0;
    while i < s.len()
        invariant
            i <= s.len(),
            ({
                let pieces = split_newlines(s@.take(i as int));
                &&& pieces.len() >= 1
                &&& current@ == pieces.last()
                &&& done@.map_values(|l: Vec<char>| l@) == pieces.take(pieces.len() - 1).map_values(
                    |p: Seq<char>| strip_cr(p),
                )
            }),
        decreases s.len() - i,
    {
        let ghost prev = s@.take(i as int);
        let c = s[i];
        assert(s@.take(i + 1).drop_last() =~= prev);
        proof {
            lemma_split_len(prev);
        }
        if c == '\n' {
            let ghost old_pieces = split_newlines(prev);
            let ghost old_done = done@.map_values(|l: Vec<char>| l@);
            let line = strip_cr_exec(current);
            done.push(line);
            current = Vec::new();
            let ghost pieces = split_newlines(s@.take(i + 1));
            assert(pieces.take(pieces.len() - 1) =~= old_pieces);
            assert(old_pieces =~= old_pieces.take(old_pieces.len() - 1).push(old_pieces.last()));
            assert(done@.map_values(|l: Vec<char>| l@) =~= old_done.push(strip_cr(old_pieces.last())));
            assert(done@.map_values(|l: Vec<char>| l@) =~= pieces.take(pieces.len() - 1).map_values(
                |p: Seq<char>| strip_cr(p),
            ));
        } else {
            current.push(c);
            let ghost pieces = split_newlines(s@.take(i + 1));
            let ghost old_pieces = split_newlines(prev);
            assert(pieces.take(pieces.len() - 1) =~= old_pieces.take(old_pieces.len() - 1));
        }
        i += 1;
    }
    assert(s@.take(s.len() as int) =~= s@);
    if current.len() > 0 {
        done.push(current);
        assert(done@.map_values(|l: Vec<char>| l@) =~= lines(s@));
    } else {
        assert(done@.map_values(|l: Vec<char>| l@) =~= lines(s@));
    }
    done
}

/// The character for a decimal digit `d < 10`.
pub open spec fn digit_char(d: nat) -> char {
    ((d + 48) as u8) as char
}

/// The decimal representation of `n`, without leading zeros.
pub open spec fn decimal(n: nat) -> Seq<char>
    decreases n,
{
    if n < 10 {
        seq![digit_char(n)]
    } else {
        decimal(n / 10).push(digit_char(n % 10))
    }
}

/// Appends the decimal representation of `n` to `s`.
pub fn push_decimal(s: &mut String, n: usize)
    ensures
        final(s)@ == old(s)@ + decimal(n as nat),
    decreases n,
{
    if n >= 10 {
        push_decimal(s, n / 10);
    }
    let d: u8 = (n % 10) as u8;
    push_char(s, (d + 48) as char);
    assert(final(s)@ =~= old(s)@ + decimal(n as nat));
}

proof fn lemma_split_concat(u: Seq<char>, s: Seq<char>)
    ensures
        split_newlines(u + s) == split_newlines(u).drop_last() + seq![split_newlines(u).last() + split_newlines(s)[0]]
            + split_newlines(s).drop_first(),
    decreases s.len(),
{
    lemma_split_len(u);
    lemma_split_len(s);
    let p = split_newlines(u);
    if s.len() == 0 {
        assert(u + s =~= u);
        assert(split_newlines(s) =~= seq![Seq::<char>::empty()]);
        assert(p.last() + Seq::<char>::empty() =~= p.last());
        assert(p =~= p.drop_last() + seq![p.last()]);
        assert(p.drop_last() + seq![p.last() + split_newlines(s)[0]] + split_newlines(s).drop_first() =~= p);
    } else {
        let s0 = s.drop_last();
        let c = s.last();
        lemma_split_concat(u, s0);
        lemma_split_len(s0);
        let q = split_newlines(s0);
        assert((u + s).drop_last() =~= u + s0);
        assert((u + s).last() == c);
        let l = split_newlines(u + s0);
        if c == '\n' {
            assert(split_newlines(s) == q.push(Seq::<char>::empty()));
            assert(split_newlines(u + s) == l.push(Seq::<char>::empty()));
            assert(q.push(Seq::<char>::empty())[0] == q[0]);
            assert(q.push(Seq::<char>::empty()).drop_first() =~= q.drop_first().push(Seq::<char>::empty()));
            assert(split_newlines(u + s) =~= p.drop_last() + seq![p.last() + split_newlines(s)[0]]
                + split_newlines(s).drop_first());
        } else {
            assert(split_newlines(s) == q.update(q.len() - 1, q.last().push(c)));
            assert(split_newlines(u + s) == l.update(l.len() - 1, l.last().push(c)));
            if q.len() == 1 {
                assert(p.last() + q[0].push(c) =~= (p.last() + q[0]).push(c));
                assert(split_newlines(u + s) =~= p.drop_last() + seq![p.last() + split_newlines(s)[0]]
                    + split_newlines(s).drop_first());
            } else {
                assert(split_newlines(u + s) =~= p.drop_last() + seq![p.last() + split_newlines(s)[0]]
                    + split_newlines(s).drop_first());
            }
        }
    }
}

/// A text without a newline is a single piece.
proof fn lemma_split_single(p: Seq<char>)
    requires
        !p.contains('\n'),
    ensures
        split_newlines(p) == seq![p],
    decreases p.len(),
{
    if p.len() > 0 {
        let q = p.drop_last();
        assert(!q.contains('\n')) by {
            if q.contains('\n') {
                let i = choose|i: int| 0 <= i < q.len() && q[i] == '\n';
                assert(p[i] == '\n');
            }
        }
        lemma_split_single(q);
        assert(p[p.len() - 1] != '\n');
        assert(q.push(p.last()) =~= p);
        assert(seq![q].update(0, q.push(p.last())) =~= seq![p]);
    } else {
        assert(p =~= Seq::<char>::empty());
    }
}

/// Law: the lines of a text that starts with a part ending in a newline are
/// the lines of that part followed by the lines of the rest.
pub proof fn lemma_lines_concat(x: Seq<char>, s: Seq<char>)
    requires
        x.len() > 0,
        x.last() == '\n',
    ensures
        lines(x + s) == lines(x) + lines(s),
{
    lemma_split_concat(x, s);
    lemma_split_len(x);
    lemma_split_len(s);
    let px = split_newlines(x);
    assert(x.drop_last() + seq!['\n'] =~= x);
    assert(px == split_newlines(x.drop_last()).push(Seq::<char>::empty())) by {
        assert(x.drop_last() =~= x.drop_last());
    }
    assert(px.last() =~= Seq::<char>::empty());
    let q = split_newlines(s);
    let all = split_newlines(x + s);
    assert(Seq::<char>::empty() + q[0] =~= q[0]);
    assert(all =~= px.drop_last() + q);
    assert(all.take(all.len() - 1) =~= px.drop_last() + q.take(q.len() - 1));
    assert(all.last() == q.last());
    assert(px.take(px.len() - 1) =~= px.drop_last());
    let f = |p: Seq<char>| strip_cr(p);
    assert((px.drop_last() + q.take(q.len() - 1)).map_values(f) =~= px.drop_last().map_values(f) + q.take(
        q.len() - 1,
    ).map_values(f));
    assert(lines(x) =~= px.drop_last().map_values(f));
    if q.last().len() == 0 {
        assert(lines(x + s) =~= lines(x) + lines(s));
    } else {
        assert(lines(x + s) =~= lines(x) + lines(s));
    }
}

/// The lines of one line and its newline: that line, without a final `'\r'`.
pub proof fn lemma_lines_one(p: Seq<char>)
    requires
        !p.contains('\n'),
    ensures
        lines(p + seq!['\n']) == seq![strip_cr(p)],
{
    lemma_split_single(p);
    let x = p + seq!['\n'];
    assert(x.drop_last() =~= p);
    assert(split_newlines(x) == seq![p].push(Seq::<char>::empty()));
    assert(lines(x) =~= seq![strip_cr(p)]);
}

} // verus!
