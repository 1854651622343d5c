//! Findings, their order, and their JSON rendering.

use vstd::prelude::*;
use crate::text::{decimal, push_char, push_decimal};

verus! {

/// Severity of a single linter finding.
#[derive(Debug, Clone, Copy, PartialEq, Eq, Structural)]
pub enum Severity {
    Error,
    Warning,
}

/// The word a severity is written as.
pub open spec fn severity_text(s: Severity) -> Seq<char> {
    match s {
        Severity::Error => "error"@,
        Severity::Warning => "warning"@,
    }
}

impl Severity {
    /// The word this severity is written as: `error` or `warning`.
    pub fn as_str(&self) -> (r: &'static str)
        ensures
            r@ == severity_text(*self),
    {
        match self {
            Severity::Error => "error",
            Severity::Warning => "warning",
        }
    }
}

/// A single problem found in a board, tied to the source line it came from.
#[derive(Debug, Clone, PartialEq, Eq)]
pub struct Finding {
    pub line: usize,
    pub severity: Severity,
    pub message: String,
}

/// What a finding holds, with its message as characters.
pub struct FindingView {
    pub line: usize,
    pub severity: Severity,
    pub message: Seq<char>,
}

impl View for Finding {
    type V = FindingView;

    open spec fn view(&self) -> FindingView {
        FindingView { line: self.line, severity: self.severity, message: self.message@ }
    }
}

/// An error finding on `line` with the given message.
pub open spec fn error_at(line: usize, message: Seq<char>) -> FindingView {
    FindingView { line, severity: Severity::Error, message }
}

/// The views of a sequence of findings.
pub open spec fn views(fs: Seq<Finding>) -> Seq<FindingView> {
    fs.map_values(|f: Finding| f@)
}

impl Finding {
    /// An error finding on `line` with the given message.
    pub fn error(line: usize, message: &str) -> (f: Finding)
        ensures
            f@ == error_at(line, message@),
    {
        Finding { line, severity: Severity::Error, message: message.to_owned() }
    }
}

/// Inserts `x` into `s` after every finding whose line is not after `x`'s.
pub open spec fn insert_by_line(s: Seq<FindingView>, x: FindingView) -> Seq<FindingView>
    decreases s.len(),
{
    if s.len() == 0 {
        seq![x]
    } else if s.last().line <= x.line {
        s.push(x)
    } else {
        insert_by_line(s.drop_last(), x).push(s.last())
    }
}

/// `s` sorted by line number, keeping findings on one line in their order
/// (the result of a stable sort by line).
pub open spec fn sort_by_line(s: Seq<FindingView>) -> Seq<FindingView>
    decreases s.len(),
{
    if s.len() == 0 {
        s
    } else {
        insert_by_line(sort_by_line(s.drop_last()), s.last())
    }
}

/// Line numbers never decrease along `s`.
pub open spec fn ordered_by_line(s: Seq<FindingView>) -> bool {
    forall|i: int, j: int| 0 <= i <= j < s.len() ==> s[i].line <= s[j].line
}

proof fn lemma_insert_at(s: Seq<FindingView>, x: FindingView, p: int)
    requires
        0 <= p <= s.len(),
        p == 0 || s[p - 1].line <= x.line,
        forall|j: int| p <= j < s.len() ==> s[j].line > x.line,
    ensures
        insert_by_line(s, x) == s.insert(p, x),
    decreases s.len(),
{
    if s.len() == 0 {
        assert(s.insert(p, x) =~= seq![x]);
    } else if s.last().line <= x.line {
        assert(s.insert(p, x) =~= s.push(x));
    } else {
        lemma_insert_at(s.drop_last(), x, p);
        assert(s.insert(p, x) =~= s.drop_last().insert(p, x).push(s.last()));
    }
}

proof fn lemma_insert_keeps_order(s: Seq<FindingView>, x: FindingView)
    requires
        ordered_by_line(s),
    ensures
        ordered_by_line(insert_by_line(s, x)),
        insert_by_line(s, x).to_multiset() == s.to_multiset().insert(x),
    decreases s.len(),
{
    broadcast use vstd::seq_lib::group_to_multiset_ensures;

    if s.len() == 0 {
        assert(seq![x] =~= s.push(x));
    } else if s.last().line <= x.line {
    } else {
        let t = s.drop_last();
        assert(ordered_by_line(t));
        lemma_insert_keeps_order(t, x);
        let r = insert_by_line(t, x);
        assert(s =~= t.push(s.last()));
        assert forall|k: int| 0 <= k < r.len() implies r[k].line <= s.last().line by {
            assert(r.to_multiset().count(r[k]) > 0);
            assert(t.to_multiset().insert(x).count(r[k]) > 0);
            if r[k] != x {
                assert(t.to_multiset().count(r[k]) > 0);
                assert(t.contains(r[k]));
            }
        }
    }
}

/// Law: sorting by line gives findings in line order, and the same findings.
pub proof fn lemma_sort_by_line_orders(s: Seq<FindingView>)
    ensures
        ordered_by_line(sort_by_line(s)),
        sort_by_line(s).to_multiset() == s.to_multiset(),
    decreases s.len(),
{
    broadcast use vstd::seq_lib::group_to_multiset_ensures;

    if s.len() > 0 {
        lemma_sort_by_line_orders(s.drop_last());
        lemma_insert_keeps_order(sort_by_line(s.drop_last()), s.last());
        assert(s =~= s.drop_last().push(s.last()));
    }
}

/// Sorts findings by line number, stably.
pub fn sort_findings(v: Vec<Finding>) -> (out: Vec<Finding>)
    ensures
        views(out@) == sort_by_line(views(v@)),
{
    let ghost orig = v@;
    let n = v.len();
    let mut v = v;
    let mut out: Vec<Finding> = Vec::new();
    let mut k: usize = 0;
    while v.len() > 0
        invariant
            k + v.len() == orig.len(),
            orig.len() == n,
            v@ == orig.skip(k as int),
            views(out@) == sort_by_line(views(orig.take(k as int))),
        decreases v.len(),
    {
        let x = v.remove(0);
        let ghost sorted = views(out@);
        let mut p = out.len();
        while p > 0 && out[p - 1].line > x.line
            invariant
                p <= out.len(),
                views(out@) == sorted,
                forall|j: int| p <= j < out.len() ==> out@[j].line > x.line,
            decreases p,
        {
            p -= 1;
        }
        proof {
            lemma_insert_at(sorted, x@, p as int);
            assert(views(orig.take(k + 1)).drop_last() =~= views(orig.take(k as int)));
            assert(orig.skip(k as int)[0] == orig[k as int]);
        }
        out.insert(p, x);
        assert(views(out@) =~= sorted.insert(p as int, x@));
        assert(v@ =~= orig.skip(k + 1));
        k += 1;
    }
    assert(orig.take(k as int) =~= orig);
    out
}

/// A character's JSON string escape.
pub open spec fn escape_char(c: char) -> Seq<char> {
    if c == '"' {
        seq!['\\', '"']
    } else if c == '\\' {
        seq!['\\', '\\']
    } else if c == '\n' {
        seq!['\\', 'n']
    } else if c == '\r' {
        seq!['\\', 'r']
    } else if c == '\t' {
        seq!['\\', 't']
    } else if (c as u32) < 0x20 {
        seq!['\\', 'u', '0', '0', hex_digit((c as u32 / 16) as nat), hex_digit((c as u32 % 16) as nat)]
    } else {
        seq![c]
    }
}

/// Lowercase hexadecimal digit for `d < 16`.
pub open spec fn hex_digit(d: nat) -> char {
    if d < 10 {
        ((d + 48) as u8) as char
    } else {
        ((d + 87) as u8) as char
    }
}

/// `s` escaped for use inside a JSON string literal.
pub open spec fn escape_json(s: Seq<char>) -> Seq<char>
    decreases s.len(),
{
    if s.len() == 0 {
        s
    } else {
        escape_json(s.drop_last()) + escape_char(s.last())
    }
}

/// One finding as a JSON object with `line`, `severity` and `message`.
pub open spec fn finding_json(f: FindingView) -> Seq<char> {
    "{\"line\":"@ + decimal(f.line as nat) + ",\"severity\":\""@ + severity_text(f.severity)
        + "\",\"message\":\""@ + escape_json(f.message) + "\"}"@
}

/// The JSON objects of `fs`, separated by commas.
pub open spec fn findings_json_items(fs: Seq<FindingView>) -> Seq<char>
    decreases fs.len(),
{
    if fs.len() == 0 {
        Seq::empty()
    } else if fs.len() == 1 {
        finding_json(fs[0])
    } else {
        findings_json_items(fs.drop_last()) + seq![','] + finding_json(fs.last())
    }
}

/// A JSON array of the findings.
pub open spec fn findings_json(fs: Seq<FindingView>) -> Seq<char> {
    seq!['['] + findings_json_items(fs) + seq![']']
}

/// Lowercase hexadecimal digit for `d < 16`.
fn hex_digit_exec(d: u32) -> (c: char)
    requires
        d < 16,
    ensures
        c == hex_digit(d as nat),
{
    let b: u8 = d as u8;
    if b < 10 {
        (b + 48) as char
    } else {
        (b + 87) as char
    }
}

/// `s` escaped for use inside a JSON string literal.
pub fn escape_json_string(s: &str) -> (out: String)
    ensures
        out@ == escape_json(s@),
{
    let mut out = String::new();
    let cs = crate::text::chars_of(s);
    let mut i: usize = 0;
    while i < cs.len()
        invariant
            i <= cs.len(),
            cs@ == s@,
            out@ == escape_json(cs@.take(i as int)),
        decreases cs.len() - i,
    {
        let c = cs[i];
        let ghost before = out@;
        if c == '"' {
            out.append("\\\"");
        } else if c == '\\' {
            out.append("\\\\");
        } else if c == '\n' {
            out.append("\\n");
        } else if c == '\r' {
            out.append("\\r");
        } else if c == '\t' {
            out.append("\\t");
        } else if (c as u32) < 0x20 {
            out.append("\\u00");
            push_char(&mut out, hex_digit_exec(c as u32 / 16));
            push_char(&mut out, hex_digit_exec(c as u32 % 16));
        } else {
            push_char(&mut out, c);
        }
        proof {
            reveal_strlit("\\\"");
            reveal_strlit("\\\\");
            reveal_strlit("\\n");
            reveal_strlit("\\r");
            reveal_strlit("\\t");
            reveal_strlit("\\u00");
            assert(cs@.take(i + 1).drop_last() =~= cs@.take(i as int));
            assert(out@ =~= before + escape_char(c));
        }
        i += 1;
    }
    assert(cs@.take(cs.len() as int) =~= cs@);
    out
}

/// Renders findings as a JSON array, one object per finding with `line`,
/// `severity`, and `message` fields.
pub fn findings_to_json(findings: &[Finding]) -> (out: String)
    ensures
        out@ == findings_json(views(findings@)),
{
    let mut out = String::new();
    push_char(&mut out, '[');
    let mut i: usize = 0;
    while i < findings.len()
        invariant
            i <= findings.len(),
            out@ == seq!['['] + findings_json_items(views(findings@.take(i as int))),
        decreases findings.len() - i,
    {
        let ghost before = out@;
        if i > 0 {
            push_char(&mut out, ',');
        }
        let f = &findings[i];
        out.append("{\"line\":");
        push_decimal(&mut out, f.line);
        out.append(",\"severity\":\"");
        out.append(f.severity.as_str());
        out.append("\",\"message\":\"");
        out.append(escape_json_string(f.message.as_str()).as_str());
        out.append("\"}");
        proof {
            let prefix = views(findings@.take(i + 1));
            assert(prefix.drop_last() =~= views(findings@.take(i as int)));
            if i == 0 {
                assert(out@ =~= seq!['['] + findings_json_items(prefix));
            } else {
                assert(out@ =~= seq!['['] + findings_json_items(prefix));
            }
        }
        i += 1;
    }
    push_char(&mut out, ']');
    assert(findings@.take(findings.len() as int) =~= findings@);
    out
}

/// The value of a lowercase hexadecimal digit.
pub open spec fn hex_value(c: char) -> int {
    let u = c as u32;
    if 0x30 <= u <= 0x39 {
        u - 0x30
    } else if 0x61 <= u <= 0x66 {
        u - 0x61 + 10
    } else {
        0
    }
}

/// The character that a `\u` escape with these four hexadecimal digits names.
pub open spec fn unicode_escape_char(a: char, b: char, c: char, d: char) -> char {
    (hex_value(a) * 4096 + hex_value(b) * 256 + hex_value(c) * 16 + hex_value(d)) as char
}

/// Decodes the JSON string escapes `\"`, `\\`, `\n`, `\r`, `\t` and
/// `\uXXXX` in `t`, reading from the front; any other character stands for
/// itself.
pub open spec fn unescape_json(t: Seq<char>) -> Seq<char>
    decreases t.len(),
{
    if t.len() == 0 {
        t
    } else if t[0] == '\\' && t.len() >= 2 && t[1] == '"' {
        seq!['"'] + unescape_json(t.skip(2))
    } else if t[0] == '\\' && t.len() >= 2 && t[1] == '\\' {
        seq!['\\'] + unescape_json(t.skip(2))
    } else if t[0] == '\\' && t.len() >= 2 && t[1] == 'n' {
        seq!['\n'] + unescape_json(t.skip(2))
    } else if t[0] == '\\' && t.len() >= 2 && t[1] == 'r' {
        seq!['\r'] + unescape_json(t.skip(2))
    } else if t[0] == '\\' && t.len() >= 2 && t[1] == 't' {
        seq!['\t'] + unescape_json(t.skip(2))
    } else if t[0] == '\\' && t.len() >= 6 && t[1] == 'u' {
        seq![unicode_escape_char(t[2], t[3], t[4], t[5])] + unescape_json(t.skip(6))
    } else {
        seq![t[0]] + unescape_json(t.drop_first())
    }
}

proof fn lemma_unescape_char(c: char, t: Seq<char>)
    ensures
        unescape_json(escape_char(c) + t) == seq![c] + unescape_json(t),
{
    let e = escape_char(c);
    let u = c as u32;
    if c == '"' || c == '\\' || c == '\n' || c == '\r' || c == '\t' {
        assert((e + t).skip(2) =~= t);
    } else if u < 0x20 {
        assert((e + t).skip(6) =~= t);
        let hi = hex_digit((u / 16) as nat);
        let lo = hex_digit((u % 16) as nat);
        assert(hex_value('0') == 0);
        assert(hex_value(hi) == u / 16);
        assert(hex_value(lo) == u % 16);
        assert(unicode_escape_char('0', '0', hi, lo) == c);
    } else {
        assert((e + t).drop_first() =~= t);
    }
}

/// Law: decoding the escape of a message, followed by anything, gives the
/// message back, followed by the decoding of the rest.
pub proof fn lemma_unescape_escape(s: Seq<char>, t: Seq<char>)
    ensures
        unescape_json(escape_json(s) + t) == s + unescape_json(t),
    decreases s.len(),
{
    if s.len() == 0 {
        assert(escape_json(s) + t =~= t);
        assert(s + unescape_json(t) =~= unescape_json(t));
    } else {
        let init = s.drop_last();
        let c = s.last();
        assert(escape_json(s) + t =~= escape_json(init) + (escape_char(c) + t));
        lemma_unescape_escape(init, escape_char(c) + t);
        lemma_unescape_char(c, t);
        assert(s =~= init + seq![c]);
        assert(init + (seq![c] + unescape_json(t)) =~= s + unescape_json(t));
    }
}

/// Law: a message's JSON escape decodes back to the message.
pub proof fn lemma_escape_round_trip(s: Seq<char>)
    ensures
        unescape_json(escape_json(s)) == s,
{
    lemma_unescape_escape(s, Seq::empty());
    assert(escape_json(s) + Seq::<char>::empty() =~= escape_json(s));
    assert(s + unescape_json(Seq::<char>::empty()) =~= s);
}

proof fn lemma_hex_digit_printable(d: nat)
    requires
        d < 16,
    ensures
        hex_digit(d) as u32 >= 0x30,
{
    if d < 10 {
        assert(((d + 48) as u8) as char as u32 == d + 48);
    } else {
        assert(((d + 87) as u8) as char as u32 == d + 87);
    }
}

/// Law: the decimal text of a number is its shortest one: digits only,
/// reading back as the number, with no leading zero (`0` alone for zero).
pub proof fn lemma_decimal_canonical(n: nat)
    ensures
        decimal(n).len() > 0,
        forall|i: int| 0 <= i < decimal(n).len() ==> is_digit(#[trigger] decimal(n)[i]),
        decimal_value(decimal(n)) == n,
        n == 0 ==> decimal(n) == seq!['0'],
        n > 0 ==> decimal(n)[0] != '0',
    decreases n,
{
    lemma_decimal_digits(n);
    let c = crate::text::digit_char(n % 10);
    assert(c as u32 == n % 10 + 48);
    if n == 0 {
        vstd::utf8::char_u32_cast(c, 48);
        vstd::utf8::char_u32_cast('0', 48);
        assert(decimal(n) =~= seq!['0']);
    } else if n < 10 {
        assert(decimal(n)[0] == c);
    } else {
        lemma_decimal_canonical(n / 10);
        assert(decimal(n)[0] == decimal(n / 10)[0]);
    }
}

/// Law: a JSON escape holds no control character: every character of it
/// is at least U+0020.
pub proof fn lemma_escape_printable(s: Seq<char>)
    ensures
        forall|i: int| 0 <= i < escape_json(s).len() ==> (#[trigger] escape_json(s)[i] as u32) >= 0x20,
    decreases s.len(),
{
    if s.len() > 0 {
        let init = s.drop_last();
        let c = s.last();
        lemma_escape_printable(init);
        let e = escape_char(c);
        let u = c as u32;
        if u < 0x20 {
            lemma_hex_digit_printable((u / 16) as nat);
            lemma_hex_digit_printable((u % 16) as nat);
        }
        assert(forall|j: int| 0 <= j < e.len() ==> (#[trigger] e[j] as u32) >= 0x20);
        let a = escape_json(init);
        assert forall|i: int| 0 <= i < escape_json(s).len() implies (#[trigger] escape_json(s)[i] as u32) >= 0x20 by {
            if i < a.len() {
                assert(escape_json(s)[i] == a[i]);
            } else {
                assert(escape_json(s)[i] == e[i - a.len()]);
            }
        }
    }
}

/// `c` is a decimal digit.
pub open spec fn is_digit(c: char) -> bool {
    0x30 <= (c as u32) <= 0x39
}

/// The number of decimal digits at the front of `t`.
pub open spec fn digit_run(t: Seq<char>) -> nat
    decreases t.len(),
{
    if t.len() > 0 && is_digit(t[0]) {
        1 + digit_run(t.drop_first())
    } else {
        0
    }
}

/// The number that the decimal digits `s` write.
pub open spec fn decimal_value(s: Seq<char>) -> nat
    decreases s.len(),
{
    if s.len() == 0 {
        0
    } else {
        decimal_value(s.drop_last()) * 10 + ((s.last() as u32) - 0x30) as nat
    }
}

pub(crate) proof fn lemma_decimal_digits(n: nat)
    ensures
        decimal(n).len() > 0,
        forall|i: int| 0 <= i < decimal(n).len() ==> is_digit(#[trigger] decimal(n)[i]),
        decimal_value(decimal(n)) == n,
    decreases n,
{
    if n >= 10 {
        lemma_decimal_digits(n / 10);
        let d = decimal(n / 10);
        assert(decimal(n) == d.push(crate::text::digit_char(n % 10)));
        assert(decimal(n).drop_last() =~= d);
        let c = crate::text::digit_char(n % 10);
        assert((c as u32) == n % 10 + 48);
        assert(decimal_value(decimal(n)) == decimal_value(d) * 10 + n % 10);
        assert((n / 10) * 10 + n % 10 == n);
        assert(decimal_value(decimal(n)) == n);
        assert forall|i: int| 0 <= i < decimal(n).len() implies is_digit(#[trigger] decimal(n)[i]) by {
            if i < d.len() {
                assert(decimal(n)[i] == d[i]);
            }
        }
    } else {
        assert(decimal(n).drop_last() =~= Seq::<char>::empty());
        let c = crate::text::digit_char(n);
        assert((c as u32) == n + 48);
        assert(decimal(n) == seq![c]);
        assert(seq![c].drop_last() =~= Seq::<char>::empty());
        assert(decimal_value(seq![c]) == decimal_value(Seq::<char>::empty()) * 10 + ((c as u32) - 0x30) as nat);
        assert(decimal_value(decimal(n)) == n);
    }
}

proof fn lemma_digit_run(s: Seq<char>, r: Seq<char>)
    requires
        forall|i: int| 0 <= i < s.len() ==> is_digit(#[trigger] s[i]),
        r.len() == 0 || !is_digit(r[0]),
    ensures
        digit_run(s + r) == s.len(),
        (s + r).take(s.len() as int) == s,
        (s + r).skip(s.len() as int) == r,
    decreases s.len(),
{
    assert((s + r).take(s.len() as int) =~= s);
    assert((s + r).skip(s.len() as int) =~= r);
    if s.len() > 0 {
        let t = s.drop_first();
        assert forall|i: int| 0 <= i < t.len() implies is_digit(#[trigger] t[i]) by {
            assert(t[i] == s[i + 1]);
        }
        lemma_digit_run(t, r);
        assert((s + r).drop_first() =~= t + r);
        assert(is_digit(s[0]));
    } else {
        assert(s + r =~= r);
    }
}

/// `t` with the text `lit` taken off its front, if it starts with it.
pub open spec fn after(t: Seq<char>, lit: Seq<char>) -> Option<Seq<char>> {
    if t.len() >= lit.len() && t.take(lit.len() as int) == lit {
        Some(t.skip(lit.len() as int))
    } else {
        None
    }
}

proof fn lemma_after(lit: Seq<char>, r: Seq<char>)
    ensures
        after(lit + r, lit) == Some(r),
{
    assert((lit + r).take(lit.len() as int) =~= lit);
    assert((lit + r).skip(lit.len() as int) =~= r);
}

/// Where a JSON string body that starts `t` ends: the position of its
/// closing quote, stepping over escapes.
pub open spec fn string_end(t: Seq<char>) -> Option<int>
    decreases t.len(),
{
    if t.len() == 0 {
        None
    } else if t[0] == '"' {
        Some(0)
    } else if t[0] == '\\' && t.len() >= 2 && (t[1] == '"' || t[1] == '\\' || t[1] == 'n' || t[1] == 'r' || t[1]
        == 't') {
        match string_end(t.skip(2)) {
            Some(e) => Some(e + 2),
            None => None,
        }
    } else if t[0] == '\\' && t.len() >= 6 && t[1] == 'u' {
        match string_end(t.skip(6)) {
            Some(e) => Some(e + 6),
            None => None,
        }
    } else {
        match string_end(t.drop_first()) {
            Some(e) => Some(e + 1),
            None => None,
        }
    }
}

/// Law: in a JSON string body made of an escaped message, its closing
/// quote and anything after, the string ends exactly at that quote.
pub proof fn lemma_string_end_escaped(s: Seq<char>, r: Seq<char>)
    ensures
        string_end(escape_json(s) + seq!['"'] + r) == Some(escape_json(s).len() as int),
{
    let t = seq!['"'] + r;
    assert(string_end(t) == Some(0int));
    lemma_string_end_escaped_prefix(s, t);
    assert(escape_json(s) + seq!['"'] + r =~= escape_json(s) + t);
}

proof fn lemma_string_end_char(c: char, t: Seq<char>)
    requires
        string_end(t) is Some,
    ensures
        string_end(escape_char(c) + t) == Some(string_end(t).unwrap() + escape_char(c).len()),
{
    let e = escape_char(c);
    let u = c as u32;
    if c == '"' || c == '\\' || c == '\n' || c == '\r' || c == '\t' {
        assert((e + t).skip(2) =~= t);
    } else if u < 0x20 {
        assert((e + t).skip(6) =~= t);
    } else {
        assert((e + t).drop_first() =~= t);
    }
}

/// Stepping over the escape of `s` reaches whatever follows it.
proof fn lemma_string_end_escaped_prefix(s: Seq<char>, t: Seq<char>)
    requires
        string_end(t) is Some,
    ensures
        string_end(escape_json(s) + t) == Some(string_end(t).unwrap() + escape_json(s).len()),
    decreases s.len(),
{
    if s.len() == 0 {
        assert(escape_json(s) + t =~= t);
    } else {
        let init = s.drop_last();
        let c = s.last();
        lemma_string_end_char(c, t);
        assert(escape_json(s) + t =~= escape_json(init) + (escape_char(c) + t));
        lemma_string_end_escaped_prefix(init, escape_char(c) + t);
    }
}

/// Reads a severity word from the front of `t`.
pub open spec fn parse_severity(t: Seq<char>) -> Option<(Severity, Seq<char>)> {
    match after(t, "error"@) {
        Some(r) => Some((Severity::Error, r)),
        None => match after(t, "warning"@) {
            Some(r) => Some((Severity::Warning, r)),
            None => None,
        },
    }
}

/// Reads one finding's JSON object from the front of `t`, giving the
/// finding and the text after it.
pub open spec fn parse_finding(t: Seq<char>) -> Option<(FindingView, Seq<char>)> {
    match after(t, "{\"line\":"@) {
        None => None,
        Some(t1) => {
            let n = digit_run(t1);
            if n == 0 {
                None
            } else {
                let v = decimal_value(t1.take(n as int));
                match after(t1.skip(n as int), ",\"severity\":\""@) {
                    None => None,
                    Some(t2) => match parse_severity(t2) {
                        None => None,
                        Some((sev, t3)) => match after(t3, "\",\"message\":\""@) {
                            None => None,
                            Some(t4) => match string_end(t4) {
                                None => None,
                                Some(e) => match after(t4.skip(e), "\"}"@) {
                                    None => None,
                                    Some(t5) => Some(
                                        (
                                            FindingView {
                                                line: v as usize,
                                                severity: sev,
                                                message: unescape_json(t4.take(e)),
                                            },
                                            t5,
                                        ),
                                    ),
                                },
                            },
                        },
                    },
                }
            }
        },
    }
}

/// Reads the rest of a JSON array of findings: `]` to end it, or `,` and
/// one more finding.
pub open spec fn parse_more(t: Seq<char>, acc: Seq<FindingView>) -> Option<Seq<FindingView>>
    decreases t.len(),
{
    if t == seq![']'] {
        Some(acc)
    } else if t.len() > 0 && t[0] == ',' {
        match parse_finding(t.drop_first()) {
            Some((f, r)) => if r.len() < t.len() {
                parse_more(r, acc.push(f))
            } else {
                None
            },
            None => None,
        }
    } else {
        None
    }
}

/// Reads a JSON array of findings.
pub open spec fn parse_findings_json(t: Seq<char>) -> Option<Seq<FindingView>> {
    match after(t, seq!['[']) {
        None => None,
        Some(t1) => if t1 == seq![']'] {
            Some(Seq::empty())
        } else {
            match parse_finding(t1) {
                Some((f, r)) => if r.len() < t1.len() {
                    parse_more(r, seq![f])
                } else {
                    None
                },
                None => None,
            }
        },
    }
}

/// Law: a finding's JSON object reads back as the finding, whatever follows it.
pub proof fn lemma_parse_finding(f: FindingView, r: Seq<char>)
    ensures
        parse_finding(finding_json(f) + r) == Some((f, r)),
        finding_json(f).len() > 0,
{
    let l1 = "{\"line\":"@;
    let l2 = ",\"severity\":\""@;
    let l3 = "\",\"message\":\""@;
    let l4 = "\"}"@;
    reveal_strlit("{\"line\":");
    reveal_strlit(",\"severity\":\"");
    reveal_strlit("\",\"message\":\"");
    reveal_strlit("\"}");
    reveal_strlit("error");
    reveal_strlit("warning");
    let dec = decimal(f.line as nat);
    let sev = severity_text(f.severity);
    let esc = escape_json(f.message);
    let r4 = l4 + r;
    let r3 = esc + r4;
    let r2 = l3 + r3;
    let r1 = sev + r2;
    let r0 = l2 + r1;
    let t1 = dec + r0;
    assert(finding_json(f) + r =~= l1 + t1);
    lemma_after(l1, t1);
    lemma_decimal_digits(f.line as nat);
    assert(!is_digit(r0[0]));
    lemma_digit_run(dec, r0);
    lemma_after(l2, r1);
    match f.severity {
        Severity::Error => {
            lemma_after("error"@, r2);
        },
        Severity::Warning => {
            lemma_after("warning"@, r2);
            assert(r1.take(5)[0] != "error"@[0]);
        },
    }
    lemma_after(l3, r3);
    assert(r4 =~= seq!['"'] + (seq!['}'] + r));
    lemma_string_end_escaped(f.message, seq!['}'] + r);
    assert(esc + seq!['"'] + (seq!['}'] + r) =~= r3);
    assert(r3.take(esc.len() as int) =~= esc);
    assert(r3.skip(esc.len() as int) =~= r4);
    lemma_after(l4, r);
    lemma_escape_round_trip(f.message);
}

proof fn lemma_parse_more_step(x: FindingView, r: Seq<char>, acc: Seq<FindingView>)
    ensures
        parse_more(seq![','] + finding_json(x) + r, acc) == parse_more(r, acc.push(x)),
{
    let t = seq![','] + finding_json(x) + r;
    lemma_parse_finding(x, r);
    assert(t.drop_first() =~= finding_json(x) + r);
    assert(t != seq![']']) by {
        assert(t[0] == ',');
    }
}

proof fn lemma_parse_items(fs: Seq<FindingView>, r: Seq<char>)
    requires
        fs.len() > 0,
    ensures
        findings_json_items(fs).len() > 0,
        match parse_finding(findings_json_items(fs) + r) {
            Some((f, rest)) => rest.len() < (findings_json_items(fs) + r).len() && parse_more(rest, seq![f])
                == parse_more(r, fs),
            None => false,
        },
    decreases fs.len(),
{
    if fs.len() == 1 {
        lemma_parse_finding(fs[0], r);
        assert(seq![fs[0]] =~= fs);
    } else {
        let init = fs.drop_last();
        let x = fs.last();
        let r1 = seq![','] + finding_json(x) + r;
        lemma_parse_items(init, r1);
        lemma_parse_finding(x, r);
        assert(findings_json_items(fs) + r =~= findings_json_items(init) + r1);
        let (f, rest) = parse_finding(findings_json_items(init) + r1).unwrap();
        lemma_parse_more_step(x, r, init);
        assert(init.push(x) =~= fs);
    }
}

/// Law: the JSON text of findings reads back as exactly those findings.
pub proof fn lemma_findings_json_round_trip(fs: Seq<FindingView>)
    ensures
        parse_findings_json(findings_json(fs)) == Some(fs),
{
    let t = findings_json(fs);
    let body = findings_json_items(fs) + seq![']'];
    assert(t =~= seq!['['] + body);
    lemma_after(seq!['['], body);
    if fs.len() == 0 {
        assert(body =~= seq![']']);
        assert(fs =~= Seq::<FindingView>::empty());
    } else {
        lemma_parse_items(fs, seq![']']);
        assert(body != seq![']']) by {
            assert(body.len() > 1);
        }
    }
}

} // verus!
