//! Character-level text helpers shared by every module.

use vstd::prelude::*;

verus! {

broadcast use vstd::string::group_string_axioms;

/// The characters of `s`, in order.
pub fn chars_of(s: &str) -> (v: Vec<char>)
    ensures
        v@ == s@,
{
    let mut v: Vec<char> = Vec::new();
    for c in it: s.chars()
        invariant
            v@ == it.seq().take(it.index() as int),
    {
        v.push(c);
    }
    assert(v@ =~= s@);
    v
}

/// `String::push`: append one character.
#[verifier::external_body]
pub(crate) fn push_char(s: &mut String, c: char)
    ensures
        final(s)@ == old(s)@.push(c),
{
    s.push(c);
}

/// `String::push_str`: append a string slice.
#[verifier::external_body]
pub(crate) fn push_str(s: &mut String, t: &str)
    ensures
        final(s)@ == old(s)@ + t@,
{
    s.push_str(t);
}

/// A string holding exactly the characters of `chars[from..to]`.
pub fn string_of_range(chars: &Vec<char>, from: usize, to: usize) -> (s: String)
    requires
        from <= to <= chars.len(),
    ensures
        s@ == chars@.subrange(from as int, to as int),
{
    let mut s = String::new();
    let mut i = from;
    while i < to
        invariant
            from <= i <= to <= chars.len(),
            s@ == chars@.subrange(from as int, i as int),
        decreases to - i,
    {
        push_char(&mut s, chars[i]);
        i += 1;
        assert(s@ =~= chars@.subrange(from as int, i as int));
    }
    s
}

/// A string holding exactly `chars`.
pub fn string_of(chars: &Vec<char>) -> (s: String)
    ensures
        s@ == chars@,
{
    let s = string_of_range(chars, 0, chars.len());
    assert(chars@.subrange(0, chars@.len() as int) =~= chars@);
    s
}

/// A copy of a string slice.
pub fn copy_str(t: &str) -> (s: String)
    ensures
        s@ == t@,
{
    let mut s = String::new();
    push_str(&mut s, t);
    assert(s@ =~= t@);
    s
}

/// `char::is_whitespace`: the Unicode `White_Space` property.
pub open spec fn spec_is_whitespace(c: char) -> bool {
    let n = c as u32;
    (0x09 <= n <= 0x0d) || n == 0x20 || n == 0x85 || n == 0xa0 || n == 0x1680 || (0x2000 <= n
        <= 0x200a) || n == 0x2028 || n == 0x2029 || n == 0x202f || n == 0x205f || n == 0x3000
}

pub fn is_whitespace(c: char) -> (r: bool)
    ensures
        r == spec_is_whitespace(c),
{
    let n = c as u32;
    (0x09 <= n && n <= 0x0d) || n == 0x20 || n == 0x85 || n == 0xa0 || n == 0x1680 || (0x2000
        <= n && n <= 0x200a) || n == 0x2028 || n == 0x2029 || n == 0x202f || n == 0x205f || n
        == 0x3000
}

/// How many leading characters of `s` are whitespace.
pub open spec fn lead_ws(s: Seq<char>) -> nat
    decreases s.len(),
{
    if s.len() > 0 && spec_is_whitespace(s[0]) {
        1 + lead_ws(s.drop_first())
    } else {
        0
    }
}

/// How many trailing characters of `s` are whitespace.
pub open spec fn trail_ws(s: Seq<char>) -> nat
    decreases s.len(),
{
    if s.len() > 0 && spec_is_whitespace(s.last()) {
        1 + trail_ws(s.drop_last())
    } else {
        0
    }
}

/// `str::trim_start`.
pub open spec fn trim_start(s: Seq<char>) -> Seq<char> {
    s.skip(lead_ws(s) as int)
}

/// `str::trim_end`.
pub open spec fn trim_end(s: Seq<char>) -> Seq<char> {
    s.take(s.len() - trail_ws(s))
}

/// `str::trim`: whitespace removed from both ends.
pub open spec fn trim(s: Seq<char>) -> Seq<char> {
    trim_end(trim_start(s))
}

pub proof fn lemma_lead_ws(s: Seq<char>)
    ensures
        lead_ws(s) <= s.len(),
        forall|i: int| 0 <= i < lead_ws(s) ==> spec_is_whitespace(#[trigger] s[i]),
        lead_ws(s) < s.len() ==> !spec_is_whitespace(s[lead_ws(s) as int]),
    decreases s.len(),
{
    if s.len() > 0 && spec_is_whitespace(s[0]) {
        lemma_lead_ws(s.drop_first());
        assert forall|i: int| 0 <= i < lead_ws(s) implies spec_is_whitespace(#[trigger] s[i]) by {
            if i > 0 {
                assert(s[i] == s.drop_first()[i - 1]);
            }
        }
    }
}

pub proof fn lemma_trail_ws(s: Seq<char>)
    ensures
        trail_ws(s) <= s.len(),
        forall|i: int| s.len() - trail_ws(s) <= i < s.len() ==> spec_is_whitespace(#[trigger] s[i]),
        trail_ws(s) < s.len() ==> !spec_is_whitespace(s[s.len() - trail_ws(s) - 1]),
    decreases s.len(),
{
    if s.len() > 0 && spec_is_whitespace(s.last()) {
        lemma_trail_ws(s.drop_last());
        assert forall|i: int| s.len() - trail_ws(s) <= i < s.len() implies spec_is_whitespace(
            #[trigger] s[i],
        ) by {
            if i < s.len() - 1 {
                assert(s[i] == s.drop_last()[i]);
            }
        }
    }
}

/// The first index at or after `from` whose character is not whitespace.
fn skip_ws_forward(v: &Vec<char>, from: usize) -> (r: usize)
    requires
        from <= v.len(),
        from == 0,
    ensures
        r == lead_ws(v@),
        r <= v.len(),
{
    proof {
        lemma_lead_ws(v@);
    }
    let mut i = from;
    while i < v.len() && is_whitespace(v[i])
        invariant
            i <= v.len(),
            i <= lead_ws(v@),
            lead_ws(v@) <= v@.len(),
            forall|k: int| 0 <= k < lead_ws(v@) ==> spec_is_whitespace(#[trigger] v@[k]),
            lead_ws(v@) < v@.len() ==> !spec_is_whitespace(v@[lead_ws(v@) as int]),
        decreases v.len() - i,
    {
        i += 1;
    }
    i
}

/// `str::trim`: a copy of `s` without leading or trailing whitespace.
pub fn trim_str(s: &str) -> (r: String)
    ensures
        r@ == trim(s@),
{
    let v = chars_of(s);
    let start = skip_ws_forward(&v, 0);
    let ghost t = v@.skip(start as int);
    assert(t.len() == v.len() - start);
    proof {
        lemma_trail_ws(t);
    }
    let mut end = v.len();
    while end > start && is_whitespace(v[end - 1])
        invariant
            start <= end <= v.len(),
            t == v@.skip(start as int),
            end - start >= t.len() - trail_ws(t),
            trail_ws(t) <= t.len(),
            forall|i: int| t.len() - trail_ws(t) <= i < t.len() ==> spec_is_whitespace(#[trigger] t[i]),
            trail_ws(t) < t.len() ==> !spec_is_whitespace(t[t.len() - trail_ws(t) - 1]),
        decreases end,
    {
        assert(v@[end - 1] == t[end - 1 - start]);
        end -= 1;
    }
    if end > start {
        assert(v@[end - 1] == t[end - 1 - start]);
    }
    let r = string_of_range(&v, start, end);
    assert(r@ =~= trim(s@));
    r
}

/// The decimal spelling of a natural number, without sign or leading zeros.
pub open spec fn nat_text(n: nat) -> Seq<char>
    decreases n,
{
    if n < 10 {
        seq![digit_char(n)]
    } else {
        nat_text(n / 10).push(digit_char(n % 10))
    }
}

pub open spec fn digit_char(d: nat) -> char {
    if d == 0 {
        '0'
    } else if d == 1 {
        '1'
    } else if d == 2 {
        '2'
    } else if d == 3 {
        '3'
    } else if d == 4 {
        '4'
    } else if d == 5 {
        '5'
    } else if d == 6 {
        '6'
    } else if d == 7 {
        '7'
    } else if d == 8 {
        '8'
    } else {
        '9'
    }
}

/// The decimal spelling of an integer, as `Display` writes it.
pub open spec fn int_text(n: int) -> Seq<char> {
    if n < 0 {
        seq!['-'] + nat_text((-n) as nat)
    } else {
        nat_text(n as nat)
    }
}

fn digit(d: u64) -> (c: char)
    requires
        d < 10,
    ensures
        c == digit_char(d as nat),
{
    if d == 0 {
        '0'
    } else if d == 1 {
        '1'
    } else if d == 2 {
        '2'
    } else if d == 3 {
        '3'
    } else if d == 4 {
        '4'
    } else if d == 5 {
        '5'
    } else if d == 6 {
        '6'
    } else if d == 7 {
        '7'
    } else if d == 8 {
        '8'
    } else {
        '9'
    }
}

/// The decimal spelling of `n`.
pub fn u64_text(n: u64) -> (s: String)
    ensures
        s@ == nat_text(n as nat),
    decreases n,
{
    if n < 10 {
        let mut s = String::new();
        push_char(&mut s, digit(n));
        assert(s@ =~= nat_text(n as nat));
        s
    } else {
        let mut s = u64_text(n / 10);
        push_char(&mut s, digit(n % 10));
        s
    }
}

/// The decimal spelling of `n`, with a leading `-` when negative.
pub fn i64_text(n: i64) -> (s: String)
    ensures
        s@ == int_text(n as int),
{
    if n < 0 {
        let magnitude: u64 = if n == i64::MIN {
            9223372036854775808u64
        } else {
            (-n) as u64
        };
        let digits = u64_text(magnitude);
        let mut s = String::new();
        push_char(&mut s, '-');
        push_str(&mut s, digits.as_str());
        assert(s@ =~= int_text(n as int));
        s
    } else {
        u64_text(n as u64)
    }
}

/// The decimal spelling of `n`.
pub fn usize_text(n: usize) -> (s: String)
    ensures
        s@ == nat_text(n as nat),
{
    u64_text(n as u64)
}

/// `n` copies of `c`.
pub open spec fn repeat(c: char, n: nat) -> Seq<char> {
    Seq::new(n, |i: int| c)
}

/// Python's `str.ljust`: pad with spaces on the right to `width` characters.
pub open spec fn spec_ljust(text: Seq<char>, width: nat) -> Seq<char> {
    if text.len() >= width {
        text
    } else {
        text + repeat(' ', (width - text.len()) as nat)
    }
}

/// Python's `str.rjust`: pad with spaces on the left to `width` characters.
pub open spec fn spec_rjust(text: Seq<char>, width: nat) -> Seq<char> {
    if text.len() >= width {
        text
    } else {
        repeat(' ', (width - text.len()) as nat) + text
    }
}

/// Pad to `width` on the right, leaving anything longer untouched.
pub fn ljust(text: &str, width: usize) -> (out: String)
    ensures
        out@ == spec_ljust(text@, width as nat),
{
    let n = chars_of(text).len();
    let mut out = copy_str(text);
    let mut i = n;
    while i < width
        invariant
            n == text@.len(),
            i >= n,
            n >= width ==> i == n,
            n < width ==> i <= width,
            out@ == text@ + repeat(' ', (i - n) as nat),
        decreases width - i,
    {
        push_char(&mut out, ' ');
        i += 1;
        assert(out@ =~= text@ + repeat(' ', (i - n) as nat));
    }
    proof {
        if n >= width {
            assert(repeat(' ', (i - n) as nat) =~= Seq::<char>::empty());
            assert(out@ =~= text@);
        }
    }
    out
}

/// `ljust`'s mirror: pad with spaces on the left.
pub fn rjust(text: &str, width: usize) -> (out: String)
    ensures
        out@ == spec_rjust(text@, width as nat),
{
    let n = chars_of(text).len();
    let mut out = String::new();
    let mut i = n;
    while i < width
        invariant
            n == text@.len(),
            i >= n,
            n >= width ==> i == n,
            n < width ==> i <= width,
            out@ == repeat(' ', (i - n) as nat),
        decreases width - i,
    {
        push_char(&mut out, ' ');
        i += 1;
        assert(out@ =~= repeat(' ', (i - n) as nat));
    }
    push_str(&mut out, text);
    proof {
        if n >= width {
            assert(repeat(' ', (i - n) as nat) =~= Seq::<char>::empty());
            assert(out@ =~= text@);
        }
    }
    out
}

/// The first `width` characters, as Python slices them.
pub fn truncate(text: &str, width: usize) -> (out: String)
    ensures
        out@ == text@.take(if width < text@.len() { width as int } else { text@.len() as int }),
{
    let v = chars_of(text);
    let end = if width < v.len() {
        width
    } else {
        v.len()
    };
    string_of_range(&v, 0, end)
}

/// `text` with every occurrence of the character `c` counted.
pub open spec fn count_char(s: Seq<char>, c: char) -> nat
    decreases s.len(),
{
    if s.len() == 0 {
        0
    } else {
        count_char(s.drop_last(), c) + if s.last() == c {
            1nat
        } else {
            0nat
        }
    }
}

/// Whether `c` occurs in `s`.
pub fn contains_char(s: &str, c: char) -> (r: bool)
    ensures
        r == s@.contains(c),
{
    let v = chars_of(s);
    let mut i: usize = 0;
    while i < v.len()
        invariant
            v@ == s@,
            i <= v.len(),
            forall|k: int| 0 <= k < i ==> v@[k] != c,
        decreases v.len() - i,
    {
        if v[i] == c {
            return true;
        }
        i += 1;
    }
    false
}

/// Whether `s` begins with `prefix`.
pub fn starts_with(s: &str, prefix: &str) -> (r: bool)
    ensures
        r == (prefix@.len() <= s@.len() && s@.take(prefix@.len() as int) == prefix@),
{
    let v = chars_of(s);
    let p = chars_of(prefix);
    if p.len() > v.len() {
        return false;
    }
    let mut i: usize = 0;
    while i < p.len()
        invariant
            v@ == s@,
            p@ == prefix@,
            p.len() <= v.len(),
            i <= p.len(),
            forall|k: int| 0 <= k < i ==> v@[k] == p@[k],
        decreases p.len() - i,
    {
        if v[i] != p[i] {
            assert(s@.take(prefix@.len() as int)[i as int] != prefix@[i as int]);
            return false;
        }
        i += 1;
    }
    assert(s@.take(prefix@.len() as int) =~= prefix@);
    true
}

/// Whether `s` ends with `suffix`.
pub fn ends_with(s: &str, suffix: &str) -> (r: bool)
    ensures
        r == (suffix@.len() <= s@.len() && s@.skip(s@.len() - suffix@.len()) == suffix@),
{
    let v = chars_of(s);
    let p = chars_of(suffix);
    if p.len() > v.len() {
        return false;
    }
    let off: usize = v.len() - p.len();
    let mut i: usize = 0;
    while i < p.len()
        invariant
            v@ == s@,
            p@ == suffix@,
            off + p.len() == v.len(),
            i <= p.len(),
            forall|k: int| 0 <= k < i ==> v@[off + k] == p@[k],
        decreases p.len() - i,
    {
        if v[off + i] != p[i] {
            assert(s@.skip(s@.len() - suffix@.len())[i as int] != suffix@[i as int]);
            return false;
        }
        i += 1;
    }
    assert(s@.skip(s@.len() - suffix@.len()) =~= suffix@);
    true
}

/// Python's `str.capitalize` pieces: the Unicode upper and lower case mappings
/// of one character, which may be several characters long.
pub uninterp spec fn char_upper(c: char) -> Seq<char>;

pub uninterp spec fn char_lower(c: char) -> Seq<char>;

/// `char::to_uppercase`, collected.
#[verifier::external_body]
fn upper_of(c: char) -> (s: String)
    ensures
        s@ == char_upper(c),
{
    c.to_uppercase().collect()
}

/// `char::to_lowercase`, collected.
#[verifier::external_body]
fn lower_of(c: char) -> (s: String)
    ensures
        s@ == char_lower(c),
{
    c.to_lowercase().collect()
}

/// The lower-case mappings of every character of `s`, concatenated.
pub open spec fn lower_all(s: Seq<char>) -> Seq<char>
    decreases s.len(),
{
    if s.len() == 0 {
        seq![]
    } else {
        lower_all(s.drop_last()) + char_lower(s.last())
    }
}

/// Python's `str.capitalize`.
pub open spec fn spec_capitalize(s: Seq<char>) -> Seq<char> {
    if s.len() == 0 {
        seq![]
    } else {
        char_upper(s[0]) + lower_all(s.drop_first())
    }
}

/// Python's `str.capitalize`: upper-case the first character, lower-case the rest.
pub fn capitalize(text: &str) -> (out: String)
    ensures
        out@ == spec_capitalize(text@),
{
    let v = chars_of(text);
    if v.len() == 0 {
        return String::new();
    }
    let mut out = upper_of(v[0]);
    let ghost rest = v@.drop_first();
    let mut i: usize = 1;
    while i < v.len()
        invariant
            v@ == text@,
            1 <= i <= v.len(),
            rest == v@.drop_first(),
            out@ == char_upper(v@[0]) + lower_all(rest.take(i - 1)),
        decreases v.len() - i,
    {
        let low = lower_of(v[i]);
        push_str(&mut out, low.as_str());
        proof {
            assert(rest.take(i as int).drop_last() =~= rest.take(i - 1));
        }
        i += 1;
        assert(out@ =~= char_upper(v@[0]) + lower_all(rest.take(i - 1)));
    }
    assert(rest.take(i - 1) =~= rest);
    out
}

/// Text comparison in `Ord` order for `str`, which compares UTF-8 bytes and so
/// agrees with comparing code points one by one.
pub open spec fn text_lt(a: Seq<char>, b: Seq<char>) -> bool
    decreases a.len(),
{
    if b.len() == 0 {
        false
    } else if a.len() == 0 {
        true
    } else if a[0] != b[0] {
        a[0] < b[0]
    } else {
        text_lt(a.drop_first(), b.drop_first())
    }
}

/// Three-way text comparison: -1, 0 or 1.
pub fn compare_text(a: &str, b: &str) -> (r: i8)
    ensures
        r == -1 <==> text_lt(a@, b@),
        r == 0 <==> a@ == b@,
        r == 1 <==> text_lt(b@, a@),
{
    let x = chars_of(a);
    let y = chars_of(b);
    let mut i: usize = 0;
    while i < x.len() && i < y.len() && x[i] == y[i]
        invariant
            x@ == a@,
            y@ == b@,
            i <= x.len(),
            i <= y.len(),
            x@.take(i as int) == y@.take(i as int),
        decreases x.len() - i,
    {
        assert(x@.take(i + 1) =~= x@.take(i as int).push(x@[i as int]));
        assert(y@.take(i + 1) =~= y@.take(i as int).push(y@[i as int]));
        i += 1;
    }
    proof {
        lemma_text_lt_common_prefix(x@, y@, i as int);
    }
    if i < x.len() && i < y.len() {
        if x[i] < y[i] {
            -1
        } else {
            1
        }
    } else if x.len() == y.len() {
        assert(x@ =~= x@.take(i as int));
        assert(y@ =~= y@.take(i as int));
        0
    } else if x.len() < y.len() {
        -1
    } else {
        1
    }
}

proof fn lemma_text_lt_common_prefix(a: Seq<char>, b: Seq<char>, i: int)
    requires
        0 <= i <= a.len(),
        i <= b.len(),
        a.take(i) == b.take(i),
        i < a.len() && i < b.len() ==> a[i] != b[i],
    ensures
        text_lt(a, b) == (if i < a.len() && i < b.len() {
            a[i] < b[i]
        } else {
            a.len() < b.len()
        }),
        text_lt(b, a) == (if i < a.len() && i < b.len() {
            b[i] < a[i]
        } else {
            b.len() < a.len()
        }),
        a == b <==> (i == a.len() && i == b.len()),
{
    lemma_text_lt_prefix(a, b, i);
    if i == a.len() && i == b.len() {
        assert(a =~= a.take(i));
        assert(b =~= b.take(i));
    }
    if a == b {
        if i < a.len() {
            assert(a[i] == b[i]);
        }
    }
}

proof fn lemma_text_lt_prefix(a: Seq<char>, b: Seq<char>, i: int)
    requires
        0 <= i <= a.len(),
        i <= b.len(),
        a.take(i) == b.take(i),
        i < a.len() && i < b.len() ==> a[i] != b[i],
    ensures
        text_lt(a, b) == (if i < a.len() && i < b.len() {
            a[i] < b[i]
        } else {
            a.len() < b.len()
        }),
        text_lt(b, a) == (if i < a.len() && i < b.len() {
            b[i] < a[i]
        } else {
            b.len() < a.len()
        }),
    decreases i,
{
    if i > 0 {
        assert(a[0] == a.take(i)[0]);
        assert(b[0] == b.take(i)[0]);
        assert(a.drop_first().take(i - 1) =~= a.take(i).drop_first());
        assert(b.drop_first().take(i - 1) =~= b.take(i).drop_first());
        lemma_text_lt_prefix(a.drop_first(), b.drop_first(), i - 1);
    }
}

pub proof fn lemma_text_lt_irreflexive(a: Seq<char>)
    ensures
        !text_lt(a, a),
    decreases a.len(),
{
    if a.len() > 0 {
        lemma_text_lt_irreflexive(a.drop_first());
    }
}

pub proof fn lemma_text_lt_transitive(a: Seq<char>, b: Seq<char>, c: Seq<char>)
    requires
        text_lt(a, b),
        text_lt(b, c),
    ensures
        text_lt(a, c),
    decreases a.len(),
{
    if a.len() > 0 && b.len() > 0 && c.len() > 0 {
        if a[0] == b[0] && b[0] == c[0] {
            lemma_text_lt_transitive(a.drop_first(), b.drop_first(), c.drop_first());
        }
    }
}

pub proof fn lemma_text_lt_total(a: Seq<char>, b: Seq<char>)
    ensures
        text_lt(a, b) || text_lt(b, a) || a == b,
    decreases a.len(),
{
    if a.len() > 0 && b.len() > 0 {
        lemma_text_lt_total(a.drop_first(), b.drop_first());
        if a[0] == b[0] && a.drop_first() == b.drop_first() {
            assert(a =~= seq![a[0]] + a.drop_first());
            assert(b =~= seq![b[0]] + b.drop_first());
        }
    } else if a.len() == 0 && b.len() == 0 {
        assert(a =~= b);
    }
}

/// Whether two strings hold the same characters.
pub fn str_eq(a: &str, b: &str) -> (r: bool)
    ensures
        r == (a@ == b@),
{
    compare_text(a, b) == 0
}

/// The concatenation of a sequence of texts.
pub open spec fn concat(parts: Seq<Seq<char>>) -> Seq<char>
    decreases parts.len(),
{
    if parts.len() == 0 {
        Seq::empty()
    } else {
        concat(parts.drop_last()) + parts.last()
    }
}

/// The texts of a slice of string slices.
pub open spec fn str_views(parts: Seq<&str>) -> Seq<Seq<char>> {
    parts.map_values(|p: &str| p@)
}

/// The texts of `parts`, one after another.
pub fn cat(parts: &[&str]) -> (s: String)
    ensures
        s@ == concat(str_views(parts@)),
{
    let ghost views = str_views(parts@);
    let mut s = String::new();
    let mut i: usize = 0;
    while i < parts.len()
        invariant
            i <= parts.len(),
            views == str_views(parts@),
            s@ == concat(views.take(i as int)),
        decreases parts.len() - i,
    {
        push_str(&mut s, parts[i]);
        proof {
            assert(views.take(i + 1).drop_last() =~= views.take(i as int));
        }
        i += 1;
    }
    assert(views.take(parts.len() as int) =~= views);
    s
}

/// The texts of `parts` with `sep` between each two.
pub open spec fn join(parts: Seq<Seq<char>>, sep: Seq<char>) -> Seq<char>
    decreases parts.len(),
{
    if parts.len() == 0 {
        Seq::empty()
    } else if parts.len() == 1 {
        parts[0]
    } else {
        join(parts.drop_last(), sep) + sep + parts.last()
    }
}

/// `parts.join(sep)`.
pub fn join_texts(parts: &Vec<String>, sep: &str) -> (s: String)
    ensures
        s@ == join(texts(parts@), sep@),
{
    let ghost views = texts(parts@);
    let mut s = String::new();
    let mut i: usize = 0;
    while i < parts.len()
        invariant
            i <= parts.len(),
            views == texts(parts@),
            s@ == join(views.take(i as int), sep@),
        decreases parts.len() - i,
    {
        if i > 0 {
            push_str(&mut s, sep);
        }
        push_str(&mut s, parts[i].as_str());
        proof {
            assert(views.take(i + 1).drop_last() =~= views.take(i as int));
            if i == 0 {
                assert(s@ =~= join(views.take(1), sep@));
            }
        }
        i += 1;
    }
    assert(views.take(parts.len() as int) =~= views);
    s
}

/// The texts of a vector of strings.
pub open spec fn texts(s: Seq<String>) -> Seq<Seq<char>> {
    s.map_values(|x: String| x@)
}

/// How `{:?}` writes a string: in double quotes, with Rust's escapes.
pub uninterp spec fn debug_quoted(s: Seq<char>) -> Seq<char>;

/// `<str as Debug>::fmt`, through `format!`.
#[verifier::external_body]
pub(crate) fn debug_text(s: &str) -> (r: String)
    ensures
        r@ == debug_quoted(s@),
{
    format!("{:?}", s)
}

/// How `{:?}` writes a list of strings.
pub open spec fn debug_list_text(items: Seq<Seq<char>>) -> Seq<char> {
    "["@ + join(quoted_all(items), ", "@) + "]"@
}

/// Each text in its debug form.
pub open spec fn quoted_all(items: Seq<Seq<char>>) -> Seq<Seq<char>> {
    Seq::new(items.len(), |i: int| debug_quoted(items[i]))
}

/// `format!("{:?}", items)` for a list of strings, built from each item's own
/// debug form.
pub fn debug_list(items: &Vec<String>) -> (r: String)
    ensures
        r@ == debug_list_text(texts(items@)),
{
    let mut quoted: Vec<String> = Vec::new();
    let mut i: usize = 0;
    while i < items.len()
        invariant
            i <= items.len(),
            quoted.len() == i,
            forall|k: int| 0 <= k < i ==> #[trigger] quoted@[k]@ == debug_quoted(items@[k]@),
        decreases items.len() - i,
    {
        quoted.push(debug_text(items[i].as_str()));
        i += 1;
    }
    assert(texts(quoted@) =~= quoted_all(texts(items@)));
    let inner = join_texts(&quoted, ", ");
    let mut r = String::new();
    push_str(&mut r, "[");
    push_str(&mut r, inner.as_str());
    push_str(&mut r, "]");
    r
}

/// The pieces of `t` between occurrences of `c`, as `str::split` yields them.
pub open spec fn split_on(t: Seq<char>, c: char) -> Seq<Seq<char>>
    decreases t.len(),
{
    if t.len() == 0 {
        seq![Seq::<char>::empty()]
    } else {
        let rest = split_on(t.drop_last(), c);
        if t.last() == c {
            rest.push(Seq::<char>::empty())
        } else {
            rest.update(rest.len() - 1, rest.last().push(t.last()))
        }
    }
}

pub proof fn lemma_split_on_len(t: Seq<char>, c: char)
    ensures
        split_on(t, c).len() >= 1,
    decreases t.len(),
{
    if t.len() > 0 {
        lemma_split_on_len(t.drop_last(), c);
    }
}

/// `s.split(c)`, collected.
pub fn split_char(s: &str, c: char) -> (r: Vec<String>)
    ensures
        texts(r@) == split_on(s@, c),
{
    let v = chars_of(s);
    let mut parts: Vec<String> = Vec::new();
    let mut current = String::new();
    let mut i: usize = 0;
    while i < v.len()
        invariant
            v@ == s@,
            i <= v.len(),
            texts(parts@).push(current@) == split_on(v@.take(i as int), c),
        decreases v.len() - i,
    {
        proof {
            assert(v@.take(i + 1).drop_last() =~= v@.take(i as int));
            lemma_split_on_len(v@.take(i as int), c);
        }
        if v[i] == c {
            let done = current;
            parts.push(done);
            current = String::new();
            proof {
                assert(texts(parts@).push(current@) =~= split_on(v@.take(i + 1), c));
            }
        } else {
            push_char(&mut current, v[i]);
            proof {
                assert(texts(parts@).push(current@) =~= split_on(v@.take(i + 1), c));
            }
        }
        i += 1;
    }
    parts.push(current);
    assert(v@.take(v.len() as int) =~= v@);
    assert(texts(parts@) =~= split_on(s@, c));
    parts
}

/// Texts in non-decreasing `str` order.
pub open spec fn texts_sorted(s: Seq<Seq<char>>) -> bool {
    forall|i: int, j: int| 0 <= i < j < s.len() ==> !text_lt(#[trigger] s[j], #[trigger] s[i])
}

/// Not-after is transitive.
pub proof fn lemma_text_le_transitive(a: Seq<char>, b: Seq<char>, c: Seq<char>)
    requires
        !text_lt(b, a),
        !text_lt(c, b),
    ensures
        !text_lt(c, a),
{
    lemma_text_lt_total(a, b);
    lemma_text_lt_total(b, c);
    if text_lt(c, a) {
        if a != b && b != c {
            lemma_text_lt_transitive(a, b, c);
            lemma_text_lt_transitive(c, a, c);
            lemma_text_lt_irreflexive(c);
        } else if a == b && b != c {
            lemma_text_lt_transitive(c, a, c);
            lemma_text_lt_irreflexive(c);
        } else if a != b && b == c {
            lemma_text_lt_transitive(c, a, c);
            lemma_text_lt_irreflexive(c);
        } else {
            lemma_text_lt_irreflexive(c);
        }
    }
}

/// The strings in `str` order: `sort` on a vector of strings.
pub fn sort_texts(v: &Vec<String>) -> (r: Vec<String>)
    ensures
        texts_sorted(texts(r@)),
        texts(r@).to_multiset() == texts(v@).to_multiset(),
        r.len() == v.len(),
{
    let mut out: Vec<String> = Vec::new();
    let mut i: usize = 0;
    assert(texts(out@) =~= texts(v@).take(0));
    while i < v.len()
        invariant
            i <= v.len(),
            out.len() == i,
            texts_sorted(texts(out@)),
            texts(out@).to_multiset() == texts(v@).take(i as int).to_multiset(),
        decreases v.len() - i,
    {
        let x = v[i].clone();
        let ghost xv = x@;
        let mut j: usize = 0;
        while j < out.len() && compare_text(out[j].as_str(), x.as_str()) != 1
            invariant
                j <= out.len(),
                xv == x@,
                forall|k: int| 0 <= k < j ==> !text_lt(xv, #[trigger] texts(out@)[k]),
            decreases out.len() - j,
        {
            assert(texts(out@)[j as int] == out@[j as int]@);
            j += 1;
        }
        let ghost before = texts(out@);
        out.insert(j, x);
        proof {
            let after = texts(out@);
            assert(after =~= before.insert(j as int, xv));
            assert forall|p: int, q: int| 0 <= p < q < after.len() implies !text_lt(
                #[trigger] after[q],
                #[trigger] after[p],
            ) by {
                if q < j {
                    assert(after[p] == before[p] && after[q] == before[q]);
                } else if p > j {
                    assert(after[p] == before[p - 1] && after[q] == before[q - 1]);
                } else if q == j {
                    assert(after[p] == before[p]);
                } else if p == j {
                    assert(after[q] == before[q - 1]);
                    assert(text_lt(xv, before[j as int]));
                    if q - 1 > j {
                        assert(!text_lt(before[q - 1], before[j as int]));
                        lemma_text_lt_total(before[j as int], before[q - 1]);
                        if before[j as int] != before[q - 1] {
                            lemma_text_lt_transitive(xv, before[j as int], before[q - 1]);
                        }
                    }
                    if text_lt(after[q], after[p]) {
                        lemma_text_lt_transitive(xv, after[q], xv);
                        lemma_text_lt_irreflexive(xv);
                    }
                } else {
                    assert(after[p] == before[p] && after[q] == before[q - 1]);
                }
            }
            vstd::seq_lib::to_multiset_insert(before, j as int, xv);
            let tk = texts(v@).take(i + 1);
            assert(tk =~= texts(v@).take(i as int).push(xv));
            vstd::seq_lib::to_multiset_build(texts(v@).take(i as int), xv);
        }
        i += 1;
    }
    assert(texts(v@).take(v.len() as int) =~= texts(v@));
    out
}

/// The 2 texts, one after another.
pub fn msg2(p0: &str, p1: &str) -> (s: String)
    ensures
        s@ == p0@ + p1@,
{
    let mut s = String::new();
    push_str(&mut s, p0);
    push_str(&mut s, p1);
    assert(s@ =~= p0@ + p1@);
    s
}

/// The 3 texts, one after another.
pub fn msg3(p0: &str, p1: &str, p2: &str) -> (s: String)
    ensures
        s@ == p0@ + p1@ + p2@,
{
    let mut s = String::new();
    push_str(&mut s, p0);
    push_str(&mut s, p1);
    push_str(&mut s, p2);
    assert(s@ =~= p0@ + p1@ + p2@);
    s
}

/// The 4 texts, one after another.
pub fn msg4(p0: &str, p1: &str, p2: &str, p3: &str) -> (s: String)
    ensures
        s@ == p0@ + p1@ + p2@ + p3@,
{
    let mut s = String::new();
    push_str(&mut s, p0);
    push_str(&mut s, p1);
    push_str(&mut s, p2);
    push_str(&mut s, p3);
    assert(s@ =~= p0@ + p1@ + p2@ + p3@);
    s
}

/// The 5 texts, one after another.
pub fn msg5(p0: &str, p1: &str, p2: &str, p3: &str, p4: &str) -> (s: String)
    ensures
        s@ == p0@ + p1@ + p2@ + p3@ + p4@,
{
    let mut s = String::new();
    push_str(&mut s, p0);
    push_str(&mut s, p1);
    push_str(&mut s, p2);
    push_str(&mut s, p3);
    push_str(&mut s, p4);
    assert(s@ =~= p0@ + p1@ + p2@ + p3@ + p4@);
    s
}

/// The 6 texts, one after another.
pub fn msg6(p0: &str, p1: &str, p2: &str, p3: &str, p4: &str, p5: &str) -> (s: String)
    ensures
        s@ == p0@ + p1@ + p2@ + p3@ + p4@ + p5@,
{
    let mut s = String::new();
    push_str(&mut s, p0);
    push_str(&mut s, p1);
    push_str(&mut s, p2);
    push_str(&mut s, p3);
    push_str(&mut s, p4);
    push_str(&mut s, p5);
    assert(s@ =~= p0@ + p1@ + p2@ + p3@ + p4@ + p5@);
    s
}

/// The 7 texts, one after another.
pub fn msg7(p0: &str, p1: &str, p2: &str, p3: &str, p4: &str, p5: &str, p6: &str) -> (s: String)
    ensures
        s@ == p0@ + p1@ + p2@ + p3@ + p4@ + p5@ + p6@,
{
    let mut s = String::new();
    push_str(&mut s, p0);
    push_str(&mut s, p1);
    push_str(&mut s, p2);
    push_str(&mut s, p3);
    push_str(&mut s, p4);
    push_str(&mut s, p5);
    push_str(&mut s, p6);
    assert(s@ =~= p0@ + p1@ + p2@ + p3@ + p4@ + p5@ + p6@);
    s
}

/// The 8 texts, one after another.
pub fn msg8(p0: &str, p1: &str, p2: &str, p3: &str, p4: &str, p5: &str, p6: &str, p7: &str) -> (s: String)
    ensures
        s@ == p0@ + p1@ + p2@ + p3@ + p4@ + p5@ + p6@ + p7@,
{
    let mut s = String::new();
    push_str(&mut s, p0);
    push_str(&mut s, p1);
    push_str(&mut s, p2);
    push_str(&mut s, p3);
    push_str(&mut s, p4);
    push_str(&mut s, p5);
    push_str(&mut s, p6);
    push_str(&mut s, p7);
    assert(s@ =~= p0@ + p1@ + p2@ + p3@ + p4@ + p5@ + p6@ + p7@);
    s
}

/// The 9 texts, one after another.
pub fn msg9(p0: &str, p1: &str, p2: &str, p3: &str, p4: &str, p5: &str, p6: &str, p7: &str, p8: &str) -> (s: String)
    ensures
        s@ == p0@ + p1@ + p2@ + p3@ + p4@ + p5@ + p6@ + p7@ + p8@,
{
    let mut s = String::new();
    push_str(&mut s, p0);
    push_str(&mut s, p1);
    push_str(&mut s, p2);
    push_str(&mut s, p3);
    push_str(&mut s, p4);
    push_str(&mut s, p5);
    push_str(&mut s, p6);
    push_str(&mut s, p7);
    push_str(&mut s, p8);
    assert(s@ =~= p0@ + p1@ + p2@ + p3@ + p4@ + p5@ + p6@ + p7@ + p8@);
    s
}


/// The decimal spelling of `n`.
pub fn u128_text(n: u128) -> (s: String)
    ensures
        s@ == nat_text(n as nat),
    decreases n,
{
    if n < 10 {
        let mut s = String::new();
        push_char(&mut s, digit((n as u64)));
        assert(s@ =~= nat_text(n as nat));
        s
    } else {
        let mut s = u128_text(n / 10);
        push_char(&mut s, digit((n % 10) as u64));
        s
    }
}

/// The decimal spelling of `n`, with a leading `-` when negative.
pub fn i128_text(n: i128) -> (s: String)
    ensures
        s@ == int_text(n as int),
{
    if n < 0 {
        let magnitude: u128 = if n == i128::MIN {
            170141183460469231731687303715884105728u128
        } else {
            (-n) as u128
        };
        let digits = u128_text(magnitude);
        let mut s = String::new();
        push_char(&mut s, '-');
        push_str(&mut s, digits.as_str());
        assert(s@ =~= int_text(n as int));
        s
    } else {
        u128_text(n as u128)
    }
}


/// `s.strip_prefix(p)`.
pub open spec fn strip_prefix_of(s: Seq<char>, p: Seq<char>) -> Option<Seq<char>> {
    if p.len() <= s.len() && s.take(p.len() as int) == p {
        Some(s.skip(p.len() as int))
    } else {
        None
    }
}

/// `s.strip_suffix(p)`.
pub open spec fn strip_suffix_of(s: Seq<char>, p: Seq<char>) -> Option<Seq<char>> {
    if p.len() <= s.len() && s.skip(s.len() - p.len()) == p {
        Some(s.take(s.len() - p.len()))
    } else {
        None
    }
}

/// `s.strip_prefix(p).unwrap_or(s)`.
pub open spec fn without_prefix(s: Seq<char>, p: Seq<char>) -> Seq<char> {
    match strip_prefix_of(s, p) {
        Some(r) => r,
        None => s,
    }
}

/// `s.strip_suffix(p).unwrap_or(s)`.
pub open spec fn without_suffix(s: Seq<char>, p: Seq<char>) -> Seq<char> {
    match strip_suffix_of(s, p) {
        Some(r) => r,
        None => s,
    }
}

/// `s.trim_end_matches(c)`: every trailing `c` removed.
pub open spec fn trim_end_char(s: Seq<char>, c: char) -> Seq<char>
    decreases s.len(),
{
    if s.len() > 0 && s.last() == c {
        trim_end_char(s.drop_last(), c)
    } else {
        s
    }
}

/// `s.strip_prefix(prefix)`, as an owned string.
pub fn strip_prefix_str(s: &str, prefix: &str) -> (r: Option<String>)
    ensures
        opt_text(r) == strip_prefix_of(s@, prefix@),
{
    if starts_with(s, prefix) {
        let v = chars_of(s);
        let n = chars_of(prefix).len();
        let rest = string_of_range(&v, n, v.len());
        assert(rest@ =~= s@.skip(prefix@.len() as int));
        Some(rest)
    } else {
        None
    }
}

/// `s.strip_suffix(suffix)`, as an owned string.
pub fn strip_suffix_str(s: &str, suffix: &str) -> (r: Option<String>)
    ensures
        opt_text(r) == strip_suffix_of(s@, suffix@),
{
    if ends_with(s, suffix) {
        let v = chars_of(s);
        let n = chars_of(suffix).len();
        let rest = string_of_range(&v, 0, v.len() - n);
        assert(rest@ =~= s@.take(s@.len() - suffix@.len()));
        Some(rest)
    } else {
        None
    }
}

/// `s.strip_prefix(prefix).unwrap_or(s)`, as an owned string.
pub fn without_prefix_str(s: &str, prefix: &str) -> (r: String)
    ensures
        r@ == without_prefix(s@, prefix@),
{
    match strip_prefix_str(s, prefix) {
        Some(r) => r,
        None => copy_str(s),
    }
}

/// `s.strip_suffix(suffix).unwrap_or(s)`, as an owned string.
pub fn without_suffix_str(s: &str, suffix: &str) -> (r: String)
    ensures
        r@ == without_suffix(s@, suffix@),
{
    match strip_suffix_str(s, suffix) {
        Some(r) => r,
        None => copy_str(s),
    }
}

/// `s.trim_end_matches(c)`, as an owned string.
pub fn trim_end_char_str(s: &str, c: char) -> (r: String)
    ensures
        r@ == trim_end_char(s@, c),
{
    let v = chars_of(s);
    let mut end = v.len();
    assert(v@.take(v.len() as int) =~= v@);
    while end > 0 && v[end - 1] == c
        invariant
            end <= v.len(),
            v@ == s@,
            trim_end_char(v@.take(end as int), c) == trim_end_char(s@, c),
        decreases end,
    {
        assert(v@.take(end as int).drop_last() =~= v@.take(end - 1));
        end -= 1;
    }
    let r = string_of_range(&v, 0, end);
    assert(r@ =~= v@.take(end as int));
    r
}

/// The view of an optional string.
pub open spec fn opt_text(o: Option<String>) -> Option<Seq<char>> {
    match o {
        Some(s) => Some(s@),
        None => None,
    }
}

/// One line of `str::lines` with its `\r` before the newline removed.
pub open spec fn strip_cr(l: Seq<char>) -> Seq<char> {
    if l.len() > 0 && l.last() == '\r' {
        l.drop_last()
    } else {
        l
    }
}

/// `str::lines`: the pieces between newlines, each without the `\r` of a
/// `\r\n` ending; a final empty piece after the last newline is no line.
pub open spec fn text_lines(t: Seq<char>) -> Seq<Seq<char>> {
    let parts = split_on(t, '\n');
    let body = parts.drop_last().map_values(|p: Seq<char>| strip_cr(p));
    if parts.last().len() == 0 {
        body
    } else {
        body.push(parts.last())
    }
}

/// `text.lines()`, collected.
pub fn lines_of(text: &str) -> (r: Vec<String>)
    ensures
        texts(r@) == text_lines(text@),
{
    let parts = split_char(text, '\n');
    proof {
        lemma_split_on_len(text@, '\n');
    }
    let ghost pv = split_on(text@, '\n');
    let n = parts.len();
    let mut out: Vec<String> = Vec::new();
    let mut i: usize = 0;
    assert(texts(out@) =~= pv.take(0).map_values(|p: Seq<char>| strip_cr(p)));
    while i + 1 < n
        invariant
            n == parts.len(),
            n >= 1,
            texts(parts@) == pv,
            pv == split_on(text@, '\n'),
            i + 1 <= n,
            texts(out@) == pv.take(i as int).map_values(|p: Seq<char>| strip_cr(p)),
        decreases n - i,
    {
        let line = &parts[i];
        let ghost lv = pv[i as int];
        assert(line@ == lv);
        let opt = strip_suffix_str(line.as_str(), "\r");
        let stripped = match opt {
            Some(x) => x,
            None => copy_str(line.as_str()),
        };
        proof {
            reveal_strlit("\r");
            assert("\r"@ =~= seq!['\r']);
            assert(texts(parts@)[i as int] == parts@[i as int]@);
            if lv.len() > 0 && lv.last() == '\r' {
                assert(lv.skip(lv.len() - 1) =~= seq!['\r']);
                assert(lv.take(lv.len() - 1) =~= lv.drop_last());
                assert(strip_suffix_of(lv, "\r"@) == Some(lv.drop_last()));
            } else if lv.len() > 0 {
                assert(lv.skip(lv.len() - 1)[0] == lv.last());
                assert(strip_suffix_of(lv, "\r"@) is None);
            }
            assert(stripped@ == strip_cr(lv));
        }
        let ghost prev = texts(out@);
        out.push(stripped);
        assert(texts(out@) =~= prev.push(strip_cr(lv)));
        assert(pv.take(i + 1) =~= pv.take(i as int).push(lv));
        i += 1;
        assert(texts(out@) =~= pv.take(i as int).map_values(|p: Seq<char>| strip_cr(p)));
    }
    assert(pv.take(i as int) =~= pv.drop_last());
    let last = &parts[n - 1];
    assert(last@ == pv.last());
    if last.as_str().unicode_len() > 0 {
        let kept = copy_str(last.as_str());
        out.push(kept);
        assert(texts(out@) =~= text_lines(text@));
    } else {
        proof {
            assert(last@.len() == 0);
        }
    }
    out
}

} // verus!
