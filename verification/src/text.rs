//! Character-level helpers shared by the compiler modules.
use vstd::prelude::*;

verus! {

broadcast use vstd::string::group_string_axioms;

/// The character sequences of a list of strings.
pub open spec fn views(s: Seq<String>) -> Seq<Seq<char>> {
    s.map_values(|t: String| t@)
}

pub proof fn lemma_views_push(s: Seq<String>, e: String)
    ensures
        views(s.push(e)) == views(s).push(e@),
{
    assert(views(s.push(e)) =~= views(s).push(e@));
}

/// Whether two character vectors hold the same characters.
pub fn same_chars(a: &Vec<char>, b: &Vec<char>) -> (r: bool)
    ensures
        r == (a@ == b@),
{
    if a.len() != b.len() {
        return false;
    }
    let mut i: usize = 0;
    while i < a.len()
        invariant
            i <= a@.len(),
            a@.len() == b@.len(),
            forall|k: int| 0 <= k < i ==> a@[k] == b@[k],
        decreases a.len() - i,
    {
        if a[i] != b[i] {
            return false;
        }
        i += 1;
    }
    assert(a@ =~= b@);
    true
}

/// Appends one character; `String::push` is documented to append `c` to the end.
#[verifier::external_body]
pub(crate) fn push_char(s: &mut String, c: char)
    ensures
        final(s)@ == old(s)@.push(c),
{
    s.push(c);
}

/// The characters of a string slice, in order.
pub fn chars_of(s: &str) -> (v: Vec<char>)
    ensures
        v@ == s@,
{
    let mut v: Vec<char> = Vec::new();
    for c in it: s.chars()
        invariant
            v@ == it.seq().take(it.index() as int),
    {
        v.push(c);
    }
    v
}

/// The decimal digit character for `d < 10`.
pub open spec fn digit_char(d: nat) -> char {
    (48 + d) as char
}

/// The decimal representation of `n`, without sign or leading zeros.
pub open spec fn decimal(n: nat) -> Seq<char>
    decreases n,
{
    if n < 10 {
        seq![digit_char(n)]
    } else {
        decimal(n / 10).push(digit_char(n % 10))
    }
}

/// Appends the decimal representation of `n`.
pub fn push_decimal(out: &mut String, n: usize)
    ensures
        final(out)@ == old(out)@ + decimal(n as nat),
    decreases n,
{
    if n >= 10 {
        push_decimal(out, n / 10);
    }
    let d: u8 = (n % 10) as u8;
    let c: char = (48u8 + d) as char;
    assert(c == digit_char((n % 10) as nat));
    push_char(out, c);
    assert(decimal(n as nat) == if n < 10 { seq![digit_char(n as nat)] } else {
        decimal((n / 10) as nat).push(digit_char((n % 10) as nat))
    });
}

/// Appends the decimal representation of a 64-bit `n`.
pub fn push_decimal_wide(out: &mut String, n: u64)
    ensures
        final(out)@ == old(out)@ + decimal(n as nat),
    decreases n,
{
    if n >= 10 {
        push_decimal_wide(out, n / 10);
    }
    let d: u8 = (n % 10) as u8;
    let c: char = (48u8 + d) as char;
    assert(c == digit_char((n % 10) as nat));
    push_char(out, c);
    assert(decimal(n as nat) == if n < 10 { seq![digit_char(n as nat)] } else {
        decimal((n / 10) as nat).push(digit_char((n % 10) as nat))
    });
}

/// A fresh string holding `chars[from..to]`.
pub fn string_of_range(chars: &[char], from: usize, to: usize) -> (s: String)
    requires
        from <= to <= chars.len(),
    ensures
        s@ == chars@.subrange(from as int, to as int),
{
    let mut s = String::new();
    let mut i: usize = from;
    while i < to
        invariant
            from <= i <= to <= chars.len(),
            s@ == chars@.subrange(from as int, i as int),
        decreases to - i,
    {
        push_char(&mut s, chars[i]);
        i += 1;
        assert(chars@.subrange(from as int, i as int) == chars@.subrange(from as int, i - 1).push(chars@[i - 1]));
    }
    s
}

/// A fresh string holding exactly the given characters.
pub fn string_of(chars: &[char]) -> (s: String)
    ensures
        s@ == chars@,
{
    let mut s = String::new();
    let mut i: usize = 0;
    while i < chars.len()
        invariant
            i <= chars.len(),
            s@ == chars@.take(i as int),
        decreases chars.len() - i,
    {
        push_char(&mut s, chars[i]);
        i += 1;
        assert(chars@.take(i as int) == chars@.take((i - 1) as int).push(chars@[i - 1]));
    }
    assert(chars@.take(chars@.len() as int) == chars@);
    s
}

/// Index of the first line feed at or after `from`, or the length when there is none.
pub open spec fn next_newline(s: Seq<char>, from: int) -> int
    decreases s.len() - from,
{
    if from >= s.len() {
        s.len() as int
    } else if s[from] == '\n' {
        from
    } else {
        next_newline(s, from + 1)
    }
}

/// Index at which line `k` (zero-based) starts; beyond the text when it has fewer lines.
pub open spec fn line_start(s: Seq<char>, k: nat) -> int
    decreases k,
{
    if k == 0 {
        0
    } else {
        next_newline(s, line_start(s, (k - 1) as nat)) + 1
    }
}

/// A line without its terminator: a carriage return is removed only before a line feed.
pub open spec fn strip_line_end(line: Seq<char>, terminated: bool) -> Seq<char> {
    if terminated && line.len() > 0 && line.last() == '\r' {
        line.drop_last()
    } else {
        line
    }
}

/// Line `n` as `str::lines` yields it: lines end at `\n` or `\r\n`, the last terminator
/// is optional and no empty line follows a final terminator.
pub open spec fn nth_line(s: Seq<char>, n: nat) -> Option<Seq<char>> {
    let st = line_start(s, n);
    if st >= s.len() {
        None
    } else {
        let e = next_newline(s, st);
        Some(strip_line_end(s.subrange(st, e), e < s.len()))
    }
}

pub proof fn lemma_next_newline_bounds(s: Seq<char>, from: int)
    requires
        0 <= from,
    ensures
        from <= s.len() ==> from <= next_newline(s, from) <= s.len(),
        from > s.len() ==> next_newline(s, from) == s.len(),
        forall|i: int| from <= i < next_newline(s, from) ==> s[i] != '\n',
        next_newline(s, from) < s.len() ==> s[next_newline(s, from)] == '\n',
    decreases s.len() - from,
{
    if from < s.len() && s[from] != '\n' {
        lemma_next_newline_bounds(s, from + 1);
    }
}

pub proof fn lemma_line_start_past_end(s: Seq<char>, k: nat, j: nat)
    requires
        k <= j,
        line_start(s, k) >= s.len(),
    ensures
        line_start(s, j) >= s.len(),
    decreases j - k,
{
    if k < j {
        lemma_line_start_past_end(s, k, (j - 1) as nat);
        lemma_next_newline_bounds(s, line_start(s, (j - 1) as nat));
    }
}

pub proof fn lemma_line_start_nonneg(s: Seq<char>, k: nat)
    ensures
        line_start(s, k) >= 0,
    decreases k,
{
    if k > 0 {
        lemma_line_start_nonneg(s, (k - 1) as nat);
        lemma_next_newline_bounds(s, line_start(s, (k - 1) as nat));
    }
}

/// Index of the first line feed in `s` at or after `from`.
pub fn find_newline(s: &[char], from: usize) -> (r: usize)
    requires
        from <= s.len(),
    ensures
        r as int == next_newline(s@, from as int),
{
    let mut i = from;
    while i < s.len() && s[i] != '\n'
        invariant
            from <= i <= s.len(),
            next_newline(s@, from as int) == next_newline(s@, i as int),
        decreases s.len() - i,
    {
        i += 1;
    }
    i
}

/// Line `n` of `s`, as `str::lines().nth(n)` yields it.
pub fn line_of(s: &[char], n: usize) -> (r: Option<Vec<char>>)
    ensures
        match r {
            Some(v) => nth_line(s@, n as nat) == Some(v@),
            None => nth_line(s@, n as nat) is None,
        },
{
    if s.len() == 0 {
        proof {
            lemma_line_start_nonneg(s@, n as nat);
        }
        return None;
    }
    let mut st: usize = 0;
    let mut k: usize = 0;
    while k < n
        invariant
            k <= n,
            st as int == line_start(s@, k as nat),
            st < s.len(),
        decreases n - k,
    {
        let e = find_newline(s, st);
        proof {
            lemma_next_newline_bounds(s@, st as int);
        }
        if e >= s.len() - 1 {
            proof {
                lemma_line_start_past_end(s@, (k + 1) as nat, n as nat);
            }
            return None;
        }
        st = e + 1;
        k += 1;
    }
    let e = find_newline(s, st);
    proof {
        lemma_next_newline_bounds(s@, st as int);
    }
    let mut end = e;
    if e < s.len() && e > st && s[e - 1] == '\r' {
        end = e - 1;
    }
    let mut v: Vec<char> = Vec::new();
    let mut i = st;
    while i < end
        invariant
            st <= i <= end <= e <= s.len(),
            v@ == s@.subrange(st as int, i as int),
        decreases end - i,
    {
        v.push(s[i]);
        i += 1;
    }
    proof {
        let seg = s@.subrange(st as int, e as int);
        if e < s.len() && e > st && s@[e - 1] == '\r' {
            assert(seg.drop_last() =~= s@.subrange(st as int, end as int));
        } else {
            assert(seg =~= s@.subrange(st as int, end as int));
        }
    }
    Some(v)
}

/// `n` space characters.
pub open spec fn spaces(n: nat) -> Seq<char> {
    Seq::new(n, |i: int| ' ')
}

/// Appends `n` spaces.
pub fn push_spaces(out: &mut String, n: usize)
    ensures
        final(out)@ == old(out)@ + spaces(n as nat),
{
    let mut i: usize = 0;
    while i < n
        invariant
            i <= n,
            out@ == old(out)@ + spaces(i as nat),
        decreases n - i,
    {
        push_char(out, ' ');
        i += 1;
        assert(spaces(i as nat) =~= spaces((i - 1) as nat).push(' '));
    }
}

/// Appends the given characters.
pub fn push_chars(out: &mut String, chars: &[char])
    ensures
        final(out)@ == old(out)@ + chars@,
{
    let mut i: usize = 0;
    while i < chars.len()
        invariant
            i <= chars.len(),
            out@ == old(out)@ + chars@.take(i as int),
        decreases chars.len() - i,
    {
        push_char(out, chars[i]);
        i += 1;
        assert(chars@.take(i as int) =~= chars@.take((i - 1) as int).push(chars@[i - 1]));
    }
    assert(chars@.take(chars@.len() as int) =~= chars@);
}


/// Whether two string slices hold the same characters.
pub fn same_text(a: &str, b: &str) -> (r: bool)
    ensures
        r == (a@ == b@),
{
    let x = chars_of(a);
    let y = chars_of(b);
    same_chars(&x, &y)
}

/// The concatenation of two texts.
pub fn text2(a: &str, b: &str) -> (s: String)
    ensures
        s@ == a@ + b@,
{
    let mut s = String::new();
    s.append(a);
    s.append(b);
    assert(s@ =~= a@ + b@);
    s
}

/// The concatenation of three texts.
pub fn text3(a: &str, b: &str, c: &str) -> (s: String)
    ensures
        s@ == a@ + b@ + c@,
{
    let mut s = String::new();
    s.append(a);
    s.append(b);
    s.append(c);
    assert(s@ =~= a@ + b@ + c@);
    s
}

/// The concatenation of four texts.
pub fn text4(a: &str, b: &str, c: &str, d: &str) -> (s: String)
    ensures
        s@ == a@ + b@ + c@ + d@,
{
    let mut s = String::new();
    s.append(a);
    s.append(b);
    s.append(c);
    s.append(d);
    assert(s@ =~= a@ + b@ + c@ + d@);
    s
}

/// The concatenation of five texts.
pub fn text5(a: &str, b: &str, c: &str, d: &str, e: &str) -> (s: String)
    ensures
        s@ == a@ + b@ + c@ + d@ + e@,
{
    let mut s = String::new();
    s.append(a);
    s.append(b);
    s.append(c);
    s.append(d);
    s.append(e);
    assert(s@ =~= a@ + b@ + c@ + d@ + e@);
    s
}

/// `prefix`, the decimal digits of `n`, then `suffix`.
pub fn numbered(prefix: &str, n: usize, suffix: &str) -> (s: String)
    ensures
        s@ == prefix@ + decimal(n as nat) + suffix@,
{
    let mut s = String::new();
    s.append(prefix);
    push_decimal(&mut s, n);
    s.append(suffix);
    assert(s@ =~= prefix@ + decimal(n as nat) + suffix@);
    s
}


/// Whether every character is an ASCII digit.
pub open spec fn all_digit_chars(s: Seq<char>) -> bool {
    forall|i: int| 0 <= i < s.len() ==> '0' <= #[trigger] s[i] <= '9'
}

/// The value of a string of ASCII digits.
pub open spec fn digit_chars_value(s: Seq<char>) -> nat
    decreases s.len(),
{
    if s.len() == 0 {
        0
    } else {
        digit_chars_value(s.drop_last()) * 10 + (s.last() as nat - 48) as nat
    }
}

/// The magnitude that `str::parse` reads after an optional sign: nonempty ASCII digits.
pub open spec fn magnitude(d: Seq<char>) -> Option<nat> {
    if d.len() > 0 && all_digit_chars(d) {
        Some(digit_chars_value(d))
    } else {
        None
    }
}

/// What `str::parse::<u32>` accepts: an optional `+`, then digits of a value that fits.
pub open spec fn parsed_u32(s: Seq<char>) -> Option<u32> {
    let d = if s.len() > 0 && s[0] == '+' {
        s.drop_first()
    } else {
        s
    };
    match magnitude(d) {
        Some(v) => if v <= u32::MAX {
            Some(v as u32)
        } else {
            None
        },
        None => None,
    }
}

/// What `str::parse::<i32>` accepts: an optional `+` or `-`, then digits of a value that
/// fits.
pub open spec fn parsed_i32(s: Seq<char>) -> Option<i32> {
    if s.len() > 0 && s[0] == '-' {
        match magnitude(s.drop_first()) {
            Some(v) => if v <= 0x8000_0000 {
                Some((0 - v) as i32)
            } else {
                None
            },
            None => None,
        }
    } else {
        let d = if s.len() > 0 && s[0] == '+' {
            s.drop_first()
        } else {
            s
        };
        match magnitude(d) {
            Some(v) => if v <= 0x7fff_ffff {
                Some(v as i32)
            } else {
                None
            },
            None => None,
        }
    }
}

pub proof fn lemma_digit_value_grows(d: Seq<char>, i: int, j: int)
    requires
        0 <= i <= j <= d.len(),
        all_digit_chars(d),
    ensures
        digit_chars_value(d.take(i)) <= digit_chars_value(d.take(j)),
    decreases j - i,
{
    if i < j {
        lemma_digit_value_grows(d, i, j - 1);
        assert(d.take(j).drop_last() =~= d.take(j - 1));
    }
}

/// The value of the digits `c[from..]`, if they are nonempty ASCII digits and the value does
/// not exceed `limit`.
fn digits_up_to(c: &Vec<char>, from: usize, limit: u64) -> (r: Option<u64>)
    requires
        from <= c@.len(),
        limit <= u32::MAX + 1,
    ensures
        match magnitude(c@.skip(from as int)) {
            Some(v) => if v <= limit {
                r == Some(v as u64)
            } else {
                r is None
            },
            None => r is None,
        },
{
    let ghost d = c@.skip(from as int);
    if from >= c.len() {
        return None;
    }
    let mut value: u64 = 0;
    let mut i: usize = from;
    while i < c.len()
        invariant
            from <= i <= c@.len(),
            d == c@.skip(from as int),
            forall|k: int| 0 <= k < i - from ==> '0' <= #[trigger] d[k] <= '9',
            value as nat == digit_chars_value(d.take(i - from)),
            value <= limit,
            limit <= u32::MAX + 1,
        decreases c.len() - i,
    {
        let x = c[i];
        assert(d[i - from] == x);
        if !('0' <= x && x <= '9') {
            assert(!all_digit_chars(d));
            return None;
        }
        assert(d.take(i - from + 1).drop_last() =~= d.take(i - from));
        let digit: u64 = (x as u32 - 48) as u64;
        assert(value * 10 + digit <= 0x1_0000_0000 * 10 + 9) by (nonlinear_arith)
            requires
                value <= 0x1_0000_0000,
                digit <= 9,
        ;
        let next: u64 = value * 10 + digit;
        if next > limit {
            assert(all_digit_chars(d) ==> digit_chars_value(d) > limit) by {
                if all_digit_chars(d) {
                    lemma_digit_value_grows(d, i - from + 1, d.len() as int);
                    assert(d.take(d.len() as int) =~= d);
                }
            }
            return None;
        }
        value = next;
        i += 1;
    }
    assert(d.take(d.len() as int) =~= d);
    Some(value)
}

/// `str::parse::<u32>`.
pub fn parse_u32_text(s: &str) -> (r: Option<u32>)
    ensures
        r == parsed_u32(s@),
{
    let c = chars_of(s);
    let from: usize = if c.len() > 0 && c[0] == '+' { 1 } else { 0 };
    assert(c@.skip(from as int) =~= if s@.len() > 0 && s@[0] == '+' { s@.drop_first() } else { s@ });
    match digits_up_to(&c, from, 0xffff_ffff) {
        Some(v) => Some(v as u32),
        None => None,
    }
}

/// `str::parse::<i32>`.
pub fn parse_i32_text(s: &str) -> (r: Option<i32>)
    ensures
        r == parsed_i32(s@),
{
    let c = chars_of(s);
    if c.len() > 0 && c[0] == '-' {
        assert(c@.skip(1) =~= s@.drop_first());
        match digits_up_to(&c, 1, 0x8000_0000) {
            Some(v) => Some((0i64 - v as i64) as i32),
            None => None,
        }
    } else {
        let from: usize = if c.len() > 0 && c[0] == '+' { 1 } else { 0 };
        assert(c@.skip(from as int) =~= if s@.len() > 0 && s@[0] == '+' { s@.drop_first() } else { s@ });
        match digits_up_to(&c, from, 0x7fff_ffff) {
            Some(v) => Some(v as i32),
            None => None,
        }
    }
}

/// The decimal text of a signed integer, with `-` before negative values.
pub open spec fn signed_decimal(i: int) -> Seq<char> {
    if i < 0 {
        seq!['-'] + decimal((0 - i) as nat)
    } else {
        decimal(i as nat)
    }
}

/// Appends the decimal text of `i`.
pub fn push_signed(out: &mut String, i: i32)
    ensures
        final(out)@ == old(out)@ + signed_decimal(i as int),
{
    if i < 0 {
        push_char(out, '-');
        let m: i64 = 0i64 - i as i64;
        push_decimal(out, m as usize);
        assert(final(out)@ =~= old(out)@ + signed_decimal(i as int));
    } else {
        push_decimal(out, i as usize);
    }
}

} // verus!
