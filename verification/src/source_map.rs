//! Maps JSON pointer paths and line/column positions to byte spans of a source document.
use crate::diagnostic::SourceSpan;
use vstd::prelude::*;
use vstd::string::StringSliceAdditionalSpecFns;

verus! {

/// Byte offset just past the first line feed at or after `from`, capped at the length:
/// the end of the `split_inclusive('\n')` segment that starts at `from`.
pub open spec fn segment_end(b: Seq<u8>, from: int) -> int
    decreases b.len() - from,
{
    if from >= b.len() {
        b.len() as int
    } else if b[from] == 10 {
        from + 1
    } else {
        segment_end(b, from + 1)
    }
}

/// Start of the zero-based line `k` when the text is split after each line feed.
pub open spec fn segment_start(b: Seq<u8>, k: nat) -> int
    decreases k,
{
    if k == 0 {
        0
    } else {
        segment_end(b, segment_start(b, (k - 1) as nat))
    }
}

/// The byte offset of a zero-based line and column, the column clamped to its line.
pub open spec fn line_column_offset(b: Seq<u8>, line: nat, column: nat) -> int {
    let st = segment_start(b, line);
    if st >= b.len() {
        b.len() as int
    } else {
        let len = segment_end(b, st) - st;
        st + if column < len {
            column as int
        } else {
            len
        }
    }
}

/// The number of line feeds in `b`.
pub open spec fn count_newlines(b: Seq<u8>) -> nat
    decreases b.len(),
{
    if b.len() == 0 {
        0
    } else {
        count_newlines(b.drop_last()) + if b.last() == 10 {
            1nat
        } else {
            0nat
        }
    }
}

/// Whether `x` continues a multi-byte UTF-8 sequence.
pub open spec fn is_continuation(x: u8) -> bool {
    0x80 <= x < 0xC0
}

/// The number of characters in the text after the last line feed of `b`, counted as the
/// bytes that start a UTF-8 sequence.
pub open spec fn last_line_chars(b: Seq<u8>) -> nat
    decreases b.len(),
{
    if b.len() == 0 {
        0
    } else if b.last() == 10 {
        0
    } else {
        last_line_chars(b.drop_last()) + if is_continuation(b.last()) {
            0nat
        } else {
            1nat
        }
    }
}

/// `min(a, b)`.
pub open spec fn min(a: int, b: int) -> int {
    if a <= b {
        a
    } else {
        b
    }
}

/// The span reported for `len` bytes at `offset`: one-based line and column of the offset.
pub open spec fn offset_span(b: Seq<u8>, offset: nat, len: nat) -> SourceSpan {
    let prefix = b.take(min(offset as int, b.len() as int));
    SourceSpan {
        start: offset as usize,
        end: min(offset + if len == 0 {
            1
        } else {
            len as int
        }, b.len() as int) as usize,
        line: (count_newlines(prefix) + 1) as usize,
        column: (last_line_chars(prefix) + 1) as usize,
    }
}

/// Index of the first `/` in `b` at or after `from`, or the length when there is none.
pub open spec fn next_slash(b: Seq<u8>, from: int) -> int
    decreases b.len() - from,
{
    if from >= b.len() {
        b.len() as int
    } else if b[from] == 47 {
        from
    } else {
        next_slash(b, from + 1)
    }
}

pub proof fn lemma_next_slash_bounds(b: Seq<u8>, from: int)
    requires
        0 <= from <= b.len(),
    ensures
        from <= next_slash(b, from) <= b.len(),
    decreases b.len() - from,
{
    if from < b.len() && b[from] != 47 {
        lemma_next_slash_bounds(b, from + 1);
    }
}

/// Whether every byte is an ASCII digit.
pub open spec fn all_digits(s: Seq<u8>) -> bool {
    forall|i: int| 0 <= i < s.len() ==> 48 <= #[trigger] s[i] <= 57
}

/// The value of a string of ASCII digits.
pub open spec fn digits_value(s: Seq<u8>) -> nat
    decreases s.len(),
{
    if s.len() == 0 {
        0
    } else {
        digits_value(s.drop_last()) * 10 + (s.last() - 48) as nat
    }
}

/// Whether `str::parse::<usize>` accepts `s`: an optional `+`, then at least one digit,
/// with a value that fits.
pub open spec fn parses_usize(s: Seq<u8>) -> bool {
    let d = unsigned_digits(s);
    d.len() > 0 && all_digits(d) && digits_value(d) <= usize::MAX
}

/// The digits after an optional leading `+`.
pub open spec fn unsigned_digits(s: Seq<u8>) -> Seq<u8> {
    if s.len() > 0 && s[0] == 43 {
        s.drop_first()
    } else {
        s
    }
}

/// `s` with each non-overlapping occurrence of the two bytes `a b`, left to right,
/// replaced by the byte `r`.
pub open spec fn replace_pair(s: Seq<u8>, a: u8, b: u8, r: u8) -> Seq<u8>
    decreases s.len(),
{
    if s.len() >= 2 && s[0] == a && s[1] == b {
        seq![r] + replace_pair(s.skip(2), a, b, r)
    } else if s.len() == 0 {
        s
    } else {
        seq![s[0]] + replace_pair(s.drop_first(), a, b, r)
    }
}

/// A JSON pointer segment with `~1` read as `/` and then `~0` read as `~`.
pub open spec fn unescape_segment(raw: Seq<u8>) -> Seq<u8> {
    replace_pair(replace_pair(raw, 126, 49, 47), 126, 48, 126)
}

/// First index at or after `from` where `needle` occurs in `h`.
pub open spec fn find_from(h: Seq<u8>, needle: Seq<u8>, from: int) -> Option<int>
    decreases h.len() + 1 - from,
{
    if from < 0 || from + needle.len() > h.len() {
        None
    } else if h.subrange(from, from + needle.len()) == needle {
        Some(from)
    } else {
        find_from(h, needle, from + 1)
    }
}

/// The earlier match of the quoted key and the bare text, preferring the quoted key on a tie.
pub open spec fn earliest_match(h: Seq<u8>, seg: Seq<u8>, cursor: int) -> Option<(int, nat)> {
    let quoted = seq![34u8] + seg + seq![34u8];
    match (find_from(h, quoted, cursor), find_from(h, seg, cursor)) {
        (Some(q), Some(p)) => if q <= p {
            Some((q, quoted.len()))
        } else {
            Some((p, seg.len()))
        },
        (Some(q), None) => Some((q, quoted.len())),
        (None, Some(p)) => Some((p, seg.len())),
        (None, None) => None,
    }
}

/// Walk the pointer segments starting at `pos`, each searched after the previous match;
/// empty and numeric segments are skipped and the walk stops at the first segment not found.
pub open spec fn walk_path(src: Seq<u8>, path: Seq<u8>, pos: int, cursor: int, best: Option<SourceSpan>) -> Option<SourceSpan>
    decreases path.len() + 1 - pos,
{
    if pos > path.len() || pos < 0 {
        best
    } else {
        let e = next_slash(path, pos);
        proof {
            lemma_next_slash_bounds(path, pos);
        }
        let raw = path.subrange(pos, e);
        if raw.len() == 0 || parses_usize(raw) {
            walk_path(src, path, e + 1, cursor, best)
        } else {
            match earliest_match(src, unescape_segment(raw), cursor) {
                Some((at, len)) => walk_path(src, path, e + 1, at + len, Some(offset_span(src, at as nat, len))),
                None => best,
            }
        }
    }
}

/// The span `span_for_path` reports: the whole-document pointer maps to the first byte, any
/// other pointer to the last key or value matched while descending its segments.
pub open spec fn path_span(src: Seq<u8>, path: Seq<u8>) -> Option<SourceSpan> {
    if path.len() == 0 || path == seq![47u8] {
        Some(offset_span(src, 0, 1))
    } else {
        walk_path(src, path, next_slash(path, 0) + 1, 0, None)
    }
}

/// A view of a source document that resolves positions to spans.
#[derive(Debug, Clone)]
pub struct SourceMap<'a> {
    source: &'a str,
}

impl<'a> SourceMap<'a> {
    /// The bytes of the mapped document.
    pub closed spec fn bytes(&self) -> Seq<u8> {
        self.source.spec_bytes()
    }

    /// A map over `source`.
    pub fn new(source: &'a str) -> (m: Self)
        ensures
            m.bytes() == source.spec_bytes(),
    {
        SourceMap { source }
    }

    /// The span of `len` bytes at `offset`, with the one-based line and column of `offset`.
    pub fn at_offset(&self, offset: usize, len: usize) -> (span: SourceSpan)
        requires
            self.bytes().len() < usize::MAX,
        ensures
            span == offset_span(self.bytes(), offset as nat, len as nat),
    {
        let b = self.source.as_bytes();
        let p = if offset < b.len() { offset } else { b.len() };
        let mut newlines: usize = 0;
        let mut column: usize = 0;
        let mut i: usize = 0;
        while i < p
            invariant
                b@ == self.bytes(),
                p <= b.len() < usize::MAX,
                i <= p,
                newlines as nat == count_newlines(b@.take(i as int)),
                column as nat == last_line_chars(b@.take(i as int)),
                newlines <= i,
                column <= i,
            decreases p - i,
        {
            let x = b[i];
            proof {
                assert(b@.take(i + 1).drop_last() =~= b@.take(i as int));
            }
            if x == 10 {
                newlines += 1;
                column = 0;
            } else if !(0x80 <= x && x < 0xC0) {
                column += 1;
            }
            i += 1;
        }
        let extent = if len == 0 { 1 } else { len };
        let end = if offset >= b.len() {
            b.len()
        } else if extent <= b.len() - offset {
            offset + extent
        } else {
            b.len()
        };
        SourceSpan { start: offset, end, line: newlines + 1, column: column + 1 }
    }

    /// Best-effort span of a JSON pointer: each key is looked up after the previous match,
    /// so repeated keys resolve inside the requested parent.
    pub fn span_for_path(&self, path: &str) -> (r: Option<SourceSpan>)
        requires
            self.bytes().len() < usize::MAX,
            path.spec_bytes().len() < usize::MAX,
        ensures
            r == path_span(self.bytes(), path.spec_bytes()),
    {
        let src = self.source.as_bytes();
        let pb = path.as_bytes();
        if pb.len() == 0 || (pb.len() == 1 && pb[0] == 47) {
            proof {
                if pb.len() == 1 {
                    assert(pb@ =~= seq![47u8]);
                }
            }
            return Some(self.at_offset(0, 1));
        }
        proof {
            assert(pb@ != seq![47u8]);
        }
        let first = find_slash(pb, 0);
        if first == pb.len() {
            return None;
        }
        let mut pos: usize = first + 1;
        let mut cursor: usize = 0;
        let mut best: Option<SourceSpan> = None;
        while pos <= pb.len()
            invariant
                src@ == self.bytes(),
                src@.len() < usize::MAX,
                pb@ == path.spec_bytes(),
                pb@.len() < usize::MAX,
                cursor <= src@.len(),
                path_span(src@, pb@) == walk_path(src@, pb@, pos as int, cursor as int, best),
            decreases pb.len() + 1 - pos,
        {
            let e = find_slash(pb, pos);
            let raw = copy_range(pb, pos, e);
            let next = e + 1;
            assert(raw@ == pb@.subrange(pos as int, next_slash(pb@, pos as int)));
            if raw.len() == 0 || parses_usize_exec(&raw) {
                pos = next;
                continue;
            }
            let seg = unescape_exec(&raw);
            let mut quoted: Vec<u8> = Vec::new();
            quoted.push(34u8);
            let mut j: usize = 0;
            while j < seg.len()
                invariant
                    j <= seg.len(),
                    quoted@ == seq![34u8] + seg@.take(j as int),
                decreases seg.len() - j,
            {
                quoted.push(seg[j]);
                j += 1;
                assert(seq![34u8] + seg@.take(j as int) =~= (seq![34u8] + seg@.take(j - 1)).push(seg@[j - 1]));
            }
            quoted.push(34u8);
            assert(seg@.take(seg@.len() as int) =~= seg@);
            assert(quoted@ =~= seq![34u8] + seg@ + seq![34u8]);
            let q = find_exec(src, &quoted, cursor);
            let p = find_exec(src, &seg, cursor);
            let found: Option<(usize, usize)> = match (q, p) {
                (Some(qa), Some(pa)) => if qa <= pa {
                    Some((qa, quoted.len()))
                } else {
                    Some((pa, seg.len()))
                },
                (Some(qa), None) => Some((qa, quoted.len())),
                (None, Some(pa)) => Some((pa, seg.len())),
                (None, None) => None,
            };
            assert(found matches Some((at, len)) ==> earliest_match(src@, seg@, cursor as int) == Some((at as int, len as nat)) && at + len <= src@.len());
            assert(found is None ==> earliest_match(src@, seg@, cursor as int) is None);
            match found {
                Some((at, len)) => {
                    best = Some(self.at_offset(at, len));
                    cursor = at + len;
                },
                None => {
                    proof {
                        lemma_next_slash_bounds(pb@, pos as int);
                    }
                    assert(walk_path(src@, pb@, pos as int, cursor as int, best) == best);
                    return best;
                },
            }
            pos = next;
        }
        best
    }

    /// The span of a zero-based line and column; the column is clamped to the line and a
    /// line past the end maps to the end of the document.
    pub fn at_line_column(&self, line: usize, column: usize) -> (span: SourceSpan)
        requires
            line < usize::MAX,
            column < usize::MAX,
        ensures
            span.start == line_column_offset(self.bytes(), line as nat, column as nat),
            span.end == min(span.start + 1, self.bytes().len() as int),
            span.line == line + 1,
            span.column == column + 1,
    {
        let b = self.source.as_bytes();
        let ghost bs = b@;
        let mut st: usize = 0;
        let mut k: usize = 0;
        while st < b.len()
            invariant
                bs == self.bytes(),
                b@ == bs,
                k <= line,
                line < usize::MAX,
                column < usize::MAX,
                st as int == segment_start(bs, k as nat),
                st <= bs.len(),
            decreases line - k,
        {
            let e = segment_end_exec(b, st);
            if k == line {
                let len = e - st;
                let offset = st + if column < len { column } else { len };
                return SourceSpan {
                    start: offset,
                    end: if offset < b.len() { offset + 1 } else { b.len() },
                    line: line + 1,
                    column: column + 1,
                };
            }
            st = e;
            k += 1;
        }
        proof {
            lemma_segment_start_past_end(bs, k as nat, line as nat);
        }
        let offset = b.len();
        SourceSpan { start: offset, end: offset, line: line + 1, column: column + 1 }
    }
}

/// Index of the first `/` in `b` at or after `from`.
fn find_slash(b: &[u8], from: usize) -> (r: usize)
    requires
        from <= b.len(),
    ensures
        r as int == next_slash(b@, from as int),
        from <= r <= b.len(),
{
    let mut i = from;
    while i < b.len() && b[i] != 47
        invariant
            from <= i <= b.len(),
            next_slash(b@, from as int) == next_slash(b@, i as int),
        decreases b.len() - i,
    {
        i += 1;
    }
    i
}

/// A copy of `b[from..to]`.
fn copy_range(b: &[u8], from: usize, to: usize) -> (r: Vec<u8>)
    requires
        from <= to <= b.len(),
    ensures
        r@ == b@.subrange(from as int, to as int),
{
    let mut r: Vec<u8> = Vec::new();
    let mut i = from;
    while i < to
        invariant
            from <= i <= to <= b.len(),
            r@ == b@.subrange(from as int, i as int),
        decreases to - i,
    {
        r.push(b[i]);
        i += 1;
    }
    r
}

proof fn lemma_digits_value_grows(s: Seq<u8>, k: int)
    requires
        0 <= k < s.len(),
        all_digits(s),
    ensures
        digits_value(s.take(k)) <= digits_value(s.take(k + 1)),
{
    assert(s.take(k + 1).drop_last() =~= s.take(k));
}

proof fn lemma_digits_value_monotone(s: Seq<u8>, k: int, j: int)
    requires
        0 <= k <= j <= s.len(),
        all_digits(s),
    ensures
        digits_value(s.take(k)) <= digits_value(s.take(j)),
    decreases j - k,
{
    if k < j {
        lemma_digits_value_monotone(s, k, j - 1);
        lemma_digits_value_grows(s, j - 1);
    }
}

/// Whether `str::parse::<usize>` accepts the bytes.
fn parses_usize_exec(s: &Vec<u8>) -> (r: bool)
    ensures
        r == parses_usize(s@),
{
    let start: usize = if s.len() > 0 && s[0] == 43 { 1 } else { 0 };
    let ghost d = unsigned_digits(s@);
    assert(d =~= s@.subrange(start as int, s@.len() as int));
    if start >= s.len() {
        return false;
    }
    let mut value: u128 = 0;
    let mut i = start;
    while i < s.len()
        invariant
            start <= i <= s.len(),
            d == unsigned_digits(s@),
            d =~= s@.subrange(start as int, s@.len() as int),
            forall|j: int| 0 <= j < i - start ==> 48 <= #[trigger] d[j] <= 57,
            value as nat == digits_value(d.take(i - start)),
            value <= usize::MAX,
        decreases s.len() - i,
    {
        let x = s[i];
        if !(48 <= x && x <= 57) {
            assert(!all_digits(d)) by {
                assert(d[i - start] == x);
            }
            assert(parses_usize(s@) == (d.len() > 0 && all_digits(d) && digits_value(d) <= usize::MAX));
            assert(!parses_usize(s@));
            return false;
        }
        assert(d.take(i - start + 1).drop_last() =~= d.take(i - start));
        let next: u128 = value * 10 + (x - 48) as u128;
        assert(d[i - start] == x);
        assert(next == digits_value(d.take(i - start + 1)));
        if next > usize::MAX as u128 {
            assert(all_digits(d) ==> digits_value(d) > usize::MAX) by {
                if all_digits(d) {
                    lemma_digits_value_monotone(d, i - start + 1, d.len() as int);
                    assert(d.take(d.len() as int) =~= d);
                }
            }
            assert(parses_usize(s@) == (d.len() > 0 && all_digits(d) && digits_value(d) <= usize::MAX));
            assert(!parses_usize(s@));
            return false;
        }
        value = next;
        i += 1;
    }
    assert(d.take(d.len() as int) =~= d);
    true
}

/// `unescape_segment`: `~1` becomes `/`, then `~0` becomes `~`.
fn unescape_exec(raw: &Vec<u8>) -> (r: Vec<u8>)
    ensures
        r@ == unescape_segment(raw@),
{
    let once = replace_pair_exec(raw, 126, 49, 47);
    replace_pair_exec(&once, 126, 48, 126)
}

fn replace_pair_exec(s: &Vec<u8>, a: u8, b: u8, r: u8) -> (out: Vec<u8>)
    ensures
        out@ == replace_pair(s@, a, b, r),
{
    let mut out: Vec<u8> = Vec::new();
    let mut i: usize = 0;
    assert(s@.skip(0) =~= s@);
    assert(out@ + replace_pair(s@, a, b, r) =~= replace_pair(s@, a, b, r));
    while i < s.len()
        invariant
            i <= s.len(),
            replace_pair(s@, a, b, r) == out@ + replace_pair(s@.skip(i as int), a, b, r),
        decreases s.len() - i,
    {
        let ghost rest = s@.skip(i as int);
        if i + 1 < s.len() && s[i] == a && s[i + 1] == b {
            out.push(r);
            assert(rest.skip(2) =~= s@.skip(i + 2));
            assert(out@ + replace_pair(s@.skip(i + 2), a, b, r) =~= (out@.drop_last() + (seq![r] + replace_pair(rest.skip(2), a, b, r))));
            i += 2;
        } else {
            out.push(s[i]);
            assert(rest.drop_first() =~= s@.skip(i + 1));
            assert(out@ + replace_pair(s@.skip(i + 1), a, b, r) =~= (out@.drop_last() + (seq![s@[i as int]] + replace_pair(rest.drop_first(), a, b, r))));
            i += 1;
        }
    }
    assert(s@.skip(s@.len() as int) =~= Seq::<u8>::empty());
    assert(out@ + replace_pair(Seq::<u8>::empty(), a, b, r) =~= out@);
    out
}

/// First index at or after `from` where `needle` occurs in `h`.
fn find_exec(h: &[u8], needle: &Vec<u8>, from: usize) -> (r: Option<usize>)
    requires
        from <= h.len(),
    ensures
        match r {
            Some(i) => find_from(h@, needle@, from as int) == Some(i as int) && i + needle@.len() <= h@.len(),
            None => find_from(h@, needle@, from as int) is None,
        },
{
    let n = needle.len();
    if n > h.len() {
        assert(find_from(h@, needle@, from as int) is None);
        return None;
    }
    let mut i = from;
    if i > h.len() - n {
        return None;
    }
    loop
        invariant
            from <= i <= h.len() - n,
            n == needle@.len(),
            n <= h.len(),
            find_from(h@, needle@, from as int) == find_from(h@, needle@, i as int),
        decreases h.len() - n - i,
    {
        let mut j: usize = 0;
        let mut same = true;
        while j < n
            invariant
                j <= n,
                n == needle@.len(),
                i + n <= h.len(),
                same ==> forall|k: int| 0 <= k < j ==> h@[i + k] == needle@[k],
                !same ==> h@.subrange(i as int, i + n) != needle@,
            decreases n - j,
        {
            if h[i + j] != needle[j] {
                if same {
                    assert(h@.subrange(i as int, i + n)[j as int] != needle@[j as int]);
                }
                same = false;
            }
            j += 1;
        }
        if same {
            assert(h@.subrange(i as int, i + n) =~= needle@);
            return Some(i);
        }
        if i == h.len() - n {
            assert(find_from(h@, needle@, (i + 1) as int) is None);
            assert(find_from(h@, needle@, i as int) == find_from(h@, needle@, (i + 1) as int));
            return None;
        }
        i += 1;
    }
}

/// Exclusive end of the `split_inclusive('\n')` segment of `b` that starts at `from`.
fn segment_end_exec(b: &[u8], from: usize) -> (r: usize)
    requires
        from < b.len(),
    ensures
        r as int == segment_end(b@, from as int),
        from < r <= b.len(),
{
    let mut i = from;
    while i < b.len() && b[i] != 10
        invariant
            from <= i <= b.len(),
            segment_end(b@, from as int) == segment_end(b@, i as int),
            forall|j: int| from <= j < i ==> b@[j] != 10,
        decreases b.len() - i,
    {
        i += 1;
    }
    if i < b.len() {
        i + 1
    } else {
        i
    }
}

proof fn lemma_segment_end_bounds(b: Seq<u8>, from: int)
    requires
        0 <= from,
    ensures
        from < b.len() ==> from < segment_end(b, from) <= b.len(),
        from >= b.len() ==> segment_end(b, from) == b.len(),
    decreases b.len() - from,
{
    if from < b.len() && b[from] != 10 {
        lemma_segment_end_bounds(b, from + 1);
    }
}

proof fn lemma_segment_start_past_end(b: Seq<u8>, k: nat, j: nat)
    requires
        segment_start(b, k) >= b.len(),
        k <= j,
    ensures
        segment_start(b, j) >= b.len(),
    decreases j - k,
{
    if k < j {
        lemma_segment_start_past_end(b, k, (j - 1) as nat);
        lemma_segment_end_bounds(b, segment_start(b, (j - 1) as nat));
    }
}

} // verus!
