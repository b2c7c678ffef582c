//! Content lock for the exact resolved symbols and footprints a design uses: each asset is
//! recorded by the SHA-256 digest of its canonical S-expression text, and a build accepts
//! library contents only when they match the lock.
use crate::connectivity::{lemma_sexp_views_index, lemma_sexp_views_len, sexp_view, Sexp, SexpView};
use crate::diagnostic::{Diagnostic, Severity};
use crate::kicad::{sorted_put, sorted_put_exec};
use crate::modules::pair_views;
use crate::text::{chars_of, push_char, same_text, text2, text3};
use vstd::prelude::*;

verus! {

/// A text in canonical quoted form: `"` and `\` preceded by `\`.
pub open spec fn escaped(s: Seq<char>) -> Seq<char>
    decreases s.len(),
{
    if s.len() == 0 {
        Seq::empty()
    } else {
        let c = s.last();
        escaped(s.drop_last()) + if c == '"' || c == '\\' {
            seq!['\\', c]
        } else {
            seq![c]
        }
    }
}

/// The canonical text of a node, as `kiutils_sexpr` prints it: a symbol as it is, a quoted
/// atom between quotes with `"` and `\` escaped, a list in parentheses with its items
/// separated by single spaces.
pub open spec fn node_text(n: SexpView) -> Seq<char>
    decreases n, 0nat,
{
    match n {
        SexpView::Symbol(s) => s,
        SexpView::Quoted(s) => seq!['"'] + escaped(s) + seq!['"'],
        SexpView::List(items) => seq!['('] + items_text(items, items.len()) + seq![')'],
    }
}

/// The canonical texts of the first `k` items, separated by single spaces.
pub open spec fn items_text(items: Seq<SexpView>, k: nat) -> Seq<char>
    decreases items, k,
{
    if k == 0 || k > items.len() {
        Seq::empty()
    } else if k == 1 {
        node_text(items[0])
    } else {
        items_text(items, (k - 1) as nat) + seq![' '] + node_text(items[k - 1])
    }
}

/// The canonical text of a document holding the one node `n`: its text and a newline.
pub open spec fn document_text(n: SexpView) -> Seq<char> {
    node_text(n) + seq!['\n']
}

/// Appends the canonical text of `n`.
fn push_node_text(out: &mut String, n: &Sexp)
    ensures
        final(out)@ == old(out)@ + node_text(sexp_view(*n)),
    decreases n,
{
    match n {
        Sexp::Symbol(s) => {
            out.append(s.as_str());
        },
        Sexp::Quoted(s) => {
            push_char(out, '"');
            let cs = chars_of(s.as_str());
            let ghost start = out@;
            let mut i: usize = 0;
            while i < cs.len()
                invariant
                    i <= cs@.len(),
                    cs@ == s@,
                    out@ == start + escaped(cs@.take(i as int)),
                decreases cs.len() - i,
            {
                let c = cs[i];
                if c == '"' || c == '\\' {
                    push_char(out, '\\');
                }
                push_char(out, c);
                assert(cs@.take(i + 1).drop_last() =~= cs@.take(i as int));
                i += 1;
            }
            assert(cs@.take(cs@.len() as int) =~= cs@);
            push_char(out, '"');
        },
        Sexp::List(items) => {
            push_char(out, '(');
            let ghost start = out@;
            let ghost vs = crate::connectivity::sexp_views(items@);
            proof {
                lemma_sexp_views_len(items@);
            }
            let mut i: usize = 0;
            while i < items.len()
                invariant
                    i <= items@.len(),
                    *n == Sexp::List(*items),
                    vs == crate::connectivity::sexp_views(items@),
                    vs.len() == items@.len(),
                    out@ == start + items_text(vs, i as nat),
                decreases items.len() - i,
            {
                if i > 0 {
                    push_char(out, ' ');
                }
                proof {
                    assert(decreases_to!(*n => (*n)->List_0));
                    assert(decreases_to!(*items => items@));
                    assert(decreases_to!(items@ => items@[i as int]));
                    lemma_sexp_views_index(items@, i as int);
                }
                push_node_text(out, &items[i]);
                i += 1;
            }
            push_char(out, ')');
        },
    }
    assert(out@ =~= old(out)@ + node_text(sexp_view(*n)));
}

/// The canonical text of a document holding the one node `n`.
pub fn canonical_document(n: &Sexp) -> (r: String)
    ensures
        r@ == document_text(sexp_view(*n)),
{
    let mut out = String::new();
    push_node_text(&mut out, n);
    push_char(&mut out, '\n');
    assert(out@ =~= document_text(sexp_view(*n)));
    out
}

} // verus!

verus! {

/// The lowercase hexadecimal SHA-256 digest of the UTF-8 bytes of `text`.
pub uninterp spec fn text_digest(text: Seq<char>) -> Seq<char>;

/// Whether `c` is a lowercase hexadecimal digit.
pub open spec fn hex_digit(c: char) -> bool {
    ('0' <= c <= '9') || ('a' <= c <= 'f')
}

/// `sha2::Sha256::digest` of the UTF-8 bytes of `text`, printed with `{:x}`. Claimed: the text
/// depends on `text` alone (it is `text_digest`) and, the digest being 32 bytes that
/// `LowerHex` prints two digits each, is 64 lowercase hexadecimal digits. Which digest it is
/// is not stated.
#[verifier::external_body]
fn sha256_hex(text: &str) -> (r: String)
    ensures
        r@ == text_digest(text@),
        r@.len() == 64,
        forall|i: int| 0 <= i < 64 ==> hex_digit(#[trigger] r@[i]),
{
    format!("{:x}", <sha2::Sha256 as sha2::Digest>::digest(text.as_bytes()))
}

/// The digest an asset is locked by: that of its canonical document text.
pub open spec fn asset_digest(n: SexpView) -> Seq<char> {
    text_digest(document_text(n))
}

/// Whether the keys of `m` ascend strictly.
pub open spec fn ascending(m: Seq<(Seq<char>, Seq<char>)>) -> bool {
    forall|i: int, j: int|
        0 <= i < j < m.len() ==> crate::route_workflow::lex_le(#[trigger] m[i].0, #[trigger] m[j].0) && m[i].0 != m[j].0
}

proof fn lemma_sorted_put_keys(m: Seq<(Seq<char>, Seq<char>)>, e: Seq<char>, n: Seq<char>)
    ensures
        forall|i: int|
            0 <= i < crate::kicad::sorted_put(m, e, n).len() ==> (#[trigger] crate::kicad::sorted_put(m, e, n)[i]).0 == e
                || exists|t: int| 0 <= t < m.len() && m[t].0 == crate::kicad::sorted_put(m, e, n)[i].0,
    decreases m.len(),
{
    let r = crate::kicad::sorted_put(m, e, n);
    if m.len() > 0 && m[0].0 != e && !crate::route_workflow::lex_le(e, m[0].0) {
        lemma_sorted_put_keys(m.drop_first(), e, n);
        let rest = crate::kicad::sorted_put(m.drop_first(), e, n);
        assert forall|i: int| 0 <= i < r.len() implies (#[trigger] r[i]).0 == e || exists|t: int| 0 <= t < m.len() && m[t].0 == r[i].0 by {
            if i == 0 {
                assert(m[0].0 == r[0].0);
            } else {
                assert(r[i] == rest[i - 1]);
                if r[i].0 != e {
                    let t = choose|t: int| 0 <= t < m.drop_first().len() && m.drop_first()[t].0 == rest[i - 1].0;
                    assert(m[t + 1].0 == r[i].0);
                }
            }
        }
    } else {
        assert forall|i: int| 0 <= i < r.len() implies (#[trigger] r[i]).0 == e || exists|t: int| 0 <= t < m.len() && m[t].0 == r[i].0 by {
            if m.len() > 0 && m[0].0 != e && i > 0 {
                assert(r[i] == m[i - 1]);
            } else if m.len() > 0 && m[0].0 == e && i > 0 {
                assert(r[i] == m[i]);
            }
        }
    }
}

proof fn lemma_sorted_put_ascending(m: Seq<(Seq<char>, Seq<char>)>, e: Seq<char>, n: Seq<char>)
    requires
        ascending(m),
    ensures
        ascending(crate::kicad::sorted_put(m, e, n)),
    decreases m.len(),
{
    let r = crate::kicad::sorted_put(m, e, n);
    if m.len() == 0 {
    } else if m[0].0 == e {
        assert forall|i: int, j: int| 0 <= i < j < r.len() implies crate::route_workflow::lex_le(#[trigger] r[i].0, #[trigger] r[j].0)
            && r[i].0 != r[j].0 by {
            assert(m[i].0 == r[i].0 && m[j].0 == r[j].0);
        }
    } else if crate::route_workflow::lex_le(e, m[0].0) {
        assert forall|i: int, j: int| 0 <= i < j < r.len() implies crate::route_workflow::lex_le(#[trigger] r[i].0, #[trigger] r[j].0)
            && r[i].0 != r[j].0 by {
            if i == 0 {
                assert(r[j] == m[j - 1]);
                if j > 1 {
                    assert(crate::route_workflow::lex_le(m[0].0, m[j - 1].0) && m[0].0 != m[j - 1].0);
                    crate::route_workflow::lemma_lex_trans(e, m[0].0, m[j - 1].0);
                    if e == m[j - 1].0 {
                        crate::route_workflow::lemma_lex_antisym(e, m[0].0);
                    }
                }
            } else {
                assert(r[i] == m[i - 1] && r[j] == m[j - 1]);
            }
        }
    } else {
        let rest = m.drop_first();
        assert(ascending(rest)) by {
            assert forall|i: int, j: int| 0 <= i < j < rest.len() implies crate::route_workflow::lex_le(#[trigger] rest[i].0, #[trigger] rest[j].0)
                && rest[i].0 != rest[j].0 by {
                assert(rest[i] == m[i + 1] && rest[j] == m[j + 1]);
            }
        }
        lemma_sorted_put_ascending(rest, e, n);
        lemma_sorted_put_keys(rest, e, n);
        let tail = crate::kicad::sorted_put(rest, e, n);
        crate::route_workflow::lemma_lex_total(e, m[0].0);
        assert forall|i: int, j: int| 0 <= i < j < r.len() implies crate::route_workflow::lex_le(#[trigger] r[i].0, #[trigger] r[j].0)
            && r[i].0 != r[j].0 by {
            if i == 0 {
                assert(r[0] == m[0]);
                assert(r[j] == tail[j - 1]);
                let k = tail[j - 1].0;
                if k != e {
                    let t = choose|t: int| 0 <= t < rest.len() && rest[t].0 == k;
                    assert(rest[t] == m[t + 1]);
                }
            } else {
                assert(r[i] == tail[i - 1] && r[j] == tail[j - 1]);
            }
        }
    }
}

} // verus!

verus! {

/// A library lock: its format version and the locked assets, `symbol:ID` and `footprint:ID`
/// keys with the digests they are locked to, in ascending key order with each key once.
#[derive(Debug)]
pub struct LibraryLock {
    pub format_version: u32,
    pub assets: Vec<(String, String)>,
}

impl LibraryLock {
    /// Whether the asset keys ascend strictly, as in the lock file's map.
    pub open spec fn well_formed(&self) -> bool {
        ascending(pair_views(self.assets@))
    }
}

/// A resolved library component as the lock reads it: its symbol and footprint ids and the
/// resolved symbol and footprint nodes.
#[derive(Debug)]
pub struct LockedComponent {
    pub symbol_id: String,
    pub footprint_id: String,
    pub symbol_node: Sexp,
    pub footprint_node: Sexp,
}

/// The lock's map after the first `k` components: each puts its symbol, then its footprint,
/// under its key with its digest; a key met again takes the later digest.
pub open spec fn locked_upto(cs: Seq<LockedComponent>, k: nat) -> Seq<(Seq<char>, Seq<char>)>
    decreases k,
{
    if k == 0 || k > cs.len() {
        Seq::empty()
    } else {
        let c = cs[k - 1];
        let m = locked_upto(cs, (k - 1) as nat);
        sorted_put(
            sorted_put(m, "symbol:"@ + c.symbol_id@, asset_digest(sexp_view(c.symbol_node))),
            "footprint:"@ + c.footprint_id@,
            asset_digest(sexp_view(c.footprint_node)),
        )
    }
}

/// The assets a lock of `cs` records.
pub open spec fn locked_assets(cs: Seq<LockedComponent>) -> Seq<(Seq<char>, Seq<char>)> {
    locked_upto(cs, cs.len())
}

/// The lock of the resolved components: format version 2 and, for each component, the
/// digest of its symbol under `symbol:ID` and of its footprint under `footprint:ID`.
pub fn snapshot(components: &Vec<LockedComponent>) -> (r: LibraryLock)
    ensures
        r.format_version == 2,
        pair_views(r.assets@) == locked_assets(components@),
        r.well_formed(),
{
    let mut assets: Vec<(String, String)> = Vec::new();
    let mut i: usize = 0;
    assert(pair_views(assets@) =~= Seq::<(Seq<char>, Seq<char>)>::empty());
    while i < components.len()
        invariant
            i <= components@.len(),
            pair_views(assets@) == locked_upto(components@, i as nat),
            ascending(pair_views(assets@)),
        decreases components.len() - i,
    {
        let c = &components[i];
        let symbol_key = text2("symbol:", c.symbol_id.as_str());
        let symbol_text = canonical_document(&c.symbol_node);
        let symbol_digest = sha256_hex(symbol_text.as_str());
        proof {
            lemma_sorted_put_ascending(pair_views(assets@), symbol_key@, symbol_digest@);
        }
        assets = sorted_put_exec(assets, &symbol_key, &symbol_digest);
        let footprint_key = text2("footprint:", c.footprint_id.as_str());
        let footprint_text = canonical_document(&c.footprint_node);
        let footprint_digest = sha256_hex(footprint_text.as_str());
        proof {
            lemma_sorted_put_ascending(pair_views(assets@), footprint_key@, footprint_digest@);
        }
        assets = sorted_put_exec(assets, &footprint_key, &footprint_digest);
        i += 1;
    }
    LibraryLock { format_version: 2, assets }
}

/// What reading the lock file gave: it could not be read (the reason), it did not parse as a
/// lock (the reason), or the lock.
#[derive(Debug)]
pub enum LockRead {
    Unavailable(String),
    Malformed(String),
    Read(LibraryLock),
}

/// Whether `d` is the error `code: message` about `file` with the help text `help`, without
/// location or notes.
pub open spec fn lock_error(d: Diagnostic, code: Seq<char>, message: Seq<char>, file: Seq<char>, help: Option<Seq<char>>) -> bool {
    &&& d.severity == Severity::Error
    &&& d.code@ == code
    &&& d.message@ == message
    &&& d.file@ == file
    &&& d.span is None
    &&& d.path is None
    &&& d.related@.len() == 0
    &&& match help {
        Some(h) => d.help matches Some(t) && t@ == h,
        None => d.help is None,
    }
}

/// Checks the resolved libraries, locked as `expected`, against what was read from the lock
/// file `lock_file` of the project `input`: an unreadable lock is LOCK001 (with the command
/// that writes one), a malformed one LOCK002, and a lock that differs from `expected` in
/// version or assets LOCK003. An accepted lock gives the fingerprint of `expected`.
pub fn verify(expected: &LibraryLock, read: &LockRead, lock_file: &str, input: &str) -> (r: Result<String, Diagnostic>)
    ensures
        match read {
            LockRead::Unavailable(e) => r matches Err(d) && lock_error(
                d,
                "LOCK001"@,
                "library lock unavailable: "@ + e@,
                lock_file@,
                Some("run 'kil lock "@ + input@ + "'"@),
            ),
            LockRead::Malformed(e) => r matches Err(d) && lock_error(d, "LOCK002"@, e@, lock_file@, None),
            LockRead::Read(actual) => if actual.format_version == expected.format_version && pair_views(actual.assets@)
                == pair_views(expected.assets@) {
                r matches Ok(f) && f@ == text_digest(lock_text(expected.format_version as nat, pair_views(expected.assets@)))
            } else {
                r matches Err(d) && lock_error(
                    d,
                    "LOCK003"@,
                    "resolved library contents differ from the lock"@,
                    lock_file@,
                    Some("review library changes, then run 'kil lock FILE' to accept them"@),
                )
            },
        },
{
    match read {
        LockRead::Unavailable(e) => {
            let message = text2("library lock unavailable: ", e.as_str());
            let help = text3("run 'kil lock ", input, "'");
            Err(Diagnostic::error("LOCK001", message.as_str(), lock_file).with_help(help.as_str()))
        },
        LockRead::Malformed(e) => Err(Diagnostic::error("LOCK002", e.as_str(), lock_file)),
        LockRead::Read(actual) => {
            if actual.format_version == expected.format_version && same_pairs(&actual.assets, &expected.assets) {
                Ok(fingerprint(expected))
            } else {
                Err(
                    Diagnostic::error("LOCK003", "resolved library contents differ from the lock", lock_file).with_help(
                        "review library changes, then run 'kil lock FILE' to accept them",
                    ),
                )
            }
        },
    }
}

/// Whether two lists of text pairs are equal.
pub(crate) fn same_pairs(a: &Vec<(String, String)>, b: &Vec<(String, String)>) -> (r: bool)
    ensures
        r == (pair_views(a@) == pair_views(b@)),
{
    if a.len() != b.len() {
        assert(pair_views(a@).len() != pair_views(b@).len());
        return false;
    }
    let mut i: usize = 0;
    while i < a.len()
        invariant
            i <= a@.len(),
            a@.len() == b@.len(),
            forall|k: int| 0 <= k < i ==> #[trigger] pair_views(a@)[k] == pair_views(b@)[k],
        decreases a.len() - i,
    {
        assert(pair_views(a@)[i as int] == (a@[i as int].0@, a@[i as int].1@));
        assert(pair_views(b@)[i as int] == (b@[i as int].0@, b@[i as int].1@));
        if !same_text(a[i].0.as_str(), b[i].0.as_str()) || !same_text(a[i].1.as_str(), b[i].1.as_str()) {
            return false;
        }
        i += 1;
    }
    assert(pair_views(a@) =~= pair_views(b@));
    true
}

/// The lowercase hexadecimal digit of `d`.
pub open spec fn hex_lower(d: nat) -> char {
    if d < 10 {
        (48 + d) as char
    } else {
        (87 + d) as char
    }
}

/// How a character stands inside a JSON string: quote, backslash and control characters
/// escaped, the last as `\u00` and two hexadecimal digits where no short escape exists.
pub open spec fn json_char(c: char) -> Seq<char> {
    if c == '"' {
        seq!['\\', '"']
    } else if c == '\\' {
        seq!['\\', '\\']
    } else if c == '\n' {
        seq!['\\', 'n']
    } else if c == '\r' {
        seq!['\\', 'r']
    } else if c == '\t' {
        seq!['\\', 't']
    } else if c == '\x08' {
        seq!['\\', 'b']
    } else if c == '\x0c' {
        seq!['\\', 'f']
    } else if (c as nat) < 32 {
        seq!['\\', 'u', '0', '0', hex_lower((c as nat) / 16), hex_lower((c as nat) % 16)]
    } else {
        seq![c]
    }
}

/// The characters of `s`, each as it stands inside a JSON string.
pub open spec fn json_escaped(s: Seq<char>) -> Seq<char>
    decreases s.len(),
{
    if s.len() == 0 {
        Seq::empty()
    } else {
        json_escaped(s.drop_last()) + json_char(s.last())
    }
}

/// `s` as a JSON string.
pub open spec fn quoted_json(s: Seq<char>) -> Seq<char> {
    seq!['"'] + json_escaped(s) + seq!['"']
}

/// The members of a JSON object mapping each key to its value, in order, separated by commas.
pub open spec fn asset_members(a: Seq<(Seq<char>, Seq<char>)>) -> Seq<char>
    decreases a.len(),
{
    if a.len() == 0 {
        Seq::empty()
    } else {
        asset_members(a.drop_last()) + (if a.len() > 1 {
            seq![',']
        } else {
            Seq::empty()
        }) + quoted_json(a.last().0) + seq![':'] + quoted_json(a.last().1)
    }
}

/// The compact JSON text of a lock: its format version, then its assets as an object.
pub open spec fn lock_text(version: nat, assets: Seq<(Seq<char>, Seq<char>)>) -> Seq<char> {
    "{\"format_version\":"@ + crate::text::decimal(version) + ",\"assets\":{"@ + asset_members(assets) + "}}"@
}

fn hex_char(d: u32) -> (c: char)
    requires
        d < 16,
    ensures
        c == hex_lower(d as nat),
{
    if d < 10 {
        let b: u8 = (48 + d) as u8;
        b as char
    } else {
        let b: u8 = (87 + d) as u8;
        b as char
    }
}

fn push_json_char(out: &mut String, c: char)
    ensures
        final(out)@ == old(out)@ + json_char(c),
{
    let v: u32 = c as u32;
    if c == '"' {
        push_char(out, '\\');
        push_char(out, '"');
    } else if c == '\\' {
        push_char(out, '\\');
        push_char(out, '\\');
    } else if c == '\n' {
        push_char(out, '\\');
        push_char(out, 'n');
    } else if c == '\r' {
        push_char(out, '\\');
        push_char(out, 'r');
    } else if c == '\t' {
        push_char(out, '\\');
        push_char(out, 't');
    } else if c == '\x08' {
        push_char(out, '\\');
        push_char(out, 'b');
    } else if c == '\x0c' {
        push_char(out, '\\');
        push_char(out, 'f');
    } else if v < 32 {
        push_char(out, '\\');
        push_char(out, 'u');
        push_char(out, '0');
        push_char(out, '0');
        let hi = hex_char(v / 16);
        push_char(out, hi);
        let lo = hex_char(v % 16);
        push_char(out, lo);
    } else {
        push_char(out, c);
    }
    assert(final(out)@ =~= old(out)@ + json_char(c));
}

fn push_json_text(out: &mut String, s: &str)
    ensures
        final(out)@ == old(out)@ + quoted_json(s@),
{
    let cs = chars_of(s);
    push_char(out, '"');
    let ghost start = out@;
    let mut i: usize = 0;
    while i < cs.len()
        invariant
            i <= cs@.len(),
            cs@ == s@,
            out@ == start + json_escaped(cs@.take(i as int)),
        decreases cs.len() - i,
    {
        push_json_char(out, cs[i]);
        assert(cs@.take(i + 1).drop_last() =~= cs@.take(i as int));
        i += 1;
    }
    assert(cs@.take(cs@.len() as int) =~= cs@);
    push_char(out, '"');
    assert(out@ =~= old(out)@ + quoted_json(s@));
}

/// The compact JSON text of `lock`, as the lock file holds it.
pub fn lock_json(lock: &LibraryLock) -> (r: String)
    ensures
        r@ == lock_text(lock.format_version as nat, pair_views(lock.assets@)),
{
    let ghost a = pair_views(lock.assets@);
    let mut out = String::new();
    let head = "{\"format_version\":";
    out.append(head);
    crate::text::push_decimal_wide(&mut out, lock.format_version as u64);
    out.append(",\"assets\":{");
    let ghost start = out@;
    let mut i: usize = 0;
    while i < lock.assets.len()
        invariant
            i <= lock.assets@.len(),
            a == pair_views(lock.assets@),
            out@ == start + asset_members(a.take(i as int)),
        decreases lock.assets.len() - i,
    {
        if i > 0 {
            push_char(&mut out, ',');
        }
        push_json_text(&mut out, lock.assets[i].0.as_str());
        push_char(&mut out, ':');
        push_json_text(&mut out, lock.assets[i].1.as_str());
        assert(a.take(i + 1).drop_last() =~= a.take(i as int));
        assert(a.take(i + 1).last() == (lock.assets@[i as int].0@, lock.assets@[i as int].1@));
        i += 1;
    }
    assert(a.take(a.len() as int) =~= a);
    out.append("}}");
    proof {
        reveal_strlit("{\"format_version\":");
        reveal_strlit(",\"assets\":{");
        reveal_strlit("}}");
    }
    assert(out@ =~= lock_text(lock.format_version as nat, a));
    out
}

/// The fingerprint of a lock: the digest of its compact JSON text.
pub fn fingerprint(lock: &LibraryLock) -> (r: String)
    ensures
        r@ == text_digest(lock_text(lock.format_version as nat, pair_views(lock.assets@))),
{
    let text = lock_json(lock);
    sha256_hex(text.as_str())
}

} // verus!

verus! {

/// Whether `k` is a key of `m`.
pub open spec fn has_key(m: Seq<(Seq<char>, Seq<char>)>, k: Seq<char>) -> bool {
    exists|i: int| 0 <= i < m.len() && #[trigger] m[i].0 == k
}

pub(crate) proof fn lemma_sorted_put_has(m: Seq<(Seq<char>, Seq<char>)>, e: Seq<char>, n: Seq<char>, k: Seq<char>)
    ensures
        has_key(sorted_put(m, e, n), k) <==> (k == e || has_key(m, k)),
    decreases m.len(),
{
    let r = sorted_put(m, e, n);
    lemma_sorted_put_keys(m, e, n);
    if has_key(r, k) {
        let i = choose|i: int| 0 <= i < r.len() && #[trigger] r[i].0 == k;
        assert(r[i].0 == e || exists|t: int| 0 <= t < m.len() && m[t].0 == r[i].0);
    }
    if m.len() == 0 {
        assert(r[0].0 == e);
    } else if m[0].0 == e {
        if k == e {
            assert(r[0].0 == e);
        } else if has_key(m, k) {
            let t = choose|t: int| 0 <= t < m.len() && #[trigger] m[t].0 == k;
            assert(r[t].0 == k);
        }
    } else if crate::route_workflow::lex_le(e, m[0].0) {
        if k == e {
            assert(r[0].0 == e);
        } else if has_key(m, k) {
            let t = choose|t: int| 0 <= t < m.len() && #[trigger] m[t].0 == k;
            assert(r[t + 1].0 == k);
        }
    } else {
        let rest = m.drop_first();
        lemma_sorted_put_has(rest, e, n, k);
        let tail = sorted_put(rest, e, n);
        if k == e || (has_key(m, k) && m[0].0 != k) {
            if k != e {
                let t = choose|t: int| 0 <= t < m.len() && #[trigger] m[t].0 == k;
                assert(rest[t - 1].0 == k);
            }
            let i = choose|i: int| 0 <= i < tail.len() && #[trigger] tail[i].0 == k;
            assert(r[i + 1].0 == k);
        } else if has_key(m, k) {
            assert(r[0].0 == k);
        }
    }
}

/// The keys a lock of the first `k` components records.
pub open spec fn used_key(cs: Seq<LockedComponent>, k: nat, key: Seq<char>) -> bool {
    exists|j: int|
        0 <= j < k && (key == "symbol:"@ + (#[trigger] cs[j]).symbol_id@ || key == "footprint:"@ + cs[j].footprint_id@)
}

proof fn lemma_locked_keys(cs: Seq<LockedComponent>, k: nat, key: Seq<char>)
    requires
        k <= cs.len(),
    ensures
        has_key(locked_upto(cs, k), key) <==> used_key(cs, k, key),
    decreases k,
{
    if k > 0 {
        lemma_locked_keys(cs, (k - 1) as nat, key);
        let c = cs[k - 1];
        let m = locked_upto(cs, (k - 1) as nat);
        let m1 = sorted_put(m, "symbol:"@ + c.symbol_id@, asset_digest(sexp_view(c.symbol_node)));
        lemma_sorted_put_has(m, "symbol:"@ + c.symbol_id@, asset_digest(sexp_view(c.symbol_node)), key);
        lemma_sorted_put_has(m1, "footprint:"@ + c.footprint_id@, asset_digest(sexp_view(c.footprint_node)), key);
        if used_key(cs, k, key) {
            let j = choose|j: int|
                0 <= j < k && (key == "symbol:"@ + (#[trigger] cs[j]).symbol_id@ || key == "footprint:"@ + cs[j].footprint_id@);
            if j < k - 1 {
                assert(used_key(cs, (k - 1) as nat, key));
            }
        }
        if used_key(cs, (k - 1) as nat, key) {
            let j = choose|j: int|
                0 <= j < k - 1 && (key == "symbol:"@ + (#[trigger] cs[j]).symbol_id@ || key == "footprint:"@ + cs[j].footprint_id@);
            assert(0 <= j < k);
        }
        if key == "symbol:"@ + c.symbol_id@ || key == "footprint:"@ + c.footprint_id@ {
            assert(cs[k - 1] == c);
        }
    }
}

/// A lock records exactly the assets the design uses: a key is in the lock if and only if
/// some component's symbol or footprint has it, so adding, dropping or swapping a library
/// asset always changes the lock.
pub proof fn law_lock_records_exactly_the_used_assets(cs: Seq<LockedComponent>, key: Seq<char>)
    ensures
        has_key(locked_assets(cs), key) <==> used_key(cs, cs.len(), key),
{
    lemma_locked_keys(cs, cs.len(), key);
}

} // verus!

verus! {

/// Changing which symbol or footprint a design uses always requires a new lock: when some
/// key is used by one design and not by another, their locks differ, so the lock of the one
/// is refused (LOCK003) for the other.
pub proof fn law_changed_assets_require_relocking(a: Seq<LockedComponent>, b: Seq<LockedComponent>, key: Seq<char>)
    requires
        used_key(a, a.len(), key),
        !used_key(b, b.len(), key),
    ensures
        locked_assets(a) != locked_assets(b),
{
    lemma_locked_keys(a, a.len(), key);
    lemma_locked_keys(b, b.len(), key);
}

} // verus!
