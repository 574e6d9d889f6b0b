//! The persistence format of the index: a canonical JSON document holding
//! the entry list, rendered and parsed by verified code. The grammar is
//! exactly the canonical form the renderer emits: a compact array of entry
//! objects whose strings escape quotes, backslashes and control characters.

use vstd::prelude::*;
use vstd::string::*;

use crate::cache::{Cache, Entry, EntryModel, Key, KeyModel, has_key, model_of, wf_entries};
use crate::error::Error;

verus! {

/// Outcome of scanning a piece of input: the parsed value and the position
/// after it, or the position of the first offending character (the input
/// length when the text ended too early).
pub enum Scan<T> {
    Done(T, int),
    Fail(int),
}

/// The character with this code point.
pub open spec fn code_char(n: int) -> char {
    n as char
}

/// Whether this character is a lower-case hexadecimal digit.
pub open spec fn is_hex_digit(c: char) -> bool {
    (48 <= c as u32 && c as u32 <= 57) || (97 <= c as u32 && c as u32 <= 102)
}

/// The value of a lower-case hexadecimal digit.
pub open spec fn hex_val(c: char) -> int {
    if 48 <= c as u32 && c as u32 <= 57 {
        c as u32 - 48
    } else {
        c as u32 - 87
    }
}

/// The lower-case hexadecimal digit with this value.
pub open spec fn hex_char(d: int) -> char {
    if d < 10 {
        code_char(48 + d)
    } else {
        code_char(87 + d)
    }
}

/// Whether this character is one of the short escapes a string may use
/// after a backslash.
pub open spec fn is_short_escape(c: char) -> bool {
    c == 'b' || c == 'f' || c == 'n' || c == 'r' || c == 't'
}

/// The character a short escape stands for.
pub open spec fn short_escape_char(c: char) -> char {
    if c == 'b' {
        code_char(8)
    } else if c == 'f' {
        code_char(12)
    } else if c == 'n' {
        code_char(10)
    } else if c == 'r' {
        code_char(13)
    } else {
        code_char(9)
    }
}

/// How one character is written inside a quoted string: quotes and
/// backslashes get a backslash escape, control characters a `\u00..`
/// escape, and every other character stands for itself.
pub open spec fn escape_char(c: char) -> Seq<char> {
    if c == '"' {
        seq!['\\', '"']
    } else if c == '\\' {
        seq!['\\', '\\']
    } else if (c as u32) < 32 {
        seq!['\\', 'u', '0', '0', hex_char(c as u32 as int / 16), hex_char(c as u32 as int % 16)]
    } else {
        seq![c]
    }
}

/// A string written character by character, escaped.
pub open spec fn escape_string(t: Seq<char>) -> Seq<char>
    decreases t.len(),
{
    if t.len() == 0 {
        Seq::empty()
    } else {
        escape_char(t.first()) + escape_string(t.drop_first())
    }
}

/// A quoted, escaped string.
pub open spec fn quoted(t: Seq<char>) -> Seq<char> {
    seq!['"'] + escape_string(t) + seq!['"']
}

/// The object text up to the name string: `{"key":{"name":`.
pub open spec fn lit_entry_open() -> Seq<char> {
    seq!['{', '"', 'k', 'e', 'y', '"', ':', '{', '"', 'n', 'a', 'm', 'e', '"', ':']
}

/// The text between name and origin: `,"origin":`.
pub open spec fn lit_origin() -> Seq<char> {
    seq![',', '"', 'o', 'r', 'i', 'g', 'i', 'n', '"', ':']
}

/// The text between origin and container identifier: `},"uuid":`.
pub open spec fn lit_uuid() -> Seq<char> {
    seq!['}', ',', '"', 'u', 'u', 'i', 'd', '"', ':']
}

/// The text opening the history list: `,"history":[`.
pub open spec fn lit_history() -> Seq<char> {
    seq![',', '"', 'h', 'i', 's', 't', 'o', 'r', 'y', '"', ':', '[']
}

/// The text closing an entry: `]}`.
pub open spec fn lit_entry_close() -> Seq<char> {
    seq![']', '}']
}

/// The closing brace alone: scanned after the history scan has already
/// consumed the closing bracket.
pub open spec fn lit_entry_end() -> Seq<char> {
    seq!['}']
}

/// The second and later versions of a history, each preceded by a comma.
pub open spec fn render_versions_rest(h: Seq<Seq<char>>) -> Seq<char>
    decreases h.len(),
{
    if h.len() == 0 {
        Seq::empty()
    } else {
        seq![','] + quoted(h.first()) + render_versions_rest(h.drop_first())
    }
}

/// A non-empty history as a comma-separated list of quoted versions.
pub open spec fn render_versions(h: Seq<Seq<char>>) -> Seq<char> {
    quoted(h.first()) + render_versions_rest(h.drop_first())
}

/// One entry as an object.
pub open spec fn render_entry(e: EntryModel) -> Seq<char> {
    lit_entry_open() + quoted(e.key.name) + lit_origin() + quoted(e.key.origin) + lit_uuid()
        + quoted(e.uuid) + lit_history() + render_versions(e.history) + lit_entry_close()
}

/// The second and later entries, each preceded by a comma.
pub open spec fn render_entries_rest(es: Seq<EntryModel>) -> Seq<char>
    decreases es.len(),
{
    if es.len() == 0 {
        Seq::empty()
    } else {
        seq![','] + render_entry(es.first()) + render_entries_rest(es.drop_first())
    }
}

/// All entries as a comma-separated list.
pub open spec fn render_entries(es: Seq<EntryModel>) -> Seq<char> {
    if es.len() == 0 {
        Seq::empty()
    } else {
        render_entry(es.first()) + render_entries_rest(es.drop_first())
    }
}

/// The whole index document: the entry list in brackets.
pub open spec fn render_cache(es: Seq<EntryModel>) -> Seq<char> {
    seq!['['] + render_entries(es) + seq![']']
}

/// Scans the exact literal `lit` at position `i`.
pub open spec fn p_lit(s: Seq<char>, i: int, lit: Seq<char>) -> Scan<()>
    decreases lit.len(),
{
    if lit.len() == 0 {
        Scan::Done((), i)
    } else if i < 0 || i >= s.len() {
        Scan::Fail(s.len() as int)
    } else if s[i] != lit.first() {
        Scan::Fail(i)
    } else {
        p_lit(s, i + 1, lit.drop_first())
    }
}

/// Scans the remainder of a quoted string after its opening quote, up to
/// and including the closing quote, undoing the escapes.
pub open spec fn p_string_body(s: Seq<char>, i: int) -> Scan<Seq<char>>
    decreases s.len() - i,
{
    if i < 0 || i >= s.len() {
        Scan::Fail(s.len() as int)
    } else if s[i] == '"' {
        Scan::Done(Seq::empty(), i + 1)
    } else if s[i] == '\\' {
        if i + 1 >= s.len() {
            Scan::Fail(s.len() as int)
        } else if s[i + 1] == '"' || s[i + 1] == '\\' || s[i + 1] == '/' {
            match p_string_body(s, i + 2) {
                Scan::Done(t, j) => Scan::Done(seq![s[i + 1]] + t, j),
                Scan::Fail(p) => Scan::Fail(p),
            }
        } else if is_short_escape(s[i + 1]) {
            match p_string_body(s, i + 2) {
                Scan::Done(t, j) => Scan::Done(seq![short_escape_char(s[i + 1])] + t, j),
                Scan::Fail(p) => Scan::Fail(p),
            }
        } else if s[i + 1] == 'u' {
            if i + 6 > s.len() {
                Scan::Fail(s.len() as int)
            } else if s[i + 2] != '0' {
                Scan::Fail(i + 2)
            } else if s[i + 3] != '0' {
                Scan::Fail(i + 3)
            } else if !is_hex_digit(s[i + 4]) {
                Scan::Fail(i + 4)
            } else if !is_hex_digit(s[i + 5]) {
                Scan::Fail(i + 5)
            } else {
                match p_string_body(s, i + 6) {
                    Scan::Done(t, j) => Scan::Done(
                        seq![code_char(16 * hex_val(s[i + 4]) + hex_val(s[i + 5]))] + t,
                        j,
                    ),
                    Scan::Fail(p) => Scan::Fail(p),
                }
            }
        } else {
            Scan::Fail(i + 1)
        }
    } else if (s[i] as u32) < 32 {
        Scan::Fail(i)
    } else {
        match p_string_body(s, i + 1) {
            Scan::Done(t, j) => Scan::Done(seq![s[i]] + t, j),
            Scan::Fail(p) => Scan::Fail(p),
        }
    }
}

/// Scans a whole quoted string at position `i`.
pub open spec fn p_string(s: Seq<char>, i: int) -> Scan<Seq<char>> {
    if i < 0 || i >= s.len() {
        Scan::Fail(s.len() as int)
    } else if s[i] == '"' {
        p_string_body(s, i + 1)
    } else {
        Scan::Fail(i)
    }
}

/// Scans the rest of a history list after its first version: either the
/// closing bracket, or a comma and one more version, repeated.
pub open spec fn p_versions_rest(s: Seq<char>, i: int) -> Scan<Seq<Seq<char>>>
    decreases s.len() - i,
{
    if i < 0 || i >= s.len() {
        Scan::Fail(s.len() as int)
    } else if s[i] == ']' {
        Scan::Done(Seq::empty(), i + 1)
    } else if s[i] == ',' {
        match p_string(s, i + 1) {
            Scan::Done(v, j) => if i < j && j <= s.len() {
                match p_versions_rest(s, j) {
                    Scan::Done(vs, m) => Scan::Done(seq![v] + vs, m),
                    Scan::Fail(p) => Scan::Fail(p),
                }
            } else {
                Scan::Fail(j)
            },
            Scan::Fail(p) => Scan::Fail(p),
        }
    } else {
        Scan::Fail(i)
    }
}

/// Scans one entry object at position `i`. The history must hold at least
/// one version.
pub open spec fn p_entry(s: Seq<char>, i: int) -> Scan<EntryModel> {
    match p_lit(s, i, lit_entry_open()) {
        Scan::Fail(p) => Scan::Fail(p),
        Scan::Done(_, i1) => match p_string(s, i1) {
            Scan::Fail(p) => Scan::Fail(p),
            Scan::Done(name, i2) => match p_lit(s, i2, lit_origin()) {
                Scan::Fail(p) => Scan::Fail(p),
                Scan::Done(_, i3) => match p_string(s, i3) {
                    Scan::Fail(p) => Scan::Fail(p),
                    Scan::Done(origin, i4) => match p_lit(s, i4, lit_uuid()) {
                        Scan::Fail(p) => Scan::Fail(p),
                        Scan::Done(_, i5) => match p_string(s, i5) {
                            Scan::Fail(p) => Scan::Fail(p),
                            Scan::Done(uuid, i6) => match p_lit(s, i6, lit_history()) {
                                Scan::Fail(p) => Scan::Fail(p),
                                Scan::Done(_, i7) => match p_string(s, i7) {
                                    Scan::Fail(p) => Scan::Fail(p),
                                    Scan::Done(v0, i8) => match p_versions_rest(s, i8) {
                                        Scan::Fail(p) => Scan::Fail(p),
                                        Scan::Done(vs, i9) => match p_lit(
                                            s,
                                            i9,
                                            lit_entry_end(),
                                        ) {
                                            Scan::Fail(p) => Scan::Fail(p),
                                            Scan::Done(_, i10) => Scan::Done(
                                                EntryModel {
                                                    key: KeyModel { name, origin },
                                                    uuid,
                                                    history: seq![v0] + vs,
                                                },
                                                i10,
                                            ),
                                        },
                                    },
                                },
                            },
                        },
                    },
                },
            },
        },
    }
}

/// Scans the rest of the entry list after its first entry. An entry whose
/// key already appears later in the document makes the document malformed,
/// reported at that entry's first character.
pub open spec fn p_entries_rest(s: Seq<char>, i: int) -> Scan<Seq<EntryModel>>
    decreases s.len() - i,
{
    if i < 0 || i >= s.len() {
        Scan::Fail(s.len() as int)
    } else if s[i] == ']' {
        Scan::Done(Seq::empty(), i + 1)
    } else if s[i] == ',' {
        match p_entry(s, i + 1) {
            Scan::Done(e, j) => if i < j && j <= s.len() {
                match p_entries_rest(s, j) {
                    Scan::Done(es, m) => if has_key(es, e.key) {
                        Scan::Fail(i + 1)
                    } else {
                        Scan::Done(seq![e] + es, m)
                    },
                    Scan::Fail(p) => Scan::Fail(p),
                }
            } else {
                Scan::Fail(j)
            },
            Scan::Fail(p) => Scan::Fail(p),
        }
    } else {
        Scan::Fail(i)
    }
}

/// Scans a whole index document; the document must be consumed in full.
pub open spec fn p_cache(s: Seq<char>) -> Scan<Seq<EntryModel>> {
    if s.len() == 0 {
        Scan::Fail(0)
    } else if s[0] != '[' {
        Scan::Fail(0)
    } else if 1 < s.len() && s[1] == ']' {
        if s.len() == 2 {
            Scan::Done(Seq::empty(), 2)
        } else {
            Scan::Fail(2)
        }
    } else {
        match p_entry(s, 1) {
            Scan::Done(e, j) => if 1 < j && j <= s.len() {
                match p_entries_rest(s, j) {
                    Scan::Done(es, m) => if has_key(es, e.key) {
                        Scan::Fail(1)
                    } else if m == s.len() {
                        Scan::Done(seq![e] + es, m)
                    } else {
                        Scan::Fail(m)
                    },
                    Scan::Fail(p) => Scan::Fail(p),
                }
            } else {
                Scan::Fail(j)
            },
            Scan::Fail(p) => Scan::Fail(p),
        }
    }
}

/// A successful literal scan lands exactly past the literal, inside the text.
proof fn lemma_p_lit_bounds(s: Seq<char>, i: int, lit: Seq<char>)
    requires
        0 <= i <= s.len(),
    ensures
        p_lit(s, i, lit) matches Scan::Done(_, j) ==> j == i + lit.len() && j <= s.len(),
    decreases lit.len(),
{
    if lit.len() > 0 && 0 <= i < s.len() && s[i] == lit.first() {
        lemma_p_lit_bounds(s, i + 1, lit.drop_first());
    }
}

/// A successful string-body scan moves forward and stays inside the text.
proof fn lemma_p_string_body_bounds(s: Seq<char>, i: int)
    requires
        0 <= i,
    ensures
        p_string_body(s, i) matches Scan::Done(_, j) ==> i < j <= s.len(),
    decreases s.len() - i,
{
    if 0 <= i < s.len() {
        if s[i] == '\\' {
            if i + 1 < s.len() && (s[i + 1] == '"' || s[i + 1] == '\\' || s[i + 1] == '/'
                || is_short_escape(s[i + 1])) {
                lemma_p_string_body_bounds(s, i + 2);
            } else if i + 1 < s.len() && s[i + 1] == 'u' && i + 6 <= s.len() {
                lemma_p_string_body_bounds(s, i + 6);
            }
        } else {
            lemma_p_string_body_bounds(s, i + 1);
        }
    }
}

/// A successful string scan consumes at least its two quotes.
proof fn lemma_p_string_bounds(s: Seq<char>, i: int)
    requires
        0 <= i,
    ensures
        p_string(s, i) matches Scan::Done(_, j) ==> i + 2 <= j <= s.len(),
{
    if 0 <= i < s.len() && s[i] == '"' {
        lemma_p_string_body_bounds(s, i + 1);
    }
}

/// A successful entry scan moves forward and stays inside the text.
proof fn lemma_p_entry_bounds(s: Seq<char>, i: int)
    requires
        0 <= i,
    ensures
        p_entry(s, i) matches Scan::Done(_, j) ==> i < j <= s.len(),
{
    if i <= s.len() {
        lemma_p_lit_bounds(s, i, lit_entry_open());
        if let Scan::Done(_, i1) = p_lit(s, i, lit_entry_open()) {
            lemma_p_string_bounds(s, i1);
            if let Scan::Done(_, i2) = p_string(s, i1) {
                lemma_p_lit_bounds(s, i2, lit_origin());
                if let Scan::Done(_, i3) = p_lit(s, i2, lit_origin()) {
                    lemma_p_string_bounds(s, i3);
                    if let Scan::Done(_, i4) = p_string(s, i3) {
                        lemma_p_lit_bounds(s, i4, lit_uuid());
                        if let Scan::Done(_, i5) = p_lit(s, i4, lit_uuid()) {
                            lemma_p_string_bounds(s, i5);
                            if let Scan::Done(_, i6) = p_string(s, i5) {
                                lemma_p_lit_bounds(s, i6, lit_history());
                                if let Scan::Done(_, i7) = p_lit(s, i6, lit_history()) {
                                    lemma_p_string_bounds(s, i7);
                                    if let Scan::Done(_, i8) = p_string(s, i7) {
                                        lemma_p_versions_rest_bounds(s, i8);
                                        if let Scan::Done(_, i9) = p_versions_rest(s, i8) {
                                            lemma_p_lit_bounds(s, i9, lit_entry_end());
                                        }
                                    }
                                }
                            }
                        }
                    }
                }
            }
        }
    }
}

/// A successful history-rest scan moves forward and stays inside the text.
proof fn lemma_p_versions_rest_bounds(s: Seq<char>, i: int)
    requires
        0 <= i,
    ensures
        p_versions_rest(s, i) matches Scan::Done(_, m) ==> i < m <= s.len(),
    decreases s.len() - i,
{
    if 0 <= i < s.len() && s[i] == ',' {
        lemma_p_string_bounds(s, i + 1);
        match p_string(s, i + 1) {
            Scan::Fail(_) => {},
            Scan::Done(v, j) => {
                if i < j && j <= s.len() {
                    lemma_p_versions_rest_bounds(s, j);
                }
            },
        }
    }
}

/// A successful entries-rest scan moves forward and stays inside the text.
proof fn lemma_p_entries_rest_bounds(s: Seq<char>, i: int)
    requires
        0 <= i,
    ensures
        p_entries_rest(s, i) matches Scan::Done(_, m) ==> i < m <= s.len(),
    decreases s.len() - i,
{
    if 0 <= i < s.len() && s[i] == ',' {
        lemma_p_entry_bounds(s, i + 1);
        match p_entry(s, i + 1) {
            Scan::Fail(_) => {},
            Scan::Done(e, j) => {
                if i < j && j <= s.len() {
                    lemma_p_entries_rest_bounds(s, j);
                }
            },
        }
    }
}

/// A parsed entry always has at least one version.
proof fn lemma_p_entry_history(s: Seq<char>, i: int)
    ensures
        p_entry(s, i) matches Scan::Done(e, _) ==> e.history.len() > 0,
{
}

/// A parsed entry list is well formed: keys unique, histories non-empty.
proof fn lemma_p_entries_rest_wf(s: Seq<char>, i: int)
    ensures
        p_entries_rest(s, i) matches Scan::Done(es, _) ==> wf_entries(es),
    decreases s.len() - i,
{
    if 0 <= i < s.len() && s[i] == ',' {
        match p_entry(s, i + 1) {
            Scan::Fail(_) => {},
            Scan::Done(e, j) => if i < j && j <= s.len() {
                lemma_p_entries_rest_wf(s, j);
                match p_entries_rest(s, j) {
                    Scan::Fail(_) => {},
                    Scan::Done(es, m) => if !has_key(es, e.key) {
                        lemma_p_entry_history(s, i + 1);
                        let r = seq![e] + es;
                        assert forall|a: int, b: int| 0 <= a < b < r.len() implies r[a].key
                            != r[b].key by {
                            if a == 0 {
                                if r[0].key == r[b].key {
                                    assert(es[b - 1].key == e.key);
                                    assert(has_key(es, e.key));
                                }
                            } else {
                                assert(es[a - 1].key != es[b - 1].key);
                            }
                        }
                        assert(wf_entries(r)) by {
                            assert(forall|a: int|
                                0 <= a < r.len() ==> (#[trigger] r[a]).history.len() > 0) by {
                                assert(forall|a: int|
                                    1 <= a < r.len() ==> r[a] == (#[trigger] es[a - 1]));
                            }
                        }
                    },
                }
            },
        }
    }
}

/// A parsed document is a well-formed index.
pub proof fn lemma_p_cache_wf(s: Seq<char>)
    ensures
        p_cache(s) matches Scan::Done(es, _) ==> wf_entries(es),
{
    if s.len() > 0 && s[0] == '[' && !(1 < s.len() && s[1] == ']') {
        match p_entry(s, 1) {
            Scan::Fail(_) => {},
            Scan::Done(e, j) => if 1 < j && j <= s.len() {
                lemma_p_entries_rest_wf(s, j);
                match p_entries_rest(s, j) {
                    Scan::Fail(_) => {},
                    Scan::Done(es, m) => if !has_key(es, e.key) && m == s.len() {
                        lemma_p_entry_history(s, 1);
                        let r = seq![e] + es;
                        assert forall|a: int, b: int| 0 <= a < b < r.len() implies r[a].key
                            != r[b].key by {
                            if a == 0 {
                                if r[0].key == r[b].key {
                                    assert(es[b - 1].key == e.key);
                                    assert(has_key(es, e.key));
                                }
                            } else {
                                assert(es[a - 1].key != es[b - 1].key);
                            }
                        }
                        assert(wf_entries(r)) by {
                            assert(forall|a: int|
                                0 <= a < r.len() ==> (#[trigger] r[a]).history.len() > 0) by {
                                assert(forall|a: int|
                                    1 <= a < r.len() ==> r[a] == (#[trigger] es[a - 1]));
                            }
                        }
                    },
                }
            },
        }
    }
}

/// Escaping distributes over concatenation.
proof fn lemma_escape_concat(a: Seq<char>, b: Seq<char>)
    ensures
        escape_string(a + b) == escape_string(a) + escape_string(b),
    decreases a.len(),
{
    if a.len() == 0 {
        assert(a + b =~= b);
        assert(escape_string(a) + escape_string(b) =~= escape_string(b));
    } else {
        lemma_escape_concat(a.drop_first(), b);
        assert((a + b).drop_first() =~= a.drop_first() + b);
        assert((a + b).first() == a.first());
        assert(escape_char(a.first()) + (escape_string(a.drop_first()) + escape_string(b))
            =~= (escape_char(a.first()) + escape_string(a.drop_first())) + escape_string(b));
    }
}

/// One character of a matched segment: if `s` holds `seg` starting at `i`,
/// then the character at offset `k` is `seg[k]`.
pub proof fn lemma_seg_char(s: Seq<char>, i: int, seg: Seq<char>, k: int)
    requires
        0 <= i,
        i + seg.len() <= s.len(),
        s.subrange(i, i + seg.len()) == seg,
        0 <= k < seg.len(),
    ensures
        s[i + k] == seg[k],
{
    assert(s.subrange(i, i + seg.len())[k] == s[i + k]);
}

/// Splitting a matched segment: if `s` holds `a + b` starting at `i`, it
/// holds `a` at `i` and `b` right after.
pub proof fn lemma_seg_split(s: Seq<char>, i: int, a: Seq<char>, b: Seq<char>)
    requires
        0 <= i,
        i + a.len() + b.len() <= s.len(),
        s.subrange(i, i + a.len() + b.len()) == a + b,
    ensures
        s.subrange(i, i + a.len()) == a,
        s.subrange(i + a.len(), i + a.len() + b.len()) == b,
{
    assert forall|k: int| 0 <= k < a.len() implies #[trigger] s.subrange(i, i + a.len())[k]
        == a[k] by {
        assert(s.subrange(i, i + a.len() + b.len())[k] == s[i + k]);
        assert((a + b)[k] == a[k]);
    }
    assert(s.subrange(i, i + a.len()) =~= a);
    assert forall|k: int| 0 <= k < b.len() implies #[trigger] s.subrange(
        i + a.len(),
        i + a.len() + b.len(),
    )[k] == b[k] by {
        assert(s.subrange(i, i + a.len() + b.len())[a.len() + k] == s[i + a.len() + k]);
        assert((a + b)[a.len() + k] == b[k]);
    }
    assert(s.subrange(i + a.len(), i + a.len() + b.len()) =~= b);
}

/// A character survives the round trip through its code point.
proof fn lemma_code_char_id(c: char)
    ensures
        code_char(c as u32 as int) == c,
{
}

/// A hexadecimal digit survives the round trip through its character.
proof fn lemma_hex_char_val(d: int)
    requires
        0 <= d < 16,
    ensures
        is_hex_digit(hex_char(d)),
        hex_val(hex_char(d)) == d,
{
    if d < 10 {
        assert(hex_char(d) as u32 == 48 + d);
    } else {
        assert(hex_char(d) as u32 == 87 + d);
    }
}

/// Scanning the escaped form of `t` followed by a closing quote recovers
/// exactly `t`.
proof fn lemma_string_body_roundtrip(s: Seq<char>, i: int, t: Seq<char>)
    requires
        0 <= i,
        i + escape_string(t).len() + 1 <= s.len(),
        s.subrange(i, i + escape_string(t).len() + 1) == escape_string(t) + seq!['"'],
    ensures
        p_string_body(s, i) == Scan::Done(t, i + escape_string(t).len() + 1),
    decreases t.len(),
{
    let seg = escape_string(t) + seq!['"'];
    if t.len() == 0 {
        lemma_seg_char(s, i, seg, 0);
        assert(s[i] == '"');
        assert(t =~= Seq::<char>::empty());
    } else {
        let c = t.first();
        let ec = escape_char(c);
        let rest = escape_string(t.drop_first());
        assert(escape_string(t) == ec + rest);
        let tail = rest + seq!['"'];
        assert(seg =~= ec + tail);
        lemma_seg_split(s, i, ec, tail);
        let i2 = i + ec.len();
        lemma_string_body_roundtrip(s, i2, t.drop_first());
        if c == '"' {
            lemma_seg_char(s, i, ec, 0);
            lemma_seg_char(s, i, ec, 1);
            assert(s[i] == '\\' && s[i + 1] == '"');
            assert(seq![s[i + 1]] + t.drop_first() =~= t);
        } else if c == '\\' {
            lemma_seg_char(s, i, ec, 0);
            lemma_seg_char(s, i, ec, 1);
            assert(s[i] == '\\' && s[i + 1] == '\\');
            assert(seq![s[i + 1]] + t.drop_first() =~= t);
        } else if (c as u32) < 32 {
            let v = c as u32 as int;
            lemma_seg_char(s, i, ec, 0);
            lemma_seg_char(s, i, ec, 1);
            lemma_seg_char(s, i, ec, 2);
            lemma_seg_char(s, i, ec, 3);
            lemma_seg_char(s, i, ec, 4);
            lemma_seg_char(s, i, ec, 5);
            assert(s[i] == '\\' && s[i + 1] == 'u' && s[i + 2] == '0' && s[i + 3] == '0');
            assert(s[i + 4] == hex_char(v / 16) && s[i + 5] == hex_char(v % 16));
            lemma_hex_char_val(v / 16);
            lemma_hex_char_val(v % 16);
            assert(16 * hex_val(s[i + 4]) + hex_val(s[i + 5]) == v);
            lemma_code_char_id(c);
            assert(code_char(v) == c);
            assert(seq![c] + t.drop_first() =~= t);
        } else {
            lemma_seg_char(s, i, ec, 0);
            assert(s[i] == c);
            assert(seq![c] + t.drop_first() =~= t);
        }
    }
}

/// Scanning the quoted form of `t` recovers exactly `t`.
proof fn lemma_string_roundtrip(s: Seq<char>, i: int, t: Seq<char>)
    requires
        0 <= i,
        i + quoted(t).len() <= s.len(),
        s.subrange(i, i + quoted(t).len()) == quoted(t),
    ensures
        p_string(s, i) == Scan::Done(t, i + quoted(t).len()),
{
    let tail = escape_string(t) + seq!['"'];
    assert(quoted(t) =~= seq!['"'] + tail);
    lemma_seg_split(s, i, seq!['"'], tail);
    lemma_seg_char(s, i, seq!['"'], 0);
    assert(s[i] == '"');
    lemma_string_body_roundtrip(s, i + 1, t);
}

/// Scanning an exact literal succeeds and lands right past it.
pub proof fn lemma_lit_roundtrip(s: Seq<char>, i: int, lit: Seq<char>)
    requires
        0 <= i,
        i + lit.len() <= s.len(),
        s.subrange(i, i + lit.len()) == lit,
    ensures
        p_lit(s, i, lit) == Scan::Done((), i + lit.len()),
    decreases lit.len(),
{
    if lit.len() > 0 {
        lemma_seg_char(s, i, lit, 0);
        assert(lit =~= seq![lit.first()] + lit.drop_first());
        lemma_seg_split(s, i, seq![lit.first()], lit.drop_first());
        lemma_lit_roundtrip(s, i + 1, lit.drop_first());
    }
}

/// Scanning the rendered tail of a history, closed by its bracket,
/// recovers exactly the remaining versions.
proof fn lemma_versions_rest_roundtrip(s: Seq<char>, i: int, h: Seq<Seq<char>>)
    requires
        0 <= i,
        i + render_versions_rest(h).len() + 1 <= s.len(),
        s.subrange(i, i + render_versions_rest(h).len() + 1) == render_versions_rest(h)
            + seq![']'],
    ensures
        p_versions_rest(s, i) == Scan::Done(h, i + render_versions_rest(h).len() + 1),
    decreases h.len(),
{
    let seg = render_versions_rest(h) + seq![']'];
    if h.len() == 0 {
        lemma_seg_char(s, i, seg, 0);
        assert(s[i] == ']');
        assert(h =~= Seq::<Seq<char>>::empty());
    } else {
        let q = quoted(h.first());
        let rest = render_versions_rest(h.drop_first());
        assert(render_versions_rest(h) == seq![','] + q + rest);
        let tail1 = q + (rest + seq![']']);
        assert(seg =~= seq![','] + tail1);
        lemma_seg_split(s, i, seq![','], tail1);
        lemma_seg_char(s, i, seq![','], 0);
        assert(s[i] == ',');
        lemma_seg_split(s, i + 1, q, rest + seq![']']);
        lemma_string_roundtrip(s, i + 1, h.first());
        let j = i + 1 + q.len();
        lemma_versions_rest_roundtrip(s, j, h.drop_first());
        assert(seq![h.first()] + h.drop_first() =~= h);
    }
}

/// Scanning the rendered form of one entry recovers exactly that entry.
#[verifier::rlimit(100)]
proof fn lemma_entry_roundtrip(s: Seq<char>, i: int, e: EntryModel)
    requires
        0 <= i,
        e.history.len() > 0,
        i + render_entry(e).len() <= s.len(),
        s.subrange(i, i + render_entry(e).len()) == render_entry(e),
    ensures
        p_entry(s, i) == Scan::Done(e, i + render_entry(e).len()),
{
    let qname = quoted(e.key.name);
    let qorigin = quoted(e.key.origin);
    let quuid = quoted(e.uuid);
    let qv0 = quoted(e.history.first());
    let rvr = render_versions_rest(e.history.drop_first());
    let t9 = seq!['}'];
    let t8 = rvr + seq![']'];
    let t7 = qv0 + (t8 + t9);
    let t6 = lit_history() + t7;
    let t5 = quuid + t6;
    let t4 = lit_uuid() + t5;
    let t3 = qorigin + t4;
    let t2 = lit_origin() + t3;
    let t1 = qname + t2;
    assert(render_entry(e) =~= lit_entry_open() + t1) by {
        assert(render_versions(e.history) == qv0 + rvr);
        assert(lit_entry_close() =~= seq![']'] + seq!['}']);
    }
    lemma_seg_split(s, i, lit_entry_open(), t1);
    lemma_lit_roundtrip(s, i, lit_entry_open());
    let o1 = i + lit_entry_open().len();
    lemma_seg_split(s, o1, qname, t2);
    lemma_string_roundtrip(s, o1, e.key.name);
    let o2 = o1 + qname.len();
    lemma_seg_split(s, o2, lit_origin(), t3);
    lemma_lit_roundtrip(s, o2, lit_origin());
    let o3 = o2 + lit_origin().len();
    lemma_seg_split(s, o3, qorigin, t4);
    lemma_string_roundtrip(s, o3, e.key.origin);
    let o4 = o3 + qorigin.len();
    lemma_seg_split(s, o4, lit_uuid(), t5);
    lemma_lit_roundtrip(s, o4, lit_uuid());
    let o5 = o4 + lit_uuid().len();
    lemma_seg_split(s, o5, quuid, t6);
    lemma_string_roundtrip(s, o5, e.uuid);
    let o6 = o5 + quuid.len();
    lemma_seg_split(s, o6, lit_history(), t7);
    lemma_lit_roundtrip(s, o6, lit_history());
    let o7 = o6 + lit_history().len();
    lemma_seg_split(s, o7, qv0, t8 + t9);
    lemma_string_roundtrip(s, o7, e.history.first());
    let o8 = o7 + qv0.len();
    lemma_seg_split(s, o8, t8, t9);
    lemma_versions_rest_roundtrip(s, o8, e.history.drop_first());
    let o9 = o8 + t8.len();
    lemma_lit_roundtrip(s, o9, lit_entry_end());
    assert(seq![e.history.first()] + e.history.drop_first() =~= e.history);
    assert(KeyModel { name: e.key.name, origin: e.key.origin } == e.key);
}

/// Scanning the rendered tail of the entry list, closed by its bracket,
/// recovers exactly the remaining entries.
proof fn lemma_entries_rest_roundtrip(s: Seq<char>, i: int, es: Seq<EntryModel>)
    requires
        0 <= i,
        wf_entries(es),
        i + render_entries_rest(es).len() + 1 <= s.len(),
        s.subrange(i, i + render_entries_rest(es).len() + 1) == render_entries_rest(es)
            + seq![']'],
    ensures
        p_entries_rest(s, i) == Scan::Done(es, i + render_entries_rest(es).len() + 1),
    decreases es.len(),
{
    let seg = render_entries_rest(es) + seq![']'];
    if es.len() == 0 {
        lemma_seg_char(s, i, seg, 0);
        assert(s[i] == ']');
        assert(es =~= Seq::<EntryModel>::empty());
    } else {
        let re = render_entry(es.first());
        let rest = render_entries_rest(es.drop_first());
        assert(render_entries_rest(es) == seq![','] + re + rest);
        let tail1 = re + (rest + seq![']']);
        assert(seg =~= seq![','] + tail1);
        lemma_seg_split(s, i, seq![','], tail1);
        lemma_seg_char(s, i, seq![','], 0);
        assert(s[i] == ',');
        lemma_seg_split(s, i + 1, re, rest + seq![']']);
        assert(es.first().history.len() > 0);
        lemma_entry_roundtrip(s, i + 1, es.first());
        let j = i + 1 + re.len();
        assert(wf_entries(es.drop_first())) by {
            assert(forall|a: int|
                0 <= a < es.drop_first().len() ==> (#[trigger] es.drop_first()[a]) == es[a + 1]);
        }
        lemma_entries_rest_roundtrip(s, j, es.drop_first());
        assert(!has_key(es.drop_first(), es.first().key)) by {
            if has_key(es.drop_first(), es.first().key) {
                let a = choose|a: int|
                    0 <= a < es.drop_first().len() && es.drop_first()[a].key == es.first().key;
                assert(es[a + 1].key == es[0].key);
            }
        }
        assert(seq![es.first()] + es.drop_first() =~= es);
    }
}

/// Assembling a document scan from its pieces: a bracket, one entry, the
/// remaining entries, and full consumption of the text.
proof fn lemma_cache_assemble(s: Seq<char>, e: EntryModel, j: int, es2: Seq<EntryModel>)
    requires
        s.len() >= 2,
        s[0] == '[',
        s[1] != ']',
        p_entry(s, 1) == Scan::Done(e, j),
        1 < j <= s.len(),
        p_entries_rest(s, j) == Scan::Done(es2, s.len() as int),
        !has_key(es2, e.key),
    ensures
        p_cache(s) == Scan::Done(seq![e] + es2, s.len() as int),
{
}

/// Where the pieces of a rendered document lie: the opening bracket, the
/// first entry, and the remaining entries with the closing bracket.
#[verifier::rlimit(100)]
proof fn lemma_cache_segments(es: Seq<EntryModel>)
    requires
        es.len() > 0,
    ensures
        render_cache(es).len() == 2 + render_entry(es.first()).len() + render_entries_rest(
            es.drop_first(),
        ).len(),
        render_cache(es)[0] == '[',
        render_cache(es)[1] == '{',
        render_cache(es).subrange(1, 1 + render_entry(es.first()).len() as int) == render_entry(
            es.first(),
        ),
        render_cache(es).subrange(
            1 + render_entry(es.first()).len() as int,
            render_cache(es).len() as int,
        ) == render_entries_rest(es.drop_first()) + seq![']'],
{
    let s = render_cache(es);
    let re = render_entry(es.first());
    let rest = render_entries_rest(es.drop_first());
    let tail1 = re + (rest + seq![']']);
    assert(s =~= seq!['['] + tail1);
    assert(s.subrange(0, s.len() as int) =~= s);
    lemma_seg_split(s, 0, seq!['['], tail1);
    lemma_seg_char(s, 0, seq!['['], 0);
    lemma_seg_split(s, 1, re, rest + seq![']']);
    lemma_seg_char(s, 1, re, 0);
    assert(re[0] == '{') by {
        assert(re[0] == lit_entry_open()[0]);
    }
}

/// The non-empty case of the document round trip.
#[verifier::rlimit(100)]
proof fn lemma_render_parse_roundtrip_nonempty(es: Seq<EntryModel>)
    requires
        wf_entries(es),
        es.len() > 0,
    ensures
        p_cache(render_cache(es)) == Scan::Done(es, render_cache(es).len() as int),
{
    let s = render_cache(es);
    let re = render_entry(es.first());
    let rest = render_entries_rest(es.drop_first());
    lemma_cache_segments(es);
    assert(es.first().history.len() > 0);
    lemma_entry_roundtrip(s, 1, es.first());
    let j: int = 1 + re.len() as int;
    assert(wf_entries(es.drop_first())) by {
        assert(forall|a: int|
            0 <= a < es.drop_first().len() ==> (#[trigger] es.drop_first()[a]) == es[a + 1]);
    }
    lemma_entries_rest_roundtrip(s, j, es.drop_first());
    assert(!has_key(es.drop_first(), es.first().key)) by {
        if has_key(es.drop_first(), es.first().key) {
            let a = choose|a: int|
                0 <= a < es.drop_first().len() && es.drop_first()[a].key == es.first().key;
            assert(es[a + 1].key == es[0].key);
        }
    }
    lemma_cache_assemble(s, es.first(), j, es.drop_first());
    assert(seq![es.first()] + es.drop_first() =~= es);
}

/// Law: the parser recovers, from the rendered form of any well-formed
/// index, exactly that index, consuming the whole document.
pub proof fn lemma_render_parse_roundtrip(es: Seq<EntryModel>)
    requires
        wf_entries(es),
    ensures
        p_cache(render_cache(es)) == Scan::Done(es, render_cache(es).len() as int),
{
    if es.len() == 0 {
        let s = render_cache(es);
        assert(render_entries(es) == Seq::<char>::empty());
        assert(s =~= seq!['[', ']']);
        assert(s[0] == '[' && s[1] == ']' && s.len() == 2);
        assert(es =~= Seq::<EntryModel>::empty());
    } else {
        lemma_render_parse_roundtrip_nonempty(es);
    }
}

/// Counting the newlines of a prefix gives the one-based line number.
pub open spec fn newline_count(s: Seq<char>) -> int
    decreases s.len(),
{
    if s.len() == 0 {
        0
    } else {
        newline_count(s.drop_last()) + if s.last() == '\n' {
            1int
        } else {
            0int
        }
    }
}

/// The one-based line of position `p`.
pub open spec fn line_of(s: Seq<char>, p: int) -> int {
    1 + newline_count(s.take(p))
}

/// The position right after the last newline before `p`.
pub open spec fn line_start(s: Seq<char>, p: int) -> int
    decreases p,
{
    if p <= 0 {
        0
    } else if s[p - 1] == '\n' {
        p
    } else {
        line_start(s, p - 1)
    }
}

/// The one-based column of position `p`.
pub open spec fn col_of(s: Seq<char>, p: int) -> int {
    p - line_start(s, p) + 1
}

/// Relies on `String: FromIterator<char>`: collecting characters yields the
/// string holding exactly those characters.
#[verifier::external_body]
pub(crate) fn chars_to_string(v: &Vec<char>) -> (r: String)
    ensures
        r@ == v@,
{
    v.iter().collect()
}

/// The characters of a text, in order.
pub(crate) fn to_chars(t: &str) -> (r: Vec<char>)
    ensures
        r@ == t@,
{
    let n: usize = t.unicode_len();
    let mut r: Vec<char> = Vec::new();
    proof {
        assert(r@ =~= t@.take(0));
    }
    let mut i: usize = 0;
    while i < n
        invariant
            n == t@.len(),
            0 <= i <= n,
            r@ == t@.take(i as int),
        decreases n - i,
    {
        r.push(t.get_char(i));
        proof {
            assert(r@ =~= t@.take(i as int + 1));
        }
        i += 1;
    }
    proof {
        assert(t@.take(n as int) =~= t@);
    }
    r
}

/// The line and column of a position, counted executably.
pub(crate) fn line_col(s: &Vec<char>, p: usize) -> (r: (usize, usize))
    requires
        p < s@.len(),
    ensures
        r.0 as int == line_of(s@, p as int),
        r.1 as int == col_of(s@, p as int),
{
    let total: usize = s.len();
    let mut line: usize = 1;
    let mut col: usize = 1;
    let mut j: usize = 0;
    proof {
        assert(s@.take(0) =~= Seq::<char>::empty());
    }
    #[verifier::loop_isolation(false)]
    while j < p
        invariant
            total == s@.len(),
            p < s@.len(),
            0 <= j <= p,
            line as int == line_of(s@, j as int),
            col as int == col_of(s@, j as int),
            line <= j + 1,
            col <= j + 1,
        decreases p - j,
    {
        proof {
            assert(s@.take(j as int + 1).drop_last() =~= s@.take(j as int));
            assert(s@.take(j as int + 1).last() == s@[j as int]);
            assert(line_start(s@, j as int + 1) == if s@[(j as int + 1) - 1] == '\n' {
                j as int + 1
            } else {
                line_start(s@, j as int)
            });
        }
        if s[j] == '\n' {
            line += 1;
            col = 1;
        } else {
            col += 1;
        }
        j += 1;
    }
    (line, col)
}

/// Scans an exact literal, executably.
#[verifier::rlimit(50)]
pub(crate) fn scan_lit(s: &Vec<char>, i: usize, lit: &Vec<char>) -> (r: Result<usize, usize>)
    requires
        i <= s@.len(),
    ensures
        match r {
            Ok(j) => p_lit(s@, i as int, lit@) == Scan::Done((), j as int) && i <= j <= s@.len(),
            Err(p) => p_lit(s@, i as int, lit@) == Scan::<()>::Fail(p as int) && p <= s@.len(),
        },
{
    let sl: usize = s.len();
    let n: usize = lit.len();
    let mut j: usize = 0;
    proof {
        assert(lit@.skip(0) =~= lit@);
    }
    #[verifier::loop_isolation(false)]
    while j < n
        invariant
            sl == s@.len(),
            i <= s@.len(),
            n == lit@.len(),
            0 <= j <= n,
            i + j <= s@.len(),
            p_lit(s@, i as int, lit@) == p_lit(s@, i as int + j as int, lit@.skip(j as int)),
        decreases n - j,
    {
        proof {
            assert(lit@.skip(j as int).len() == n - j);
            assert(lit@.skip(j as int).first() == lit@[j as int]);
        }
        if i + j >= s.len() {
            return Err(s.len());
        }
        if s[i + j] != lit[j] {
            return Err(i + j);
        }
        proof {
            assert(lit@.skip(j as int).drop_first() =~= lit@.skip(j as int + 1));
        }
        j += 1;
    }
    proof {
        assert(lit@.skip(n as int) =~= Seq::<char>::empty());
    }
    Ok(i + n)
}

/// Scans the body of a quoted string, executably.
fn scan_string_body(s: &Vec<char>, i: usize) -> (r: Result<(Vec<char>, usize), usize>)
    requires
        i <= s@.len(),
    ensures
        match r {
            Ok(t) => p_string_body(s@, i as int) == Scan::Done(t.0@, t.1 as int) && t.1
                <= s@.len(),
            Err(p) => p_string_body(s@, i as int) == Scan::<Seq<char>>::Fail(p as int) && p <= s@.len(),
        },
    decreases s@.len() - i,
{
    if i >= s.len() {
        return Err(s.len());
    }
    let c = s[i];
    if c == '"' {
        let empty: Vec<char> = Vec::new();
        proof {
            assert(empty@ =~= Seq::<char>::empty());
        }
        return Ok((empty, i + 1));
    }
    if c == '\\' {
        if i + 1 >= s.len() {
            return Err(s.len());
        }
        let e = s[i + 1];
        if e == '"' || e == '\\' || e == '/' {
            match scan_string_body(s, i + 2) {
                Ok((mut t, j)) => {
                    let ghost tail = t@;
                    t.insert(0, e);
                    proof {
                        assert(t@ =~= seq![s@[i as int + 1]] + tail);
                    }
                    Ok((t, j))
                },
                Err(p) => Err(p),
            }
        } else if e == 'b' || e == 'f' || e == 'n' || e == 'r' || e == 't' {
            let decoded: char = if e == 'b' {
                (8u8) as char
            } else if e == 'f' {
                (12u8) as char
            } else if e == 'n' {
                (10u8) as char
            } else if e == 'r' {
                (13u8) as char
            } else {
                (9u8) as char
            };
            match scan_string_body(s, i + 2) {
                Ok((mut t, j)) => {
                    let ghost tail = t@;
                    t.insert(0, decoded);
                    proof {
                        assert(decoded == short_escape_char(s@[i as int + 1]));
                        assert(t@ =~= seq![short_escape_char(s@[i as int + 1])] + tail);
                    }
                    Ok((t, j))
                },
                Err(p) => Err(p),
            }
        } else if e == 'u' {
            if s.len() - i < 6 {
                return Err(s.len());
            }
            if s[i + 2] != '0' {
                return Err(i + 2);
            }
            if s[i + 3] != '0' {
                return Err(i + 3);
            }
            let h1 = s[i + 4];
            let v1 = h1 as u32;
            if !((48 <= v1 && v1 <= 57) || (97 <= v1 && v1 <= 102)) {
                return Err(i + 4);
            }
            let h2 = s[i + 5];
            let v2 = h2 as u32;
            if !((48 <= v2 && v2 <= 57) || (97 <= v2 && v2 <= 102)) {
                return Err(i + 5);
            }
            let d1: u32 = if v1 <= 57 {
                v1 - 48
            } else {
                v1 - 87
            };
            let d2: u32 = if v2 <= 57 {
                v2 - 48
            } else {
                v2 - 87
            };
            let code: u32 = 16 * d1 + d2;
            let decoded: char = (code as u8) as char;
            proof {
                assert(decoded == code_char(16 * hex_val(s@[i as int + 4]) + hex_val(
                    s@[i as int + 5],
                )));
            }
            match scan_string_body(s, i + 6) {
                Ok((mut t, j)) => {
                    let ghost tail = t@;
                    t.insert(0, decoded);
                    proof {
                        assert(t@ =~= seq![decoded] + tail);
                    }
                    Ok((t, j))
                },
                Err(p) => Err(p),
            }
        } else {
            Err(i + 1)
        }
    } else if (c as u32) < 32 {
        Err(i)
    } else {
        match scan_string_body(s, i + 1) {
            Ok((mut t, j)) => {
                let ghost tail = t@;
                t.insert(0, c);
                proof {
                    assert(t@ =~= seq![s@[i as int]] + tail);
                }
                Ok((t, j))
            },
            Err(p) => Err(p),
        }
    }
}

/// Scans a quoted string, executably.
fn scan_string(s: &Vec<char>, i: usize) -> (r: Result<(String, usize), usize>)
    requires
        i <= s@.len(),
    ensures
        match r {
            Ok(t) => p_string(s@, i as int) == Scan::Done(t.0@, t.1 as int) && t.1 <= s@.len(),
            Err(p) => p_string(s@, i as int) == Scan::<Seq<char>>::Fail(p as int) && p <= s@.len(),
        },
{
    if i >= s.len() {
        return Err(s.len());
    }
    if s[i] != '"' {
        return Err(i);
    }
    match scan_string_body(s, i + 1) {
        Ok((t, j)) => Ok((chars_to_string(&t), j)),
        Err(p) => Err(p),
    }
}

/// Scans the tail of a history list, executably.
fn scan_versions_rest(s: &Vec<char>, i: usize) -> (r: Result<(Vec<String>, usize), usize>)
    requires
        i <= s@.len(),
    ensures
        match r {
            Ok(t) => p_versions_rest(s@, i as int) == Scan::Done(t.0.deep_view(), t.1 as int)
                && t.1 <= s@.len(),
            Err(p) => p_versions_rest(s@, i as int) == Scan::<Seq<Seq<char>>>::Fail(p as int) && p <= s@.len(),
        },
    decreases s@.len() - i,
{
    if i >= s.len() {
        return Err(s.len());
    }
    let c = s[i];
    if c == ']' {
        let empty: Vec<String> = Vec::new();
        proof {
            assert(empty.deep_view() =~= Seq::<Seq<char>>::empty());
        }
        return Ok((empty, i + 1));
    }
    if c != ',' {
        return Err(i);
    }
    match scan_string(s, i + 1) {
        Err(p) => Err(p),
        Ok((v, j)) => {
            proof {
                lemma_p_string_bounds(s@, i as int + 1);
            }
            match scan_versions_rest(s, j) {
                Err(p) => Err(p),
                Ok((mut vs, m)) => {
                    let ghost tail = vs.deep_view();
                    vs.insert(0, v);
                    proof {
                        assert(vs.deep_view() =~= seq![v@] + tail);
                    }
                    Ok((vs, m))
                },
            }
        },
    }
}

/// Scans one entry object, executably.
fn scan_entry(s: &Vec<char>, i: usize) -> (r: Result<(Entry, usize), usize>)
    requires
        i <= s@.len(),
    ensures
        match r {
            Ok(t) => p_entry(s@, i as int) == Scan::Done(t.0@, t.1 as int) && t.1 <= s@.len(),
            Err(p) => p_entry(s@, i as int) == Scan::<EntryModel>::Fail(p as int) && p <= s@.len(),
        },
{
    let open_lit = lit_vec_entry_open();
    let i1 = match scan_lit(s, i, &open_lit) {
        Ok(j) => j,
        Err(p) => {
            return Err(p);
        },
    };
    let (name, i2) = match scan_string(s, i1) {
        Ok(t) => t,
        Err(p) => {
            return Err(p);
        },
    };
    let origin_lit = lit_vec_origin();
    let i3 = match scan_lit(s, i2, &origin_lit) {
        Ok(j) => j,
        Err(p) => {
            return Err(p);
        },
    };
    let (origin, i4) = match scan_string(s, i3) {
        Ok(t) => t,
        Err(p) => {
            return Err(p);
        },
    };
    let uuid_lit = lit_vec_uuid();
    let i5 = match scan_lit(s, i4, &uuid_lit) {
        Ok(j) => j,
        Err(p) => {
            return Err(p);
        },
    };
    let (uuid, i6) = match scan_string(s, i5) {
        Ok(t) => t,
        Err(p) => {
            return Err(p);
        },
    };
    let history_lit = lit_vec_history();
    let i7 = match scan_lit(s, i6, &history_lit) {
        Ok(j) => j,
        Err(p) => {
            return Err(p);
        },
    };
    let (v0, i8) = match scan_string(s, i7) {
        Ok(t) => t,
        Err(p) => {
            return Err(p);
        },
    };
    let (mut versions, i9) = match scan_versions_rest(s, i8) {
        Ok(t) => t,
        Err(p) => {
            return Err(p);
        },
    };
    let end_lit = lit_vec_entry_end();
    let i10 = match scan_lit(s, i9, &end_lit) {
        Ok(j) => j,
        Err(p) => {
            return Err(p);
        },
    };
    let ghost tail = versions.deep_view();
    versions.insert(0, v0);
    proof {
        assert(versions.deep_view() =~= seq![v0@] + tail);
    }
    let entry = Entry::new(Key::new(name, origin), uuid, versions);
    Ok((entry, i10))
}

/// Whether some entry of the list carries this key, executably.
fn vec_has_key(entries: &Vec<Entry>, key: &Key) -> (r: bool)
    ensures
        r == has_key(model_of(entries@), key@),
{
    let n: usize = entries.len();
    let mut i: usize = 0;
    while i < n
        invariant
            n == entries@.len(),
            0 <= i <= n,
            forall|j: int| 0 <= j < i ==> model_of(entries@)[j].key != key@,
        decreases n - i,
    {
        if *entries[i].key() == *key {
            proof {
                assert(model_of(entries@)[i as int].key == key@);
            }
            return true;
        }
        i += 1;
    }
    false
}

/// Scans the tail of the entry list, executably.
fn scan_entries_rest(s: &Vec<char>, i: usize) -> (r: Result<(Vec<Entry>, usize), usize>)
    requires
        i <= s@.len(),
    ensures
        match r {
            Ok(t) => p_entries_rest(s@, i as int) == Scan::Done(model_of(t.0@), t.1 as int)
                && t.1 <= s@.len(),
            Err(p) => p_entries_rest(s@, i as int) == Scan::<Seq<EntryModel>>::Fail(p as int) && p <= s@.len(),
        },
    decreases s@.len() - i,
{
    if i >= s.len() {
        return Err(s.len());
    }
    let c = s[i];
    if c == ']' {
        let empty: Vec<Entry> = Vec::new();
        proof {
            assert(model_of(empty@) =~= Seq::<EntryModel>::empty());
        }
        return Ok((empty, i + 1));
    }
    if c != ',' {
        return Err(i);
    }
    match scan_entry(s, i + 1) {
        Err(p) => Err(p),
        Ok((e, j)) => {
            proof {
                lemma_p_entry_bounds(s@, i as int + 1);
            }
            match scan_entries_rest(s, j) {
                Err(p) => Err(p),
                Ok((mut es, m)) => {
                    if vec_has_key(&es, e.key()) {
                        Err(i + 1)
                    } else {
                        let ghost tail = model_of(es@);
                        es.insert(0, e);
                        proof {
                            assert(model_of(es@) =~= seq![e@] + tail);
                        }
                        Ok((es, m))
                    }
                },
            }
        },
    }
}

/// Parses a whole document into its entries, or reports the position of
/// the first offending character.
fn parse_cache(s: &Vec<char>) -> (r: Result<Vec<Entry>, usize>)
    ensures
        match r {
            Ok(v) => p_cache(s@) == Scan::Done(model_of(v@), s@.len() as int),
            Err(p) => p_cache(s@) == Scan::<Seq<EntryModel>>::Fail(p as int) && p <= s@.len(),
        },
{
    if s.len() == 0 {
        return Err(0);
    }
    if s[0] != '[' {
        return Err(0);
    }
    if s.len() > 1 && s[1] == ']' {
        if s.len() == 2 {
            let empty: Vec<Entry> = Vec::new();
            proof {
                assert(model_of(empty@) =~= Seq::<EntryModel>::empty());
            }
            return Ok(empty);
        }
        return Err(2);
    }
    match scan_entry(s, 1) {
        Err(p) => Err(p),
        Ok((e, j)) => {
            proof {
                lemma_p_entry_bounds(s@, 1);
            }
            match scan_entries_rest(s, j) {
                Err(p) => Err(p),
                Ok((mut es, m)) => {
                    if vec_has_key(&es, e.key()) {
                        Err(1)
                    } else if m == s.len() {
                        let ghost tail = model_of(es@);
                        es.insert(0, e);
                        proof {
                            assert(model_of(es@) =~= seq![e@] + tail);
                        }
                        Ok(es)
                    } else {
                        Err(m)
                    }
                },
            }
        },
    }
}

/// The opening literal of an entry, as a character vector.
fn lit_vec_entry_open() -> (r: Vec<char>)
    ensures
        r@ == lit_entry_open(),
{
    let mut r: Vec<char> = Vec::new();
    r.push('{');
    r.push('"');
    r.push('k');
    r.push('e');
    r.push('y');
    r.push('"');
    r.push(':');
    r.push('{');
    r.push('"');
    r.push('n');
    r.push('a');
    r.push('m');
    r.push('e');
    r.push('"');
    r.push(':');
    proof {
        assert(r@ =~= lit_entry_open());
    }
    r
}

/// The origin literal, as a character vector.
fn lit_vec_origin() -> (r: Vec<char>)
    ensures
        r@ == lit_origin(),
{
    let mut r: Vec<char> = Vec::new();
    r.push(',');
    r.push('"');
    r.push('o');
    r.push('r');
    r.push('i');
    r.push('g');
    r.push('i');
    r.push('n');
    r.push('"');
    r.push(':');
    proof {
        assert(r@ =~= lit_origin());
    }
    r
}

/// The container-identifier literal, as a character vector.
fn lit_vec_uuid() -> (r: Vec<char>)
    ensures
        r@ == lit_uuid(),
{
    let mut r: Vec<char> = Vec::new();
    r.push('}');
    r.push(',');
    r.push('"');
    r.push('u');
    r.push('u');
    r.push('i');
    r.push('d');
    r.push('"');
    r.push(':');
    proof {
        assert(r@ =~= lit_uuid());
    }
    r
}

/// The history literal, as a character vector.
fn lit_vec_history() -> (r: Vec<char>)
    ensures
        r@ == lit_history(),
{
    let mut r: Vec<char> = Vec::new();
    r.push(',');
    r.push('"');
    r.push('h');
    r.push('i');
    r.push('s');
    r.push('t');
    r.push('o');
    r.push('r');
    r.push('y');
    r.push('"');
    r.push(':');
    r.push('[');
    proof {
        assert(r@ =~= lit_history());
    }
    r
}

/// The closing brace, as a character vector.
fn lit_vec_entry_end() -> (r: Vec<char>)
    ensures
        r@ == lit_entry_end(),
{
    let mut r: Vec<char> = Vec::new();
    r.push('}');
    proof {
        assert(r@ =~= lit_entry_end());
    }
    r
}

/// The lower-case hexadecimal digit of a value below sixteen.
fn hex_char_of(d: u32) -> (c: char)
    requires
        d < 16,
    ensures
        c == hex_char(d as int),
{
    let v: u32 = if d < 10 {
        48 + d
    } else {
        87 + d
    };
    (v as u8) as char
}

/// Appending one more version segment to a rendered history tail.
proof fn lemma_rvr_push(a: Seq<Seq<char>>, x: Seq<char>)
    ensures
        render_versions_rest(a.push(x)) == render_versions_rest(a) + (seq![','] + quoted(x)),
    decreases a.len(),
{
    if a.len() == 0 {
        assert(a =~= Seq::<Seq<char>>::empty());
        assert(a.push(x).first() == x);
        assert(a.push(x).drop_first() =~= Seq::<Seq<char>>::empty());
        assert(render_versions_rest(Seq::<Seq<char>>::empty()) == Seq::<char>::empty());
        assert(render_versions_rest(a.push(x)) =~= render_versions_rest(a) + (seq![','] + quoted(
            x,
        )));
    } else {
        lemma_rvr_push(a.drop_first(), x);
        assert(a.push(x).drop_first() =~= a.drop_first().push(x));
        assert(a.push(x).first() == a.first());
        assert(render_versions_rest(a.push(x)) =~= render_versions_rest(a) + (seq![','] + quoted(
            x,
        )));
    }
}

/// Appending one more entry segment to a rendered entry-list tail.
proof fn lemma_rer_push(a: Seq<EntryModel>, x: EntryModel)
    ensures
        render_entries_rest(a.push(x)) == render_entries_rest(a) + (seq![','] + render_entry(x)),
    decreases a.len(),
{
    if a.len() == 0 {
        assert(a =~= Seq::<EntryModel>::empty());
        assert(a.push(x).first() == x);
        assert(a.push(x).drop_first() =~= Seq::<EntryModel>::empty());
        assert(render_entries_rest(Seq::<EntryModel>::empty()) == Seq::<char>::empty());
        assert(render_entries_rest(a.push(x)) =~= render_entries_rest(a) + (seq![',']
            + render_entry(x)));
    } else {
        lemma_rer_push(a.drop_first(), x);
        assert(a.push(x).drop_first() =~= a.drop_first().push(x));
        assert(a.push(x).first() == a.first());
        assert(render_entries_rest(a.push(x)) =~= render_entries_rest(a) + (seq![',']
            + render_entry(x)));
    }
}

/// Writes the escaped form of a text onto the output.
fn push_escaped(out: &mut Vec<char>, t: &str)
    ensures
        final(out)@ == old(out)@ + escape_string(t@),
{
    let n: usize = t.unicode_len();
    let mut i: usize = 0;
    proof {
        assert(out@ =~= old(out)@ + escape_string(t@.take(0)));
    }
    #[verifier::loop_isolation(false)]
    while i < n
        invariant
            n == t@.len(),
            0 <= i <= n,
            out@ == old(out)@ + escape_string(t@.take(i as int)),
        decreases n - i,
    {
        let c = t.get_char(i);
        proof {
            lemma_escape_concat(t@.take(i as int), seq![t@[i as int]]);
            assert(t@.take(i as int) + seq![t@[i as int]] =~= t@.take(i as int + 1));
            assert(seq![t@[i as int]].first() == t@[i as int]);
            assert(seq![t@[i as int]].drop_first() =~= Seq::<char>::empty());
            assert(escape_string(Seq::<char>::empty()) == Seq::<char>::empty());
            assert(escape_string(seq![t@[i as int]]) =~= escape_char(t@[i as int]));
        }
        if c == '"' {
            out.push('\\');
            out.push('"');
        } else if c == '\\' {
            out.push('\\');
            out.push('\\');
        } else {
            let v = c as u32;
            if v < 32 {
                out.push('\\');
                out.push('u');
                out.push('0');
                out.push('0');
                out.push(hex_char_of(v / 16));
                out.push(hex_char_of(v % 16));
            } else {
                out.push(c);
            }
        }
        proof {
            assert(out@ =~= old(out)@ + escape_string(t@.take(i as int + 1)));
        }
        i += 1;
    }
    proof {
        assert(t@.take(n as int) =~= t@);
    }
}

/// Writes the quoted form of a text onto the output.
fn push_quoted(out: &mut Vec<char>, t: &str)
    ensures
        final(out)@ == old(out)@ + quoted(t@),
{
    out.push('"');
    push_escaped(out, t);
    out.push('"');
    proof {
        assert(out@ =~= old(out)@ + quoted(t@));
    }
}

/// Writes one rendered entry onto the output.
fn push_entry(out: &mut Vec<char>, e: &Entry)
    requires
        e@.history.len() > 0,
    ensures
        final(out)@ == old(out)@ + render_entry(e@),
{
    let mut open_lit = lit_vec_entry_open();
    out.append(&mut open_lit);
    push_quoted(out, e.key().name().as_str());
    let mut origin_lit = lit_vec_origin();
    out.append(&mut origin_lit);
    push_quoted(out, e.key().origin().as_str());
    let mut uuid_lit = lit_vec_uuid();
    out.append(&mut uuid_lit);
    push_quoted(out, e.uuid().as_str());
    let mut history_lit = lit_vec_history();
    out.append(&mut history_lit);
    let h = e.history();
    let n: usize = h.len();
    proof {
        assert(h.deep_view() == e@.history);
    }
    push_quoted(out, h[0].as_str());
    let ghost base = out@;
    let mut i: usize = 1;
    proof {
        assert(e@.history.subrange(1, 1) =~= Seq::<Seq<char>>::empty());
        assert(base =~= base + render_versions_rest(e@.history.subrange(1, 1)));
    }
    #[verifier::loop_isolation(false)]
    while i < n
        invariant
            1 <= i <= n,
            out@ == base + render_versions_rest(e@.history.subrange(1, i as int)),
        decreases n - i,
    {
        out.push(',');
        push_quoted(out, h[i].as_str());
        proof {
            lemma_rvr_push(e@.history.subrange(1, i as int), e@.history[i as int]);
            assert(e@.history.subrange(1, i as int).push(e@.history[i as int])
                =~= e@.history.subrange(1, i as int + 1));
            assert(out@ =~= base + render_versions_rest(e@.history.subrange(1, i as int + 1)));
        }
        i += 1;
    }
    proof {
        assert(e@.history.subrange(1, n as int) =~= e@.history.drop_first());
    }
    out.push(']');
    out.push('}');
    proof {
        assert(out@ =~= old(out)@ + render_entry(e@));
    }
}

impl Cache {
    /// Renders the index as its persisted document, a complete snapshot to
    /// be written over the backing file.
    pub fn end(&self) -> (r: String)
        requires
            self.wf(),
        ensures
            r@ == render_cache(self@),
    {
        let mut out: Vec<char> = Vec::new();
        out.push('[');
        let entries = self.entries();
        let n: usize = entries.len();
        if n > 0 {
            proof {
                assert(model_of(entries@) == self@);
                assert(self@[0].history.len() > 0);
            }
            push_entry(&mut out, &entries[0]);
            let ghost base = out@;
            let mut i: usize = 1;
            proof {
                assert(self@.subrange(1, 1) =~= Seq::<EntryModel>::empty());
                assert(base =~= base + render_entries_rest(self@.subrange(1, 1)));
            }
            #[verifier::loop_isolation(false)]
            while i < n
                invariant
                    1 <= i <= n,
                    out@ == base + render_entries_rest(self@.subrange(1, i as int)),
                decreases n - i,
            {
                out.push(',');
                proof {
                    assert(self@[i as int].history.len() > 0);
                }
                push_entry(&mut out, &entries[i]);
                proof {
                    lemma_rer_push(self@.subrange(1, i as int), self@[i as int]);
                    assert(self@.subrange(1, i as int).push(self@[i as int]) =~= self@.subrange(
                        1,
                        i as int + 1,
                    ));
                    assert(out@ =~= base + render_entries_rest(self@.subrange(1, i as int + 1)));
                }
                i += 1;
            }
            proof {
                assert(self@.subrange(1, n as int) =~= self@.drop_first());
            }
        }
        out.push(']');
        proof {
            if self@.len() == 0 {
                assert(out@ =~= render_cache(self@));
            } else {
                assert(out@ =~= render_cache(self@));
            }
        }
        chars_to_string(&out)
    }

    /// Loads an index from the persisted document. A missing, empty or
    /// prematurely ended document means an empty index; any other
    /// malformed content fails, naming the line and column of the first
    /// offending character.
    pub fn load(text: &str) -> (r: Result<Cache, Error>)
        ensures
            match r {
                Ok(c) => c.wf() && match p_cache(text@) {
                    Scan::Done(es, m) => c@ == es,
                    Scan::Fail(p) => p == text@.len() && c@ == Seq::<EntryModel>::empty(),
                },
                Err(e) => match p_cache(text@) {
                    Scan::Done(es, m) => false,
                    Scan::Fail(p) => {
                        &&& p < text@.len()
                        &&& e matches Error::InvalidJSON(l, c2) && l as int == line_of(text@, p)
                            && c2 as int == col_of(text@, p)
                    },
                },
            },
    {
        let chars = to_chars(text);
        match parse_cache(&chars) {
            Ok(entries) => {
                proof {
                    lemma_p_cache_wf(text@);
                }
                Ok(Cache::from_entries(entries))
            },
            Err(p) => {
                if p == chars.len() {
                    Ok(Cache::new())
                } else {
                    let lc = line_col(&chars, p);
                    Err(Error::InvalidJSON(lc.0, lc.1))
                }
            },
        }
    }
}

} // verus!