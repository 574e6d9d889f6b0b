//! The cosmetic output settings and their persisted document: two flags in
//! a small pretty-printed object, parsed and rendered by verified code.

use vstd::prelude::*;

use crate::error::Error;
use crate::json::{Scan, line_col, line_of, col_of, p_lit, scan_lit, to_chars};

verus! {

/// The two output toggles: unicode glyphs and ANSI colors.
pub struct Settings {
    use_unicode: bool,
    use_colors: bool,
}

/// Mathematical model of [`Settings`]: the two flags.
pub struct SettingsModel {
    pub use_unicode: bool,
    pub use_colors: bool,
}

impl View for Settings {
    type V = SettingsModel;

    closed spec fn view(&self) -> SettingsModel {
        SettingsModel { use_unicode: self.use_unicode, use_colors: self.use_colors }
    }
}

/// The text of a boolean.
pub open spec fn bool_text(b: bool) -> Seq<char> {
    if b {
        seq!['t', 'r', 'u', 'e']
    } else {
        seq!['f', 'a', 'l', 's', 'e']
    }
}

/// The document text up to the first flag.
pub open spec fn lit_settings_open() -> Seq<char> {
    seq![
        '{',
        '\n',
        ' ',
        ' ',
        '"',
        'u',
        's',
        'e',
        '_',
        'u',
        'n',
        'i',
        'c',
        'o',
        'd',
        'e',
        '"',
        ':',
        ' ',
    ]
}

/// The document text between the flags.
pub open spec fn lit_settings_mid() -> Seq<char> {
    seq![',', '\n', ' ', ' ', '"', 'u', 's', 'e', '_', 'c', 'o', 'l', 'o', 'r', 's', '"', ':', ' ']
}

/// The document text after the second flag.
pub open spec fn lit_settings_close() -> Seq<char> {
    seq!['\n', '}']
}

/// The whole settings document.
pub open spec fn render_settings(m: SettingsModel) -> Seq<char> {
    lit_settings_open() + bool_text(m.use_unicode) + lit_settings_mid() + bool_text(m.use_colors)
        + lit_settings_close()
}

/// Scans a boolean literal.
pub open spec fn p_bool(s: Seq<char>, i: int) -> Scan<bool> {
    if i < 0 || i >= s.len() {
        Scan::Fail(s.len() as int)
    } else if s[i] == 't' {
        match p_lit(s, i, bool_text(true)) {
            Scan::Done(_, j) => Scan::Done(true, j),
            Scan::Fail(p) => Scan::Fail(p),
        }
    } else if s[i] == 'f' {
        match p_lit(s, i, bool_text(false)) {
            Scan::Done(_, j) => Scan::Done(false, j),
            Scan::Fail(p) => Scan::Fail(p),
        }
    } else {
        Scan::Fail(i)
    }
}

/// Scans a whole settings document; the document must be consumed in full.
pub open spec fn p_settings(s: Seq<char>) -> Scan<SettingsModel> {
    match p_lit(s, 0, lit_settings_open()) {
        Scan::Fail(p) => Scan::Fail(p),
        Scan::Done(_, i1) => match p_bool(s, i1) {
            Scan::Fail(p) => Scan::Fail(p),
            Scan::Done(u, i2) => match p_lit(s, i2, lit_settings_mid()) {
                Scan::Fail(p) => Scan::Fail(p),
                Scan::Done(_, i3) => match p_bool(s, i3) {
                    Scan::Fail(p) => Scan::Fail(p),
                    Scan::Done(c, i4) => match p_lit(s, i4, lit_settings_close()) {
                        Scan::Fail(p) => Scan::Fail(p),
                        Scan::Done(_, i5) => if i5 == s.len() {
                            Scan::Done(SettingsModel { use_unicode: u, use_colors: c }, i5)
                        } else {
                            Scan::Fail(i5)
                        },
                    },
                },
            },
        },
    }
}

/// The opening literal, as a character vector.
fn lit_vec_settings_open() -> (r: Vec<char>)
    ensures
        r@ == lit_settings_open(),
{
    let mut r: Vec<char> = Vec::new();
    r.push('{');
    r.push('\n');
    r.push(' ');
    r.push(' ');
    r.push('"');
    r.push('u');
    r.push('s');
    r.push('e');
    r.push('_');
    r.push('u');
    r.push('n');
    r.push('i');
    r.push('c');
    r.push('o');
    r.push('d');
    r.push('e');
    r.push('"');
    r.push(':');
    r.push(' ');
    proof {
        assert(r@ =~= lit_settings_open());
    }
    r
}

/// The middle literal, as a character vector.
fn lit_vec_settings_mid() -> (r: Vec<char>)
    ensures
        r@ == lit_settings_mid(),
{
    let mut r: Vec<char> = Vec::new();
    r.push(',');
    r.push('\n');
    r.push(' ');
    r.push(' ');
    r.push('"');
    r.push('u');
    r.push('s');
    r.push('e');
    r.push('_');
    r.push('c');
    r.push('o');
    r.push('l');
    r.push('o');
    r.push('r');
    r.push('s');
    r.push('"');
    r.push(':');
    r.push(' ');
    proof {
        assert(r@ =~= lit_settings_mid());
    }
    r
}

/// The closing literal, as a character vector.
fn lit_vec_settings_close() -> (r: Vec<char>)
    ensures
        r@ == lit_settings_close(),
{
    let mut r: Vec<char> = Vec::new();
    r.push('\n');
    r.push('}');
    proof {
        assert(r@ =~= lit_settings_close());
    }
    r
}

/// A boolean literal, as a character vector.
fn lit_vec_bool(b: bool) -> (r: Vec<char>)
    ensures
        r@ == bool_text(b),
{
    let mut r: Vec<char> = Vec::new();
    if b {
        r.push('t');
        r.push('r');
        r.push('u');
        r.push('e');
        proof {
            assert(r@ =~= bool_text(true));
        }
    } else {
        r.push('f');
        r.push('a');
        r.push('l');
        r.push('s');
        r.push('e');
        proof {
            assert(r@ =~= bool_text(false));
        }
    }
    r
}

/// Scans a boolean literal, executably.
fn scan_bool(s: &Vec<char>, i: usize) -> (r: Result<(bool, usize), usize>)
    requires
        i <= s@.len(),
    ensures
        match r {
            Ok(t) => p_bool(s@, i as int) == Scan::Done(t.0, t.1 as int) && t.1 <= s@.len(),
            Err(p) => p_bool(s@, i as int) == Scan::<bool>::Fail(p as int) && p <= s@.len(),
        },
{
    if i >= s.len() {
        return Err(s.len());
    }
    if s[i] == 't' {
        let lit = lit_vec_bool(true);
        match scan_lit(s, i, &lit) {
            Ok(j) => Ok((true, j)),
            Err(p) => Err(p),
        }
    } else if s[i] == 'f' {
        let lit = lit_vec_bool(false);
        match scan_lit(s, i, &lit) {
            Ok(j) => Ok((false, j)),
            Err(p) => Err(p),
        }
    } else {
        Err(i)
    }
}

impl Settings {
    /// Settings with both toggles chosen.
    pub fn new(use_unicode: bool, use_colors: bool) -> (r: Settings)
        ensures
            r@ == (SettingsModel { use_unicode, use_colors }),
    {
        Settings { use_unicode, use_colors }
    }

    pub fn use_unicode(&self) -> (r: bool)
        ensures
            r == self@.use_unicode,
    {
        self.use_unicode
    }

    pub fn use_colors(&self) -> (r: bool)
        ensures
            r == self@.use_colors,
    {
        self.use_colors
    }

    /// Renders the settings as their persisted document.
    pub fn render(&self) -> (r: String)
        ensures
            r@ == render_settings(self@),
    {
        let mut out = lit_vec_settings_open();
        let mut b1 = lit_vec_bool(self.use_unicode);
        out.append(&mut b1);
        let mut mid = lit_vec_settings_mid();
        out.append(&mut mid);
        let mut b2 = lit_vec_bool(self.use_colors);
        out.append(&mut b2);
        let mut close = lit_vec_settings_close();
        out.append(&mut close);
        proof {
            assert(out@ =~= render_settings(self@));
        }
        crate::json::chars_to_string(&out)
    }

    /// Loads settings from the persisted document. A missing, empty or
    /// prematurely ended document means the default settings; any other
    /// malformed content fails, naming the line and column of the first
    /// offending character.
    pub fn load(text: &str) -> (r: Result<Settings, Error>)
        ensures
            match r {
                Ok(st) => match p_settings(text@) {
                    Scan::Done(m, _) => st@ == m,
                    Scan::Fail(p) => p == text@.len() && st@ == (SettingsModel {
                        use_unicode: false,
                        use_colors: false,
                    }),
                },
                Err(e) => match p_settings(text@) {
                    Scan::Done(m, _) => false,
                    Scan::Fail(p) => {
                        &&& p < text@.len()
                        &&& e matches Error::InvalidJSON(l, c2) && l as int == line_of(text@, p)
                            && c2 as int == col_of(text@, p)
                    },
                },
            },
    {
        let chars = to_chars(text);
        let open_lit = lit_vec_settings_open();
        let r1 = scan_lit(&chars, 0, &open_lit);
        let i1 = match r1 {
            Ok(j) => j,
            Err(p) => {
                return Self::load_failed(&chars, p);
            },
        };
        let r2 = scan_bool(&chars, i1);
        let (u, i2) = match r2 {
            Ok(t) => t,
            Err(p) => {
                return Self::load_failed(&chars, p);
            },
        };
        let mid_lit = lit_vec_settings_mid();
        let r3 = scan_lit(&chars, i2, &mid_lit);
        let i3 = match r3 {
            Ok(j) => j,
            Err(p) => {
                return Self::load_failed(&chars, p);
            },
        };
        let r4 = scan_bool(&chars, i3);
        let (c, i4) = match r4 {
            Ok(t) => t,
            Err(p) => {
                return Self::load_failed(&chars, p);
            },
        };
        let close_lit = lit_vec_settings_close();
        let r5 = scan_lit(&chars, i4, &close_lit);
        let i5 = match r5 {
            Ok(j) => j,
            Err(p) => {
                return Self::load_failed(&chars, p);
            },
        };
        if i5 == chars.len() {
            Ok(Settings { use_unicode: u, use_colors: c })
        } else {
            Self::load_failed(&chars, i5)
        }
    }

    /// Turns a failing scan position into the load outcome: the default
    /// settings at end of text, an error before it.
    fn load_failed(chars: &Vec<char>, p: usize) -> (r: Result<Settings, Error>)
        requires
            p <= chars@.len(),
        ensures
            match r {
                Ok(st) => p == chars@.len() && st@ == (SettingsModel {
                    use_unicode: false,
                    use_colors: false,
                }),
                Err(e) => {
                    &&& p < chars@.len()
                    &&& e matches Error::InvalidJSON(l, c2) && l as int == line_of(
                        chars@,
                        p as int,
                    ) && c2 as int == col_of(chars@, p as int)
                },
            },
    {
        if p == chars.len() {
            Ok(Settings { use_unicode: false, use_colors: false })
        } else {
            let lc = line_col(chars, p);
            Err(Error::InvalidJSON(lc.0, lc.1))
        }
    }
}

impl Default for Settings {
    /// Both toggles off.
    fn default() -> (r: Settings)
        ensures
            r@ == (SettingsModel { use_unicode: false, use_colors: false }),
    {
        Settings { use_unicode: false, use_colors: false }
    }
}

/// Law: a rendered settings document loads back to the same settings.
pub proof fn lemma_settings_roundtrip(m: SettingsModel)
    ensures
        p_settings(render_settings(m)) == Scan::Done(m, render_settings(m).len() as int),
{
    let s = render_settings(m);
    let b1 = bool_text(m.use_unicode);
    let b2 = bool_text(m.use_colors);
    let t4 = lit_settings_close();
    let t3 = b2 + t4;
    let t2 = lit_settings_mid() + t3;
    let t1 = b1 + t2;
    assert(s =~= lit_settings_open() + t1);
    assert(s.subrange(0, s.len() as int) =~= s);
    crate::json::lemma_seg_split(s, 0, lit_settings_open(), t1);
    crate::json::lemma_lit_roundtrip(s, 0, lit_settings_open());
    let o1 = lit_settings_open().len() as int;
    crate::json::lemma_seg_split(s, o1, b1, t2);
    crate::json::lemma_lit_roundtrip(s, o1, b1);
    crate::json::lemma_seg_char(s, o1, b1, 0);
    let o2 = o1 + b1.len() as int;
    crate::json::lemma_seg_split(s, o2, lit_settings_mid(), t3);
    crate::json::lemma_lit_roundtrip(s, o2, lit_settings_mid());
    let o3 = o2 + lit_settings_mid().len() as int;
    crate::json::lemma_seg_split(s, o3, b2, t4);
    crate::json::lemma_lit_roundtrip(s, o3, b2);
    crate::json::lemma_seg_char(s, o3, b2, 0);
    let o4 = o3 + b2.len() as int;
    crate::json::lemma_lit_roundtrip(s, o4, lit_settings_close());
}

} // verus!
