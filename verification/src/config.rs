//! Configuration: the prefix key and the key bindings, and the parsing of
//! key descriptions such as `C-a`.
use vstd::prelude::*;

use crate::input::{KeyCode, KeyModifiers};
use crate::text::{
    chars_eq_str, is_white_space, split_chars, split_on, str_to_chars, trim, trim_chars, trim_end, trim_start,
};

verus! {

/// The settings the application runs with.
pub struct Config {
    pub prefix_key: KeyCode,
    pub prefix_modifiers: KeyModifiers,
    /// Each entry binds an action name to a key pressed after the prefix.
    pub bindings: Vec<(String, (KeyModifiers, KeyCode))>,
}

impl Config {
    /// The bindings as (action name, key) pairs, in order.
    pub open spec fn binding_list(self) -> Seq<(Seq<char>, (KeyModifiers, KeyCode))> {
        self.bindings@.map_values(|p: (String, (KeyModifiers, KeyCode))| (p.0@, p.1))
    }
}

impl Default for Config {
    /// Prefix `C-b`, no bindings beyond the built-in ones.
    fn default() -> (r: Self)
        ensures
            r.prefix_key == KeyCode::Char('b'),
            r.prefix_modifiers == (KeyModifiers { bits: 2 }),
            r.bindings@.len() == 0,
    {
        Config {
            prefix_key: KeyCode::Char('b'),
            prefix_modifiers: KeyModifiers::control(),
            bindings: Vec::new(),
        }
    }
}

/// The contents of the configuration file: the prefix key and the
/// bindings, both as key descriptions such as `C-a`.
pub struct ConfigFile {
    pub prefix: Option<String>,
    /// (action name, key description) pairs.
    pub bindings: Vec<(String, String)>,
}

/// What `str::to_uppercase` makes of a string (Unicode case mapping).
pub uninterp spec fn str_to_uppercase(s: Seq<char>) -> Seq<char>;

/// What `str::to_lowercase` makes of a string (Unicode case mapping).
pub uninterp spec fn str_to_lowercase(s: Seq<char>) -> Seq<char>;

/// Whether every character of `s` is ASCII.
pub open spec fn all_ascii(s: Seq<char>) -> bool {
    forall|i: int| 0 <= i < s.len() ==> (s[i] as u32) < 0x80
}

/// `s` with the ASCII letters `a`-`z` made upper case.
pub open spec fn ascii_upper(s: Seq<char>) -> Seq<char> {
    s.map_values(|c: char| if 'a' <= c <= 'z' { ((c as u32) - 32) as char } else { c })
}

/// `s` with the ASCII letters `A`-`Z` made lower case.
pub open spec fn ascii_lower(s: Seq<char>) -> Seq<char> {
    s.map_values(|c: char| if 'A' <= c <= 'Z' { ((c as u32) + 32) as char } else { c })
}

/// `str::to_uppercase` on the characters of `v`; the result is whatever the
/// standard library's Unicode case mapping gives, which is not spelled out
/// here beyond ASCII text, where only `a`-`z` change, to `A`-`Z`.
#[verifier::external_body]
fn to_uppercase_chars(v: &Vec<char>) -> (r: Vec<char>)
    ensures
        r@ == str_to_uppercase(v@),
        all_ascii(v@) ==> r@ == ascii_upper(v@),
{
    let s: String = v.iter().collect();
    s.to_uppercase().chars().collect()
}

/// `str::to_lowercase` on the characters of `v`; the result is whatever the
/// standard library's Unicode case mapping gives, which is not spelled out
/// here beyond ASCII text, where only `A`-`Z` change, to `a`-`z`.
#[verifier::external_body]
fn to_lowercase_chars(v: &Vec<char>) -> (r: Vec<char>)
    ensures
        r@ == str_to_lowercase(v@),
        all_ascii(v@) ==> r@ == ascii_lower(v@),
{
    let s: String = v.iter().collect();
    s.to_lowercase().chars().collect()
}

/// The modifier that an upper-cased modifier name stands for.
pub open spec fn spec_modifier_from_upper(u: Seq<char>) -> Option<KeyModifiers> {
    if u == "C"@ || u == "CTRL"@ || u == "CONTROL"@ {
        Some(KeyModifiers { bits: 2 })
    } else if u == "S"@ || u == "SHIFT"@ {
        Some(KeyModifiers { bits: 1 })
    } else if u == "A"@ || u == "ALT"@ || u == "M"@ || u == "META"@ {
        Some(KeyModifiers { bits: 4 })
    } else {
        None
    }
}

/// The key that a lower-cased key name stands for: a named key, or a single
/// ASCII character.
pub open spec fn spec_key_from_lower(l: Seq<char>) -> Option<KeyCode> {
    if l == "space"@ {
        Some(KeyCode::Char(' '))
    } else if l == "enter"@ {
        Some(KeyCode::Enter)
    } else if l == "esc"@ || l == "escape"@ {
        Some(KeyCode::Esc)
    } else if l == "tab"@ {
        Some(KeyCode::Tab)
    } else if l == "backspace"@ || l == "bs"@ {
        Some(KeyCode::Backspace)
    } else if l == "up"@ {
        Some(KeyCode::Up)
    } else if l == "down"@ {
        Some(KeyCode::Down)
    } else if l == "left"@ {
        Some(KeyCode::Left)
    } else if l == "right"@ {
        Some(KeyCode::Right)
    } else if l.len() == 1 && (l[0] as u32) < 128 {
        Some(KeyCode::Char(l[0]))
    } else {
        None
    }
}

/// The key a description such as `C-a`, `A-x`, `C-Space` or `q` stands for:
/// after trimming white space, either a key name alone, or a modifier name
/// (`C`/`Ctrl`/`Control`, `S`/`Shift`, `A`/`Alt`/`M`/`Meta`, any case), a
/// `-` and a key name (any case).
pub open spec fn spec_parse_key_binding(s: Seq<char>) -> Option<(KeyModifiers, KeyCode)> {
    let parts = split_on(trim(s), '-');
    if parts.len() == 1 {
        match spec_key_from_lower(str_to_lowercase(parts[0])) {
            Some(k) => Some((KeyModifiers { bits: 0 }, k)),
            None => None,
        }
    } else if parts.len() == 2 {
        match spec_modifier_from_upper(str_to_uppercase(parts[0])) {
            Some(m) => match spec_key_from_lower(str_to_lowercase(parts[1])) {
                Some(k) => Some((m, k)),
                None => None,
            },
            None => None,
        }
    } else {
        None
    }
}

/// The key that an ASCII description stands for: the same reading as
/// `spec_parse_key_binding`, where case mapping only changes ASCII letters.
pub open spec fn spec_parse_ascii_key_binding(s: Seq<char>) -> Option<(KeyModifiers, KeyCode)> {
    let parts = split_on(trim(s), '-');
    if parts.len() == 1 {
        match spec_key_from_lower(ascii_lower(parts[0])) {
            Some(k) => Some((KeyModifiers { bits: 0 }, k)),
            None => None,
        }
    } else if parts.len() == 2 {
        match spec_modifier_from_upper(ascii_upper(parts[0])) {
            Some(m) => match spec_key_from_lower(ascii_lower(parts[1])) {
                Some(k) => Some((m, k)),
                None => None,
            },
            None => None,
        }
    } else {
        None
    }
}

proof fn lemma_trim_ascii(s: Seq<char>)
    requires
        all_ascii(s),
    ensures
        all_ascii(trim_start(s)),
        all_ascii(trim_end(s)),
        all_ascii(trim(s)),
    decreases s.len(),
{
    if s.len() > 0 {
        assert(all_ascii(s.drop_first())) by {
            assert forall|i: int| 0 <= i < s.drop_first().len() implies (s.drop_first()[i] as u32) < 0x80 by {
                assert(s.drop_first()[i] == s[i + 1]);
            }
        }
        assert(all_ascii(s.drop_last())) by {
            assert forall|i: int| 0 <= i < s.drop_last().len() implies (s.drop_last()[i] as u32) < 0x80 by {
                assert(s.drop_last()[i] == s[i]);
            }
        }
        lemma_trim_ascii(s.drop_first());
        lemma_trim_ascii(s.drop_last());
        lemma_trim_ascii_end(trim_start(s));
    }
}

proof fn lemma_trim_ascii_end(s: Seq<char>)
    requires
        all_ascii(s),
    ensures
        all_ascii(trim_end(s)),
    decreases s.len(),
{
    if s.len() > 0 {
        assert(all_ascii(s.drop_last())) by {
            assert forall|i: int| 0 <= i < s.drop_last().len() implies (s.drop_last()[i] as u32) < 0x80 by {
                assert(s.drop_last()[i] == s[i]);
            }
        }
        lemma_trim_ascii_end(s.drop_last());
    }
}

proof fn lemma_split_ascii(s: Seq<char>, sep: char)
    requires
        all_ascii(s),
    ensures
        forall|i: int| 0 <= i < split_on(s, sep).len() ==> all_ascii(#[trigger] split_on(s, sep)[i]),
    decreases s.len(),
{
    if s.len() > 0 {
        let d = s.drop_last();
        assert(all_ascii(d)) by {
            assert forall|i: int| 0 <= i < d.len() implies (d[i] as u32) < 0x80 by {
                assert(d[i] == s[i]);
            }
        }
        lemma_split_ascii(d, sep);
        let p = split_on(d, sep);
        let q = split_on(s, sep);
        assert((s.last() as u32) < 0x80) by {
            assert(s.last() == s[s.len() - 1]);
        }
        if s.last() != sep {
            assert(p.len() >= 1) by {
                lemma_split_len(d, sep);
            }
            assert forall|i: int| 0 <= i < q.len() implies all_ascii(#[trigger] q[i]) by {
                if i < p.len() - 1 {
                    assert(q[i] == p[i]);
                } else {
                    assert(all_ascii(p[i]));
                    let t = p[i].push(s.last());
                    assert(q[i] == t);
                    assert forall|j: int| 0 <= j < t.len() implies (t[j] as u32) < 0x80 by {
                        if j < p[i].len() {
                            assert(t[j] == p[i][j]);
                        }
                    }
                }
            }
        } else {
            assert forall|i: int| 0 <= i < q.len() implies all_ascii(#[trigger] q[i]) by {
                if i < p.len() {
                    assert(q[i] == p[i]);
                }
            }
        }
    }
}

proof fn lemma_split_len(s: Seq<char>, sep: char)
    ensures
        split_on(s, sep).len() >= 1,
    decreases s.len(),
{
    if s.len() > 0 {
        lemma_split_len(s.drop_last(), sep);
    }
}

/// Whether `s` holds neither a `-` nor white space.
pub open spec fn plain_word(s: Seq<char>) -> bool {
    forall|i: int| 0 <= i < s.len() ==> s[i] != '-' && !is_white_space(#[trigger] s[i])
}

proof fn lemma_split_plain(s: Seq<char>)
    requires
        plain_word(s),
    ensures
        split_on(s, '-') == seq![s],
    decreases s.len(),
{
    if s.len() > 0 {
        let d = s.drop_last();
        assert(plain_word(d)) by {
            assert forall|i: int| 0 <= i < d.len() implies d[i] != '-' && !is_white_space(#[trigger] d[i]) by {
                assert(d[i] == s[i]);
            }
        }
        lemma_split_plain(d);
        assert(s.last() == s[s.len() - 1]);
        assert(d.push(s.last()) =~= s);
        let p = split_on(d, '-');
        assert(split_on(s, '-') == p.update(p.len() - 1, p.last().push(s.last())));
        assert(split_on(s, '-') =~= seq![s]);
    } else {
        assert(s =~= Seq::<char>::empty());
        assert(split_on(s, '-') =~= seq![s]);
    }
}

proof fn lemma_split_pair(w: Seq<char>, k: Seq<char>)
    requires
        plain_word(w),
        plain_word(k),
    ensures
        split_on(w + seq!['-'] + k, '-') == seq![w, k],
    decreases k.len(),
{
    if k.len() == 0 {
        lemma_split_plain(w);
        let s = w + seq!['-'] + k;
        assert(s =~= w.push('-'));
        assert(s.drop_last() =~= w);
        assert(s.last() == '-');
        assert(split_on(s, '-') == seq![w].push(Seq::<char>::empty()));
        assert(k =~= Seq::<char>::empty());
        assert(split_on(s, '-') =~= seq![w, k]);
    } else {
        let d = k.drop_last();
        assert(plain_word(d)) by {
            assert forall|i: int| 0 <= i < d.len() implies d[i] != '-' && !is_white_space(#[trigger] d[i]) by {
                assert(d[i] == k[i]);
            }
        }
        lemma_split_pair(w, d);
        let s = w + seq!['-'] + k;
        assert(s.drop_last() =~= w + seq!['-'] + d);
        assert(s.last() == k[k.len() - 1]);
        assert(d.push(k.last()) =~= k);
        let p = split_on(s.drop_last(), '-');
        assert(p == seq![w, d]);
        assert(split_on(s, '-') == p.update(p.len() - 1, p.last().push(s.last())));
        assert(split_on(s, '-') =~= seq![w, k]);
    }
}

proof fn lemma_trim_plain_ends(s: Seq<char>)
    requires
        s.len() > 0 ==> !is_white_space(s[0]) && !is_white_space(s.last()),
    ensures
        trim(s) == s,
{
}

/// How a plain key name `k` reads alone and after a plain modifier name `w`
/// and a `-`.
proof fn lemma_parse_plain(w: Seq<char>, k: Seq<char>)
    requires
        w.len() > 0,
        plain_word(w),
        plain_word(k),
    ensures
        spec_parse_ascii_key_binding(k) == match spec_key_from_lower(ascii_lower(k)) {
            Some(c) => Some((KeyModifiers { bits: 0 }, c)),
            None => None,
        },
        spec_parse_ascii_key_binding(w + seq!['-'] + k) == match spec_modifier_from_upper(ascii_upper(w)) {
            Some(m) => match spec_key_from_lower(ascii_lower(k)) {
                Some(c) => Some((m, c)),
                None => None,
            },
            None => None,
        },
{
    let s = w + seq!['-'] + k;
    if k.len() > 0 {
        assert(!is_white_space(k[0]) && !is_white_space(k[k.len() - 1]));
    }
    lemma_trim_plain_ends(k);
    lemma_split_plain(k);
    assert(s[0] == w[0]);
    assert(!is_white_space(w[0]));
    if k.len() > 0 {
        assert(s.last() == k[k.len() - 1]);
    } else {
        assert(s.last() == '-');
    }
    lemma_trim_plain_ends(s);
    lemma_split_pair(w, k);
}

proof fn lemma_alt_upper(u: Seq<char>)
    requires
        u == "M"@ || u == "META"@ || u == "A"@ || u == "ALT"@,
    ensures
        spec_modifier_from_upper(u) == Some(KeyModifiers { bits: 4 }),
{
    reveal_strlit("M");
    reveal_strlit("META");
    reveal_strlit("A");
    reveal_strlit("ALT");
    reveal_strlit("C");
    reveal_strlit("CTRL");
    reveal_strlit("CONTROL");
    reveal_strlit("S");
    reveal_strlit("SHIFT");
    assert(u.len() > 0 && u[0] != 'C' && u[0] != 'S');
    assert(u != "C"@ && u != "CTRL"@ && u != "CONTROL"@) by {
        assert("C"@[0] == 'C' && "CTRL"@[0] == 'C' && "CONTROL"@[0] == 'C');
    }
    assert(u != "S"@ && u != "SHIFT"@) by {
        assert("S"@[0] == 'S' && "SHIFT"@[0] == 'S');
    }
}

/// The modifier names `M` and `Meta`, like `A` and `Alt`, in upper, lower
/// or leading-capital case, mean the Alt modifier: for every key name `k`
/// without `-` or white space, each of them, then `-`, then `k`, reads as
/// Alt with the key that `k` alone reads as, and is refused exactly when
/// `k` alone is.
pub proof fn lemma_meta_means_alt(k: Seq<char>)
    requires
        plain_word(k),
    ensures
        ({
            let expected = match spec_parse_ascii_key_binding(k) {
                Some((_, c)) => Some((KeyModifiers { bits: 4 }, c)),
                None => None,
            };
            &&& spec_parse_ascii_key_binding("M-"@ + k) == expected
            &&& spec_parse_ascii_key_binding("m-"@ + k) == expected
            &&& spec_parse_ascii_key_binding("Meta-"@ + k) == expected
            &&& spec_parse_ascii_key_binding("META-"@ + k) == expected
            &&& spec_parse_ascii_key_binding("meta-"@ + k) == expected
            &&& spec_parse_ascii_key_binding("A-"@ + k) == expected
            &&& spec_parse_ascii_key_binding("a-"@ + k) == expected
            &&& spec_parse_ascii_key_binding("Alt-"@ + k) == expected
            &&& spec_parse_ascii_key_binding("ALT-"@ + k) == expected
            &&& spec_parse_ascii_key_binding("alt-"@ + k) == expected
        }),
{
    reveal_strlit("M-");
    reveal_strlit("m-");
    reveal_strlit("Meta-");
    reveal_strlit("META-");
    reveal_strlit("meta-");
    reveal_strlit("A-");
    reveal_strlit("a-");
    reveal_strlit("Alt-");
    reveal_strlit("ALT-");
    reveal_strlit("alt-");
    reveal_strlit("M");
    reveal_strlit("META");
    reveal_strlit("A");
    reveal_strlit("ALT");
    let names: Seq<Seq<char>> = seq![
        seq!['M'],
        seq!['m'],
        seq!['M', 'e', 't', 'a'],
        seq!['M', 'E', 'T', 'A'],
        seq!['m', 'e', 't', 'a'],
        seq!['A'],
        seq!['a'],
        seq!['A', 'l', 't'],
        seq!['A', 'L', 'T'],
        seq!['a', 'l', 't'],
    ];
    assert forall|j: int| 0 <= j < names.len() implies #[trigger] spec_modifier_from_upper(ascii_upper(names[j]))
        == Some(KeyModifiers { bits: 4 }) && plain_word(names[j]) && names[j].len() > 0 by {
        let u = ascii_upper(names[j]);
        if j < 2 {
            assert(u =~= "M"@);
        } else if j < 5 {
            assert(u =~= "META"@);
        } else if j < 7 {
            assert(u =~= "A"@);
        } else {
            assert(u =~= "ALT"@);
        }
        lemma_alt_upper(u);
    }
    assert forall|j: int| 0 <= j < names.len() implies spec_parse_ascii_key_binding(#[trigger] names[j] + seq!['-'] + k) == match spec_parse_ascii_key_binding(k) {
        Some((_, c)) => Some((KeyModifiers { bits: 4 }, c)),
        None => None,
    } by {
        lemma_parse_plain(names[j], k);
    }
    assert("M-"@ + k =~= names[0] + seq!['-'] + k);
    assert("m-"@ + k =~= names[1] + seq!['-'] + k);
    assert("Meta-"@ + k =~= names[2] + seq!['-'] + k);
    assert("META-"@ + k =~= names[3] + seq!['-'] + k);
    assert("meta-"@ + k =~= names[4] + seq!['-'] + k);
    assert("A-"@ + k =~= names[5] + seq!['-'] + k);
    assert("a-"@ + k =~= names[6] + seq!['-'] + k);
    assert("Alt-"@ + k =~= names[7] + seq!['-'] + k);
    assert("ALT-"@ + k =~= names[8] + seq!['-'] + k);
    assert("alt-"@ + k =~= names[9] + seq!['-'] + k);
}

/// The modifier named by `u`, an upper-cased modifier name.
pub fn modifier_from_upper(u: &Vec<char>) -> (r: Option<KeyModifiers>)
    ensures
        r == spec_modifier_from_upper(u@),
{
    if chars_eq_str(u, "C") || chars_eq_str(u, "CTRL") || chars_eq_str(u, "CONTROL") {
        Some(KeyModifiers::control())
    } else if chars_eq_str(u, "S") || chars_eq_str(u, "SHIFT") {
        Some(KeyModifiers::shift())
    } else if chars_eq_str(u, "A") || chars_eq_str(u, "ALT") || chars_eq_str(u, "M")
        || chars_eq_str(u, "META") {
        Some(KeyModifiers::alt())
    } else {
        None
    }
}

/// The key named by `l`, a lower-cased key name.
pub fn key_from_lower(l: &Vec<char>) -> (r: Option<KeyCode>)
    ensures
        r == spec_key_from_lower(l@),
{
    if chars_eq_str(l, "space") {
        Some(KeyCode::Char(' '))
    } else if chars_eq_str(l, "enter") {
        Some(KeyCode::Enter)
    } else if chars_eq_str(l, "esc") || chars_eq_str(l, "escape") {
        Some(KeyCode::Esc)
    } else if chars_eq_str(l, "tab") {
        Some(KeyCode::Tab)
    } else if chars_eq_str(l, "backspace") || chars_eq_str(l, "bs") {
        Some(KeyCode::Backspace)
    } else if chars_eq_str(l, "up") {
        Some(KeyCode::Up)
    } else if chars_eq_str(l, "down") {
        Some(KeyCode::Down)
    } else if chars_eq_str(l, "left") {
        Some(KeyCode::Left)
    } else if chars_eq_str(l, "right") {
        Some(KeyCode::Right)
    } else if l.len() == 1 && (l[0] as u32) < 128 {
        Some(KeyCode::Char(l[0]))
    } else {
        None
    }
}

/// Parses a key description such as `C-b`, `Ctrl-a`, `A-x`, `C-Space`, `Esc`.
pub fn parse_key_binding(s: &str) -> (r: Option<(KeyModifiers, KeyCode)>)
    ensures
        r == spec_parse_key_binding(s@),
        all_ascii(s@) ==> r == spec_parse_ascii_key_binding(s@),
{
    let chars = str_to_chars(s);
    let trimmed = trim_chars(&chars);
    let parts = split_chars(&trimmed, '-');
    let ghost sp = split_on(trim(s@), '-');
    proof {
        if all_ascii(s@) {
            lemma_trim_ascii(s@);
            lemma_split_ascii(trim(s@), '-');
        }
    }
    if parts.len() == 1 {
        assert(parts@[0]@ == sp[0]);
        let lower = to_lowercase_chars(&parts[0]);
        match key_from_lower(&lower) {
            Some(k) => Some((KeyModifiers::none(), k)),
            None => None,
        }
    } else if parts.len() == 2 {
        assert(parts@[0]@ == sp[0]);
        assert(parts@[1]@ == sp[1]);
        let upper = to_uppercase_chars(&parts[0]);
        let m = match modifier_from_upper(&upper) {
            Some(m) => m,
            None => return None,
        };
        let modifiers = KeyModifiers::none().union(m);
        proof {
            let b = m.bits;
            assert(0u8 | b == b) by (bit_vector);
            assert(modifiers == m);
        }
        let lower = to_lowercase_chars(&parts[1]);
        match key_from_lower(&lower) {
            Some(k) => Some((modifiers, k)),
            None => None,
        }
    } else {
        None
    }
}

/// The valid bindings among (action name, key description) pairs, parsed,
/// in order; pairs whose description does not parse are left out.
pub open spec fn parsed_bindings(bs: Seq<(Seq<char>, Seq<char>)>) -> Seq<(Seq<char>, (KeyModifiers, KeyCode))>
    decreases bs.len(),
{
    if bs.len() == 0 {
        seq![]
    } else {
        let p = parsed_bindings(bs.drop_last());
        match spec_parse_key_binding(bs.last().1) {
            Some(k) => p.push((bs.last().0, k)),
            None => p,
        }
    }
}

impl ConfigFile {
    /// The bindings as (action name, key description) pairs.
    pub open spec fn binding_list(self) -> Seq<(Seq<char>, Seq<char>)> {
        self.bindings@.map_values(|p: (String, String)| (p.0@, p.1@))
    }
}

impl Config {
    /// The configuration that a configuration file describes: the default
    /// one, with the prefix key replaced when the file gives a valid one,
    /// and with the file's valid bindings.
    pub fn from_file(file: &ConfigFile) -> (r: Config)
        ensures
            (r.prefix_modifiers, r.prefix_key) == match file.prefix {
                Some(p) => match spec_parse_key_binding(p@) {
                    Some(k) => k,
                    None => (KeyModifiers { bits: 2 }, KeyCode::Char('b')),
                },
                None => (KeyModifiers { bits: 2 }, KeyCode::Char('b')),
            },
            r.binding_list() == parsed_bindings(file.binding_list()),
    {
        let mut config = Config::default();
        if let Some(prefix) = &file.prefix {
            if let Some((mods, key)) = parse_key_binding(prefix.as_str()) {
                config.prefix_modifiers = mods;
                config.prefix_key = key;
            }
        }
        let ghost list = file.binding_list();
        let ghost pre = (config.prefix_modifiers, config.prefix_key);
        let mut i: usize = 0;
        while i < file.bindings.len()
            invariant
                list == file.binding_list(),
                i <= file.bindings@.len(),
                config.binding_list() == parsed_bindings(list.take(i as int)),
                (config.prefix_modifiers, config.prefix_key) == pre,
            decreases file.bindings.len() - i,
        {
            let entry = &file.bindings[i];
            let parsed = parse_key_binding(entry.1.as_str());
            proof {
                assert(list.take(i + 1).drop_last() =~= list.take(i as int));
                assert(list.take(i + 1).last() == (entry.0@, entry.1@));
            }
            if let Some(k) = parsed {
                let ghost before = config.binding_list();
                config.bindings.push((entry.0.clone(), k));
                proof {
                    assert(config.binding_list() =~= before.push((entry.0@, k)));
                }
            }
            i = i + 1;
        }
        proof {
            assert(list.take(i as int) =~= list);
        }
        config
    }
}

} // verus!
