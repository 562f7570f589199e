//! What a pane shows as its name: the program in the foreground of its
//! terminal, read from the kernel's process status line, or the shell.
use vstd::prelude::*;

use crate::text::{
    chars_to_string, parse_u64, spec_parse_unsigned, split_chars, split_on, split_whitespace_chars,
    str_to_chars, trim, trim_chars, words,
};

verus! {

/// Whether `k` is the position of the first `c` in `s`.
pub open spec fn is_first_index(s: Seq<char>, c: char, k: int) -> bool {
    &&& 0 <= k < s.len()
    &&& s[k] == c
    &&& forall|j: int| 0 <= j < k ==> s[j] != c
}

/// The position of the first `)` of a status line, which closes the
/// command name.
pub open spec fn comm_end(stat: Seq<char>) -> int {
    choose|k: int| is_first_index(stat, ')', k)
}

/// Whether a status line can be cut after its command name: when it holds
/// a `)`, a one-byte character follows it (the fields start one byte
/// further on).
pub open spec fn stat_cut_ok(stat: Seq<char>) -> bool {
    (exists|k: int| is_first_index(stat, ')', k)) ==> {
        let k = comm_end(stat);
        &&& k + 1 < stat.len()
        &&& (stat[k + 1] as u32) < 0x80
    }
}

/// The process group in the foreground of the terminal, from the line of
/// `/proc/<pid>/stat`: after the command name in brackets come the fields
/// `state ppid pgrp session tty_nr tpgid ...`, and `tpgid` is the sixth of
/// them. `None` when the line has no `)`, has fewer fields, when the field
/// is not a `u32`, or when it is 0.
pub open spec fn spec_foreground_pgid(stat: Seq<char>) -> Option<u32> {
    if exists|k: int| is_first_index(stat, ')', k) {
        let fields = words(stat.skip(comm_end(stat) + 2));
        if fields.len() > 5 {
            match spec_parse_unsigned(fields[5]) {
                Some(v) => if 0 < v <= u32::MAX { Some(v as u32) } else { None },
                None => None,
            }
        } else {
            None
        }
    } else {
        None
    }
}

proof fn lemma_first_index_unique(s: Seq<char>, c: char, a: int, b: int)
    requires
        is_first_index(s, c, a),
        is_first_index(s, c, b),
    ensures
        a == b,
{
    if a < b {
        assert(s[a] != c);
    } else if b < a {
        assert(s[b] != c);
    }
}

fn first_paren(chars: &Vec<char>) -> (r: Option<usize>)
    ensures
        r is None <==> !(exists|k: int| is_first_index(chars@, ')', k)),
        r matches Some(k) ==> k == comm_end(chars@) && is_first_index(chars@, ')', k as int),
{
    let n = chars.len();
    let mut i: usize = 0;
    while i < n && chars[i] != ')'
        invariant
            n == chars@.len(),
            i <= n,
            forall|j: int| 0 <= j < i ==> chars@[j] != ')',
        decreases n - i,
    {
        i = i + 1;
    }
    if i == n {
        proof {
            assert forall|k: int| !is_first_index(chars@, ')', k) by {
                if 0 <= k < n {
                    assert(chars@[k] != ')');
                }
            }
        }
        return None;
    }
    proof {
        assert(is_first_index(chars@, ')', i as int));
        let k = comm_end(chars@);
        lemma_first_index_unique(chars@, ')', k, i as int);
    }
    Some(i)
}

/// Whether a status line can be cut after its command name (see
/// `stat_cut_ok`).
pub fn can_cut_stat(stat: &str) -> (r: bool)
    ensures
        r == stat_cut_ok(stat@),
{
    let chars = str_to_chars(stat);
    match first_paren(&chars) {
        None => true,
        Some(i) => i < chars.len() - 1 && (chars[i + 1] as u32) < 0x80,
    }
}

/// The foreground process group of a terminal, from a status line (see
/// `spec_foreground_pgid`).
pub fn foreground_pgid(stat: &str) -> (r: Option<u32>)
    requires
        stat_cut_ok(stat@),
    ensures
        r == spec_foreground_pgid(stat@),
{
    let chars = str_to_chars(stat);
    let n = chars.len();
    let i = match first_paren(&chars) {
        None => return None,
        Some(i) => i,
    };
    let start = i + 2;
    let mut rest: Vec<char> = Vec::new();
    let mut j: usize = start;
    while j < n
        invariant
            n == chars@.len(),
            start <= n,
            start <= j <= n,
            rest@ == chars@.subrange(start as int, j as int),
        decreases n - j,
    {
        rest.push(chars[j]);
        j = j + 1;
        assert(rest@ =~= chars@.subrange(start as int, j as int));
    }
    assert(rest@ =~= stat@.skip(start as int));
    let fields = split_whitespace_chars(&rest);
    if fields.len() <= 5 {
        return None;
    }
    match parse_u64(&fields[5]) {
        Some(v) => {
            if 0 < v && v <= 0xFFFF_FFFF {
                Some(v as u32)
            } else {
                None
            }
        },
        None => None,
    }
}

/// The name of a program from its path: what follows the last `/`.
pub open spec fn spec_shell_name(shell: Seq<char>) -> Seq<char> {
    split_on(shell, '/').last()
}

proof fn lemma_split_on_nonempty(s: Seq<char>, sep: char)
    ensures
        split_on(s, sep).len() >= 1,
    decreases s.len(),
{
    if s.len() > 0 {
        lemma_split_on_nonempty(s.drop_last(), sep);
    }
}

/// The name a pane takes from the shell it runs: the last component of
/// the shell's path.
pub fn shell_name(shell: &str) -> (r: String)
    ensures
        r@ == spec_shell_name(shell@),
{
    let chars = str_to_chars(shell);
    let parts = split_chars(&chars, '/');
    proof {
        lemma_split_on_nonempty(chars@, '/');
    }
    let last = parts.len() - 1;
    assert(parts@[last as int]@ == split_on(chars@, '/')[last as int]);
    chars_to_string(&parts[last])
}

/// The name of a process from the contents of `/proc/<pid>/comm`, without
/// the surrounding white space.
pub fn process_name(comm: &str) -> (r: String)
    ensures
        r@ == trim(comm@),
{
    let chars = str_to_chars(comm);
    let t = trim_chars(&chars);
    chars_to_string(&t)
}

} // verus!
