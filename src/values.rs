//! Classification of single grapheme clusters.

use vstd::prelude::*;

verus! {

/// The grapheme consists of exactly the character `c`.
pub open spec fn is_char_spec(g: Seq<char>, c: char) -> bool {
    g.len() == 1 && g[0] == c
}

/// ASCII punctuation, space and DEL: the ranges 0x20-0x2F, 0x3A-0x40,
/// 0x5B-0x60 and 0x7B-0x7F.
pub open spec fn is_special_char(c: char) -> bool {
    let u = c as u32;
    (0x20 <= u <= 0x2F) || (0x3A <= u <= 0x40) || (0x5B <= u <= 0x60) || (0x7B <= u <= 0x7F)
}

/// A C0 control character other than tab, line feed and carriage return.
pub open spec fn is_disallowed_char(c: char) -> bool {
    let u = c as u32;
    u <= 0x1F && u != 0x09 && u != 0x0A && u != 0x0D
}

pub open spec fn is_special_spec(g: Seq<char>) -> bool {
    g.len() == 1 && is_special_char(g[0])
}

pub open spec fn is_valid_spec(g: Seq<char>) -> bool {
    !(g.len() == 1 && is_disallowed_char(g[0]))
}

pub open spec fn is_newline_spec(g: Seq<char>) -> bool {
    g == seq!['\n'] || g == seq!['\r', '\n'] || g == seq!['\r']
}

pub open spec fn is_space_spec(g: Seq<char>) -> bool {
    is_char_spec(g, ' ')
}

pub open spec fn is_tab_spec(g: Seq<char>) -> bool {
    is_char_spec(g, '\t')
}

/// Identifier-forming graphemes.
pub open spec fn is_regular_spec(g: Seq<char>) -> bool {
    is_valid_spec(g) && !is_special_spec(g) && !is_newline_spec(g)
}

/// Detects the non-alphanumeric characters of the printable ASCII range.
pub fn is_special(token: &str) -> (r: bool)
    ensures
        r == is_special_spec(token@),
{
    if token.unicode_len() != 1 {
        return false;
    }
    let u = token.get_char(0) as u32;
    (0x20 <= u && u <= 0x2F) || (0x3A <= u && u <= 0x40) || (0x5B <= u && u <= 0x60) || (0x7B
        <= u && u <= 0x7F)
}

/// Rejects the non-printable characters of the lower ASCII range, except
/// tab, line feed and carriage return.
pub fn is_valid(token: &str) -> (r: bool)
    ensures
        r == is_valid_spec(token@),
{
    if token.unicode_len() != 1 {
        return true;
    }
    let u = token.get_char(0) as u32;
    !(u <= 0x1F && u != 0x09 && u != 0x0A && u != 0x0D)
}

/// Detects the usual newline sequences `\n`, `\r\n` and `\r`.
pub fn is_newline(token: &str) -> (r: bool)
    ensures
        r == is_newline_spec(token@),
{
    let n = token.unicode_len();
    if n == 1 {
        let c = token.get_char(0);
        proof {
            if c == '\n' {
                assert(token@ =~= seq!['\n']);
            }
            if c == '\r' {
                assert(token@ =~= seq!['\r']);
            }
        }
        c == '\n' || c == '\r'
    } else if n == 2 {
        let c0 = token.get_char(0);
        let c1 = token.get_char(1);
        proof {
            if c0 == '\r' && c1 == '\n' {
                assert(token@ =~= seq!['\r', '\n']);
            }
        }
        c0 == '\r' && c1 == '\n'
    } else {
        false
    }
}

/// Detects a single space.
pub fn is_space(token: &str) -> (r: bool)
    ensures
        r == is_space_spec(token@),
{
    token.unicode_len() == 1 && token.get_char(0) == ' '
}

/// Detects a single tab.
pub fn is_tab(token: &str) -> (r: bool)
    ensures
        r == is_tab_spec(token@),
{
    token.unicode_len() == 1 && token.get_char(0) == '\t'
}

/// Detects identifier-forming graphemes: valid, not special, not a newline.
pub fn is_regular(token: &str) -> (r: bool)
    ensures
        r == is_regular_spec(token@),
{
    is_valid(token) && !is_special(token) && !is_newline(token)
}

} // verus!
