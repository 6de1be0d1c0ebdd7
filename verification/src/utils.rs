//! Views of a constant as text.

use crate::model::LuaConstant;
use crate::outside::{alphabetic, alphanumeric, is_alphabetic, is_alphanumeric, utf8_text};
use vstd::prelude::*;
use vstd::string::StrSliceExecFns;
use vstd::string::StringSliceAdditionalSpecFns;
use vstd::utf8::{decode_utf8, encode_utf8_decode_utf8, valid_utf8};

verus! {

/// `t` is a reserved word of Lua.
pub open spec fn is_keyword(t: Seq<char>) -> bool {
    ||| t == "and"@
    ||| t == "break"@
    ||| t == "do"@
    ||| t == "else"@
    ||| t == "elseif"@
    ||| t == "end"@
    ||| t == "false"@
    ||| t == "for"@
    ||| t == "function"@
    ||| t == "if"@
    ||| t == "in"@
    ||| t == "local"@
    ||| t == "nil"@
    ||| t == "not"@
    ||| t == "or"@
    ||| t == "repeat"@
    ||| t == "return"@
    ||| t == "then"@
    ||| t == "true"@
    ||| t == "until"@
    ||| t == "while"@
}

/// `c` may start an identifier: a letter or an underscore.
pub open spec fn ident_start(c: char) -> bool {
    alphabetic(c) || c == '_'
}

/// `c` may stand inside an identifier: a letter, a digit or an underscore.
pub open spec fn ident_part(c: char) -> bool {
    alphanumeric(c) || c == '_'
}

/// `t` can be written as an identifier: it is no reserved word, starts
/// with a letter or an underscore and goes on with letters, digits and
/// underscores.
pub open spec fn is_ident(t: Seq<char>) -> bool {
    &&& !is_keyword(t)
    &&& t.len() > 0
    &&& ident_start(t[0])
    &&& forall|i: int| 1 <= i < t.len() ==> ident_part(#[trigger] t[i])
}

/// The two texts are the same.
pub fn text_is(a: &str, b: &str) -> (r: bool)
    ensures
        r == (a@ == b@),
{
    let n = a.unicode_len();
    if n != b.unicode_len() {
        return false;
    }
    let mut i: usize = 0;
    while i < n
        invariant
            i <= n,
            n == a@.len(),
            n == b@.len(),
            forall|j: int| 0 <= j < i ==> a@[j] == b@[j],
        decreases n - i,
    {
        if a.get_char(i) != b.get_char(i) {
            return false;
        }
        i += 1;
    }
    assert(a@ =~= b@);
    true
}

/// The text is a reserved word of Lua.
pub fn keyword(s: &str) -> (r: bool)
    ensures
        r == is_keyword(s@),
{
    text_is(s, "and") || text_is(s, "break") || text_is(s, "do") || text_is(s, "else") || text_is(
        s,
        "elseif",
    ) || text_is(s, "end") || text_is(s, "false") || text_is(s, "for") || text_is(s, "function")
        || text_is(s, "if") || text_is(s, "in") || text_is(s, "local") || text_is(s, "nil")
        || text_is(s, "not") || text_is(s, "or") || text_is(s, "repeat") || text_is(s, "return")
        || text_is(s, "then") || text_is(s, "true") || text_is(s, "until") || text_is(s, "while")
}

impl LuaConstant {
    /// The text of a string constant that is valid UTF-8; nothing for any
    /// other constant.
    pub fn as_literal_str(&self) -> (r: Option<&str>)
        ensures
            match *self {
                LuaConstant::String(bytes) => if valid_utf8(bytes@) {
                    r is Some && r->Some_0.spec_bytes() == bytes@ && r->Some_0@ == decode_utf8(
                        bytes@,
                    )
                } else {
                    r is None
                },
                _ => r is None,
            },
    {
        match self {
            LuaConstant::String(bytes) => {
                let r = utf8_text(bytes.as_slice());
                proof {
                    if r is Some {
                        encode_utf8_decode_utf8(r->Some_0@);
                    }
                }
                r
            },
            _ => None,
        }
    }

    /// The text of a string constant that can be written as an identifier;
    /// nothing for any other constant.
    pub fn as_ident_str(&self) -> (r: Option<&str>)
        ensures
            match *self {
                LuaConstant::String(bytes) => if valid_utf8(bytes@) && is_ident(
                    decode_utf8(bytes@),
                ) {
                    r is Some && r->Some_0.spec_bytes() == bytes@ && r->Some_0@ == decode_utf8(
                        bytes@,
                    )
                } else {
                    r is None
                },
                _ => r is None,
            },
    {
        let s = match self.as_literal_str() {
            Some(s) => s,
            None => { return None; },
        };
        if keyword(s) {
            return None;
        }
        let n = s.unicode_len();
        if n == 0 {
            return None;
        }
        let first = s.get_char(0);
        if !(is_alphabetic(first) || first == '_') {
            return None;
        }
        let mut i: usize = 1;
        while i < n
            invariant
                1 <= i <= n,
                n == s@.len(),
                match *self {
                    LuaConstant::String(bytes) => s@ == decode_utf8(bytes@),
                    _ => false,
                },
                forall|j: int| 1 <= j < i ==> ident_part(#[trigger] s@[j]),
            decreases n - i,
        {
            let c = s.get_char(i);
            if !(is_alphanumeric(c) || c == '_') {
                return None;
            }
            i += 1;
        }
        Some(s)
    }
}

} // verus!
