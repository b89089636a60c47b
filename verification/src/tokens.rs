//! What the generated code needs from the Rust lexer: which names are
//! identifiers and which pieces of source text are sequences of tokens.
use vstd::prelude::*;
use proc_macro2::{LexError, TokenStream};
use std::str::FromStr;
use vstd::string::*;

verus! {

#[verifier::external_type_specification]
#[verifier::external_body]
pub struct ExTokenStream(TokenStream);

#[verifier::external_type_specification]
#[verifier::external_body]
pub struct ExLexError(LexError);

/// Whether `c` has the Unicode property XID_Start.
pub uninterp spec fn xid_start(c: char) -> bool;

/// Whether `c` has the Unicode property XID_Continue.
pub uninterp spec fn xid_continue(c: char) -> bool;

/// Whether proc-macro2's own lexer (`fallback::TokenStream::from_str_checked`)
/// accepts `s` as a sequence of tokens.
pub uninterp spec fn fallback_lexes(s: Seq<char>) -> bool;

/// Whether `c` is an ASCII letter.
pub open spec fn ascii_letter(c: char) -> bool {
    ('a' <= c && c <= 'z') || ('A' <= c && c <= 'Z')
}

/// Whether `c` is an ASCII digit.
pub open spec fn ascii_digit(c: char) -> bool {
    '0' <= c && c <= '9'
}

/// `unicode_ident::is_xid_start`: whether `c` has the Unicode property
/// XID_Start (a table lookup, named here rather than restated). For ASCII
/// characters the table (`ASCII_START`) holds exactly the letters.
#[verifier::external_body]
fn is_xid_start(c: char) -> (b: bool)
    ensures
        b == xid_start(c),
        (c as u32) < 128 ==> (b == ascii_letter(c)),
{
    unicode_ident::is_xid_start(c)
}

/// `unicode_ident::is_xid_continue`: whether `c` has the Unicode property
/// XID_Continue (a table lookup, named here rather than restated). For ASCII
/// characters the table (`ASCII_CONTINUE`) holds exactly the letters, the
/// digits and `_`.
#[verifier::external_body]
fn is_xid_continue(c: char) -> (b: bool)
    ensures
        b == xid_continue(c),
        (c as u32) < 128 ==> (b == (ascii_letter(c) || ascii_digit(c) || c == '_')),
{
    unicode_ident::is_xid_continue(c)
}

/// `proc_macro2::TokenStream::from_str`: lexes `s`. Whichever backend it
/// uses, the text first has to pass proc-macro2's own lexer, so it succeeds
/// only when `fallback_lexes(s@)`. Inside a procedural macro the compiler's
/// lexer must accept the text as well, so the call can fail on text that
/// `fallback_lexes` accepts: when it succeeds is not stated, nor what the
/// resulting tokens are.
#[verifier::external_body]
pub(crate) fn parse_tokens(s: &str) -> (r: Result<TokenStream, LexError>)
    ensures
        r is Ok ==> fallback_lexes(s@),
{
    TokenStream::from_str(s)
}

/// The identifiers that `proc_macro2::Ident::new` accepts: a non-empty name
/// starting with `_` or an XID_Start character and going on with
/// XID_Continue characters.
pub open spec fn is_ident(s: Seq<char>) -> bool {
    &&& s.len() > 0
    &&& (s[0] == '_' || xid_start(s[0]))
    &&& forall|i: int| 1 <= i < s.len() ==> #[trigger] xid_continue(s[i])
}

/// A name made of ASCII characters only, starting with a letter or `_` and
/// going on with letters, digits and `_`.
pub open spec fn is_ascii_ident(s: Seq<char>) -> bool {
    &&& s.len() > 0
    &&& (s[0] == '_' || ascii_letter(s[0]))
    &&& forall|i: int| 1 <= i < s.len() ==> #[trigger] ascii_letter(s[i]) || ascii_digit(s[i]) || s[i] == '_'
}

/// Whether `s` is an identifier; ASCII identifiers always are.
pub fn valid_ident(s: &str) -> (b: bool)
    ensures
        b == is_ident(s@),
        is_ascii_ident(s@) ==> b,
{
    let n = s.unicode_len();
    if n == 0 {
        return false;
    }
    let first = s.get_char(0);
    if !(first == '_' || is_xid_start(first)) {
        assert(!is_ascii_ident(s@));
        return false;
    }
    let mut i: usize = 1;
    while i < n
        invariant
            n == s@.len(),
            1 <= i <= n,
            forall|j: int| 1 <= j < i ==> #[trigger] xid_continue(s@[j]),
        decreases n - i,
    {
        let c = s.get_char(i);
        if !is_xid_continue(c) {
            assert(!(ascii_letter(s@[i as int]) || ascii_digit(s@[i as int]) || s@[i as int] == '_'));
            assert(!is_ascii_ident(s@));
            return false;
        }
        i = i + 1;
    }
    true
}

/// Whether the lexer accepts `s` as a sequence of tokens.
pub fn valid_tokens(s: &str) -> (b: bool)
    ensures
        b ==> fallback_lexes(s@),
{
    match parse_tokens(s) {
        Ok(_) => true,
        Err(_) => false,
    }
}

} // verus!
