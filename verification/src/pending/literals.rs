//! The closing markers, as strings whose bytes are known.
use vstd::prelude::*;
use vstd::string::*;
use vstd::utf8::*;
use crate::bytes::{BACKTICK, DOLLAR, STAR, TILDE, UNDERSCORE};
use crate::utf8::lemma_ascii_literal;

verus! {

/// The string `*`.
pub fn one_star() -> (r: &'static str)
    ensures
        r.spec_bytes() == seq![STAR],
{
    let r = "*";
    proof {
        reveal_strlit("*");
        lemma_ascii_literal(r@, seq![STAR]);
    }
    r
}

/// The string `**`.
pub fn two_stars() -> (r: &'static str)
    ensures
        r.spec_bytes() == seq![STAR, STAR],
{
    let r = "**";
    proof {
        reveal_strlit("**");
        lemma_ascii_literal(r@, seq![STAR, STAR]);
    }
    r
}

/// The string `***`.
pub fn three_stars() -> (r: &'static str)
    ensures
        r.spec_bytes() == seq![STAR, STAR, STAR],
{
    let r = "***";
    proof {
        reveal_strlit("***");
        lemma_ascii_literal(r@, seq![STAR, STAR, STAR]);
    }
    r
}

/// The string `_`.
pub fn one_underscore() -> (r: &'static str)
    ensures
        r.spec_bytes() == seq![UNDERSCORE],
{
    let r = "_";
    proof {
        reveal_strlit("_");
        lemma_ascii_literal(r@, seq![UNDERSCORE]);
    }
    r
}

/// The string `__`.
pub fn two_underscores() -> (r: &'static str)
    ensures
        r.spec_bytes() == seq![UNDERSCORE, UNDERSCORE],
{
    let r = "__";
    proof {
        reveal_strlit("__");
        lemma_ascii_literal(r@, seq![UNDERSCORE, UNDERSCORE]);
    }
    r
}

/// The string `_**`.
pub fn underscore_two_stars() -> (r: &'static str)
    ensures
        r.spec_bytes() == seq![UNDERSCORE, STAR, STAR],
{
    let r = "_**";
    proof {
        reveal_strlit("_**");
        lemma_ascii_literal(r@, seq![UNDERSCORE, STAR, STAR]);
    }
    r
}

/// The string of one backtick.
pub fn one_backtick() -> (r: &'static str)
    ensures
        r.spec_bytes() == seq![BACKTICK],
{
    let r = "`";
    proof {
        reveal_strlit("`");
        lemma_ascii_literal(r@, seq![BACKTICK]);
    }
    r
}

/// The string `~~`.
pub fn two_tildes() -> (r: &'static str)
    ensures
        r.spec_bytes() == seq![TILDE, TILDE],
{
    let r = "~~";
    proof {
        reveal_strlit("~~");
        lemma_ascii_literal(r@, seq![TILDE, TILDE]);
    }
    r
}

/// The string `$$`.
pub fn two_dollars() -> (r: &'static str)
    ensures
        r.spec_bytes() == seq![DOLLAR, DOLLAR],
{
    let r = "$$";
    proof {
        reveal_strlit("$$");
        lemma_ascii_literal(r@, seq![DOLLAR, DOLLAR]);
    }
    r
}

} // verus!
