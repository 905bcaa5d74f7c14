//! Contains parsing for things after the `=`. Includes a function for parsing the RHS (standalone)
use vstd::prelude::*;

use crate::machine::{lemma_safe_run, run, safe, SpecOutcome, SpecParser};
use crate::utilities::keys_agree;
use crate::{answered_by, keys_view, RootTOMLValue, TOMLKey, TOMLKeyContext, TOMLParseError, TOMLParseOptions};

verus! {

/// Parses a lone value (the right-hand side of `=`), handing each value in
/// it to `cb`. Returns `Some` with the byte offset reached if `cb` asked to
/// stop.
///
/// # Errors
/// errors on invalid TOML syntax
pub fn parse_toml_with_options<'a, F>(on: &'a str, options: TOMLParseOptions, cb: F) -> (r: Result<Option<usize>, TOMLParseError>)
    where
        F: FnMut(&[TOMLKey<'a>], &TOMLKeyContext, RootTOMLValue<'a>) -> bool,
    requires
        safe(SpecParser::init(on@, options.yield_comments, false)),
        forall|f: F, k: &[TOMLKey<'a>], c: &TOMLKeyContext, v: RootTOMLValue<'a>|
            keys_agree(keys_view(k@), c@) && (options.yield_comments || !(v@ is Comment)) ==> call_requires(f, (k, c, v)),
    ensures
        exists|answers: Seq<bool>|
            answered_by::<'a, F>(#[trigger] run(SpecParser::init(on@, options.yield_comments, false), answers).0, answers)
            && SpecOutcome::Done(r) == run(SpecParser::init(on@, options.yield_comments, false), answers).1,
{
    let _bytes = crate::text::str_byte_len(on);
    proof {
        crate::text::lemma_len_le_byte_len(on@);
        assert forall|answers: Seq<bool>| #[trigger]
            run(SpecParser::init(on@, options.yield_comments, false), answers).1 is Done by {
            lemma_safe_run(SpecParser::init(on@, options.yield_comments, false), answers);
        }
    }
    match crate::drive(on, options.yield_comments, false, cb) {
        Some(r) => r,
        None => {
            proof {
                assert(false);
            }
            Ok(None)
        },
    }
}

/// Parses a lone value as [`parse_toml_with_options`] does, or gives `None`
/// where the lexer reaches a construct it does not handle.
pub fn try_parse_toml_with_options<'a, F>(on: &'a str, options: TOMLParseOptions, cb: F) -> (r: Option<Result<Option<usize>, TOMLParseError>>)
    where
        F: FnMut(&[TOMLKey<'a>], &TOMLKeyContext, RootTOMLValue<'a>) -> bool,
    requires
        forall|f: F, k: &[TOMLKey<'a>], c: &TOMLKeyContext, v: RootTOMLValue<'a>|
            keys_agree(keys_view(k@), c@) && (options.yield_comments || !(v@ is Comment)) ==> call_requires(f, (k, c, v)),
    ensures
        exists|answers: Seq<bool>|
            answered_by::<'a, F>(#[trigger] run(SpecParser::init(on@, options.yield_comments, false), answers).0, answers)
            && match run(SpecParser::init(on@, options.yield_comments, false), answers).1 {
                SpecOutcome::Done(res) => r == Some(res),
                SpecOutcome::Faulted => r is None,
            },
{
    crate::drive(on, options.yield_comments, false, cb)
}

} // verus!
