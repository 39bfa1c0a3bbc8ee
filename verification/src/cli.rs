use vstd::prelude::*;

use crate::graph::{first_where, lemma_first_where};
use crate::text::{parse_usize, parse_usize_spec, text_eq};

verus! {

/// The pair of arguments at `i` reads `--limit` and a number.
pub open spec fn limit_flag_at(args: Seq<String>) -> spec_fn(int) -> bool {
    |i: int| args[i]@ == "--limit"@ && parse_usize_spec(args[i + 1]@) is Some
}

/// The number given after the first `--limit` that is followed by a number.
pub open spec fn limit_from(args: Seq<String>) -> Option<nat> {
    let pairs: nat = if args.len() >= 2 {
        (args.len() - 1) as nat
    } else {
        0
    };
    match first_where(limit_flag_at(args), pairs) {
        Some(i) => parse_usize_spec(args[i + 1]@),
        None => None,
    }
}

/// Finds a `--limit N` among the arguments.
pub fn parse_limit(extra: &[String]) -> (r: Option<usize>)
    ensures
        match r {
            Some(v) => limit_from(extra@) == Some(v as nat),
            None => limit_from(extra@) is None,
        },
{
    let ghost args = extra@;
    let ghost pred = limit_flag_at(args);
    if extra.len() < 2 {
        proof {
            lemma_first_where(pred, 0);
        }
        return None;
    }
    let pairs = extra.len() - 1;
    let mut i: usize = 0;
    proof {
        lemma_first_where(pred, 0);
    }
    while i < pairs
        invariant
            args == extra@,
            pred == limit_flag_at(args),
            pairs + 1 == args.len(),
            i <= pairs,
            first_where(pred, i as nat) is None,
        decreases pairs - i,
    {
        proof {
            lemma_first_where(pred, i as nat);
            lemma_first_where(pred, (i + 1) as nat);
            lemma_first_where(pred, pairs as nat);
        }
        if text_eq(extra[i].as_str(), "--limit") {
            let parsed = parse_usize(extra[i + 1].as_str());
            if parsed.is_some() {
                assert(pred(i as int));
                return parsed;
            }
        }
        assert(!pred(i as int));
        i = i + 1;
    }
    None
}

} // verus!
