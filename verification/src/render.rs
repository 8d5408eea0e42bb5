//! Rendering of the match list as comma-separated values: a fixed header
//! line, then one `name,count` line per match record. Banned names are bare
//! identifiers, so no quoting is needed.

use vstd::prelude::*;

use crate::matcher::{record_views, MatchRecord};
use crate::strutil::push_char;

verus! {

/// The decimal digit character for the value `d`.
pub open spec fn dec_digit(d: int) -> char {
    (48 + d) as char
}

/// The decimal rendering of a non-negative number, most significant digit
/// first, with no leading zeros (a lone zero for 0).
pub open spec fn dec_rep(n: int) -> Seq<char>
    recommends
        n >= 0,
    decreases n
        when n >= 0
{
    if n < 10 {
        seq![dec_digit(n)]
    } else {
        dec_rep(n / 10).push(dec_digit(n % 10))
    }
}

/// Renders a count in decimal.
pub fn count_to_string(n: usize) -> (s: String)
    ensures
        s@ == dec_rep(n as int),
    decreases n,
{
    if n < 10 {
        let mut s = String::new();
        push_char(&mut s, (48 + n as u8) as char);
        s
    } else {
        let mut s = count_to_string(n / 10);
        push_char(&mut s, (48 + (n % 10) as u8) as char);
        s
    }
}

/// The CSV rendering of a match list: the header line, then one
/// `name,count` line per record, in list order.
pub open spec fn csv_spec(recs: Seq<(Seq<char>, int)>) -> Seq<char>
    decreases recs.len(),
{
    if recs.len() == 0 {
        "function,occurrences\n"@
    } else {
        csv_spec(recs.drop_last()) + recs.last().0 + seq![','] + dec_rep(recs.last().1) + seq![
            '\n',
        ]
    }
}

/// Renders the match list as CSV: a `function,occurrences` header, then one
/// `name,count` line per record.
pub fn matches_to_csv(matches: &[MatchRecord]) -> (s: String)
    ensures
        s@ == csv_spec(record_views(matches@)),
{
    let mut s = String::from_str("function,occurrences\n");
    let mut i: usize = 0;
    while i < matches.len()
        invariant
            i <= matches@.len(),
            s@ == csv_spec(record_views(matches@).take(i as int)),
        decreases matches@.len() - i,
    {
        let m = &matches[i];
        s.append(m.function.as_str());
        push_char(&mut s, ',');
        let c = count_to_string(m.occurrences);
        s.append(c.as_str());
        push_char(&mut s, '\n');
        proof {
            let rv = record_views(matches@);
            assert(rv.take(i + 1 as int).drop_last() =~= rv.take(i as int));
            assert(rv.take(i + 1 as int).last() == rv[i as int]);
            assert(s@ =~= csv_spec(rv.take(i + 1 as int)));
        }
        i += 1;
    }
    proof {
        assert(record_views(matches@).take(matches@.len() as int) =~= record_views(matches@));
    }
    s
}

} // verus!
