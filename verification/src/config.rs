//! What a run is asked to do, and which products of a summary it asks for.

use crate::response::summary::Record as SummaryRecord;
use crate::response::summary::RecordView as SummaryRecordView;
use crate::response::summary::Response as SummaryResponse;
use crate::text::str_eq;
use vstd::prelude::*;

verus! {

/// The switch that a pair of flags amounts to: on where the flag for it is
/// given, off where the flag against it is given, and `default` where
/// neither is.
pub open spec fn spec_resolve(yes: bool, no: bool, default: bool) -> bool {
    if yes {
        true
    } else if no {
        false
    } else {
        default
    }
}

/// Resolves a pair of flags of which at most one is given.
pub fn resolve_switched_arg(yes: bool, no: bool, default: bool) -> (res: bool)
    requires
        !(yes && no),
    ensures
        res == spec_resolve(yes, no, default),
{
    if yes {
        true
    } else if no {
        false
    } else {
        default
    }
}

/// What a run is asked to do.
#[derive(Debug, Clone, Copy, PartialEq, Eq, Structural)]
pub struct RunConfig {
    /// Only ask for the products that most users can play.
    pub live_only: bool,
    /// Write the result on several indented lines.
    pub pretty_print: bool,
}

impl RunConfig {
    /// The run that the four flags ask for. Both switches are on unless the
    /// flag against them is given.
    pub fn from_switches(live_only: bool, no_live_only: bool, pretty: bool, no_pretty: bool) -> (res:
        RunConfig)
        requires
            !(live_only && no_live_only),
            !(pretty && no_pretty),
        ensures
            res.live_only == !no_live_only,
            res.pretty_print == !no_pretty,
    {
        RunConfig {
            live_only: resolve_switched_arg(live_only, no_live_only, true),
            pretty_print: resolve_switched_arg(pretty, no_pretty, true),
        }
    }
}

/// Whether `name` is one of the products that most users can play.
pub open spec fn spec_is_live_product(name: Seq<char>) -> bool {
    name == "wow"@ || name == "wow_classic"@ || name == "wow_classic_era"@
}

/// Whether `name` is one of the products that most users can play.
pub fn is_live_product(name: &str) -> (res: bool)
    ensures
        res == spec_is_live_product(name@),
{
    str_eq(name, "wow") || str_eq(name, "wow_classic") || str_eq(name, "wow_classic_era")
}

/// Whether the versions of the product of a summary record are asked for: it
/// has no flags, and it is a live product where only those are wanted.
pub open spec fn spec_wanted(record: SummaryRecordView, live_only: bool) -> bool {
    (!live_only || spec_is_live_product(record.product)) && record.flags.len() == 0
}

/// The names of the products whose versions are asked for, in the order of
/// their records.
pub open spec fn spec_matching_products(records: Seq<SummaryRecordView>, live_only: bool) -> Seq<
    Seq<char>,
>
    decreases records.len(),
{
    if records.len() == 0 {
        Seq::empty()
    } else if spec_wanted(records.last(), live_only) {
        spec_matching_products(records.drop_last(), live_only).push(records.last().product)
    } else {
        spec_matching_products(records.drop_last(), live_only)
    }
}

/// The texts of a sequence of strings.
pub open spec fn names_view(names: Seq<String>) -> Seq<Seq<char>> {
    Seq::new(names.len(), |i: int| names[i]@)
}

/// Whether the versions of the product of a summary record are asked for.
pub fn is_wanted(record: &SummaryRecord, live_only: bool) -> (res: bool)
    ensures
        res == spec_wanted(record@, live_only),
{
    (!live_only || is_live_product(record.product.as_str())) && record.flags.as_str().is_empty()
}

/// The names of the products of a summary whose versions are asked for.
pub fn matching_products(summary: &SummaryResponse, live_only: bool) -> (res: Vec<String>)
    ensures
        names_view(res@) == spec_matching_products(summary@.records, live_only),
{
    let mut res: Vec<String> = Vec::new();
    let mut i: usize = 0;
    proof {
        assert(summary@.records.take(0) =~= Seq::empty());
        assert(names_view(res@) =~= Seq::empty());
    }
    while i < summary.records.len()
        invariant
            i <= summary.records@.len(),
            names_view(res@) == spec_matching_products(summary@.records.take(i as int), live_only),
        decreases summary.records@.len() - i,
    {
        let record = &summary.records[i];
        let ghost before = names_view(res@);
        proof {
            assert(summary@.records.take(i + 1).drop_last() =~= summary@.records.take(i as int));
            assert(summary@.records.take(i + 1).last() == record@);
        }
        if is_wanted(record, live_only) {
            let name = record.product.clone();
            res.push(name);
            proof {
                assert(names_view(res@) =~= before.push(record@.product));
            }
        }
        i += 1;
    }
    proof {
        assert(summary@.records.take(i as int) =~= summary@.records);
    }
    res
}

} // verus!
