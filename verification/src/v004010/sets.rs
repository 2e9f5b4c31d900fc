//! The grammars of the transaction sets: which segments a set holds, in what
//! order, how often each may repeat, and which of them form loops.

use crate::bytes::bytes_eq;
use crate::engine::{instance_result_is, parse_loop, parse_slots, LoopInstance};
use crate::error::ParseError;
use crate::grammar::{
    loop_of, optional_of, repeated_of, single_of, tag, tag_bytes, LoopSpec, Slot, SlotModel,
};
use crate::segment::{segment_models, Segment};
use vstd::prelude::*;

verus! {

/// 204 - Motor Carrier Load Tender.
pub struct _204;

/// 301 - Confirmation (Ocean).
pub struct _301;

/// 310 - Freight Receipt and Invoice (Ocean).
pub struct _310;

/// 315 - Status Details (Ocean).
pub struct _315;

/// A type of transaction set: it has a grammar, by which sets of the type
/// are matched.
pub trait TransactionSet {
    /// The grammar of the set.
    spec fn model() -> Seq<SlotModel>;

    /// Builds the grammar of the set.
    fn grammar() -> (g: LoopSpec)
        ensures
            g@ == Self::model(),
    ;

    /// Matches one set of this type against the segments from `start` on and
    /// returns it with the position of the first segment after it.
    fn parse(input: &Vec<Segment>, start: usize) -> (r: Result<(LoopInstance, usize), ParseError>)
        requires
            start <= input.len(),
        ensures
            instance_result_is(
                r,
                parse_slots(Self::model(), segment_models(input@), start as int),
            ),
            r matches Ok((_, end)) ==> start <= end <= input.len(),
    {
        let g = Self::grammar();
        parse_loop(&g, input, start)
    }
}

/// Loop 0100 of the 204: a party with its address and contacts.
pub open spec fn grammar_204_party_with_reference() -> Seq<SlotModel> {
    seq![
        optional_of("N1"),
        optional_of("N2"),
        repeated_of("N3", 2),
        optional_of("N4"),
        optional_of("L11"),
        repeated_of("G61", 3),
    ]
}

/// Loops 0200 and 0380 of the 204: a piece of equipment.
pub open spec fn grammar_204_equipment() -> Seq<SlotModel> {
    seq![
        optional_of("N7"),
        optional_of("N7A"),
        optional_of("N7B"),
        optional_of("MEA"),
        optional_of("M7"),
    ]
}

/// Loop 0310 of the 204: a party at a stop.
pub open spec fn grammar_204_party() -> Seq<SlotModel> {
    seq![
        optional_of("N1"),
        optional_of("N2"),
        repeated_of("N3", 2),
        optional_of("N4"),
        repeated_of("G61", 3),
    ]
}

/// Loop 0320 of the 204: a description of the lading.
pub open spec fn grammar_204_description() -> Seq<SlotModel> {
    seq![optional_of("L5"), optional_of("AT8")]
}

/// Loop 0300 of the 204: a stop with its parties, ladings and equipment.
pub open spec fn grammar_204_stop() -> Seq<SlotModel> {
    seq![
        single_of("S5"),
        repeated_of("L11", 50),
        repeated_of("G62", 2),
        optional_of("AT8"),
        repeated_of("LAD", 999),
        repeated_of("AT5", 6),
        optional_of("PLD"),
        repeated_of("NTE", 20),
        loop_of(grammar_204_party(), 1),
        loop_of(grammar_204_description(), 99),
        loop_of(grammar_204_equipment(), 10),
    ]
}

/// The grammar of the 204.
#[verifier::opaque]
pub open spec fn grammar_204() -> Seq<SlotModel> {
    seq![
        single_of("ST"),
        single_of("B2"),
        single_of("B2A"),
        repeated_of("L11", 50),
        optional_of("G62"),
        optional_of("MS3"),
        optional_of("AT5"),
        optional_of("PLD"),
        optional_of("LH6"),
        optional_of("NTE"),
        loop_of(grammar_204_party_with_reference(), 5),
        loop_of(grammar_204_equipment(), 10),
        loop_of(grammar_204_stop(), 999),
        optional_of("L3"),
        single_of("SE"),
    ]
}

/// The grammar of the 301: one fixed sequence of segments, each of them owed.
#[verifier::opaque]
pub open spec fn grammar_301() -> Seq<SlotModel> {
    seq![
        single_of("ST"),
        single_of("B1"),
        single_of("Y3"),
        single_of("Y4"),
        single_of("N9"),
        single_of("N1"),
        single_of("N3"),
        single_of("N4"),
        single_of("R4"),
        single_of("R4"),
        single_of("DTM"),
        single_of("R4"),
        single_of("LX"),
        single_of("L0"),
        single_of("L5"),
        single_of("V1"),
        single_of("SE"),
    ]
}

/// Loop N1 of the 310: a party with its address.
pub open spec fn grammar_310_party() -> Seq<SlotModel> {
    seq![single_of("N1"), optional_of("N2"), optional_of("N3"), optional_of("N4")]
}

/// Loop R4 of the 310: a port or terminal with its date.
pub open spec fn grammar_310_port() -> Seq<SlotModel> {
    seq![single_of("R4"), optional_of("DTM")]
}

/// Loop C8 of the 310: a certification with its continuation.
pub open spec fn grammar_310_clause() -> Seq<SlotModel> {
    seq![optional_of("C8"), optional_of("C8C")]
}

/// Loop N7 of the 310: a piece of equipment with its seals.
pub open spec fn grammar_310_equipment() -> Seq<SlotModel> {
    seq![optional_of("N7"), repeated_of("M7", 5)]
}

/// Loop L0 of the 310: a line item with its descriptions.
pub open spec fn grammar_310_line_item() -> Seq<SlotModel> {
    seq![optional_of("L0"), repeated_of("L5", 999)]
}

/// Loop LX of the 310: an assigned number with its equipment and line items.
pub open spec fn grammar_310_detail() -> Seq<SlotModel> {
    seq![
        single_of("LX"),
        loop_of(grammar_310_equipment(), 999),
        loop_of(grammar_310_line_item(), 120),
    ]
}

/// Loop L1 of the 310: a rate with its currency.
pub open spec fn grammar_310_rate() -> Seq<SlotModel> {
    seq![optional_of("L1"), optional_of("C3")]
}

/// The heading of the 310: what stands before the details.
pub open spec fn grammar_310_heading() -> Seq<SlotModel> {
    seq![
        single_of("ST"),
        single_of("B3"),
        optional_of("B2A"),
        repeated_of("Y6", 2),
        optional_of("G3"),
        repeated_of("N9", 15),
        repeated_of("V1", 2),
        optional_of("M0"),
        repeated_of("M1", 5),
        optional_of("C2"),
        optional_of("C3"),
        repeated_of("Y2", 10),
        loop_of(grammar_310_party(), 10),
        repeated_of("G61", 3),
        loop_of(grammar_310_port(), 20),
        repeated_of("R2A", 25),
        repeated_of("R2", 13),
        repeated_of("K1", 12),
        repeated_of("H3", 6),
        optional_of("L5"),
        loop_of(grammar_310_clause(), 20),
    ]
}

/// The summary of the 310: what stands behind the details.
pub open spec fn grammar_310_summary() -> Seq<SlotModel> {
    seq![
        single_of("L3"),
        repeated_of("PWK", 25),
        loop_of(grammar_310_rate(), 20),
        repeated_of("V9", 10),
        repeated_of("C8", 20),
        repeated_of("K1", 999),
        optional_of("L11"),
        single_of("SE"),
    ]
}

/// The grammar of the 310: the heading, the details, and the summary.
#[verifier::opaque]
pub open spec fn grammar_310() -> Seq<SlotModel> {
    grammar_310_heading() + seq![loop_of(grammar_310_detail(), 999)] + grammar_310_summary()
}

/// Loop R4 of the 315: a port or terminal with its dates.
pub open spec fn grammar_315_port() -> Seq<SlotModel> {
    seq![single_of("R4"), repeated_of("DTM", 15)]
}

/// The grammar of the 315.
#[verifier::opaque]
pub open spec fn grammar_315() -> Seq<SlotModel> {
    seq![
        single_of("ST"),
        single_of("B4"),
        repeated_of("N9", 30),
        optional_of("Q2"),
        repeated_of("SG", 15),
        loop_of(grammar_315_port(), 20),
        optional_of("V9"),
        single_of("SE"),
    ]
}

/// The grammar registered for a transaction-set identifier, if any.
pub open spec fn registered(id: Seq<u8>) -> Option<Seq<SlotModel>> {
    if id == tag("204") {
        Some(grammar_204())
    } else if id == tag("301") {
        Some(grammar_301())
    } else if id == tag("310") {
        Some(grammar_310())
    } else if id == tag("315") {
        Some(grammar_315())
    } else {
        None
    }
}

/// The party loop at the head of the 204.
fn party_with_reference_204() -> (g: LoopSpec)
    ensures
        g@ == grammar_204_party_with_reference(),
{
    let mut g = LoopSpec::new();
    g.push(Slot::optional("N1"));
    g.push(Slot::optional("N2"));
    g.push(Slot::repeated("N3", 2));
    g.push(Slot::optional("N4"));
    g.push(Slot::optional("L11"));
    g.push(Slot::repeated("G61", 3));
    g
}

/// The party loop of a stop of the 204.
fn party_204() -> (g: LoopSpec)
    ensures
        g@ == grammar_204_party(),
{
    let mut g = LoopSpec::new();
    g.push(Slot::optional("N1"));
    g.push(Slot::optional("N2"));
    g.push(Slot::repeated("N3", 2));
    g.push(Slot::optional("N4"));
    g.push(Slot::repeated("G61", 3));
    g
}

/// The description loop of a stop of the 204.
fn description_204() -> (g: LoopSpec)
    ensures
        g@ == grammar_204_description(),
{
    let mut g = LoopSpec::new();
    g.push(Slot::optional("L5"));
    g.push(Slot::optional("AT8"));
    g
}

/// The party loop of the 310.
fn party_310() -> (g: LoopSpec)
    ensures
        g@ == grammar_310_party(),
{
    let mut g = LoopSpec::new();
    g.push(Slot::single("N1"));
    g.push(Slot::optional("N2"));
    g.push(Slot::optional("N3"));
    g.push(Slot::optional("N4"));
    g
}

/// The port loop of the 310.
fn port_310() -> (g: LoopSpec)
    ensures
        g@ == grammar_310_port(),
{
    let mut g = LoopSpec::new();
    g.push(Slot::single("R4"));
    g.push(Slot::optional("DTM"));
    g
}

/// The certification loop of the 310.
fn clause_310() -> (g: LoopSpec)
    ensures
        g@ == grammar_310_clause(),
{
    let mut g = LoopSpec::new();
    g.push(Slot::optional("C8"));
    g.push(Slot::optional("C8C"));
    g
}

/// The equipment loop of the 310.
fn equipment_310() -> (g: LoopSpec)
    ensures
        g@ == grammar_310_equipment(),
{
    let mut g = LoopSpec::new();
    g.push(Slot::optional("N7"));
    g.push(Slot::repeated("M7", 5));
    g
}

/// The line-item loop of the 310.
fn line_item_310() -> (g: LoopSpec)
    ensures
        g@ == grammar_310_line_item(),
{
    let mut g = LoopSpec::new();
    g.push(Slot::optional("L0"));
    g.push(Slot::repeated("L5", 999));
    g
}

/// The rate loop of the 310.
fn rate_310() -> (g: LoopSpec)
    ensures
        g@ == grammar_310_rate(),
{
    let mut g = LoopSpec::new();
    g.push(Slot::optional("L1"));
    g.push(Slot::optional("C3"));
    g
}

/// The port loop of the 315.
fn port_315() -> (g: LoopSpec)
    ensures
        g@ == grammar_315_port(),
{
    let mut g = LoopSpec::new();
    g.push(Slot::single("R4"));
    g.push(Slot::repeated("DTM", 15));
    g
}

/// The equipment loop of the 204.
fn equipment_204() -> (g: LoopSpec)
    ensures
        g@ == grammar_204_equipment(),
{
    let mut g = LoopSpec::new();
    g.push(Slot::optional("N7"));
    g.push(Slot::optional("N7A"));
    g.push(Slot::optional("N7B"));
    g.push(Slot::optional("MEA"));
    g.push(Slot::optional("M7"));
    g
}

/// The stop loop of the 204.
fn stop_204() -> (g: LoopSpec)
    ensures
        g@ == grammar_204_stop(),
{
    let mut g = LoopSpec::new();
    g.push(Slot::single("S5"));
    g.push(Slot::repeated("L11", 50));
    g.push(Slot::repeated("G62", 2));
    g.push(Slot::optional("AT8"));
    g.push(Slot::repeated("LAD", 999));
    g.push(Slot::repeated("AT5", 6));
    g.push(Slot::optional("PLD"));
    g.push(Slot::repeated("NTE", 20));
    g.push(Slot::repeat_loop(party_204(), 1));
    g.push(Slot::repeat_loop(description_204(), 99));
    g.push(Slot::repeat_loop(equipment_204(), 10));
    g
}

/// Builds the grammar of the 204.
fn table_204() -> (g: LoopSpec)
    ensures
        g@ == grammar_204(),
{
    reveal(grammar_204);
    let mut g = LoopSpec::new();
    g.push(Slot::single("ST"));
    g.push(Slot::single("B2"));
    g.push(Slot::single("B2A"));
    g.push(Slot::repeated("L11", 50));
    g.push(Slot::optional("G62"));
    g.push(Slot::optional("MS3"));
    g.push(Slot::optional("AT5"));
    g.push(Slot::optional("PLD"));
    g.push(Slot::optional("LH6"));
    g.push(Slot::optional("NTE"));
    g.push(Slot::repeat_loop(party_with_reference_204(), 5));
    g.push(Slot::repeat_loop(equipment_204(), 10));
    g.push(Slot::repeat_loop(stop_204(), 999));
    g.push(Slot::optional("L3"));
    g.push(Slot::single("SE"));
    g
}

impl TransactionSet for _204 {
    open spec fn model() -> Seq<SlotModel> {
        grammar_204()
    }

    fn grammar() -> (g: LoopSpec) {
        table_204()
    }
}

/// Builds the grammar of the 301.
fn table_301() -> (g: LoopSpec)
    ensures
        g@ == grammar_301(),
{
    reveal(grammar_301);
    let mut g = LoopSpec::new();
    g.push(Slot::single("ST"));
    g.push(Slot::single("B1"));
    g.push(Slot::single("Y3"));
    g.push(Slot::single("Y4"));
    g.push(Slot::single("N9"));
    g.push(Slot::single("N1"));
    g.push(Slot::single("N3"));
    g.push(Slot::single("N4"));
    g.push(Slot::single("R4"));
    g.push(Slot::single("R4"));
    g.push(Slot::single("DTM"));
    g.push(Slot::single("R4"));
    g.push(Slot::single("LX"));
    g.push(Slot::single("L0"));
    g.push(Slot::single("L5"));
    g.push(Slot::single("V1"));
    g.push(Slot::single("SE"));
    g
}

impl TransactionSet for _301 {
    open spec fn model() -> Seq<SlotModel> {
        grammar_301()
    }

    fn grammar() -> (g: LoopSpec) {
        table_301()
    }
}

/// The detail loop of the 310.
fn detail_310() -> (g: LoopSpec)
    ensures
        g@ == grammar_310_detail(),
{
    let mut g = LoopSpec::new();
    g.push(Slot::single("LX"));
    g.push(Slot::repeat_loop(equipment_310(), 999));
    g.push(Slot::repeat_loop(line_item_310(), 120));
    g
}

/// Builds the heading of the 310.
fn heading_310() -> (g: LoopSpec)
    ensures
        g@ == grammar_310_heading(),
{
    let mut g = LoopSpec::new();
    g.push(Slot::single("ST"));
    g.push(Slot::single("B3"));
    g.push(Slot::optional("B2A"));
    g.push(Slot::repeated("Y6", 2));
    g.push(Slot::optional("G3"));
    g.push(Slot::repeated("N9", 15));
    g.push(Slot::repeated("V1", 2));
    g.push(Slot::optional("M0"));
    g.push(Slot::repeated("M1", 5));
    g.push(Slot::optional("C2"));
    g.push(Slot::optional("C3"));
    g.push(Slot::repeated("Y2", 10));
    g.push(Slot::repeat_loop(party_310(), 10));
    g.push(Slot::repeated("G61", 3));
    g.push(Slot::repeat_loop(port_310(), 20));
    g.push(Slot::repeated("R2A", 25));
    g.push(Slot::repeated("R2", 13));
    g.push(Slot::repeated("K1", 12));
    g.push(Slot::repeated("H3", 6));
    g.push(Slot::optional("L5"));
    g.push(Slot::repeat_loop(clause_310(), 20));
    g
}

/// Builds the summary of the 310.
fn summary_310() -> (g: LoopSpec)
    ensures
        g@ == grammar_310_summary(),
{
    let mut g = LoopSpec::new();
    g.push(Slot::single("L3"));
    g.push(Slot::repeated("PWK", 25));
    g.push(Slot::repeat_loop(rate_310(), 20));
    g.push(Slot::repeated("V9", 10));
    g.push(Slot::repeated("C8", 20));
    g.push(Slot::repeated("K1", 999));
    g.push(Slot::optional("L11"));
    g.push(Slot::single("SE"));
    g
}

/// Builds the grammar of the 310.
fn table_310() -> (g: LoopSpec)
    ensures
        g@ == grammar_310(),
{
    reveal(grammar_310);
    let mut g = heading_310();
    let mut details = LoopSpec::new();
    details.push(Slot::repeat_loop(detail_310(), 999));
    g.append(details);
    g.append(summary_310());
    g
}

impl TransactionSet for _310 {
    open spec fn model() -> Seq<SlotModel> {
        grammar_310()
    }

    fn grammar() -> (g: LoopSpec) {
        table_310()
    }
}

/// Builds the grammar of the 315.
fn table_315() -> (g: LoopSpec)
    ensures
        g@ == grammar_315(),
{
    reveal(grammar_315);
    let mut g = LoopSpec::new();
    g.push(Slot::single("ST"));
    g.push(Slot::single("B4"));
    g.push(Slot::repeated("N9", 30));
    g.push(Slot::optional("Q2"));
    g.push(Slot::repeated("SG", 15));
    g.push(Slot::repeat_loop(port_315(), 20));
    g.push(Slot::optional("V9"));
    g.push(Slot::single("SE"));
    g
}

impl TransactionSet for _315 {
    open spec fn model() -> Seq<SlotModel> {
        grammar_315()
    }

    fn grammar() -> (g: LoopSpec) {
        table_315()
    }
}

/// Looks up the grammar registered for a transaction-set identifier
/// (`204`, `301`, `310`, `315`).
pub fn lookup(id: &[u8]) -> (r: Option<LoopSpec>)
    ensures
        match r {
            Some(g) => registered(id@) == Some(g@),
            None => registered(id@) is None,
        },
{
    if bytes_eq(id, tag_bytes("204").as_slice()) {
        Some(_204::grammar())
    } else if bytes_eq(id, tag_bytes("301").as_slice()) {
        Some(_301::grammar())
    } else if bytes_eq(id, tag_bytes("310").as_slice()) {
        Some(_310::grammar())
    } else if bytes_eq(id, tag_bytes("315").as_slice()) {
        Some(_315::grammar())
    } else {
        None
    }
}

} // verus!
