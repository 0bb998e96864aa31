//! Giving the rates of a document their texts.
//!
//! A laid-out report holds its rates as pairs of counts. How a rate reads
//! as a decimal number is not decided here: the caller lists a text for
//! each rate, and the rates are replaced by their texts.

use crate::stats::Rate;
use crate::xml::{
    all_text, attribute_views, attributes_have_text, event_views, AttrValue, AttrValueView,
    Attribute, AttributeView, XmlEvent, XmlEventView,
};
use vstd::prelude::*;

verus! {

/// The rates among the values of the attributes, in their order.
pub open spec fn attribute_rates(attributes: Seq<AttributeView>) -> Seq<Rate>
    decreases attributes.len(),
{
    if attributes.len() == 0 {
        Seq::empty()
    } else {
        let before = attribute_rates(attributes.drop_last());
        match attributes.last().value {
            AttrValueView::Rate(rate) => before.push(rate),
            AttrValueView::Text(_) => before,
        }
    }
}

/// The rates among the values of the attributes of the events, in their
/// order.
pub open spec fn event_rates(events: Seq<XmlEventView>) -> Seq<Rate>
    decreases events.len(),
{
    if events.len() == 0 {
        Seq::empty()
    } else {
        event_rates(events.drop_last()) + attribute_rates(events.last().attributes())
    }
}

/// The text that the table gives for a rate: that of the last entry for
/// the rate, if there is one.
pub open spec fn text_for(table: Seq<(Rate, Seq<char>)>, rate: Rate) -> Option<Seq<char>>
    decreases table.len(),
{
    if table.len() == 0 {
        None
    } else if table.last().0 == rate {
        Some(table.last().1)
    } else {
        text_for(table.drop_last(), rate)
    }
}

/// A value with its rate replaced by the text that the table gives for it;
/// the value as it is where it is a text, or the table has none.
pub open spec fn filled_value(value: AttrValueView, table: Seq<(Rate, Seq<char>)>) -> AttrValueView {
    match value {
        AttrValueView::Text(text) => AttrValueView::Text(text),
        AttrValueView::Rate(rate) => match text_for(table, rate) {
            Some(text) => AttrValueView::Text(text),
            None => AttrValueView::Rate(rate),
        },
    }
}

pub open spec fn filled_attributes(
    attributes: Seq<AttributeView>,
    table: Seq<(Rate, Seq<char>)>,
) -> Seq<AttributeView> {
    Seq::new(
        attributes.len(),
        |i: int|
            AttributeView { key: attributes[i].key, value: filled_value(attributes[i].value, table) },
    )
}

/// An event with the rates of its attributes replaced by their texts.
pub open spec fn filled_event(event: XmlEventView, table: Seq<(Rate, Seq<char>)>) -> XmlEventView {
    match event {
        XmlEventView::Start { name, attributes } => XmlEventView::Start {
            name,
            attributes: filled_attributes(attributes, table),
        },
        XmlEventView::Empty { name, attributes } => XmlEventView::Empty {
            name,
            attributes: filled_attributes(attributes, table),
        },
        other => other,
    }
}

/// The events with the rates of their attributes replaced by their texts.
pub open spec fn filled_events(
    events: Seq<XmlEventView>,
    table: Seq<(Rate, Seq<char>)>,
) -> Seq<XmlEventView> {
    Seq::new(events.len(), |i: int| filled_event(events[i], table))
}

/// The rates and texts of a table.
pub open spec fn table_view(table: Seq<(Rate, String)>) -> Seq<(Rate, Seq<char>)> {
    table.map_values(|entry: (Rate, String)| (entry.0, entry.1@))
}

fn push_attribute_rates(rates: &mut Vec<Rate>, attributes: &Vec<Attribute>)
    ensures
        final(rates)@ == old(rates)@ + attribute_rates(attribute_views(attributes@)),
{
    let ghost views = attribute_views(attributes@);
    let mut i: usize = 0;
    assert(rates@ + attribute_rates(views.take(0)) =~= rates@);
    while i < attributes.len()
        invariant
            i <= attributes.len(),
            views == attribute_views(attributes@),
            rates@ == old(rates)@ + attribute_rates(views.take(i as int)),
        decreases attributes.len() - i,
    {
        assert(views.take(i + 1).drop_last() =~= views.take(i as int));
        assert(views.take(i + 1).last() == attributes@[i as int]@);
        match &attributes[i].value {
            AttrValue::Rate(rate) => {
                rates.push(*rate);
            },
            AttrValue::Text(_) => {},
        }
        i = i + 1;
        assert(rates@ =~= old(rates)@ + attribute_rates(views.take(i as int)));
    }
    assert(views.take(i as int) =~= views);
}

/// Lists the rates that the events hold, in the order of the document.
pub fn pending_rates(events: &Vec<XmlEvent>) -> (rates: Vec<Rate>)
    ensures
        rates@ == event_rates(event_views(events@)),
{
    let ghost views = event_views(events@);
    let mut rates: Vec<Rate> = Vec::new();
    let mut i: usize = 0;
    while i < events.len()
        invariant
            i <= events.len(),
            views == event_views(events@),
            rates@ == event_rates(views.take(i as int)),
        decreases events.len() - i,
    {
        assert(views.take(i + 1).drop_last() =~= views.take(i as int));
        assert(views.take(i + 1).last() == events@[i as int]@);
        let ghost before = rates@;
        match &events[i] {
            XmlEvent::Start { attributes, .. } => {
                push_attribute_rates(&mut rates, attributes);
            },
            XmlEvent::Empty { attributes, .. } => {
                push_attribute_rates(&mut rates, attributes);
            },
            _ => {
                assert(rates@ + attribute_rates(Seq::<AttributeView>::empty()) =~= rates@);
            },
        }
        i = i + 1;
    }
    assert(views.take(i as int) =~= views);
    rates
}

/// Looks a rate up in the table.
pub fn find_text(table: &Vec<(Rate, String)>, rate: Rate) -> (text: Option<String>)
    ensures
        match text {
            Some(t) => text_for(table_view(table@), rate) == Some(t@),
            None => text_for(table_view(table@), rate) is None,
        },
{
    let ghost view = table_view(table@);
    let mut i: usize = table.len();
    assert(view.take(i as int) =~= view);
    while i > 0
        invariant
            i <= table.len(),
            view == table_view(table@),
            text_for(view, rate) == text_for(view.take(i as int), rate),
        decreases i,
    {
        assert(view.take(i as int).drop_last() =~= view.take(i - 1));
        assert(view.take(i as int).last() == (table@[i - 1].0, table@[i - 1].1@));
        i = i - 1;
        if table[i].0.numerator == rate.numerator && table[i].0.denominator == rate.denominator {
            return Some(table[i].1.clone());
        }
    }
    None
}

fn fill_attributes(attributes: &Vec<Attribute>, table: &Vec<(Rate, String)>) -> (filled: Vec<
    Attribute,
>)
    ensures
        attribute_views(filled@) == filled_attributes(
            attribute_views(attributes@),
            table_view(table@),
        ),
{
    let ghost views = attribute_views(attributes@);
    let mut filled: Vec<Attribute> = Vec::new();
    let mut i: usize = 0;
    while i < attributes.len()
        invariant
            i <= attributes.len(),
            views == attribute_views(attributes@),
            filled@.len() == i,
            forall|k: int|
                0 <= k < i ==> (#[trigger] filled@[k])@ == filled_attributes(
                    views,
                    table_view(table@),
                )[k],
        decreases attributes.len() - i,
    {
        let value = match &attributes[i].value {
            AttrValue::Text(text) => AttrValue::Text(text.clone()),
            AttrValue::Rate(rate) => match find_text(table, *rate) {
                Some(text) => AttrValue::Text(text),
                None => AttrValue::Rate(*rate),
            },
        };
        assert(views[i as int] == attributes@[i as int]@);
        filled.push(Attribute { key: attributes[i].key.clone(), value });
        i = i + 1;
    }
    assert(attribute_views(filled@) =~= filled_attributes(views, table_view(table@)));
    filled
}

/// Replaces each rate of the events by the text that the table gives for
/// it. A rate that the table has no text for stays as it is.
pub fn with_rate_texts(events: &Vec<XmlEvent>, table: &Vec<(Rate, String)>) -> (filled: Vec<
    XmlEvent,
>)
    ensures
        event_views(filled@) == filled_events(event_views(events@), table_view(table@)),
{
    let ghost views = event_views(events@);
    let mut filled: Vec<XmlEvent> = Vec::new();
    let mut i: usize = 0;
    while i < events.len()
        invariant
            i <= events.len(),
            views == event_views(events@),
            filled@.len() == i,
            forall|k: int|
                0 <= k < i ==> (#[trigger] filled@[k])@ == filled_event(
                    views[k],
                    table_view(table@),
                ),
        decreases events.len() - i,
    {
        assert(views[i as int] == events@[i as int]@);
        let event = match &events[i] {
            XmlEvent::Decl { version } => XmlEvent::Decl { version: version.clone() },
            XmlEvent::DocType { text } => XmlEvent::DocType { text: text.clone() },
            XmlEvent::Start { name, attributes } => XmlEvent::Start {
                name: name.clone(),
                attributes: fill_attributes(attributes, table),
            },
            XmlEvent::End { name } => XmlEvent::End { name: name.clone() },
            XmlEvent::Empty { name, attributes } => XmlEvent::Empty {
                name: name.clone(),
                attributes: fill_attributes(attributes, table),
            },
            XmlEvent::Raw { text } => XmlEvent::Raw { text: text.clone() },
        };
        filled.push(event);
        i = i + 1;
    }
    assert(event_views(filled@) =~= filled_events(views, table_view(table@)));
    filled
}

pub proof fn lemma_attribute_rates_listed(attributes: Seq<AttributeView>, i: int)
    requires
        0 <= i < attributes.len(),
        attributes[i].value is Rate,
    ensures
        attribute_rates(attributes).contains(attributes[i].value->Rate_0),
    decreases attributes.len(),
{
    let before = attribute_rates(attributes.drop_last());
    if i == attributes.len() - 1 {
        assert(attribute_rates(attributes)[before.len() as int] == attributes[i].value->Rate_0);
    } else {
        lemma_attribute_rates_listed(attributes.drop_last(), i);
        let k = choose|k: int| 0 <= k < before.len() && before[k] == attributes[i].value->Rate_0;
        assert(attribute_rates(attributes)[k] == attributes[i].value->Rate_0);
    }
}

pub proof fn lemma_event_rates_listed(events: Seq<XmlEventView>, i: int, rate: Rate)
    requires
        0 <= i < events.len(),
        attribute_rates(events[i].attributes()).contains(rate),
    ensures
        event_rates(events).contains(rate),
    decreases events.len(),
{
    let before = event_rates(events.drop_last());
    let last = attribute_rates(events.last().attributes());
    if i == events.len() - 1 {
        let k = choose|k: int| 0 <= k < last.len() && last[k] == rate;
        assert((before + last)[before.len() + k] == rate);
    } else {
        lemma_event_rates_listed(events.drop_last(), i, rate);
        let k = choose|k: int| 0 <= k < before.len() && before[k] == rate;
        assert((before + last)[k] == rate);
    }
}

/// Where the table has a text for every rate that the events hold, no rate
/// is left once the rates are replaced by their texts.
pub proof fn lemma_filled_all_text(events: Seq<XmlEventView>, table: Seq<(Rate, Seq<char>)>)
    requires
        forall|k: int|
            0 <= k < event_rates(events).len() ==> text_for(
                table,
                #[trigger] event_rates(events)[k],
            ) is Some,
    ensures
        all_text(filled_events(events, table)),
{
    let filled = filled_events(events, table);
    assert forall|i: int| 0 <= i < filled.len() implies attributes_have_text(
        (#[trigger] filled[i]).attributes(),
    ) by {
        let attributes = events[i].attributes();
        assert(filled[i].attributes() =~= filled_attributes(attributes, table));
        assert forall|j: int| 0 <= j < attributes.len() implies (#[trigger] filled_attributes(
            attributes,
            table,
        )[j]).value is Text by {
            if attributes[j].value is Rate {
                let rate = attributes[j].value->Rate_0;
                lemma_attribute_rates_listed(attributes, j);
                lemma_event_rates_listed(events, i, rate);
                let k = choose|k: int|
                    0 <= k < event_rates(events).len() && event_rates(events)[k] == rate;
                assert(text_for(table, event_rates(events)[k]) is Some);
            }
        }
    }
}

} // verus!
