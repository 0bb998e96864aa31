//! How the elements of a document are nested.
//!
//! In a laid-out report every element is closed by its own end tag, and the
//! elements are nested ten levels deep at most. The writer indents by its
//! depth, and an indentation cannot be longer than a vector of bytes can be:
//! that of a report always fits.

use crate::emit::{
    class_events, close_tag, condition_event, conditions_events, document_events,
    each_class_events, each_line_events, each_method_events, each_package_events,
    each_source_events, line_events, lines_events, method_events, open_tag, package_events,
    source_events,
};
use crate::rates::{event_rates, filled_events, lemma_filled_all_text, text_for};
use crate::stats::Rate;
use crate::tree::{ClassView, Condition, CoverageView, LineView, MethodView, PackageView};
use crate::xml::{render_outcome, rendered, too_deep, width_after, XmlEventView, INDENT_SIZE};
use vstd::prelude::*;

verus! {

/// The names of the elements that are open after one more event, outermost
/// first; nothing where the event is an end tag that does not close the
/// element that was opened last.
pub open spec fn open_after_event(event: XmlEventView, open: Seq<Seq<char>>) -> Option<
    Seq<Seq<char>>,
> {
    match event {
        XmlEventView::Start { name, .. } => Some(open.push(name)),
        XmlEventView::End { name } => if open.len() > 0 && open.last() == name {
            Some(open.drop_last())
        } else {
            None
        },
        _ => Some(open),
    }
}

/// The names of the elements that are open after the events, where `open`
/// were open before them; nothing where an end tag among the events does
/// not close the element that was opened last.
pub open spec fn open_after(events: Seq<XmlEventView>, open: Seq<Seq<char>>) -> Option<
    Seq<Seq<char>>,
>
    decreases events.len(),
{
    if events.len() == 0 {
        Some(open)
    } else {
        match open_after(events.drop_last(), open) {
            Some(before) => open_after_event(events.last(), before),
            None => None,
        }
    }
}

/// Whether every element that the events open is closed by its own end
/// tag, and no other end tag is among them.
pub open spec fn well_nested(events: Seq<XmlEventView>) -> bool {
    open_after(events, Seq::empty()) == Some(Seq::<Seq<char>>::empty())
}

/// Whether the events close every element that they open, leave the
/// indentation as long as it was, and have no start tag that stands deeper
/// than `depth` levels.
pub open spec fn nests(events: Seq<XmlEventView>, width: nat, depth: nat) -> bool {
    &&& forall|open: Seq<Seq<char>>| #[trigger] open_after(events, open) == Some(open)
    &&& width_after(events, width) == width
    &&& forall|k: int|
        0 <= k < events.len() && events[k] is Start ==> #[trigger] width_after(
            events.take(k),
            width,
        ) + INDENT_SIZE <= width + depth * INDENT_SIZE
}

pub proof fn lemma_open_concat(a: Seq<XmlEventView>, b: Seq<XmlEventView>, open: Seq<Seq<char>>)
    ensures
        open_after(a + b, open) == match open_after(a, open) {
            Some(between) => open_after(b, between),
            None => None,
        },
    decreases b.len(),
{
    if b.len() == 0 {
        assert(a + b =~= a);
    } else {
        lemma_open_concat(a, b.drop_last(), open);
        assert((a + b).drop_last() =~= a + b.drop_last());
        assert((a + b).last() == b.last());
    }
}

pub proof fn lemma_width_concat(a: Seq<XmlEventView>, b: Seq<XmlEventView>, width: nat)
    ensures
        width_after(a + b, width) == width_after(b, width_after(a, width)),
    decreases b.len(),
{
    if b.len() == 0 {
        assert(a + b =~= a);
    } else {
        lemma_width_concat(a, b.drop_last(), width);
        assert((a + b).drop_last() =~= a + b.drop_last());
        assert((a + b).last() == b.last());
    }
}

/// Events that nest one after the other nest.
pub proof fn lemma_nests_concat(
    a: Seq<XmlEventView>,
    b: Seq<XmlEventView>,
    width: nat,
    depth: nat,
)
    requires
        nests(a, width, depth),
        nests(b, width, depth),
    ensures
        nests(a + b, width, depth),
{
    assert forall|open: Seq<Seq<char>>| #[trigger] open_after(a + b, open) == Some(open) by {
        lemma_open_concat(a, b, open);
        assert(open_after(a, open) == Some(open));
        assert(open_after(b, open) == Some(open));
    }
    lemma_width_concat(a, b, width);
    assert forall|k: int| 0 <= k < (a + b).len() && (a + b)[k] is Start implies #[trigger] width_after(
        (a + b).take(k),
        width,
    ) + INDENT_SIZE <= width + depth * INDENT_SIZE by {
        if k < a.len() {
            assert((a + b).take(k) =~= a.take(k));
            assert(a[k] is Start);
        } else {
            let rest = k - a.len();
            assert((a + b).take(k) =~= a + b.take(rest));
            lemma_width_concat(a, b.take(rest), width);
            assert(b[rest] is Start);
        }
    }
}

/// Events that nest within a depth nest within any greater depth.
pub proof fn lemma_nests_deeper(events: Seq<XmlEventView>, width: nat, depth: nat, deeper: nat)
    requires
        nests(events, width, depth),
        depth <= deeper,
    ensures
        nests(events, width, deeper),
{
    assert(depth * INDENT_SIZE <= deeper * INDENT_SIZE) by (nonlinear_arith)
        requires
            depth <= deeper,
    ;
}

/// An event that is neither a start tag nor an end tag nests at any depth.
pub proof fn lemma_nests_flat(event: XmlEventView, width: nat, depth: nat)
    requires
        !(event is Start),
        !(event is End),
    ensures
        nests(seq![event], width, depth),
{
    let events = seq![event];
    assert(events.drop_last() =~= Seq::<XmlEventView>::empty());
    assert(width_after(events.drop_last(), width) == width);
    assert forall|open: Seq<Seq<char>>| #[trigger] open_after(events, open) == Some(open) by {
        assert(open_after(events.drop_last(), open) == Some(open));
    }
}

/// No events nest at any depth.
pub proof fn lemma_nests_empty(width: nat, depth: nat)
    ensures
        nests(Seq::<XmlEventView>::empty(), width, depth),
{
}

/// Events that nest, between a start tag and the end tag of the same name,
/// nest one level deeper.
pub proof fn lemma_nests_wrapped(
    open: XmlEventView,
    body: Seq<XmlEventView>,
    close: XmlEventView,
    width: nat,
    depth: nat,
)
    requires
        open is Start,
        close is End,
        open->Start_name == close->End_name,
        nests(body, width + INDENT_SIZE as nat, depth),
    ensures
        nests(seq![open] + body + seq![close], width, depth + 1),
{
    let inner = width + INDENT_SIZE as nat;
    let head = seq![open];
    let events = head + body + seq![close];
    assert(head.drop_last() =~= Seq::<XmlEventView>::empty());
    assert(width_after(head.drop_last(), width) == width);
    assert(head.last() == open);
    assert(width_after(head, width) == inner);
    lemma_width_concat(head, body, width);
    assert(events.drop_last() =~= head + body);
    assert(events.last() == close);
    assert forall|before: Seq<Seq<char>>| #[trigger] open_after(events, before) == Some(before) by {
        let name = open->Start_name;
        assert(open_after(head.drop_last(), before) == Some(before));
        assert(open_after(head, before) == Some(before.push(name)));
        lemma_open_concat(head, body, before);
        assert(open_after(body, before.push(name)) == Some(before.push(name)));
        assert(before.push(name).drop_last() =~= before);
    }
    assert((depth + 1) * INDENT_SIZE == depth * INDENT_SIZE + INDENT_SIZE) by (nonlinear_arith);
    assert forall|k: int| 0 <= k < events.len() && events[k] is Start implies #[trigger] width_after(
        events.take(k),
        width,
    ) + INDENT_SIZE <= width + (depth + 1) * INDENT_SIZE by {
        if k == 0 {
            assert(events.take(0) =~= Seq::<XmlEventView>::empty());
        } else if k <= body.len() {
            let rest = k - 1;
            assert(events.take(k) =~= head + body.take(rest));
            lemma_width_concat(head, body.take(rest), width);
            assert(body[rest] is Start);
        } else {
            assert(events[k] == close);
        }
    }
}

pub proof fn lemma_conditions_nest(conditions: Seq<Condition>, width: nat)
    ensures
        nests(conditions_events(conditions), width, 0),
    decreases conditions.len(),
{
    let events = conditions_events(conditions);
    if conditions.len() == 0 {
        assert(events =~= Seq::<XmlEventView>::empty());
    } else {
        lemma_conditions_nest(conditions.drop_last(), width);
        lemma_nests_flat(condition_event(conditions.last()), width, 0);
        lemma_nests_concat(
            conditions_events(conditions.drop_last()),
            seq![condition_event(conditions.last())],
            width,
            0,
        );
        assert(events =~= conditions_events(conditions.drop_last()) + seq![
            condition_event(conditions.last()),
        ]);
    }
}

pub proof fn lemma_line_nests(line: LineView, width: nat)
    ensures
        nests(line_events(line), width, 2),
{
    let events = line_events(line);
    let inner = width + INDENT_SIZE as nat;
    match line {
        LineView::Plain { .. } => {
            lemma_nests_empty(inner, 1);
            lemma_nests_wrapped(events[0], Seq::empty(), events[1], width, 1);
            assert(events =~= seq![events[0]] + Seq::<XmlEventView>::empty() + seq![events[1]]);
        },
        LineView::Branch { number, hits, conditions } => {
            let within = conditions_events(conditions);
            let body = seq![open_tag("conditions"@)] + within + seq![close_tag("conditions"@)];
            lemma_conditions_nest(conditions, inner + INDENT_SIZE as nat);
            lemma_nests_wrapped(
                open_tag("conditions"@),
                within,
                close_tag("conditions"@),
                inner,
                0,
            );
            lemma_nests_wrapped(events[0], body, close_tag("line"@), width, 1);
            assert(events =~= seq![events[0]] + body + seq![close_tag("line"@)]);
        },
    }
}

pub proof fn lemma_each_line_nests(lines: Seq<LineView>, width: nat)
    ensures
        nests(each_line_events(lines), width, 2),
    decreases lines.len(),
{
    if lines.len() > 0 {
        lemma_each_line_nests(lines.drop_last(), width);
        lemma_line_nests(lines.last(), width);
        lemma_nests_concat(
            each_line_events(lines.drop_last()),
            line_events(lines.last()),
            width,
            2,
        );
    }
}

pub proof fn lemma_lines_nest(lines: Seq<LineView>, width: nat)
    ensures
        nests(lines_events(lines), width, 3),
{
    lemma_each_line_nests(lines, width + INDENT_SIZE as nat);
    lemma_nests_wrapped(open_tag("lines"@), each_line_events(lines), close_tag("lines"@), width, 2);
}

pub proof fn lemma_method_nests(method: MethodView, width: nat)
    ensures
        nests(method_events(method), width, 4),
{
    let events = method_events(method);
    lemma_lines_nest(method.lines, width + INDENT_SIZE as nat);
    lemma_nests_wrapped(events[0], lines_events(method.lines), close_tag("method"@), width, 3);
    assert(events =~= seq![events[0]] + lines_events(method.lines) + seq![close_tag("method"@)]);
}

pub proof fn lemma_each_method_nests(methods: Seq<MethodView>, width: nat)
    ensures
        nests(each_method_events(methods), width, 4),
    decreases methods.len(),
{
    if methods.len() > 0 {
        lemma_each_method_nests(methods.drop_last(), width);
        lemma_method_nests(methods.last(), width);
        lemma_nests_concat(
            each_method_events(methods.drop_last()),
            method_events(methods.last()),
            width,
            4,
        );
    }
}

pub proof fn lemma_class_nests(class: ClassView, width: nat)
    ensures
        nests(class_events(class), width, 6),
{
    let events = class_events(class);
    let inner = width + INDENT_SIZE as nat;
    let methods = seq![open_tag("methods"@)] + each_method_events(class.methods) + seq![
        close_tag("methods"@),
    ];
    let body = methods + lines_events(class.lines);
    lemma_each_method_nests(class.methods, inner + INDENT_SIZE as nat);
    lemma_nests_wrapped(
        open_tag("methods"@),
        each_method_events(class.methods),
        close_tag("methods"@),
        inner,
        4,
    );
    lemma_lines_nest(class.lines, inner);
    lemma_nests_deeper(lines_events(class.lines), inner, 3, 5);
    lemma_nests_concat(methods, lines_events(class.lines), inner, 5);
    lemma_nests_wrapped(events[0], body, close_tag("class"@), width, 5);
    assert(events =~= seq![events[0]] + body + seq![close_tag("class"@)]);
}

pub proof fn lemma_each_class_nests(classes: Seq<ClassView>, width: nat)
    ensures
        nests(each_class_events(classes), width, 6),
    decreases classes.len(),
{
    if classes.len() > 0 {
        lemma_each_class_nests(classes.drop_last(), width);
        lemma_class_nests(classes.last(), width);
        lemma_nests_concat(
            each_class_events(classes.drop_last()),
            class_events(classes.last()),
            width,
            6,
        );
    }
}

pub proof fn lemma_package_nests(package: PackageView, width: nat)
    ensures
        nests(package_events(package), width, 8),
{
    let events = package_events(package);
    let inner = width + INDENT_SIZE as nat;
    let body = seq![open_tag("classes"@)] + each_class_events(package.classes) + seq![
        close_tag("classes"@),
    ];
    lemma_each_class_nests(package.classes, inner + INDENT_SIZE as nat);
    lemma_nests_wrapped(
        open_tag("classes"@),
        each_class_events(package.classes),
        close_tag("classes"@),
        inner,
        6,
    );
    lemma_nests_wrapped(events[0], body, close_tag("package"@), width, 7);
    assert(events =~= seq![events[0]] + body + seq![close_tag("package"@)]);
}

pub proof fn lemma_each_package_nests(packages: Seq<PackageView>, width: nat)
    ensures
        nests(each_package_events(packages), width, 8),
    decreases packages.len(),
{
    if packages.len() > 0 {
        lemma_each_package_nests(packages.drop_last(), width);
        lemma_package_nests(packages.last(), width);
        lemma_nests_concat(
            each_package_events(packages.drop_last()),
            package_events(packages.last()),
            width,
            8,
        );
    }
}

pub proof fn lemma_each_source_nests(sources: Seq<Seq<char>>, width: nat)
    ensures
        nests(each_source_events(sources), width, 1),
    decreases sources.len(),
{
    if sources.len() > 0 {
        let text = XmlEventView::Raw { text: sources.last() };
        lemma_each_source_nests(sources.drop_last(), width);
        lemma_nests_flat(text, width + INDENT_SIZE as nat, 0);
        lemma_nests_wrapped(open_tag("source"@), seq![text], close_tag("source"@), width, 0);
        assert(source_events(sources.last()) =~= seq![open_tag("source"@)] + seq![text] + seq![
            close_tag("source"@),
        ]);
        lemma_nests_concat(
            each_source_events(sources.drop_last()),
            source_events(sources.last()),
            width,
            1,
        );
    }
}

/// The elements of a laid-out report are nested ten levels deep at most.
pub proof fn lemma_document_nests(coverage: CoverageView, timestamp: u64)
    ensures
        nests(document_events(coverage, timestamp), 0, 10),
{
    let events = document_events(coverage, timestamp);
    let inner = INDENT_SIZE as nat;
    let sources = seq![open_tag("sources"@)] + each_source_events(coverage.sources) + seq![
        close_tag("sources"@),
    ];
    let packages = seq![open_tag("packages"@)] + each_package_events(coverage.packages) + seq![
        close_tag("packages"@),
    ];
    let body = sources + packages;
    let root = seq![events[2]] + body + seq![close_tag("coverage"@)];
    let head = seq![events[0]] + seq![events[1]];

    lemma_each_source_nests(coverage.sources, inner + INDENT_SIZE as nat);
    lemma_nests_wrapped(
        open_tag("sources"@),
        each_source_events(coverage.sources),
        close_tag("sources"@),
        inner,
        1,
    );
    lemma_nests_deeper(sources, inner, 2, 9);
    lemma_each_package_nests(coverage.packages, inner + INDENT_SIZE as nat);
    lemma_nests_wrapped(
        open_tag("packages"@),
        each_package_events(coverage.packages),
        close_tag("packages"@),
        inner,
        8,
    );
    lemma_nests_concat(sources, packages, inner, 9);
    lemma_nests_wrapped(events[2], body, close_tag("coverage"@), 0, 9);

    lemma_nests_flat(events[0], 0, 10);
    lemma_nests_flat(events[1], 0, 10);
    lemma_nests_concat(seq![events[0]], seq![events[1]], 0, 10);
    lemma_nests_concat(head, root, 0, 10);
    assert(events =~= head + root);
}

/// Giving the rates their texts does not change how the events are nested.
pub proof fn lemma_filled_nests(
    events: Seq<XmlEventView>,
    table: Seq<(Rate, Seq<char>)>,
    width: nat,
    depth: nat,
)
    requires
        nests(events, width, depth),
    ensures
        nests(filled_events(events, table), width, depth),
{
    let filled = filled_events(events, table);
    assert forall|open: Seq<Seq<char>>| #[trigger] open_after(filled, open) == Some(open) by {
        lemma_filled_open(events, table, open);
        assert(open_after(events, open) == Some(open));
    }
    assert forall|k: int| 0 <= k <= events.len() implies #[trigger] width_after(
        filled.take(k),
        width,
    ) == width_after(events.take(k), width) by {
        lemma_filled_width(events.take(k), table, width);
        assert(filled.take(k) =~= filled_events(events.take(k), table));
    }
    assert(filled.take(events.len() as int) =~= filled);
    assert(events.take(events.len() as int) =~= events);
}

pub proof fn lemma_filled_width(
    events: Seq<XmlEventView>,
    table: Seq<(Rate, Seq<char>)>,
    width: nat,
)
    ensures
        width_after(filled_events(events, table), width) == width_after(events, width),
    decreases events.len(),
{
    let filled = filled_events(events, table);
    if events.len() > 0 {
        lemma_filled_width(events.drop_last(), table, width);
        assert(filled.drop_last() =~= filled_events(events.drop_last(), table));
    }
}

pub proof fn lemma_filled_open(
    events: Seq<XmlEventView>,
    table: Seq<(Rate, Seq<char>)>,
    open: Seq<Seq<char>>,
)
    ensures
        open_after(filled_events(events, table), open) == open_after(events, open),
    decreases events.len(),
{
    let filled = filled_events(events, table);
    if events.len() > 0 {
        lemma_filled_open(events.drop_last(), table, open);
        assert(filled.drop_last() =~= filled_events(events.drop_last(), table));
    }
}

/// Events that nest within a depth whose indentation fits are not too deep
/// to be rendered.
pub proof fn lemma_nests_not_too_deep(events: Seq<XmlEventView>, depth: nat)
    requires
        nests(events, 0, depth),
        depth * INDENT_SIZE <= isize::MAX,
    ensures
        !too_deep(events),
{
    assert forall|k: int| 0 <= k < events.len() && events[k] is Start implies #[trigger] width_after(
        events.take(k),
        0,
    ) + INDENT_SIZE <= isize::MAX by {
        assert(width_after(events.take(k), 0) + INDENT_SIZE <= depth * INDENT_SIZE);
    }
}

/// In a laid-out report every element is closed by its own end tag; that
/// stays so when the rates are given their texts.
pub proof fn lemma_report_well_nested(
    coverage: CoverageView,
    timestamp: u64,
    table: Seq<(Rate, Seq<char>)>,
)
    ensures
        well_nested(document_events(coverage, timestamp)),
        well_nested(filled_events(document_events(coverage, timestamp), table)),
{
    let events = document_events(coverage, timestamp);
    let none = Seq::<Seq<char>>::empty();
    lemma_document_nests(coverage, timestamp);
    lemma_filled_nests(events, table, 0, 10);
    assert(open_after(events, none) == Some(none));
    assert(open_after(filled_events(events, table), none) == Some(none));
}

/// A laid-out report whose rates have all been given their texts can be
/// rendered: nothing but a failure of the writer keeps it from being
/// written.
pub proof fn lemma_report_renders(
    coverage: CoverageView,
    timestamp: u64,
    table: Seq<(Rate, Seq<char>)>,
)
    requires
        forall|k: int|
            0 <= k < event_rates(document_events(coverage, timestamp)).len() ==> text_for(
                table,
                #[trigger] event_rates(document_events(coverage, timestamp))[k],
            ) is Some,
    ensures
        render_outcome(filled_events(document_events(coverage, timestamp), table)) == Ok::<
            Seq<u8>,
            crate::error::ExportError,
        >(rendered(filled_events(document_events(coverage, timestamp), table))),
{
    let events = document_events(coverage, timestamp);
    lemma_filled_all_text(events, table);
    lemma_document_nests(coverage, timestamp);
    lemma_filled_nests(events, table, 0, 10);
    lemma_nests_not_too_deep(filled_events(events, table), 10);
}

} // verus!
