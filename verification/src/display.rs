//! DOT rendering.
//!
//! Names like `crate::foo::{closure#0}` and printed transition types like
//! `Spawn("std::thread::functions::spawn")` hold quotes, braces and other
//! characters that break the DOT grammar, so every label is escaped.

use crate::net::structure::{Arc, ArcDir, PlaceView, PtNet, PtPlace, PtTransition, TransitionView};
use crate::text::{chars_of, contains_text, decimal, decimal_text, index_text, occurs_at};
use vstd::prelude::*;

verus! {

/// What stands for one character inside a double-quoted label.
pub open spec fn escape_char(c: char) -> Seq<char> {
    if c == '\\' {
        seq!['\\', '\\']
    } else if c == '"' {
        seq!['\\', '"']
    } else if c == '\n' {
        seq!['\\', 'n']
    } else if c == '\r' {
        Seq::empty()
    } else if c == '{' {
        seq!['\\', '{']
    } else if c == '}' {
        seq!['\\', '}']
    } else if c == '<' {
        seq!['\\', '<']
    } else if c == '>' {
        seq!['\\', '>']
    } else {
        seq![c]
    }
}

/// The text of a label: each character replaced by what stands for it.
pub open spec fn dot_escaped(s: Seq<char>) -> Seq<char>
    decreases s.len(),
{
    if s.len() == 0 {
        Seq::empty()
    } else {
        dot_escaped(s.drop_last()) + escape_char(s.last())
    }
}

/// Escapes a string for use inside a DOT double-quoted label.
///
/// `"` must be escaped or it ends the quoted string early; `\` must be
/// doubled; a newline is rendered as the `\n` escape; `{}` and `<>` are escaped
/// for parsers that read them as record or HTML labels; a carriage return is
/// dropped.
pub fn dot_escape(s: &str) -> (r: String)
    ensures
        r@ == dot_escaped(s@),
{
    let chars = chars_of(s);
    let mut out = String::new();
    let mut i: usize = 0;
    proof {
        assert(s@.take(0) =~= Seq::<char>::empty());
    }
    while i < chars.len()
        invariant
            i <= chars@.len(),
            chars@ == s@,
            out@ == dot_escaped(s@.take(i as int)),
        decreases chars@.len() - i,
    {
        let c = chars[i];
        let ghost before = out@;
        if c == '\\' || c == '"' || c == '{' || c == '}' || c == '<' || c == '>' {
            out.push('\\');
            out.push(c);
        } else if c == '\n' {
            out.push('\\');
            out.push('n');
        } else if c != '\r' {
            out.push(c);
        }
        proof {
            assert(s@.take(i + 1).drop_last() =~= s@.take(i as int));
            assert(s@.take(i + 1).last() == c);
            assert(out@ =~= before + escape_char(c));
        }
        i = i + 1;
    }
    proof {
        assert(s@.take(i as int) =~= s@);
    }
    out
}

/// Where a reader of a double-quoted DOT string stands.
pub enum LabelScan {
    /// Inside the string.
    Inside,
    /// Inside the string, after a backslash that escapes what follows.
    Escaping,
    /// Past a quote that ended the string.
    Ended,
}

/// Where a reader stands after the characters of `s`, starting inside a string.
pub open spec fn scan_label(s: Seq<char>) -> LabelScan
    decreases s.len(),
{
    if s.len() == 0 {
        LabelScan::Inside
    } else {
        match scan_label(s.drop_last()) {
            LabelScan::Inside => if s.last() == '"' {
                LabelScan::Ended
            } else if s.last() == '\\' {
                LabelScan::Escaping
            } else {
                LabelScan::Inside
            },
            LabelScan::Escaping => LabelScan::Inside,
            LabelScan::Ended => LabelScan::Ended,
        }
    }
}

/// Reading one more character.
proof fn scan_push(s: Seq<char>, c: char)
    ensures
        scan_label(s.push(c)) == (match scan_label(s) {
            LabelScan::Inside => if c == '"' {
                LabelScan::Ended
            } else if c == '\\' {
                LabelScan::Escaping
            } else {
                LabelScan::Inside
            },
            LabelScan::Escaping => LabelScan::Inside,
            LabelScan::Ended => LabelScan::Ended,
        }),
{
    assert(s.push(c).drop_last() =~= s);
}

/// An escaped text never ends the quoted string that it stands in, leaves no
/// escape open for the closing quote, and holds no line break.
pub proof fn escaped_text_stays_inside_its_quotes(s: Seq<char>)
    ensures
        scan_label(dot_escaped(s)) is Inside,
        !dot_escaped(s).contains('\n'),
        !dot_escaped(s).contains('\r'),
    decreases s.len(),
{
    if s.len() > 0 {
        let head = dot_escaped(s.drop_last());
        let c = s.last();
        escaped_text_stays_inside_its_quotes(s.drop_last());
        let e = escape_char(c);
        if e.len() == 2 {
            assert(head + e =~= head.push(e[0]).push(e[1]));
            scan_push(head, e[0]);
            scan_push(head.push(e[0]), e[1]);
        } else if e.len() == 1 {
            assert(head + e =~= head.push(e[0]));
            scan_push(head, e[0]);
        } else {
            assert(head + e =~= head);
        }
        assert forall|x: char| (head + e).contains(x) implies head.contains(x) || e.contains(x) by {
            let k = choose|k: int| 0 <= k < (head + e).len() && (head + e)[k] == x;
            if k < head.len() {
                assert(head[k] == x);
            } else {
                assert(e[k - head.len()] == x);
            }
        }
    }
}

/// Escaping works piece by piece.
pub proof fn escape_of_concatenation(a: Seq<char>, b: Seq<char>)
    ensures
        dot_escaped(a + b) == dot_escaped(a) + dot_escaped(b),
    decreases b.len(),
{
    if b.len() == 0 {
        assert(a + b =~= a);
        assert(dot_escaped(a) + Seq::<char>::empty() =~= dot_escaped(a));
    } else {
        assert((a + b).drop_last() =~= a + b.drop_last());
        escape_of_concatenation(a, b.drop_last());
        assert(dot_escaped(a) + (dot_escaped(b.drop_last()) + escape_char(b.last()))
            =~= dot_escaped(a) + dot_escaped(b.drop_last()) + escape_char(b.last()));
    }
}

/// What a reader makes of a label text: an escape `\n` is a newline, any other
/// escaped character stands for itself.
pub open spec fn unescaped(s: Seq<char>) -> Seq<char>
    decreases s.len(),
{
    if s.len() == 0 {
        Seq::empty()
    } else if s[0] == '\\' && s.len() > 1 {
        seq![if s[1] == 'n' { '\n' } else { s[1] }] + unescaped(s.skip(2))
    } else {
        seq![s[0]] + unescaped(s.skip(1))
    }
}

/// The text without carriage returns.
pub open spec fn without_returns(s: Seq<char>) -> Seq<char> {
    s.filter(|c: char| c != '\r')
}

/// Reading an escaped text back gives the text, less its carriage returns.
pub proof fn escape_can_be_read_back(s: Seq<char>)
    ensures
        unescaped(dot_escaped(s)) == without_returns(s),
    decreases s.len(),
{
    let keep = |c: char| c != '\r';
    if s.len() == 0 {
        assert(s.filter(keep) =~= Seq::<char>::empty()) by {
            reveal(Seq::filter);
        }
    } else {
        let c = s[0];
        let rest = s.drop_first();
        assert(s =~= seq![c] + rest);
        escape_of_concatenation(seq![c], rest);
        assert(seq![c].drop_last() =~= Seq::<char>::empty());
        assert(dot_escaped(seq![c]) =~= escape_char(c)) by {
            reveal_with_fuel(dot_escaped, 2);
        }
        escape_can_be_read_back(rest);
        let e = escape_char(c);
        let t = e + dot_escaped(rest);
        if e.len() == 2 {
            assert(t.skip(2) =~= dot_escaped(rest));
        } else if e.len() == 1 {
            assert(t.skip(1) =~= dot_escaped(rest));
        } else {
            assert(t =~= dot_escaped(rest));
        }
        filter_head(c, rest);
    }
}

/// Filtering a text from the front.
proof fn filter_head(c: char, rest: Seq<char>)
    ensures
        without_returns(seq![c] + rest) == (if c != '\r' {
            seq![c] + without_returns(rest)
        } else {
            without_returns(rest)
        }),
    decreases rest.len(),
{
    let keep = |c: char| c != '\r';
    let s = seq![c] + rest;
    reveal(Seq::filter);
    if rest.len() == 0 {
        assert(s.drop_last() =~= Seq::<char>::empty());
        assert(s.drop_last().filter(keep) =~= Seq::<char>::empty());
        assert(rest.filter(keep) =~= Seq::<char>::empty());
        assert(s.filter(keep) =~= if c != '\r' { seq![c] } else { Seq::<char>::empty() });
        assert(seq![c] + Seq::<char>::empty() =~= seq![c]);
    } else {
        assert(s.drop_last() =~= seq![c] + rest.drop_last());
        assert(s.last() == rest.last());
        filter_head(c, rest.drop_last());
        let inner = rest.drop_last().filter(keep);
        assert((seq![c] + inner).push(rest.last()) =~= seq![c] + inner.push(rest.last()));
    }
}

/// The capacity of a place as it is printed.
pub open spec fn capacity_label(capacity: Option<u64>) -> Seq<char> {
    match capacity {
        Some(c) => decimal(c as nat),
        None => "inf"@,
    }
}

/// The line of a place.
pub open spec fn place_line(i: nat, place: PlaceView) -> Seq<char> {
    "  p"@ + decimal(i) + " [label=\""@ + dot_escaped(
        place.name + "\n"@ + place.place_type.name() + "\n"@ + capacity_label(place.capacity),
    ) + "\", shape=circle];\n"@
}

/// The line of a transition.
pub open spec fn transition_line(i: nat, transition: TransitionView) -> Seq<char> {
    "  t"@ + decimal(i) + " [label=\""@ + dot_escaped(
        transition.name + "\n"@ + transition.transition_type.debug(),
    ) + "\", shape=box];\n"@
}

/// The line of an arc; a reset arc has none.
pub open spec fn arc_line(arc: Arc) -> Seq<char> {
    match arc.direction {
        ArcDir::Input => "  p"@ + decimal(arc.place as nat) + " -> t"@ + decimal(
            arc.transition as nat,
        ) + ";\n"@,
        ArcDir::Output => "  t"@ + decimal(arc.transition as nat) + " -> p"@ + decimal(
            arc.place as nat,
        ) + ";\n"@,
        ArcDir::Inhibitor => "  p"@ + decimal(arc.place as nat) + " -> t"@ + decimal(
            arc.transition as nat,
        ) + " [style=dotted];\n"@,
        ArcDir::Reset => Seq::empty(),
    }
}

/// The lines of the places, in order.
pub open spec fn place_lines(places: Seq<PlaceView>) -> Seq<char>
    decreases places.len(),
{
    if places.len() == 0 {
        Seq::empty()
    } else {
        place_lines(places.drop_last()) + place_line((places.len() - 1) as nat, places.last())
    }
}

/// The lines of the transitions, in order.
pub open spec fn transition_lines(transitions: Seq<TransitionView>) -> Seq<char>
    decreases transitions.len(),
{
    if transitions.len() == 0 {
        Seq::empty()
    } else {
        transition_lines(transitions.drop_last()) + transition_line(
            (transitions.len() - 1) as nat,
            transitions.last(),
        )
    }
}

/// The lines of the arcs, in order.
pub open spec fn arc_lines(arcs: Seq<Arc>) -> Seq<char>
    decreases arcs.len(),
{
    if arcs.len() == 0 {
        Seq::empty()
    } else {
        arc_lines(arcs.drop_last()) + arc_line(arcs.last())
    }
}

/// The printed capacity.
fn capacity_text(capacity: Option<u64>) -> (r: String)
    ensures
        r@ == capacity_label(capacity),
{
    match capacity {
        Some(c) => decimal_text(c),
        None => "inf".to_owned(),
    }
}

/// The printed line of a place.
fn place_text(i: usize, place: &PtPlace) -> (r: String)
    ensures
        r@ == place_line(i as nat, place@),
{
    let raw = place.name.clone().concat("\n").concat(place.place_type.name_text()).concat(
        "\n",
    ).concat(capacity_text(place.capacity).as_str());
    "  p".to_owned().concat(index_text(i).as_str()).concat(" [label=\"").concat(
        dot_escape(raw.as_str()).as_str(),
    ).concat("\", shape=circle];\n")
}

/// The printed line of a transition.
fn transition_text(i: usize, transition: &PtTransition) -> (r: String)
    ensures
        r@ == transition_line(i as nat, transition@),
{
    let raw = transition.name.clone().concat("\n").concat(
        transition.transition_type.debug_text().as_str(),
    );
    "  t".to_owned().concat(index_text(i).as_str()).concat(" [label=\"").concat(
        dot_escape(raw.as_str()).as_str(),
    ).concat("\", shape=box];\n")
}

/// The printed line of an arc.
fn arc_text(arc: &Arc) -> (r: String)
    ensures
        r@ == arc_line(*arc),
{
    match arc.direction {
        ArcDir::Input => "  p".to_owned().concat(index_text(arc.place).as_str()).concat(
            " -> t",
        ).concat(index_text(arc.transition).as_str()).concat(";\n"),
        ArcDir::Output => "  t".to_owned().concat(index_text(arc.transition).as_str()).concat(
            " -> p",
        ).concat(index_text(arc.place).as_str()).concat(";\n"),
        ArcDir::Inhibitor => "  p".to_owned().concat(index_text(arc.place).as_str()).concat(
            " -> t",
        ).concat(index_text(arc.transition).as_str()).concat(" [style=dotted];\n"),
        ArcDir::Reset => String::new(),
    }
}

/// Renders a Petri net as a DOT graph, with every label escaped.
pub fn petri_net_to_dot(net: &PtNet) -> (r: String)
    ensures
        r@ == "digraph PetriNet {\n  rankdir=LR;\n"@ + place_lines(net@.places)
            + transition_lines(net@.transitions) + arc_lines(net@.arcs) + "}\n"@,
{
    let mut out = "digraph PetriNet {\n  rankdir=LR;\n".to_owned();
    let ghost head = out@;
    let ghost places = net@.places;
    let ghost transitions = net@.transitions;
    let ghost arcs = net@.arcs;
    let mut i: usize = 0;
    proof {
        assert(places.take(0) =~= Seq::<PlaceView>::empty());
        assert(head + Seq::<char>::empty() =~= head);
    }
    while i < net.places.len()
        invariant
            i <= net.places@.len(),
            places == net@.places,
            out@ == head + place_lines(places.take(i as int)),
        decreases net.places@.len() - i,
    {
        proof {
            assert(places.take(i + 1).drop_last() =~= places.take(i as int));
            assert(places.take(i + 1).last() == net.places@[i as int]@);
        }
        out.append(place_text(i, &net.places[i]).as_str());
        proof {
            assert(out@ =~= head + place_lines(places.take(i + 1)));
        }
        i = i + 1;
    }
    let ghost middle = out@;
    proof {
        assert(places.take(i as int) =~= places);
        assert(transitions.take(0) =~= Seq::<TransitionView>::empty());
        assert(middle + Seq::<char>::empty() =~= middle);
    }
    let mut j: usize = 0;
    while j < net.transitions.len()
        invariant
            j <= net.transitions@.len(),
            transitions == net@.transitions,
            out@ == middle + transition_lines(transitions.take(j as int)),
        decreases net.transitions@.len() - j,
    {
        proof {
            assert(transitions.take(j + 1).drop_last() =~= transitions.take(j as int));
            assert(transitions.take(j + 1).last() == net.transitions@[j as int]@);
        }
        out.append(transition_text(j, &net.transitions[j]).as_str());
        proof {
            assert(out@ =~= middle + transition_lines(transitions.take(j + 1)));
        }
        j = j + 1;
    }
    let ghost rest = out@;
    proof {
        assert(transitions.take(j as int) =~= transitions);
        assert(arcs.take(0) =~= Seq::<Arc>::empty());
        assert(rest + Seq::<char>::empty() =~= rest);
    }
    let mut k: usize = 0;
    while k < net.arcs.len()
        invariant
            k <= net.arcs@.len(),
            arcs == net.arcs@,
            out@ == rest + arc_lines(arcs.take(k as int)),
        decreases net.arcs@.len() - k,
    {
        proof {
            assert(arcs.take(k + 1).drop_last() =~= arcs.take(k as int));
            assert(arcs.take(k + 1).last() == arcs[k as int]);
        }
        out.append(arc_text(&net.arcs[k]).as_str());
        proof {
            assert(out@ =~= rest + arc_lines(arcs.take(k + 1)));
        }
        k = k + 1;
    }
    proof {
        assert(arcs.take(k as int) =~= arcs);
    }
    out.append("}\n");
    out
}

/// The character has a meaning of its own in a label.
pub open spec fn is_special(c: char) -> bool {
    c == '"' || c == '{' || c == '}' || c == '<' || c == '>'
}

/// Characters that mean something in a label come after a backslash only, and
/// no line break is left.
pub proof fn special_characters_are_escaped(s: Seq<char>, i: int)
    requires
        0 <= i < dot_escaped(s).len(),
    ensures
        is_special(dot_escaped(s)[i]) ==> i > 0 && dot_escaped(s)[i - 1] == '\\',
        dot_escaped(s)[i] != '\n',
        dot_escaped(s)[i] != '\r',
    decreases s.len(),
{
    let before = dot_escaped(s.drop_last());
    if i < before.len() {
        special_characters_are_escaped(s.drop_last(), i);
    }
}

/// Characters without a meaning of their own stay as they are.
pub proof fn ordinary_text_is_kept(s: Seq<char>)
    requires
        forall|i: int|
            0 <= i < s.len() ==> !is_special(#[trigger] s[i]) && s[i] != '\\' && s[i] != '\n'
                && s[i] != '\r',
    ensures
        dot_escaped(s) == s,
    decreases s.len(),
{
    if s.len() > 0 {
        let front = s.drop_last();
        assert forall|i: int| 0 <= i < front.len() implies !is_special(#[trigger] front[i])
            && front[i] != '\\' && front[i] != '\n' && front[i] != '\r' by {
            assert(front[i] == s[i]);
        }
        ordinary_text_is_kept(front);
        assert(s[s.len() - 1] == s.last());
        assert(dot_escaped(s) =~= s);
    } else {
        assert(dot_escaped(s) =~= s);
    }
}

proof fn text_within(a: Seq<char>, part: Seq<char>, b: Seq<char>)
    ensures
        contains_text(a + part + b, part),
{
    let at = a.len() as int;
    assert((a + part + b).subrange(at, at + part.len()) =~= part);
    assert(occurs_at(a + part + b, part, at));
}

proof fn text_before_more(s: Seq<char>, part: Seq<char>, b: Seq<char>)
    requires
        contains_text(s, part),
    ensures
        contains_text(s + b, part),
{
    let at = choose|at: int| occurs_at(s, part, at);
    assert((s + b).subrange(at, at + part.len()) =~= s.subrange(at, at + part.len()));
    assert(occurs_at(s + b, part, at));
}

/// Every place is drawn as a circle under its number, with its name, what it
/// stands for and what it can hold.
pub proof fn every_place_is_drawn(places: Seq<PlaceView>, i: int)
    requires
        0 <= i < places.len(),
    ensures
        contains_text(
            place_lines(places),
            "  p"@ + decimal(i as nat) + " [label=\""@ + dot_escaped(
                places[i].name + "\n"@ + places[i].place_type.name() + "\n"@ + (
                match places[i].capacity {
                    Some(c) => decimal(c as nat),
                    None => "inf"@,
                }),
            ) + "\", shape=circle];\n"@,
        ),
    decreases places.len(),
{
    let front = places.drop_last();
    let before = place_lines(front);
    if i < front.len() {
        assert(front[i] == places[i]);
        every_place_is_drawn(front, i);
        text_before_more(
            before,
            place_line(i as nat, places[i]),
            place_line((places.len() - 1) as nat, places.last()),
        );
    } else {
        let line = place_line(i as nat, places[i]);
        text_within(before, line, Seq::empty());
        assert(before + line + Seq::<char>::empty() =~= before + line);
    }
}

/// Every transition is drawn as a box under its number, with its name and what
/// it does.
pub proof fn every_transition_is_drawn(transitions: Seq<TransitionView>, i: int)
    requires
        0 <= i < transitions.len(),
    ensures
        contains_text(
            transition_lines(transitions),
            "  t"@ + decimal(i as nat) + " [label=\""@ + dot_escaped(
                transitions[i].name + "\n"@ + transitions[i].transition_type.debug(),
            ) + "\", shape=box];\n"@,
        ),
    decreases transitions.len(),
{
    let front = transitions.drop_last();
    let before = transition_lines(front);
    if i < front.len() {
        assert(front[i] == transitions[i]);
        every_transition_is_drawn(front, i);
        text_before_more(
            before,
            transition_line(i as nat, transitions[i]),
            transition_line((transitions.len() - 1) as nat, transitions.last()),
        );
    } else {
        let line = transition_line(i as nat, transitions[i]);
        text_within(before, line, Seq::empty());
        assert(before + line + Seq::<char>::empty() =~= before + line);
    }
}

/// Every arc is drawn the way that it goes, and an inhibitor arc dotted.
pub proof fn every_arc_is_drawn(arcs: Seq<Arc>, i: int)
    requires
        0 <= i < arcs.len(),
    ensures
        ({
            let place = "p"@ + decimal(arcs[i].place as nat);
            let transition = "t"@ + decimal(arcs[i].transition as nat);
            match arcs[i].direction {
                ArcDir::Input => contains_text(
                    arc_lines(arcs),
                    "  "@ + place + " -> "@ + transition + ";\n"@,
                ),
                ArcDir::Output => contains_text(
                    arc_lines(arcs),
                    "  "@ + transition + " -> "@ + place + ";\n"@,
                ),
                ArcDir::Inhibitor => contains_text(
                    arc_lines(arcs),
                    "  "@ + place + " -> "@ + transition + " [style=dotted];\n"@,
                ),
                ArcDir::Reset => true,
            }
        }),
    decreases arcs.len(),
{
    let front = arcs.drop_last();
    let before = arc_lines(front);
    let place = "p"@ + decimal(arcs[i].place as nat);
    let transition = "t"@ + decimal(arcs[i].transition as nat);
    line_parts();
    assert("  "@ + place + " -> "@ + transition + ";\n"@ =~= "  p"@ + decimal(
        arcs[i].place as nat,
    ) + " -> t"@ + decimal(arcs[i].transition as nat) + ";\n"@);
    assert("  "@ + transition + " -> "@ + place + ";\n"@ =~= "  t"@ + decimal(
        arcs[i].transition as nat,
    ) + " -> p"@ + decimal(arcs[i].place as nat) + ";\n"@);
    assert("  "@ + place + " -> "@ + transition + " [style=dotted];\n"@ =~= "  p"@ + decimal(
        arcs[i].place as nat,
    ) + " -> t"@ + decimal(arcs[i].transition as nat) + " [style=dotted];\n"@);
    if i < front.len() {
        assert(front[i] == arcs[i]);
        every_arc_is_drawn(front, i);
        if !(arcs[i].direction is Reset) {
            text_before_more(before, arc_line(arcs[i]), arc_line(arcs.last()));
        }
    } else {
        let line = arc_line(arcs[i]);
        text_within(before, line, Seq::empty());
        assert(before + line + Seq::<char>::empty() =~= before + line);
    }
}

proof fn line_parts()
    ensures
        "  p"@ =~= "  "@ + "p"@,
        "  t"@ =~= "  "@ + "t"@,
        " -> t"@ =~= " -> "@ + "t"@,
        " -> p"@ =~= " -> "@ + "p"@,
{
    reveal_strlit("  p");
    reveal_strlit("  t");
    reveal_strlit("  ");
    reveal_strlit("p");
    reveal_strlit("t");
    reveal_strlit(" -> t");
    reveal_strlit(" -> p");
    reveal_strlit(" -> ");
}

} // verus!
