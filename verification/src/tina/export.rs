//! Writing a timed net in the textual format.
use vstd::prelude::*;
use crate::errors::{NetError, NetErrorView};
use crate::ids::{NodeId, PlaceId, TransitionId};
use crate::text::{chars_of, decimal, push_decimal, push_str, string_from_chars};
use crate::timed::net::{Net, NetView};
use crate::timed::time_range::{Bound, TimeRange};
use crate::tina::lexer::{belongs, is_digit, is_ident_char, keyword_or_name, word2, word3, Class};

verus! {

/// A text, or the error that kept it from being written.
pub type Text = Result<Seq<char>, NetErrorView>;

/// A name that is read back as it is written: it is not empty, it is made of letters,
/// digits, underscores and apostrophes, it begins with no digit, and it is no keyword.
pub open spec fn is_plain(s: Seq<char>) -> bool {
    &&& s.len() > 0
    &&& !is_digit(s[0])
    &&& forall|i: int| 0 <= i < s.len() ==> is_ident_char(#[trigger] s[i])
    &&& keyword_or_name(s) is Identifier
}

/// The first `n` characters of `s`, with a backslash before each backslash and brace.
pub open spec fn escaped_chars(s: Seq<char>, n: nat) -> Seq<char>
    decreases n,
{
    if n == 0 {
        Seq::empty()
    } else {
        let c = s[n - 1];
        if c == '\\' || c == '{' || c == '}' {
            escaped_chars(s, (n - 1) as nat).push('\\').push(c)
        } else {
            escaped_chars(s, (n - 1) as nat).push(c)
        }
    }
}

/// How the name `s` is written: as it is if it is plain, else in braces, with a backslash
/// before each backslash and brace.
pub open spec fn escape(s: Seq<char>) -> Seq<char> {
    if is_plain(s) {
        s
    } else {
        seq!['{'] + escaped_chars(s, s.len()) + seq!['}']
    }
}

/// The error for a node that has no name.
pub open spec fn nameless(id: NodeId) -> NetErrorView {
    match id {
        NodeId::Place(pl) => NetErrorView::InvalidPlace(pl),
        NodeId::Transition(tr) => NetErrorView::InvalidTransition(tr),
    }
}

/// `out` with the name of the node `id` behind it.
pub open spec fn with_name(net: NetView, id: NodeId, out: Seq<char>) -> Text {
    match net.names.name_of(id) {
        None => Err(nameless(id)),
        Some(n) => Ok(out + escape(n)),
    }
}

/// How the arcs of one kind are written.
pub struct ArcStyle {
    /// The mark that stands between the name of the place and the weight.
    pub mark: Seq<char>,
    /// Whether an arc of weight one is written by the name of the place alone.
    pub plain_unit: bool,
    /// What stands behind each arc, after the blank.
    pub tail: Seq<char>,
}

/// Arcs that consume or produce: `p` for the weight one, else `p*w`.
pub open spec fn normal_style() -> ArcStyle {
    ArcStyle { mark: "*"@, plain_unit: true, tail: ""@ }
}

/// Inhibitor arcs: `p?-w`.
pub open spec fn inhibitor_style() -> ArcStyle {
    ArcStyle { mark: "?-"@, plain_unit: false, tail: ""@ }
}

/// Test arcs: `p?w`, with one blank more behind each.
pub open spec fn test_style() -> ArcStyle {
    ArcStyle { mark: "?"@, plain_unit: false, tail: " "@ }
}

/// `out` with one arc behind it.
pub open spec fn with_arc(net: NetView, arc: (PlaceId, usize), style: ArcStyle, out: Seq<char>) -> Text {
    match with_name(net, NodeId::Place(arc.0), out) {
        Err(e) => Err(e),
        Ok(named) => Ok(
            if style.plain_unit && arc.1 == 1 {
                named + " "@ + style.tail
            } else {
                named + style.mark + decimal(arc.1 as nat) + " "@ + style.tail
            },
        ),
    }
}

/// `out` with the first `n` of `arcs` behind it.
pub open spec fn with_arcs(
    net: NetView,
    arcs: Seq<(PlaceId, usize)>,
    n: nat,
    style: ArcStyle,
    out: Seq<char>,
) -> Text
    decreases n,
{
    if n == 0 {
        Ok(out)
    } else {
        match with_arcs(net, arcs, (n - 1) as nat, style, out) {
            Err(e) => Err(e),
            Ok(before) => with_arc(net, arcs[n - 1], style, before),
        }
    }
}

/// `out` with the label behind it, if there is one.
pub open spec fn with_label(label: Option<Seq<char>>, out: Seq<char>) -> Seq<char> {
    match label {
        Some(l) => out + ": "@ + escape(l) + " "@,
        None => out,
    }
}

/// Whether the place at `p` gets a line: every place does if all are asked for, else
/// those that have an arc and a label or tokens.
pub open spec fn place_shown(net: NetView, p: int, all_places: bool) -> bool {
    let place = net.places[p];
    all_places || (!place.is_disconnected() && (place.label is Some || place.initial != 0))
}

/// `out` with the line of the place at `p` behind it, if it gets one.
pub open spec fn with_place(net: NetView, p: int, all_places: bool, out: Seq<char>) -> Text {
    if !place_shown(net, p, all_places) {
        Ok(out)
    } else {
        match with_name(net, NodeId::Place(PlaceId(p as usize)), out + "pl "@) {
            Err(e) => Err(e),
            Ok(named) => {
                let labelled = with_label(net.places[p].label, named + " "@);
                Ok(
                    if net.places[p].initial != 0 {
                        labelled + "("@ + decimal(net.places[p].initial as nat) + ")"@ + "\n"@
                    } else {
                        labelled + "\n"@
                    },
                )
            },
        }
    }
}

/// `out` with the lines of the first `n` places behind it.
pub open spec fn with_places(net: NetView, n: nat, all_places: bool, out: Seq<char>) -> Text
    decreases n,
{
    if n == 0 {
        Ok(out)
    } else {
        match with_places(net, (n - 1) as nat, all_places, out) {
            Err(e) => Err(e),
            Ok(before) => with_place(net, n - 1, all_places, before),
        }
    }
}

/// `out` with the time range behind it, unless it is `[0, ∞)`. A range without a start
/// cannot be written.
pub open spec fn with_interval(time: TimeRange, out: Seq<char>) -> Text {
    if time == (TimeRange { start: Bound::Closed(0), end: Bound::Infinity }) {
        Ok(out)
    } else {
        match time.start {
            Bound::Infinity => Err(NetErrorView::InvalidTimeRange),
            Bound::Closed(v) => Ok(with_end(time.end, out + "["@ + decimal(v as nat) + ","@)),
            Bound::Open(v) => Ok(with_end(time.end, out + "]"@ + decimal(v as nat) + ","@)),
        }
    }
}

/// `out` with the end of a time range behind it.
pub open spec fn with_end(end: Bound, out: Seq<char>) -> Seq<char> {
    match end {
        Bound::Closed(v) => out + decimal(v as nat) + "] "@,
        Bound::Open(v) => out + decimal(v as nat) + "[ "@,
        Bound::Infinity => out + "w[ "@,
    }
}

/// `out` with the names of the first `n` of `ids` behind it, a blank behind each.
pub open spec fn with_names(net: NetView, ids: Seq<TransitionId>, n: nat, out: Seq<char>) -> Text
    decreases n,
{
    if n == 0 {
        Ok(out)
    } else {
        match with_names(net, ids, (n - 1) as nat, out) {
            Err(e) => Err(e),
            Ok(before) => match with_name(net, NodeId::Transition(ids[n - 1]), before) {
                Err(e) => Err(e),
                Ok(named) => Ok(named + " "@),
            },
        }
    }
}

/// `out` with the line of the priorities of the transition at `t` behind it, if it has any.
pub open spec fn with_priorities(net: NetView, t: int, out: Seq<char>) -> Text {
    let ids = net.transitions[t].priorities;
    if ids.len() == 0 {
        Ok(out)
    } else {
        match with_name(net, NodeId::Transition(TransitionId(t as usize)), out + "pr "@) {
            Err(e) => Err(e),
            Ok(named) => match with_names(net, ids, ids.len(), named + " > "@) {
                Err(e) => Err(e),
                Ok(listed) => Ok(listed + "\n"@),
            },
        }
    }
}

/// `out` with the arcs of the transition at `t` behind it: the inhibitor arcs, those
/// that consume, the test arcs, the arrow, and those that produce.
pub open spec fn with_all_arcs(net: NetView, t: int, out: Seq<char>) -> Text {
    let tr = net.transitions[t];
    match with_arcs(net, tr.inhibitors, tr.inhibitors.len(), inhibitor_style(), out) {
        Err(e) => Err(e),
        Ok(a) => match with_arcs(net, tr.consume, tr.consume.len(), normal_style(), a) {
            Err(e) => Err(e),
            Ok(b) => match with_arcs(net, tr.conditions, tr.conditions.len(), test_style(), b) {
                Err(e) => Err(e),
                Ok(c) => with_arcs(net, tr.produce, tr.produce.len(), normal_style(), c + "-> "@),
            },
        },
    }
}

/// `out` with the lines of the transition at `t` behind it; a transition without arcs
/// gets none if those are left out.
pub open spec fn with_transition(net: NetView, t: int, without_disconnected: bool, out: Seq<char>) -> Text {
    let tr = net.transitions[t];
    if without_disconnected && tr.is_disconnected() {
        Ok(out)
    } else {
        match with_name(net, NodeId::Transition(TransitionId(t as usize)), out + "tr "@) {
            Err(e) => Err(e),
            Ok(named) => match with_interval(tr.time, with_label(tr.label, named + " "@)) {
                Err(e) => Err(e),
                Ok(timed) => match with_all_arcs(net, t, timed) {
                    Err(e) => Err(e),
                    Ok(arcs) => with_priorities(net, t, arcs + "\n"@),
                },
            },
        }
    }
}

/// `out` with the lines of the first `n` transitions behind it.
pub open spec fn with_transitions(net: NetView, n: nat, without_disconnected: bool, out: Seq<char>) -> Text
    decreases n,
{
    if n == 0 {
        Ok(out)
    } else {
        match with_transitions(net, (n - 1) as nat, without_disconnected, out) {
            Err(e) => Err(e),
            Ok(before) => with_transition(net, n - 1, without_disconnected, before),
        }
    }
}

/// The text of the net: the line of its name if it has one, the lines of its places, and
/// the lines of its transitions.
pub open spec fn exported(net: NetView, all_places: bool, without_disconnected: bool) -> Text {
    let head = if net.name.len() == 0 {
        Seq::<char>::empty()
    } else {
        "net "@ + escape(net.name) + "\n"@
    };
    match with_places(net, net.places.len(), all_places, head) {
        Err(e) => Err(e),
        Ok(places) => with_transitions(net, net.transitions.len(), without_disconnected, places),
    }
}

/// Once an arc could not be written, the arcs behind it change nothing.
proof fn lemma_with_arcs_fails(net: NetView, arcs: Seq<(PlaceId, usize)>, k: nat, n: nat, style: ArcStyle, out: Seq<char>)
    requires
        k <= n,
        with_arcs(net, arcs, k, style, out) is Err,
    ensures
        with_arcs(net, arcs, n, style, out) == with_arcs(net, arcs, k, style, out),
    decreases n,
{
    if k < n {
        lemma_with_arcs_fails(net, arcs, k, (n - 1) as nat, style, out);
    }
}

/// Once a name could not be written, the names behind it change nothing.
proof fn lemma_with_names_fails(net: NetView, ids: Seq<TransitionId>, k: nat, n: nat, out: Seq<char>)
    requires
        k <= n,
        with_names(net, ids, k, out) is Err,
    ensures
        with_names(net, ids, n, out) == with_names(net, ids, k, out),
    decreases n,
{
    if k < n {
        lemma_with_names_fails(net, ids, k, (n - 1) as nat, out);
    }
}

/// Once a place could not be written, the places behind it change nothing.
proof fn lemma_with_places_fails(net: NetView, k: nat, n: nat, all_places: bool, out: Seq<char>)
    requires
        k <= n,
        with_places(net, k, all_places, out) is Err,
    ensures
        with_places(net, n, all_places, out) == with_places(net, k, all_places, out),
    decreases n,
{
    if k < n {
        lemma_with_places_fails(net, k, (n - 1) as nat, all_places, out);
    }
}

/// Once a transition could not be written, the transitions behind it change nothing.
proof fn lemma_with_transitions_fails(net: NetView, k: nat, n: nat, without: bool, out: Seq<char>)
    requires
        k <= n,
        with_transitions(net, k, without, out) is Err,
    ensures
        with_transitions(net, n, without, out) == with_transitions(net, k, without, out),
    decreases n,
{
    if k < n {
        lemma_with_transitions_fails(net, k, (n - 1) as nat, without, out);
    }
}

/// `got` with the buffer `now` is what writing gives.
pub open spec fn written(got: Result<(), NetError>, now: Seq<char>, want: Text) -> bool {
    match want {
        Ok(s) => got is Ok && now == s,
        Err(e) => got is Err && got->Err_0@ == e,
    }
}

/// Makes an exporter.
pub struct ExporterBuilder {
    without_disconnected_transitions: bool,
    with_all_places: bool,
}

impl ExporterBuilder {
    /// A builder of an exporter that writes every transition, and the places that have a
    /// label or tokens and an arc.
    pub fn new() -> (b: Self)
        ensures
            !b.without_disconnected(),
            !b.all_places(),
    {
        Self { without_disconnected_transitions: false, with_all_places: false }
    }

    /// Whether the transitions without arcs are left out.
    pub closed spec fn without_disconnected(&self) -> bool {
        self.without_disconnected_transitions
    }

    /// Whether every place gets a line.
    pub closed spec fn all_places(&self) -> bool {
        self.with_all_places
    }

    /// Sets whether the transitions without arcs are left out.
    pub fn with_disconnected_transitions(self, without_disconnected_transitions: bool) -> (b: Self)
        ensures
            b.without_disconnected() == without_disconnected_transitions,
            b.all_places() == self.all_places(),
    {
        Self { without_disconnected_transitions, ..self }
    }

    /// Sets whether every place gets a line.
    pub fn with_all_places(self, with_all_places: bool) -> (b: Self)
        ensures
            b.all_places() == with_all_places,
            b.without_disconnected() == self.without_disconnected(),
    {
        Self { with_all_places, ..self }
    }

    /// The exporter.
    pub fn build(self) -> (e: Exporter)
        ensures
            e.all_places() == self.all_places(),
            e.without_disconnected() == self.without_disconnected(),
    {
        Exporter {
            without_disconnected_transition: self.without_disconnected_transitions,
            with_all_places: self.with_all_places,
        }
    }
}

/// Writes timed nets in the textual format.
pub struct Exporter {
    without_disconnected_transition: bool,
    with_all_places: bool,
}

impl Exporter {
    /// Whether the transitions without arcs are left out.
    pub closed spec fn without_disconnected(&self) -> bool {
        self.without_disconnected_transition
    }

    /// Whether every place gets a line.
    pub closed spec fn all_places(&self) -> bool {
        self.with_all_places
    }

    /// Whether the name is read back as it is written.
    fn plain(chars: &Vec<char>) -> (b: bool)
        ensures
            b == is_plain(chars@),
    {
        if chars.len() == 0 {
            return false;
        }
        if belongs(Class::Digits, chars[0]) {
            return false;
        }
        let mut i: usize = 0;
        while i < chars.len()
            invariant
                i <= chars@.len(),
                forall|j: int| 0 <= j < i ==> is_ident_char(#[trigger] chars@[j]),
            decreases chars@.len() - i,
        {
            if !belongs(Class::Name, chars[i]) {
                return false;
            }
            i += 1;
        }
        !(word2(chars, 't', 'r') || word3(chars, 'n', 'e', 't') || word2(chars, 'l', 'b') || word2(
            chars,
            'n',
            't',
        ) || word2(chars, 'n', 'a') || word2(chars, 'p', 'l') || word2(chars, 'p', 'r'))
    }

    /// Puts the name `s` behind `out`, as it is written.
    fn push_escaped(out: &mut Vec<char>, s: &str)
        ensures
            final(out)@ == old(out)@ + escape(s@),
    {
        let chars = chars_of(s);
        if Self::plain(&chars) {
            push_str(out, s);
            return ;
        }
        out.push('{');
        let ghost start = out@;
        let mut i: usize = 0;
        while i < chars.len()
            invariant
                i <= chars@.len(),
                out@ == start + escaped_chars(chars@, i as nat),
            decreases chars@.len() - i,
        {
            let c = chars[i];
            if c == '\\' || c == '{' || c == '}' {
                out.push('\\');
            }
            out.push(c);
            proof {
                assert(out@ =~= start + escaped_chars(chars@, (i + 1) as nat));
            }
            i += 1;
        }
        out.push('}');
        proof {
            assert(out@ =~= old(out)@ + escape(s@));
        }
    }

    /// How the name `s` is written: as it is if it is plain, else in braces.
    pub fn escape(s: &str) -> (r: String)
        ensures
            r@ == escape(s@),
    {
        let mut out: Vec<char> = Vec::new();
        Self::push_escaped(&mut out, s);
        proof {
            assert(Seq::<char>::empty() + escape(s@) =~= escape(s@));
        }
        string_from_chars(&out)
    }

    /// Puts the name of the node `id` behind `out`.
    fn push_name(net: &Net, id: NodeId, out: &mut Vec<char>) -> (r: Result<(), NetError>)
        requires
            net.wf(),
        ensures
            written(r, final(out)@, with_name(net@, id, old(out)@)),
    {
        match net.get_name_by_index(&id) {
            None => Err(
                match id {
                    NodeId::Place(pl) => NetError::InvalidPlace(pl),
                    NodeId::Transition(tr) => NetError::InvalidTransition(tr),
                },
            ),
            Some(n) => {
                Self::push_escaped(out, n.as_str());
                Ok(())
            },
        }
    }

    /// Puts the arcs behind `out`.
    fn push_arcs(
        net: &Net,
        arcs: &crate::marking::Marking<PlaceId>,
        mark: &str,
        plain_unit: bool,
        tail: &str,
        out: &mut Vec<char>,
    ) -> (r: Result<(), NetError>)
        requires
            net.wf(),
        ensures
            written(
                r,
                final(out)@,
                with_arcs(
                    net@,
                    arcs@,
                    arcs@.len(),
                    ArcStyle { mark: mark@, plain_unit, tail: tail@ },
                    old(out)@,
                ),
            ),
    {
        let ghost style = ArcStyle { mark: mark@, plain_unit, tail: tail@ };
        let ghost start = out@;
        let n = arcs.len();
        let mut i: usize = 0;
        while i < n
            invariant
                i <= n,
                n == arcs@.len(),
                net.wf(),
                style == (ArcStyle { mark: mark@, plain_unit, tail: tail@ }),
                start == old(out)@,
                with_arcs(net@, arcs@, i as nat, style, start) == Ok::<Seq<char>, NetErrorView>(
                    out@,
                ),
            decreases n - i,
        {
            let e = arcs.entry(i);
            match Self::push_name(net, NodeId::Place(e.0), out) {
                Ok(()) => {},
                Err(err) => {
                    proof {
                        lemma_with_arcs_fails(net@, arcs@, (i + 1) as nat, n as nat, style, start);
                    }
                    return Err(err);
                },
            }
            if plain_unit && e.1 == 1 {
                push_str(out, " ");
            } else {
                push_str(out, mark);
                push_decimal(out, e.1);
                push_str(out, " ");
            }
            push_str(out, tail);
            i += 1;
        }
        Ok(())
    }

    /// Puts the label behind `out`, if there is one.
    fn push_label(label: &Option<String>, out: &mut Vec<char>)
        ensures
            final(out)@ == with_label(crate::standard::place::label_view(*label), old(out)@),
    {
        match label {
            Some(l) => {
                push_str(out, ": ");
                Self::push_escaped(out, l.as_str());
                push_str(out, " ");
            },
            None => {},
        }
    }

    /// Puts the line of the place at `p` behind `out`, if it gets one.
    fn push_place(&self, net: &Net, p: usize, out: &mut Vec<char>) -> (r: Result<(), NetError>)
        requires
            net.wf(),
            p < net@.places.len(),
        ensures
            written(r, final(out)@, with_place(net@, p as int, self.all_places(), old(out)@)),
    {
        let place = &net.places[p];
        if !(self.with_all_places || (!place.is_disconnected() && (place.label.is_some()
            || place.initial != 0))) {
            return Ok(());
        }
        push_str(out, "pl ");
        Self::push_name(net, NodeId::Place(PlaceId(p)), out)?;
        push_str(out, " ");
        Self::push_label(&place.label, out);
        if place.initial != 0 {
            push_str(out, "(");
            push_decimal(out, place.initial);
            push_str(out, ")");
        }
        push_str(out, "\n");
        Ok(())
    }

    /// Puts the time range behind `out`, unless it is `[0, ∞)`.
    fn push_interval(time: TimeRange, out: &mut Vec<char>) -> (r: Result<(), NetError>)
        ensures
            written(r, final(out)@, with_interval(time, old(out)@)),
    {
        if time == (TimeRange { start: Bound::Closed(0), end: Bound::Infinity }) {
            return Ok(());
        }
        match time.start {
            Bound::Closed(v) => {
                push_str(out, "[");
                push_decimal(out, v);
                push_str(out, ",");
            },
            Bound::Open(v) => {
                push_str(out, "]");
                push_decimal(out, v);
                push_str(out, ",");
            },
            Bound::Infinity => {
                return Err(NetError::InvalidTimeRange);
            },
        }
        match time.end {
            Bound::Closed(v) => {
                push_decimal(out, v);
                push_str(out, "] ");
            },
            Bound::Open(v) => {
                push_decimal(out, v);
                push_str(out, "[ ");
            },
            Bound::Infinity => {
                push_str(out, "w[ ");
            },
        }
        Ok(())
    }

    /// Puts the line of the priorities of the transition at `t` behind `out`.
    fn push_priorities(net: &Net, t: usize, out: &mut Vec<char>) -> (r: Result<(), NetError>)
        requires
            net.wf(),
            t < net@.transitions.len(),
        ensures
            written(r, final(out)@, with_priorities(net@, t as int, old(out)@)),
    {
        let ids = &net.transitions[t].priorities;
        if ids.len() == 0 {
            return Ok(());
        }
        push_str(out, "pr ");
        Self::push_name(net, NodeId::Transition(TransitionId(t)), out)?;
        push_str(out, " > ");
        let ghost start = out@;
        let mut i: usize = 0;
        while i < ids.len()
            invariant
                i <= ids@.len(),
                net.wf(),
                t < net@.transitions.len(),
                ids@ == net@.transitions[t as int].priorities,
                ids@.len() > 0,
                with_priorities(net@, t as int, old(out)@) == (match with_names(
                    net@,
                    ids@,
                    ids@.len(),
                    start,
                ) {
                    Err(e) => Err(e),
                    Ok(listed) => Ok(listed + "\n"@),
                }),
                with_names(net@, ids@, i as nat, start) == Ok::<Seq<char>, NetErrorView>(out@),
            decreases ids@.len() - i,
        {
            match Self::push_name(net, NodeId::Transition(ids[i]), out) {
                Ok(()) => {},
                Err(err) => {
                    proof {
                        lemma_with_names_fails(net@, ids@, (i + 1) as nat, ids@.len(), start);
                    }
                    return Err(err);
                },
            }
            push_str(out, " ");
            i += 1;
        }
        push_str(out, "\n");
        Ok(())
    }

    /// Puts the arcs of the transition at `t` behind `out`.
    fn push_all_arcs(net: &Net, t: usize, out: &mut Vec<char>) -> (r: Result<(), NetError>)
        requires
            net.wf(),
            t < net@.transitions.len(),
        ensures
            written(r, final(out)@, with_all_arcs(net@, t as int, old(out)@)),
    {
        let transition = &net.transitions[t];
        Self::push_arcs(net, &transition.inhibitors, "?-", false, "", out)?;
        Self::push_arcs(net, &transition.consume, "*", true, "", out)?;
        Self::push_arcs(net, &transition.conditions, "?", false, " ", out)?;
        push_str(out, "-> ");
        Self::push_arcs(net, &transition.produce, "*", true, "", out)
    }

    /// Puts the lines of the transition at `t` behind `out`.
    fn push_transition(&self, net: &Net, t: usize, out: &mut Vec<char>) -> (r: Result<
        (),
        NetError,
    >)
        requires
            net.wf(),
            t < net@.transitions.len(),
        ensures
            written(
                r,
                final(out)@,
                with_transition(net@, t as int, self.without_disconnected(), old(out)@),
            ),
    {
        let transition = &net.transitions[t];
        if self.without_disconnected_transition && transition.is_disconnected() {
            return Ok(());
        }
        push_str(out, "tr ");
        Self::push_name(net, NodeId::Transition(TransitionId(t)), out)?;
        push_str(out, " ");
        Self::push_label(&transition.label, out);
        Self::push_interval(transition.time, out)?;
        Self::push_all_arcs(net, t, out)?;
        push_str(out, "\n");
        Self::push_priorities(net, t, out)
    }

    /// The text of the net.
    ///
    /// A transition whose time range has no start cannot be written: the result is then
    /// `InvalidTimeRange`.
    pub fn export(&self, net: &Net) -> (r: Result<String, NetError>)
        requires
            net.wf(),
        ensures
            match exported(net@, self.all_places(), self.without_disconnected()) {
                Ok(s) => r is Ok && r->Ok_0@ == s,
                Err(e) => r is Err && r->Err_0@ == e,
            },
    {
        let mut out: Vec<char> = Vec::new();
        if net.name.as_str().unicode_len() != 0 {
            push_str(&mut out, "net ");
            Self::push_escaped(&mut out, net.name.as_str());
            push_str(&mut out, "\n");
        }
        let ghost head = out@;
        proof {
            assert(net@.name.len() == 0 ==> head =~= Seq::<char>::empty());
            assert(net@.name.len() != 0 ==> head =~= "net "@ + escape(net@.name) + "\n"@);
        }
        let mut p: usize = 0;
        while p < net.places.len()
            invariant
                p <= net@.places.len(),
                net.wf(),
                head == (if net@.name.len() == 0 {
                    Seq::<char>::empty()
                } else {
                    "net "@ + escape(net@.name) + "\n"@
                }),
                with_places(net@, p as nat, self.all_places(), head) == Ok::<
                    Seq<char>,
                    NetErrorView,
                >(out@),
            decreases net@.places.len() - p,
        {
            match self.push_place(net, p, &mut out) {
                Ok(()) => {},
                Err(err) => {
                    proof {
                        lemma_with_places_fails(
                            net@,
                            (p + 1) as nat,
                            net@.places.len(),
                            self.all_places(),
                            head,
                        );
                    }
                    return Err(err);
                },
            }
            p += 1;
        }
        let ghost places = out@;
        let mut t: usize = 0;
        while t < net.transitions.len()
            invariant
                t <= net@.transitions.len(),
                net.wf(),
                exported(net@, self.all_places(), self.without_disconnected())
                    == with_transitions(
                    net@,
                    net@.transitions.len(),
                    self.without_disconnected(),
                    places,
                ),
                with_transitions(net@, t as nat, self.without_disconnected(), places) == Ok::<
                    Seq<char>,
                    NetErrorView,
                >(out@),
            decreases net@.transitions.len() - t,
        {
            match self.push_transition(net, t, &mut out) {
                Ok(()) => {},
                Err(err) => {
                    proof {
                        lemma_with_transitions_fails(
                            net@,
                            (t + 1) as nat,
                            net@.transitions.len(),
                            self.without_disconnected(),
                            places,
                        );
                    }
                    return Err(err);
                },
            }
            t += 1;
        }
        Ok(string_from_chars(&out))
    }
}

} // verus!
