//! Writing the relations that a log of reductions states.
use vstd::prelude::*;
use crate::errors::{NetError, NetErrorView};
use crate::ids::{NodeId, PlaceId};
use crate::modifications::{log_view, Modification, ModificationView};
use crate::standard::net::{Net, NetView};
use crate::text::{decimal, push_decimal, push_str, string_from_chars};

verus! {

/// A text, or the error that kept it from being written.
pub type Text = Result<Seq<char>, NetErrorView>;

/// The numeral of `v`, with a minus sign if it is negative.
pub open spec fn signed(v: int) -> Seq<char> {
    if v < 0 {
        "-"@ + decimal((0 - v) as nat)
    } else {
        decimal(v as nat)
    }
}

/// `out` with the term behind it: the name of the place, with its coefficient and a star
/// before it unless the coefficient is one.
pub open spec fn with_term(net: NetView, term: (PlaceId, isize), out: Seq<char>) -> Text {
    match net.names.name_of(NodeId::Place(term.0)) {
        None => Err(NetErrorView::InvalidPlace(term.0)),
        Some(name) => Ok(
            if term.1 == 1 {
                out + name
            } else {
                out + signed(term.1 as int) + "*"@ + name
            },
        ),
    }
}

/// `out` with the first `n` terms behind it, with ` + ` between them.
pub open spec fn with_sum(net: NetView, terms: Seq<(PlaceId, isize)>, n: nat, out: Seq<char>) -> Text
    decreases n,
{
    if n == 0 {
        Ok(out)
    } else {
        match with_sum(net, terms, (n - 1) as nat, out) {
            Err(e) => Err(e),
            Ok(before) => with_term(
                net,
                terms[n - 1],
                if n == 1 {
                    before
                } else {
                    before + " + "@
                },
            ),
        }
    }
}

/// `out` with the first `n` terms behind it, with ` + ` behind each.
pub open spec fn with_addends(net: NetView, terms: Seq<(PlaceId, isize)>, n: nat, out: Seq<char>) -> Text
    decreases n,
{
    if n == 0 {
        Ok(out)
    } else {
        match with_addends(net, terms, (n - 1) as nat, out) {
            Err(e) => Err(e),
            Ok(before) => match with_term(net, terms[n - 1], before) {
                Err(e) => Err(e),
                Ok(t) => Ok(t + " + "@),
            },
        }
    }
}

/// `out` with the constant behind it, unless it is zero.
pub open spec fn with_constant(constant: isize, out: Seq<char>) -> Seq<char> {
    if constant != 0 {
        out + signed(constant as int)
    } else {
        out
    }
}

/// `out` with the line of the record behind it. The removal of transitions has no line.
pub open spec fn with_record(net: NetView, m: ModificationView, out: Seq<char>) -> Text {
    match m {
        ModificationView::Agglomeration { new_place, factor, deleted_places, constant } => {
            let head = if factor == 1 {
                out + "# A |- "@
            } else {
                out + "# A |- "@ + signed(factor as int) + "*"@
            };
            match net.names.name_of(NodeId::Place(new_place)) {
                None => Err(NetErrorView::InvalidPlace(new_place)),
                Some(name) => match with_sum(
                    net,
                    deleted_places,
                    deleted_places.len(),
                    head + name + " = "@,
                ) {
                    Err(e) => Err(e),
                    Ok(sum) => Ok(with_constant(constant, sum) + "\n"@),
                },
            }
        },
        ModificationView::Reduction { equals_to, constant, deleted_places } => {
            match with_sum(net, deleted_places, deleted_places.len(), out + "# R |- "@) {
                Err(e) => Err(e),
                Ok(left) => match with_sum(net, equals_to, equals_to.len(), left + " = "@) {
                    Err(e) => Err(e),
                    Ok(right) => Ok(
                        with_constant(
                            constant,
                            if constant != 0 && equals_to.len() != 0 {
                                right + " + "@
                            } else {
                                right
                            },
                        ) + "\n"@,
                    ),
                },
            }
        },
        ModificationView::TransitionElimination { .. } => Ok(out),
        ModificationView::InequalityReduction { kept_places, constant, deleted_places } => {
            match with_sum(net, deleted_places, deleted_places.len(), out + "# I |- "@) {
                Err(e) => Err(e),
                Ok(left) => match with_addends(net, kept_places, kept_places.len(), left + " <= "@) {
                    Err(e) => Err(e),
                    Ok(right) => Ok(with_constant(constant, right) + "\n"@),
                },
            }
        },
    }
}

/// `out` with the lines of the first `n` records behind it.
pub open spec fn with_records(net: NetView, log: Seq<ModificationView>, n: nat, out: Seq<char>) -> Text
    decreases n,
{
    if n == 0 {
        Ok(out)
    } else {
        match with_records(net, log, (n - 1) as nat, out) {
            Err(e) => Err(e),
            Ok(before) => with_record(net, log[n - 1], before),
        }
    }
}

/// The text of the relations of a log: a heading, one line for each record that states a
/// relation, and an empty line.
pub open spec fn equations(net: NetView, log: Seq<ModificationView>) -> Text {
    match with_records(net, log, log.len(), "# generated equations\n"@) {
        Err(e) => Err(e),
        Ok(lines) => Ok(lines + "\n"@),
    }
}

/// `got` with the buffer `now` is what writing gives.
pub open spec fn written(got: Result<(), NetError>, now: Seq<char>, want: Text) -> bool {
    match want {
        Ok(s) => got is Ok && now == s,
        Err(e) => got is Err && got->Err_0@ == e,
    }
}

/// Once a term could not be written, the terms behind it change nothing.
proof fn lemma_with_sum_fails(net: NetView, terms: Seq<(PlaceId, isize)>, k: nat, n: nat, out: Seq<char>)
    requires
        k <= n,
        with_sum(net, terms, k, out) is Err,
    ensures
        with_sum(net, terms, n, out) == with_sum(net, terms, k, out),
    decreases n,
{
    if k < n {
        lemma_with_sum_fails(net, terms, k, (n - 1) as nat, out);
    }
}

/// Once an addend could not be written, the addends behind it change nothing.
proof fn lemma_with_addends_fails(net: NetView, terms: Seq<(PlaceId, isize)>, k: nat, n: nat, out: Seq<char>)
    requires
        k <= n,
        with_addends(net, terms, k, out) is Err,
    ensures
        with_addends(net, terms, n, out) == with_addends(net, terms, k, out),
    decreases n,
{
    if k < n {
        lemma_with_addends_fails(net, terms, k, (n - 1) as nat, out);
    }
}

/// Once a record could not be written, the records behind it change nothing.
proof fn lemma_with_records_fails(net: NetView, log: Seq<ModificationView>, k: nat, n: nat, out: Seq<char>)
    requires
        k <= n,
        with_records(net, log, k, out) is Err,
    ensures
        with_records(net, log, n, out) == with_records(net, log, k, out),
    decreases n,
{
    if k < n {
        lemma_with_records_fails(net, log, k, (n - 1) as nat, out);
    }
}

/// Puts the numeral of `v` behind `out`.
pub fn push_signed(out: &mut Vec<char>, v: isize)
    ensures
        final(out)@ == old(out)@ + signed(v as int),
{
    if v < 0 {
        push_str(out, "-");
        let magnitude: usize = if v == isize::MIN {
            isize::MAX as usize + 1
        } else {
            (-v) as usize
        };
        push_decimal(out, magnitude);
        proof {
            assert(out@ =~= old(out)@ + signed(v as int));
        }
    } else {
        push_decimal(out, v as usize);
    }
}

/// Puts the name of the place `pl` behind `out`.
fn push_place(net: &Net, pl: PlaceId, out: &mut Vec<char>) -> (r: Result<(), NetError>)
    requires
        net.wf(),
    ensures
        match net@.names.name_of(NodeId::Place(pl)) {
            None => r is Err && r->Err_0@ == NetErrorView::InvalidPlace(pl),
            Some(name) => r is Ok && final(out)@ == old(out)@ + name,
        },
{
    match net.get_name_by_index(&NodeId::Place(pl)) {
        None => Err(NetError::InvalidPlace(pl)),
        Some(name) => {
            push_str(out, name.as_str());
            Ok(())
        },
    }
}

/// Puts the term behind `out`.
fn push_term(net: &Net, term: (PlaceId, isize), out: &mut Vec<char>) -> (r: Result<(), NetError>)
    requires
        net.wf(),
    ensures
        written(r, final(out)@, with_term(net@, term, old(out)@)),
{
    if term.1 != 1 {
        if net.get_name_by_index(&NodeId::Place(term.0)).is_none() {
            return Err(NetError::InvalidPlace(term.0));
        }
        push_signed(out, term.1);
        push_str(out, "*");
    }
    push_place(net, term.0, out)
}

/// Puts the terms behind `out`, with ` + ` between them, or behind each if `trailing`.
fn push_terms(net: &Net, terms: &Vec<(PlaceId, isize)>, trailing: bool, out: &mut Vec<char>) -> (r:
    Result<(), NetError>)
    requires
        net.wf(),
    ensures
        written(
            r,
            final(out)@,
            if trailing {
                with_addends(net@, terms@, terms@.len(), old(out)@)
            } else {
                with_sum(net@, terms@, terms@.len(), old(out)@)
            },
        ),
{
    let ghost start = out@;
    let mut i: usize = 0;
    while i < terms.len()
        invariant
            i <= terms@.len(),
            net.wf(),
            start == old(out)@,
            trailing ==> with_addends(net@, terms@, i as nat, start) == Ok::<Seq<char>, NetErrorView>(
                out@,
            ),
            !trailing ==> with_sum(net@, terms@, i as nat, start) == Ok::<Seq<char>, NetErrorView>(
                out@,
            ),
        decreases terms@.len() - i,
    {
        if !trailing && i > 0 {
            push_str(out, " + ");
        }
        match push_term(net, terms[i], out) {
            Ok(()) => {},
            Err(e) => {
                proof {
                    if trailing {
                        lemma_with_addends_fails(net@, terms@, (i + 1) as nat, terms@.len(), start);
                    } else {
                        lemma_with_sum_fails(net@, terms@, (i + 1) as nat, terms@.len(), start);
                    }
                }
                return Err(e);
            },
        }
        if trailing {
            push_str(out, " + ");
        }
        i += 1;
    }
    Ok(())
}

/// Puts the line of the record behind `out`.
fn push_record(net: &Net, m: &Modification, out: &mut Vec<char>) -> (r: Result<(), NetError>)
    requires
        net.wf(),
    ensures
        written(r, final(out)@, with_record(net@, m@, old(out)@)),
{
    match m {
        Modification::Agglomeration(agg) => {
            push_str(out, "# A |- ");
            if agg.factor != 1 {
                push_signed(out, agg.factor);
                push_str(out, "*");
            }
            push_place(net, agg.new_place, out)?;
            push_str(out, " = ");
            push_terms(net, &agg.deleted_places, false, out)?;
            if agg.constant != 0 {
                push_signed(out, agg.constant);
            }
            push_str(out, "\n");
            Ok(())
        },
        Modification::Reduction(red) => {
            push_str(out, "# R |- ");
            push_terms(net, &red.deleted_places, false, out)?;
            push_str(out, " = ");
            push_terms(net, &red.equals_to, false, out)?;
            if red.constant != 0 {
                if red.equals_to.len() != 0 {
                    push_str(out, " + ");
                }
                push_signed(out, red.constant);
            }
            push_str(out, "\n");
            Ok(())
        },
        Modification::TransitionElimination(_) => Ok(()),
        Modification::InequalityReduction(ine) => {
            push_str(out, "# I |- ");
            push_terms(net, &ine.deleted_places, false, out)?;
            push_str(out, " <= ");
            push_terms(net, &ine.kept_places, true, out)?;
            if ine.constant != 0 {
                push_signed(out, ine.constant);
            }
            push_str(out, "\n");
            Ok(())
        },
    }
}

/// The text of the relations that the log states, with the places by their names in `net`.
///
/// A record that names a place without a name gives `InvalidPlace`.
pub fn write_modifications(modifications: &Vec<Modification>, net: &Net) -> (r: Result<
    String,
    NetError,
>)
    requires
        net.wf(),
    ensures
        match equations(net@, log_view(modifications@)) {
            Ok(s) => r is Ok && r->Ok_0@ == s,
            Err(e) => r is Err && r->Err_0@ == e,
        },
{
    let mut out: Vec<char> = Vec::new();
    push_str(&mut out, "# generated equations\n");
    let ghost start = out@;
    let ghost log = log_view(modifications@);
    proof {
        assert(start =~= "# generated equations\n"@);
    }
    let mut i: usize = 0;
    while i < modifications.len()
        invariant
            i <= modifications@.len(),
            net.wf(),
            log == log_view(modifications@),
            start == "# generated equations\n"@,
            with_records(net@, log, i as nat, start) == Ok::<Seq<char>, NetErrorView>(out@),
        decreases modifications@.len() - i,
    {
        match push_record(net, &modifications[i], &mut out) {
            Ok(()) => {},
            Err(e) => {
                proof {
                    lemma_with_records_fails(net@, log, (i + 1) as nat, log.len(), start);
                }
                return Err(e);
            },
        }
        i += 1;
    }
    push_str(&mut out, "\n");
    Ok(string_from_chars(&out))
}

} // verus!
