//! What a reader and a writer of nets offer.
use vstd::prelude::*;
use crate::errors::NetError;
use crate::standard;
use crate::timed;
use crate::tina::errors::ParserError;
use crate::tina::export::Exporter;
use crate::tina::parser::Parser;

verus! {

/// Writes nets of the kind `N` in some format. What a format cannot hold is left out;
/// each writer says what that is.
pub trait Export<N> {
    /// What can go wrong.
    type Error;

    /// The writer can take `net`.
    spec fn accepts(&self, net: &N) -> bool;

    /// The text of `net`.
    fn export(&mut self, net: &N) -> (r: Result<String, Self::Error>)
        requires
            old(self).accepts(net),
    ;
}

/// Reads a net of the kind `N` from some source. What the net cannot hold is left out;
/// each reader says what that is.
pub trait Parse<N>: Sized {
    /// What can go wrong.
    type Error;

    /// The reader is ready to read.
    spec fn ready(&self) -> bool;

    /// The net that the source holds.
    fn parse(self) -> (r: Result<N, Self::Error>)
        requires
            self.ready(),
    ;
}

impl Export<timed::Net> for Exporter {
    type Error = NetError;

    open spec fn accepts(&self, net: &timed::Net) -> bool {
        net.wf()
    }

    fn export(&mut self, net: &timed::Net) -> (r: Result<String, NetError>)
        ensures
            match crate::tina::export::exported(
                net@,
                old(self).all_places(),
                old(self).without_disconnected(),
            ) {
                Ok(s) => r is Ok && r->Ok_0@ == s,
                Err(e) => r is Err && r->Err_0@ == e,
            },
    {
        Exporter::export(self, net)
    }
}

impl Export<standard::Net> for Exporter {
    type Error = NetError;

    open spec fn accepts(&self, net: &standard::Net) -> bool {
        net.wf()
    }

    /// The text of the timed net that stands for `net`.
    fn export(&mut self, net: &standard::Net) -> (r: Result<String, NetError>)
        ensures
            match crate::timed::from_standard::converted(net@) {
                Err(e) => r is Err && r->Err_0@ == e,
                Ok(timed) => match crate::tina::export::exported(
                    timed,
                    old(self).all_places(),
                    old(self).without_disconnected(),
                ) {
                    Ok(s) => r is Ok && r->Ok_0@ == s,
                    Err(e) => r is Err && r->Err_0@ == e,
                },
            },
    {
        let timed = timed::Net::from_standard(net)?;
        Exporter::export(self, &timed)
    }
}

impl<'a> Parse<timed::Net> for Parser<'a> {
    type Error = ParserError;

    open spec fn ready(&self) -> bool {
        self@.wf()
    }

    fn parse(self) -> (r: Result<timed::Net, ParserError>)
        ensures
            match crate::tina::parser::lines(self@) {
                Ok(p) => r is Ok && r->Ok_0@ == p.net && r->Ok_0.wf(),
                Err(e) => r is Err && r->Err_0@ == e,
            },
    {
        Parser::parse(self)
    }
}

} // verus!
