//! The decisions of sending a message: where the request comes from, and
//! what is shown of the exchange.
use vstd::prelude::*;
use crate::color::{Style, styled, cyan, green};
use crate::csil::ServiceOp;
use crate::jsontext::{pretty_text, json_to_pretty_text};
use crate::list::builtin_is_null;
use crate::value::{Json, JsonV};

verus! {

/// Where a request comes from.
#[derive(Debug)]
pub enum RequestSource {
    /// The given data as it is (an operation that declares no input).
    AsGiven(Json),
    /// An empty object (no input declared and no data given).
    EmptyObject,
    /// The fields the data lacks, asked for (the send is announced first).
    Ask(Option<Json>),
}

/// Whether an operation declares no input (its input type is `null`).
pub open spec fn declares_no_input(op: ServiceOp) -> bool {
    op.input_type is Builtin && op.input_type->Builtin_0@ == seq!['n', 'u', 'l', 'l']
}

/// Where the request for `op` comes from, given the data passed (already
/// read as JSON): an operation without input sends the data as given, or
/// an empty object; any other asks for what the data lacks.
pub fn request_source(op: &ServiceOp, data: Option<Json>) -> (r: RequestSource)
    ensures
        declares_no_input(*op) && data is Some ==> (r matches RequestSource::AsGiven(j) && j@ == data->0@),
        declares_no_input(*op) && data is None ==> r is EmptyObject,
        !declares_no_input(*op) ==> (r matches RequestSource::Ask(d) && match (d, data) {
            (Some(x), Some(y)) => x@ == y@,
            (None, None) => true,
            _ => false,
        }),
{
    if builtin_is_null(&op.input_type) {
        match data {
            Some(j) => RequestSource::AsGiven(j),
            None => RequestSource::EmptyObject,
        }
    } else {
        RequestSource::Ask(data)
    }
}

/// The line that announces a send: `Sending {message} to {host}`, the
/// message in cyan and the host in green.
pub open spec fn sending_text(c: bool, message: Seq<char>, host: Seq<char>) -> Seq<char> {
    "Sending "@ + styled(c, Style::Cyan, message) + " to "@ + styled(c, Style::Green, host)
}

pub fn sending_line(c: bool, message: &str, host: &str) -> (r: String)
    ensures
        r@ == sending_text(c, message@, host@),
{
    let mut s = String::new();
    s.append("Sending ");
    let m = cyan(c, message);
    s.append(m.as_str());
    s.append(" to ");
    let h = green(c, host);
    s.append(h.as_str());
    assert(s@ =~= sending_text(c, message@, host@));
    s
}

/// What a send prints of the response: the response variant's name (in
/// cyan) on a line of its own when there is one, then the response as
/// pretty JSON (in green) and a newline.
pub open spec fn response_text(c: bool, variant: Option<Seq<char>>, response: JsonV) -> Seq<char> {
    (match variant {
        Some(v) => "response type: "@ + styled(c, Style::Cyan, v) + seq!['\n'],
        None => Seq::empty(),
    }) + styled(c, Style::Green, pretty_text(response, Seq::empty())) + seq!['\n']
}

pub fn response_output(c: bool, variant: Option<&str>, response: &Json) -> (r: String)
    ensures
        r@ == response_text(
            c,
            match variant {
                Some(v) => Some(v@),
                None => None,
            },
            response@,
        ),
{
    let mut s = String::new();
    match variant {
        Some(v) => {
            s.append("response type: ");
            let t = cyan(c, v);
            s.append(t.as_str());
            crate::text::push_char(&mut s, '\n');
        },
        None => {},
    }
    let p = json_to_pretty_text(response);
    let g = green(c, p.as_str());
    s.append(g.as_str());
    crate::text::push_char(&mut s, '\n');
    assert(s@ =~= response_text(
        c,
        match variant {
            Some(v) => Some(v@),
            None => None,
        },
        response@,
    ));
    s
}

} // verus!
