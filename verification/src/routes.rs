//! The decisions and bodies of the HTTP surface: what each route answers,
//! computed from plain values. The network front end only looks a symbol up,
//! reads one snapshot, and sends the reply built here.

use vstd::prelude::*;
use vstd::string::StrSliceExecFns;
use vstd::utf8::encode_utf8;
use crate::data_processor::RawData;
use crate::dto::{append_bytes, json_of, render_stats_json, response_of, AllStatesResponse, StatsResponse};

verus! {

/// HTTP status code of a successful reply.
pub const STATUS_OK: u16 = 200;

/// HTTP status code of a reply for an unknown symbol.
pub const STATUS_NO_CONTENT: u16 = 204;

/// A route's reply: a status code and a body.
#[derive(Debug)]
pub struct StatReply {
    pub status: u16,
    pub body: Vec<u8>,
}

/// Reply for a snapshot lookup: the snapshot's JSON with status 200 when the
/// symbol is known, and status 204 with a short textual body otherwise.
pub fn stat_reply(found: Option<&RawData>) -> (r: StatReply)
    ensures
        match found {
            Some(d) => r.status == STATUS_OK && r.body@ =~= json_of(response_of(*d)),
            None => r.status == STATUS_NO_CONTENT && r.body@ == encode_utf8(
                "The content you search does not exist"@,
            ),
        },
{
    match found {
        Some(d) => {
            let resp = StatsResponse::from(*d);
            StatReply { status: STATUS_OK, body: render_stats_json(&resp) }
        },
        None => StatReply {
            status: STATUS_NO_CONTENT,
            body: "The content you search does not exist".as_bytes_vec(),
        },
    }
}

/// A hexadecimal digit, lower case.
pub open spec fn hex_digit(v: u8) -> u8 {
    if v < 10 {
        (48 + v) as u8
    } else {
        (87 + v) as u8
    }
}

/// How one byte of a symbol name appears inside a JSON string: quote and
/// backslash are escaped, control bytes become `\u00XX`, and every other
/// byte passes through (non-ASCII bytes are the symbol's UTF-8 as JSON
/// allows).
pub open spec fn esc_byte(b: u8) -> Seq<u8> {
    if b == 34 {
        seq![92u8, 34u8]
    } else if b == 92 {
        seq![92u8, 92u8]
    } else if b < 32 {
        seq![92u8, 117u8, 48u8, 48u8, hex_digit(b / 16), hex_digit(b % 16)]
    } else {
        seq![b]
    }
}

/// A byte string escaped for use inside a JSON string literal.
pub open spec fn json_escaped(s: Seq<u8>) -> Seq<u8>
    decreases s.len(),
{
    if s.len() == 0 {
        seq![]
    } else {
        json_escaped(s.drop_last()) + esc_byte(s.last())
    }
}

/// The JSON of one element of the all-symbols reply: a single-key object
/// `{"<symbol>": <stats>}`, the symbol escaped.
pub open spec fn entry_json(symbol: Seq<u8>, stats: StatsResponse) -> Seq<u8> {
    seq![123u8, 34u8] + json_escaped(symbol) + seq![34u8, 58u8] + json_of(stats) + seq![125u8]
}

/// The JSON array of all entries, in order.
pub open spec fn all_json(items: Seq<(Seq<u8>, StatsResponse)>) -> Seq<u8>
    decreases items.len(),
{
    if items.len() == 0 {
        seq![]
    } else {
        let prev = all_json(items.drop_last());
        let sep: Seq<u8> = if items.len() == 1 {
            seq![]
        } else {
            seq![44u8]
        };
        prev + sep + entry_json(items.last().0, items.last().1)
    }
}

/// Appends a symbol's bytes escaped for use inside a JSON string literal.
fn push_escaped(out: &mut Vec<u8>, s: &Vec<u8>)
    ensures
        final(out)@ =~= old(out)@ + json_escaped(s@),
{
    let mut i: usize = 0;
    proof {
        assert(s@.subrange(0, 0) =~= Seq::<u8>::empty());
        assert(out@ =~= old(out)@ + json_escaped(s@.subrange(0, 0)));
    }
    while i < s.len()
        invariant
            i <= s@.len(),
            out@ =~= old(out)@ + json_escaped(s@.subrange(0, i as int)),
        decreases s@.len() - i,
    {
        let byte = s[i];
        if byte == 34 {
            out.push(92);
            out.push(34);
        } else if byte == 92 {
            out.push(92);
            out.push(92);
        } else if byte < 32 {
            out.push(92);
            out.push(117);
            out.push(48);
            out.push(48);
            let hi = byte / 16;
            let lo = byte % 16;
            out.push(
                if hi < 10 {
                    48 + hi
                } else {
                    87 + hi
                },
            );
            out.push(
                if lo < 10 {
                    48 + lo
                } else {
                    87 + lo
                },
            );
        } else {
            out.push(byte);
        }
        proof {
            assert(s@.subrange(0, i + 1).drop_last() =~= s@.subrange(0, i as int));
            assert(s@.subrange(0, i + 1).last() == s@[i as int]);
            assert(out@ =~= old(out)@ + (json_escaped(s@.subrange(0, i as int)) + esc_byte(
                s@[i as int],
            )));
        }
        i = i + 1;
    }
    proof {
        assert(s@.subrange(0, s@.len() as int) =~= s@);
    }
}

/// Reply for the all-symbols route: a JSON array with one single-key object
/// per registered symbol, in registry order, every symbol name escaped.
pub fn stats_reply(items: &Vec<AllStatesResponse>) -> (r: StatReply)
    ensures
        r.status == STATUS_OK,
        r.body@ =~= seq![91u8] + all_json(
            Seq::new(items@.len(), |k: int| (encode_utf8(items@[k].symbol@), items@[k].stats)),
        ) + seq![93u8],
{
    let ghost model = Seq::new(
        items@.len(),
        |k: int| (encode_utf8(items@[k].symbol@), items@[k].stats),
    );
    let mut body: Vec<u8> = Vec::new();
    body.push(91);
    let mut k: usize = 0;
    proof {
        assert(model.subrange(0, 0) =~= Seq::<(Seq<u8>, StatsResponse)>::empty());
        assert(body@ =~= seq![91u8] + all_json(model.subrange(0, 0)));
    }
    while k < items.len()
        invariant
            k <= items@.len(),
            model == Seq::new(
                items@.len(),
                |j: int| (encode_utf8(items@[j].symbol@), items@[j].stats),
            ),
            body@ =~= seq![91u8] + all_json(model.subrange(0, k as int)),
        decreases items@.len() - k,
    {
        if k > 0 {
            body.push(44);
        }
        body.push(123);
        body.push(34);
        let sym_bytes = items[k].symbol.as_str().as_bytes_vec();
        push_escaped(&mut body, &sym_bytes);
        body.push(34);
        body.push(58);
        let stats_json = render_stats_json(&items[k].stats);
        append_bytes(&mut body, &stats_json);
        body.push(125);
        proof {
            let upto = model.subrange(0, k + 1);
            assert(upto.drop_last() =~= model.subrange(0, k as int));
            assert(upto.last() == model[k as int]);
            let sep: Seq<u8> = if k == 0 {
                seq![]
            } else {
                seq![44u8]
            };
            assert(body@ =~= seq![91u8] + (all_json(model.subrange(0, k as int)) + sep
                + entry_json(model[k as int].0, model[k as int].1)));
        }
        k = k + 1;
    }
    body.push(93);
    proof {
        assert(model.subrange(0, model.len() as int) =~= model);
    }
    StatReply { status: STATUS_OK, body }
}

} // verus!
