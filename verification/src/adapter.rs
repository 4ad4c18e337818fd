//! The message-shaped map contract used by protocol adapters: a map with
//! a `$type` tag of `osc.message`, an `address` string, and an `args`
//! array. Dialect-specific argument conversion sits outside the library;
//! this module builds and recognizes the map itself.

use vstd::prelude::*;

use crate::ir::{entries_view, vals_view, IrValS, IrValue};
use crate::strings::str_eq;
use vstd::string::StringExecFns;

verus! {

/// The `$type` value that marks a map as an adapter message.
pub open spec fn message_tag() -> Seq<char> {
    "osc.message"@
}

/// The message-shaped map for an address and argument list: exactly the
/// entries `$type`, `address`, and `args`, in that order.
pub open spec fn message_map_spec(address: Seq<char>, args: Seq<IrValS>) -> IrValS {
    IrValS::Mapping(
        seq![
            ("$type"@, IrValS::Str(message_tag())),
            ("address"@, IrValS::Str(address)),
            ("args"@, IrValS::Array(args)),
        ],
    )
}

/// Builds the message-shaped map for an address and argument list.
pub fn message_to_ir_map(address: &str, args: Vec<IrValue>) -> (r: IrValue)
    ensures
        r@ == message_map_spec(address@, vals_view(args@)),
{
    let mut entries: Vec<(String, IrValue)> = Vec::new();
    entries.push(
        (String::from_str("$type"), IrValue::String(String::from_str("osc.message"))),
    );
    entries.push((String::from_str("address"), IrValue::String(String::from_str(address))));
    entries.push((String::from_str("args"), IrValue::Array(args)));
    proof {
        crate::ir::lemma_entries_view(entries@);
        assert(entries_view(entries@) =~= seq![
            ("$type"@, IrValS::Str("osc.message"@)),
            ("address"@, IrValS::Str(address@)),
            ("args"@, IrValS::Array(vals_view(entries@[2].1->Array_0@))),
        ]);
    }
    IrValue::Mapping(entries)
}

/// What one map entry contributes while scanning for a message: the tag
/// check and the running address and argument candidates.
pub ghost enum ScanOutcome {
    Rejected,
    Scanned(Option<Seq<char>>, Option<Seq<IrValS>>, bool),
}

/// Scans the first `n` entries of a map the way message extraction reads
/// them: every `$type` entry must hold the message tag; the last
/// `address` entry must be a string to count; the last `args` entry must
/// be an array to count.
pub open spec fn scan_entries(es: Seq<(Seq<char>, IrValS)>, n: int) -> ScanOutcome
    decreases n,
{
    if n <= 0 {
        ScanOutcome::Scanned(None, None, false)
    } else {
        match scan_entries(es, n - 1) {
            ScanOutcome::Rejected => ScanOutcome::Rejected,
            ScanOutcome::Scanned(addr, args, tagged) => {
                let (key, value) = es[n - 1];
                if key == "$type"@ {
                    match value {
                        IrValS::Str(t) => if t == message_tag() {
                            ScanOutcome::Scanned(addr, args, true)
                        } else {
                            ScanOutcome::Rejected
                        },
                        _ => ScanOutcome::Rejected,
                    }
                } else if key == "address"@ {
                    match value {
                        IrValS::Str(a) => ScanOutcome::Scanned(Some(a), args, tagged),
                        _ => ScanOutcome::Scanned(None, args, tagged),
                    }
                } else if key == "args"@ {
                    match value {
                        IrValS::Array(xs) => ScanOutcome::Scanned(addr, Some(xs), tagged),
                        _ => ScanOutcome::Scanned(addr, None, tagged),
                    }
                } else {
                    ScanOutcome::Scanned(addr, args, tagged)
                }
            },
        }
    }
}

/// What message extraction returns for a value: the address and argument
/// list of a message-shaped map, or nothing. A non-map is rejected; so is
/// any `$type` entry that is not the message tag; a missing `address`
/// string is rejected; missing `args` count as an empty list.
pub open spec fn extract_message_spec(v: IrValS) -> Option<(Seq<char>, Seq<IrValS>)> {
    match v {
        IrValS::Mapping(es) => match scan_entries(es, es.len() as int) {
            ScanOutcome::Rejected => None,
            ScanOutcome::Scanned(addr, args, _) => match addr {
                Some(a) => Some(
                    (
                        a,
                        match args {
                            Some(xs) => xs,
                            None => Seq::empty(),
                        },
                    ),
                ),
                None => None,
            },
        },
        _ => None,
    }
}

/// Once scanning rejects, scanning any further still rejects.
proof fn lemma_scan_rejected(es: Seq<(Seq<char>, IrValS)>, m: int, n: int)
    requires
        0 <= m <= n,
        scan_entries(es, m) is Rejected,
    ensures
        scan_entries(es, n) is Rejected,
    decreases n - m,
{
    if n > m {
        lemma_scan_rejected(es, m, n - 1);
    }
}

/// Recognizes a message-shaped map, yielding copies of its address and
/// arguments.
#[verifier::loop_isolation(false)]
pub fn try_extract_message(value: &IrValue) -> (r: Option<(String, Vec<IrValue>)>)
    ensures
        match extract_message_spec(value@) {
            Some((a, args)) => r matches Some(p) && p.0@ == a && vals_view(p.1@) == args,
            None => r is None,
        },
{
    broadcast use crate::ir::lemma_entries_view;

    let entries = match value.as_map() {
        Some(entries) => entries,
        None => {
            return None;
        },
    };
    let ghost es = entries_view(entries@);
    let mut address: Option<&str> = None;
    let mut args: Option<&Vec<IrValue>> = None;
    let mut i: usize = 0;
    while i < entries.len()
        invariant
            i <= entries@.len(),
            scan_entries(es, i as int) matches ScanOutcome::Scanned(sa, sargs, _),
            scan_entries(es, i as int) matches ScanOutcome::Scanned(sa, sargs, _) ==> (match sa {
                Some(a) => address matches Some(t) && t@ == a,
                None => address is None,
            }) && (match sargs {
                Some(xs) => args matches Some(v) && vals_view(v@) == xs,
                None => args is None,
            }),
        decreases entries@.len() - i,
    {
        let entry = &entries[i];
        if str_eq(entry.0.as_str(), "$type") {
            match &entry.1 {
                IrValue::String(t) => {
                    if !str_eq(t.as_str(), "osc.message") {
                        proof {
                            assert(scan_entries(es, i + 1 as int) is Rejected);
                            lemma_scan_rejected(es, i + 1 as int, es.len() as int);
                        }
                        return None;
                    }
                },
                _ => {
                    proof {
                        assert(scan_entries(es, i + 1 as int) is Rejected);
                        lemma_scan_rejected(es, i + 1 as int, es.len() as int);
                    }
                    return None;
                },
            }
        } else if str_eq(entry.0.as_str(), "address") {
            match &entry.1 {
                IrValue::String(a) => {
                    address = Some(a.as_str());
                },
                _ => {
                    address = None;
                },
            }
        } else if str_eq(entry.0.as_str(), "args") {
            match &entry.1 {
                IrValue::Array(xs) => {
                    args = Some(xs);
                },
                _ => {
                    args = None;
                },
            }
        }
        i = i + 1;
    }
    let addr = match address {
        Some(a) => a,
        None => {
            return None;
        },
    };
    let out_args = match args {
        Some(xs) => clone_values(xs),
        None => {
            let empty: Vec<IrValue> = Vec::new();
            proof {
                assert(vals_view(empty@) =~= Seq::<IrValS>::empty());
            }
            empty
        },
    };
    Some((String::from_str(addr), out_args))
}

/// Copies a list of values; the copy has the same model.
#[verifier::loop_isolation(false)]
fn clone_values(xs: &Vec<IrValue>) -> (r: Vec<IrValue>)
    ensures
        vals_view(r@) == vals_view(xs@),
{
    broadcast use crate::ir::lemma_vals_view;

    let mut out: Vec<IrValue> = Vec::new();
    let mut i: usize = 0;
    while i < xs.len()
        invariant
            i <= xs@.len(),
            out@.len() == i,
            forall|k: int| 0 <= k < i ==> out@[k]@ == xs@[k]@,
        decreases xs@.len() - i,
    {
        out.push(xs[i].clone());
        i = i + 1;
    }
    proof {
        assert(vals_view(out@) =~= vals_view(xs@));
    }
    out
}

} // verus!
