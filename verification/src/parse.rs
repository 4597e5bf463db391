//! Parser for the tab-delimited status dump: interface header lines of
//! exactly five fields, each followed by the contiguous run of its peer
//! lines, labeled with the interface name in their first field.

use vstd::prelude::*;
use vstd::slice::slice_index_get;
use crate::model::{IfaceView, PeerView, WgInterface, WgPeer};
use crate::text::{parse_u64_spec, parse_u64_str, split_on, split_str, str_eq};

verus! {

/// A refusal to build any interface map from a malformed dump: a numeric
/// field that does not parse, an unknown on/off sentinel, or a peer line
/// with too few fields.
#[derive(Debug)]
pub struct ParseError;

/// Tab-separated fields of one dump line; never empty.
pub open spec fn fields_of(line: Seq<char>) -> Seq<Seq<char>> {
    split_on(line, '\t')
}

/// Lines of the dump text. The external tool terminates its output with a
/// trailing newline, so the final piece of the split is an artifact and is
/// discarded before processing.
pub open spec fn lines_of(text: Seq<char>) -> Seq<Seq<char>> {
    split_on(text, '\n').drop_last()
}

/// An interface header line has exactly five fields.
pub open spec fn is_header(line: Seq<char>) -> bool {
    fields_of(line).len() == 5
}

/// Length of the contiguous run of lines from `i` whose first field is
/// `name`: the peer lines owned by the header just before `i`.
pub open spec fn peer_run_len(lines: Seq<Seq<char>>, i: int, name: Seq<char>) -> int
    decreases lines.len() - i,
    when 0 <= i <= lines.len()
{
    if i < lines.len() && fields_of(lines[i])[0] == name {
        1 + peer_run_len(lines, i + 1, name)
    } else {
        0
    }
}

/// Reads one peer line: at least nine tab-separated fields, numeric
/// handshake and transfer counters, "(none)" as the absent-preshared-key
/// sentinel, and an "on"/"off" keepalive sentinel.
pub open spec fn parse_peer_line(line: Seq<char>) -> Option<PeerView> {
    let f = fields_of(line);
    if f.len() >= 9 {
        match (parse_u64_spec(f[5]), parse_u64_spec(f[6]), parse_u64_spec(f[7])) {
            (Option::Some(hs), Option::Some(rx), Option::Some(tx)) => {
                if f[8] == "on"@ || f[8] == "off"@ {
                    Option::Some(
                        PeerView {
                            public_key: f[1],
                            preshared_key: if f[2] == "(none)"@ {
                                Option::None
                            } else {
                                Option::Some(f[2])
                            },
                            endpoint: f[3],
                            allowed_ips: f[4],
                            latest_handshake: hs,
                            transfer_rx: rx,
                            transfer_tx: tx,
                            persistent_keepalive: f[8] == "on"@,
                        },
                    )
                } else {
                    Option::None
                }
            },
            _ => Option::None,
        }
    } else {
        Option::None
    }
}

/// Peers read from the `n` lines starting at `i`; `None` as soon as any
/// line of the run is malformed.
pub open spec fn parse_peer_run(lines: Seq<Seq<char>>, i: int, n: int) -> Option<Seq<PeerView>>
    decreases n,
    when n >= 0
{
    if n <= 0 {
        Option::Some(Seq::<PeerView>::empty())
    } else {
        match (parse_peer_run(lines, i, n - 1), parse_peer_line(lines[i + n - 1])) {
            (Option::Some(r), Option::Some(p)) => Option::Some(r.push(p)),
            _ => Option::None,
        }
    }
}

/// One malformed line anywhere in the run spoils the whole run.
pub proof fn lemma_parse_peer_run_none(lines: Seq<Seq<char>>, i: int, n: int, k: int)
    requires
        0 <= k < n,
        parse_peer_line(lines[i + k]) is None,
    ensures
        parse_peer_run(lines, i, n) is None,
    decreases n,
{
    if k < n - 1 {
        lemma_parse_peer_run_none(lines, i, n - 1, k);
    }
}

/// The interface built from the header line at `i` and its peer run: five
/// fields `name, private_key, public_key, listen_port, fwmark`, the port a
/// 16-bit number and "off" the absent-fwmark sentinel.
pub open spec fn parse_header_at(lines: Seq<Seq<char>>, i: int) -> Option<(Seq<char>, IfaceView)> {
    let f = fields_of(lines[i]);
    match parse_u64_spec(f[3]) {
        Option::Some(port) => {
            if port <= u16::MAX {
                match parse_peer_run(lines, i + 1, peer_run_len(lines, i + 1, f[0])) {
                    Option::Some(ps) => Option::Some(
                        (
                            f[0],
                            IfaceView {
                                enabled: true,
                                private_key: f[1],
                                public_key: f[2],
                                listen_port: port as u16,
                                fwmark: if f[4] == "off"@ {
                                    Option::None
                                } else {
                                    Option::Some(f[4])
                                },
                                peers: ps,
                                show_priv: false,
                            },
                        ),
                    ),
                    Option::None => Option::None,
                }
            } else {
                Option::None
            }
        },
        Option::None => Option::None,
    }
}

/// Interface entries in header order, scanning from line `i`: every line
/// with exactly five fields opens an interface; other lines are peer lines
/// already attributed to a header, or stray lines that are silently
/// dropped.
pub open spec fn parse_entries(lines: Seq<Seq<char>>, i: int) -> Option<
    Seq<(Seq<char>, IfaceView)>,
>
    decreases lines.len() - i,
    when 0 <= i <= lines.len()
{
    if i >= lines.len() {
        Option::Some(Seq::<(Seq<char>, IfaceView)>::empty())
    } else if is_header(lines[i]) {
        match (parse_header_at(lines, i), parse_entries(lines, i + 1)) {
            (Option::Some(e), Option::Some(r)) => Option::Some(seq![e] + r),
            _ => Option::None,
        }
    } else {
        parse_entries(lines, i + 1)
    }
}

/// What parsing the whole dump text yields: the interface entries in dump
/// order, or nothing when any consumed line is malformed.
pub open spec fn parse_dump_spec(text: Seq<char>) -> Option<Seq<(Seq<char>, IfaceView)>> {
    parse_entries(lines_of(text), 0)
}

/// Every interface the dump reports is enabled: only the reconciler adds
/// disabled entries.
pub proof fn lemma_parse_entries_enabled(lines: Seq<Seq<char>>, i: int)
    requires
        0 <= i <= lines.len(),
        parse_entries(lines, i) is Some,
    ensures
        forall|j: int|
            0 <= j < parse_entries(lines, i)->0.len() ==> (#[trigger] parse_entries(
                lines,
                i,
            )->0[j]).1.enabled,
    decreases lines.len() - i,
{
    if i >= lines.len() {
    } else if is_header(lines[i]) {
        lemma_parse_entries_enabled(lines, i + 1);
        let e = parse_header_at(lines, i)->0;
        let r = parse_entries(lines, i + 1)->0;
        assert forall|j: int|
            0 <= j < parse_entries(lines, i)->0.len() implies (#[trigger] parse_entries(
            lines,
            i,
        )->0[j]).1.enabled by {
            if j > 0 {
                assert(parse_entries(lines, i)->0[j] == r[j - 1]);
            }
        }
    } else {
        lemma_parse_entries_enabled(lines, i + 1);
    }
}

/// Scans forward from `start` for the first line whose first field is not
/// `name`: the end of the peer run owned by the header before `start`.
fn peer_run_end(lines: &Vec<String>, start: usize, name: &str) -> (e: usize)
    requires
        start <= lines.len(),
    ensures
        start <= e <= lines.len(),
        e - start == peer_run_len(lines.deep_view(), start as int, name@),
{
    let ghost lds = lines.deep_view();
    let n = lines.len();
    let mut j = start;
    while j < n
        invariant
            n == lines.len(),
            lds == lines.deep_view(),
            start <= j <= n,
            peer_run_len(lds, start as int, name@) == (j - start) + peer_run_len(
                lds,
                j as int,
                name@,
            ),
        decreases n - j,
    {
        let line = slice_index_get(lines.as_slice(), j);
        let f = split_str(line.as_str(), '\t');
        let first = slice_index_get(f.as_slice(), 0);
        proof {
            assert(lds[j as int] == line@);
            assert(f.deep_view() == fields_of(lds[j as int]));
            assert(first@ == f.deep_view()[0]);
        }
        if !str_eq(first.as_str(), name) {
            proof {
                assert(peer_run_len(lds, j as int, name@) == 0);
            }
            return j;
        }
        proof {
            assert(peer_run_len(lds, j as int, name@) == 1 + peer_run_len(lds, j + 1, name@));
        }
        j += 1;
    }
    proof {
        assert(peer_run_len(lds, n as int, name@) == 0);
    }
    j
}

/// Builds one peer record from one dump line, or refuses the line.
fn parse_peer_fields(line: &str) -> (r: Result<WgPeer, ParseError>)
    ensures
        match r {
            Result::Ok(p) => parse_peer_line(line@) == Option::Some(p@),
            Result::Err(_) => parse_peer_line(line@) is None,
        },
{
    let f = split_str(line, '\t');
    let ghost fv = fields_of(line@);
    proof {
        assert(f.deep_view() == fv);
    }
    if f.len() < 9 {
        return Result::Err(ParseError);
    }
    let hs = match parse_u64_str(slice_index_get(f.as_slice(), 5).as_str()) {
        Option::Some(v) => v,
        Option::None => {
            proof {
                assert(parse_u64_spec(fv[5]) is None);
            }
            return Result::Err(ParseError);
        },
    };
    let rx = match parse_u64_str(slice_index_get(f.as_slice(), 6).as_str()) {
        Option::Some(v) => v,
        Option::None => {
            return Result::Err(ParseError);
        },
    };
    let tx = match parse_u64_str(slice_index_get(f.as_slice(), 7).as_str()) {
        Option::Some(v) => v,
        Option::None => {
            return Result::Err(ParseError);
        },
    };
    let f8 = slice_index_get(f.as_slice(), 8);
    let keep: bool;
    if str_eq(f8.as_str(), "on") {
        keep = true;
    } else if str_eq(f8.as_str(), "off") {
        keep = false;
    } else {
        return Result::Err(ParseError);
    }
    let f2 = slice_index_get(f.as_slice(), 2);
    let psk: Option<String> = if str_eq(f2.as_str(), "(none)") {
        Option::None
    } else {
        Option::Some(f2.clone())
    };
    let p = WgPeer {
        public_key: slice_index_get(f.as_slice(), 1).clone(),
        preshared_key: psk,
        endpoint: slice_index_get(f.as_slice(), 3).clone(),
        allowed_ips: slice_index_get(f.as_slice(), 4).clone(),
        latest_handshake: hs,
        transfer_rx: rx,
        transfer_tx: tx,
        persistent_keepalive: keep,
    };
    proof {
        assert(parse_peer_line(line@) == Option::Some(p@));
    }
    Result::Ok(p)
}

/// Parses the whole dump text into interface entries in dump order, with
/// each header's contiguous peer run attributed to it; any malformed
/// consumed line refuses the whole dump.
#[verifier::loop_isolation(false)]
pub fn parse_dump(dump: &str) -> (r: Result<Vec<(String, WgInterface)>, ParseError>)
    ensures
        match r {
            Result::Ok(v) => parse_dump_spec(dump@) == Option::Some(v.deep_view()),
            Result::Err(_) => parse_dump_spec(dump@) is None,
        },
{
    let mut lines = split_str(dump, '\n');
    let ghost raw = lines.deep_view();
    let _ = lines.pop();
    let ghost lds = lines.deep_view();
    proof {
        assert forall|k: int| 0 <= k < lds.len() implies lds[k] == raw.drop_last()[k] by {}
        assert(lds =~= raw.drop_last());
        assert(lds == lines_of(dump@));
    }
    let n = lines.len();
    let mut out: Vec<(String, WgInterface)> = Vec::new();
    let mut i: usize = 0;
    proof {
        assert(out.deep_view() =~= Seq::<(Seq<char>, IfaceView)>::empty());
    }
    while i < n
        invariant
            n == lines.len(),
            lds == lines.deep_view(),
            0 <= i <= n,
            match parse_entries(lds, i as int) {
                Option::Some(rest) => parse_entries(lds, 0) == Option::Some(
                    out.deep_view() + rest,
                ),
                Option::None => parse_entries(lds, 0) is None,
            },
        decreases n - i,
    {
        let line = slice_index_get(lines.as_slice(), i);
        let f = split_str(line.as_str(), '\t');
        proof {
            assert(lds[i as int] == line@);
            assert(f.deep_view() == fields_of(lds[i as int]));
        }
        if f.len() == 5 {
            let ghost fv = fields_of(lds[i as int]);
            let name = slice_index_get(f.as_slice(), 0).clone();
            proof {
                assert(f.deep_view()[0] == f@[0]@);
                assert(name@ == fv[0]);
                assert(f.deep_view()[3] == f@[3]@);
            }
            let port64 = match parse_u64_str(slice_index_get(f.as_slice(), 3).as_str()) {
                Option::Some(v) => v,
                Option::None => {
                    proof {
                        assert(parse_header_at(lds, i as int) is None);
                        assert(parse_entries(lds, i as int) is None);
                    }
                    return Result::Err(ParseError);
                },
            };
            if port64 > 65535 {
                proof {
                    assert(parse_header_at(lds, i as int) is None);
                    assert(parse_entries(lds, i as int) is None);
                }
                return Result::Err(ParseError);
            }
            let e = peer_run_end(&lines, i + 1, name.as_str());
            let ghost run = peer_run_len(lds, i + 1, name@);
            let mut peers: Vec<WgPeer> = Vec::new();
            let mut j = i + 1;
            proof {
                assert(peers.deep_view() =~= Seq::<PeerView>::empty());
            }
            while j < e
                invariant
                    n == lines.len(),
                    lds == lines.deep_view(),
                    0 <= i < n,
                    i + 1 <= j <= e <= n,
                    run == e - i - 1,
                    run == peer_run_len(lds, i + 1, name@),
                    parse_peer_run(lds, i + 1, j - i - 1) == Option::Some(peers.deep_view()),
                decreases e - j,
            {
                let pl = slice_index_get(lines.as_slice(), j);
                proof {
                    assert(lds[j as int] == pl@);
                }
                match parse_peer_fields(pl.as_str()) {
                    Result::Ok(p) => {
                        let ghost prev = peers.deep_view();
                        peers.push(p);
                        proof {
                            assert(peers.deep_view() =~= prev.push(p@));
                            assert(lds[i + 1 + (j - i - 1)] == pl@);
                            assert(parse_peer_run(lds, i + 1, j - i) == Option::Some(
                                prev.push(p@),
                            ));
                        }
                    },
                    Result::Err(err) => {
                        proof {
                            lemma_parse_peer_run_none(lds, i + 1, run, j - i - 1);
                            assert(parse_header_at(lds, i as int) is None);
                            assert(parse_entries(lds, i as int) is None);
                        }
                        return Result::Err(err);
                    },
                }
                j += 1;
            }
            let f4 = slice_index_get(f.as_slice(), 4);
            let fwmark: Option<String> = if str_eq(f4.as_str(), "off") {
                Option::None
            } else {
                Option::Some(f4.clone())
            };
            let iface = WgInterface {
                enabled: true,
                private_key: slice_index_get(f.as_slice(), 1).clone(),
                public_key: slice_index_get(f.as_slice(), 2).clone(),
                listen_port: port64 as u16,
                fwmark,
                peers,
                show_priv: false,
            };
            let ghost entry = (name@, iface@);
            let ghost old_dv = out.deep_view();
            out.push((name, iface));
            proof {
                assert(parse_header_at(lds, i as int) == Option::Some(entry));
                assert(out.deep_view() =~= old_dv.push(entry));
                match parse_entries(lds, i + 1) {
                    Option::Some(r1) => {
                        assert(parse_entries(lds, i as int) == Option::Some(seq![entry] + r1));
                        assert(old_dv + (seq![entry] + r1) =~= out.deep_view() + r1);
                    },
                    Option::None => {
                        assert(parse_entries(lds, i as int) is None);
                    },
                }
            }
        } else {
            proof {
                assert(!is_header(lds[i as int]));
                assert(parse_entries(lds, i as int) == parse_entries(lds, i + 1));
            }
        }
        i += 1;
    }
    proof {
        assert(parse_entries(lds, n as int) == Option::Some(
            Seq::<(Seq<char>, IfaceView)>::empty(),
        ));
        assert(out.deep_view() + Seq::<(Seq<char>, IfaceView)>::empty() =~= out.deep_view());
    }
    Result::Ok(out)
}

} // verus!
